use monitorando::app::{AppState, DEFAULT_REFRESH_MS};
use monitorando::config::{default_refresh_ms, Config};
use monitorando::order::{SortDir, SortKey};

#[test]
fn default_matches_default_app_state() {
    let cfg = Config::default();
    let state = AppState::new();
    assert_eq!(cfg.sort_key, state.sort_key);
    assert_eq!(cfg.sort_dir, state.sort_dir);
    assert_eq!(cfg.refresh_ms, state.refresh_ms);
}

#[test]
fn from_state_captures_persistable_fields() {
    let mut s = AppState::new();
    s.sort_key = SortKey::Memory;
    s.sort_dir = SortDir::Desc;
    s.refresh_ms = 2000;
    let cfg = Config::from_state(&s);
    assert_eq!(cfg.sort_key, SortKey::Memory);
    assert_eq!(cfg.sort_dir, SortDir::Desc);
    assert_eq!(cfg.refresh_ms, 2000);
}

#[test]
fn default_refresh_falls_back_to_one_second() {
    assert_eq!(default_refresh_ms(), DEFAULT_REFRESH_MS);
    assert_eq!(default_refresh_ms(), 1000);
    assert_eq!(Config::default().sort_key, SortKey::Pid);
    assert_eq!(Config::default().sort_dir, SortDir::Asc);
}
