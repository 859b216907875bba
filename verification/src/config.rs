//! The settings kept between runs.

use crate::app::{AppState, DEFAULT_REFRESH_MS};
use crate::order::{SortDir, SortKey};
use vstd::prelude::*;

verus! {

/// The persisted settings: sort column, direction and refresh interval.
#[derive(Debug, Clone, Copy, PartialEq, Eq, Structural)]
pub struct Config {
    pub sort_key: SortKey,
    pub sort_dir: SortDir,
    pub refresh_ms: u64,
}

/// The refresh interval a missing setting falls back to.
pub fn default_refresh_ms() -> (r: u64)
    ensures
        r == DEFAULT_REFRESH_MS,
{
    DEFAULT_REFRESH_MS
}

/// The settings used when none are stored.
pub open spec fn default_config() -> Config {
    Config { sort_key: SortKey::Pid, sort_dir: SortDir::Asc, refresh_ms: DEFAULT_REFRESH_MS }
}

impl Default for Config {
    fn default() -> (r: Self)
        ensures
            r == default_config(),
    {
        Config { sort_key: SortKey::Pid, sort_dir: SortDir::Asc, refresh_ms: default_refresh_ms() }
    }
}

impl Config {
    /// The settings of a running state worth keeping.
    pub fn from_state(state: &AppState) -> (r: Self)
        ensures
            r == (Config { sort_key: state.sort_key, sort_dir: state.sort_dir, refresh_ms: state.refresh_ms }),
    {
        Config { sort_key: state.sort_key, sort_dir: state.sort_dir, refresh_ms: state.refresh_ms }
    }
}

/// The default settings are those a fresh state starts with.
pub proof fn lemma_default_config_is_initial_state()
    ensures
        default_config().sort_key == crate::app::initial_view().sort_key,
        default_config().sort_dir == crate::app::initial_view().sort_dir,
        default_config().refresh_ms == crate::app::initial_view().refresh_ms,
{
}

} // verus!
