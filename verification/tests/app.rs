use monitorando::app::{
    filter_indices, handle_key, Action, AppState, FilterMode, KeyCode, ViewMode, DEFAULT_REFRESH_MS,
    REFRESH_STEPS_MS,
};
use monitorando::order::{sort_processes, stable_reorder, SortDir, SortKey};
use monitorando::process::ProcessInfo;
use monitorando::tree::{build_tree_view, capture_tree_order, BranchKind, TreeRow};
use std::collections::{HashMap, HashSet};

/// Order key of an `f32` measurement: comparing keys compares the values.
fn key32(x: f32) -> u32 {
    let x = if x == 0.0 { 0.0f32 } else { x };
    let b = x.to_bits();
    if b >> 31 == 1 {
        !b
    } else {
        b | 0x8000_0000
    }
}

/// Order key of an `f64` measurement: comparing keys compares the values.
fn key64(x: f64) -> u64 {
    let x = if x == 0.0 { 0.0f64 } else { x };
    let b = x.to_bits();
    if b >> 63 == 1 {
        !b
    } else {
        b | 0x8000_0000_0000_0000
    }
}

fn full(pid: u32, ppid: Option<u32>, name: &str, cpu: f32) -> ProcessInfo {
    ProcessInfo {
        pid,
        ppid,
        name: name.to_string(),
        cpu_key: key32(cpu),
        memory_key: key64(0.0),
        io_key: key64(0.0 + 0.0),
    }
}

fn proc(pid: u32, name: &str, cpu: f32, mem: f64) -> ProcessInfo {
    ProcessInfo {
        pid,
        ppid: None,
        name: name.to_string(),
        cpu_key: key32(cpu),
        memory_key: key64(mem),
        io_key: key64(0.0 + 0.0),
    }
}

fn proc_io(pid: u32, read: f64, write: f64) -> ProcessInfo {
    ProcessInfo {
        pid,
        ppid: None,
        name: format!("p{pid}"),
        cpu_key: key32(0.0),
        memory_key: key64(0.0),
        io_key: key64(read + write),
    }
}

fn proc_with_parent(pid: u32, ppid: Option<u32>, name: &str) -> ProcessInfo {
    ProcessInfo {
        pid,
        ppid,
        name: name.to_string(),
        cpu_key: key32(0.0),
        memory_key: key64(0.0),
        io_key: key64(0.0 + 0.0),
    }
}

#[test]
fn default_sort_is_pid_asc_for_stable_rows() {
    let s = AppState::new();
    assert_eq!(s.sort_key, SortKey::Pid);
    assert_eq!(s.sort_dir, SortDir::Asc);
}

#[test]
fn toggle_sort_flips_dir_on_same_key() {
    let mut s = AppState::new();
    s.toggle_sort(SortKey::Cpu);
    assert_eq!(s.sort_dir, SortDir::Desc);
    s.toggle_sort(SortKey::Cpu);
    assert_eq!(s.sort_dir, SortDir::Asc);
    s.toggle_sort(SortKey::Cpu);
    assert_eq!(s.sort_dir, SortDir::Desc);
}

#[test]
fn toggle_sort_picks_sensible_default_dir_on_new_key() {
    let mut s = AppState::new();
    s.toggle_sort(SortKey::Name);
    assert_eq!(s.sort_key, SortKey::Name);
    assert_eq!(s.sort_dir, SortDir::Asc);
    s.toggle_sort(SortKey::Memory);
    assert_eq!(s.sort_key, SortKey::Memory);
    assert_eq!(s.sort_dir, SortDir::Desc);
    s.toggle_sort(SortKey::Pid);
    assert_eq!(s.sort_dir, SortDir::Asc);
}

#[test]
fn sort_processes_by_cpu_desc() {
    let mut v = vec![
        proc(1, "a", 5.0, 100.0),
        proc(2, "b", 80.0, 50.0),
        proc(3, "c", 20.0, 200.0),
    ];
    sort_processes(&mut v, SortKey::Cpu, SortDir::Desc);
    assert_eq!(v.iter().map(|p| p.pid).collect::<Vec<_>>(), vec![2, 3, 1]);
}

#[test]
fn sort_processes_by_name_asc_case_insensitive() {
    let mut v = vec![
        proc(1, "zebra", 0.0, 0.0),
        proc(2, "Alpha", 0.0, 0.0),
        proc(3, "beta", 0.0, 0.0),
    ];
    sort_processes(&mut v, SortKey::Name, SortDir::Asc);
    assert_eq!(
        v.iter().map(|p| p.name.clone()).collect::<Vec<_>>(),
        vec!["Alpha", "beta", "zebra"]
    );
}

#[test]
fn sort_processes_by_pid_asc() {
    let mut v = vec![proc(30, "a", 0.0, 0.0), proc(2, "b", 0.0, 0.0), proc(10, "c", 0.0, 0.0)];
    sort_processes(&mut v, SortKey::Pid, SortDir::Asc);
    assert_eq!(v.iter().map(|p| p.pid).collect::<Vec<_>>(), vec![2, 10, 30]);
}

#[test]
fn default_filter_is_inactive_and_empty() {
    let s = AppState::new();
    assert_eq!(s.filter_mode, FilterMode::Inactive);
    assert!(s.filter.is_empty());
}

#[test]
fn confirm_filter_empty_goes_inactive() {
    let mut s = AppState::new();
    s.start_filter_edit();
    assert_eq!(s.filter_mode, FilterMode::Editing);
    s.confirm_filter();
    assert_eq!(s.filter_mode, FilterMode::Inactive);
}

#[test]
fn confirm_filter_with_text_goes_applied() {
    let mut s = AppState::new();
    s.start_filter_edit();
    s.filter.push_str("chr");
    s.confirm_filter();
    assert_eq!(s.filter_mode, FilterMode::Applied);
    assert_eq!(s.filter, "chr");
}

#[test]
fn clear_filter_resets() {
    let mut s = AppState::new();
    s.filter.push_str("noisy");
    s.filter_mode = FilterMode::Applied;
    s.clear_filter();
    assert!(s.filter.is_empty());
    assert_eq!(s.filter_mode, FilterMode::Inactive);
}

#[test]
fn filter_indices_empty_returns_all() {
    let v = vec![
        proc(1, "a", 0.0, 0.0),
        proc(2, "b", 0.0, 0.0),
        proc(3, "c", 0.0, 0.0),
    ];
    assert_eq!(filter_indices(&v, ""), vec![0, 1, 2]);
}

#[test]
fn filter_indices_case_insensitive_substring() {
    let v = vec![
        proc(1, "Chrome.exe", 0.0, 0.0),
        proc(2, "firefox", 0.0, 0.0),
        proc(3, "MyChrome-helper", 0.0, 0.0),
        proc(4, "notepad", 0.0, 0.0),
    ];
    assert_eq!(filter_indices(&v, "chrome"), vec![0, 2]);
    assert_eq!(filter_indices(&v, "FOX"), vec![1]);
}

#[test]
fn filter_indices_no_match_returns_empty() {
    let v = vec![proc(1, "alpha", 0.0, 0.0), proc(2, "beta", 0.0, 0.0)];
    assert!(filter_indices(&v, "zzz").is_empty());
}

#[test]
fn sort_processes_by_memory_desc() {
    let mut v = vec![
        proc(1, "a", 0.0, 100.0),
        proc(2, "b", 0.0, 500.0),
        proc(3, "c", 0.0, 250.0),
    ];
    sort_processes(&mut v, SortKey::Memory, SortDir::Desc);
    assert_eq!(v.iter().map(|p| p.pid).collect::<Vec<_>>(), vec![2, 3, 1]);
}

#[test]
fn select_next_advances_and_clamps_at_end() {
    let mut s = AppState::new();
    s.select_next(3);
    assert_eq!(s.table.selected(), Some(1));
    s.select_next(3);
    assert_eq!(s.table.selected(), Some(2));
    s.select_next(3);
    assert_eq!(s.table.selected(), Some(2)); // no wrap
}

#[test]
fn select_prev_stops_at_zero() {
    let mut s = AppState::new();
    s.select_next(5);
    s.select_next(5);
    assert_eq!(s.table.selected(), Some(2));
    s.select_prev(5);
    s.select_prev(5);
    s.select_prev(5);
    assert_eq!(s.table.selected(), Some(0));
}

#[test]
fn page_down_and_up_jumps() {
    let mut s = AppState::new();
    s.page_down(100, 10);
    assert_eq!(s.table.selected(), Some(10));
    s.page_down(100, 10);
    assert_eq!(s.table.selected(), Some(20));
    s.page_up(100, 15);
    assert_eq!(s.table.selected(), Some(5));
}

#[test]
fn first_last_handle_empty() {
    let mut s = AppState::new();
    s.select_last(0);
    assert_eq!(s.table.selected(), None);
    s.select_first(0);
    assert_eq!(s.table.selected(), None);
    s.select_last(10);
    assert_eq!(s.table.selected(), Some(9));
    s.select_first(10);
    assert_eq!(s.table.selected(), Some(0));
}

#[test]
fn toggle_details_flips_bool() {
    let mut s = AppState::new();
    assert!(!s.show_details);
    s.toggle_details();
    assert!(s.show_details);
    s.toggle_details();
    assert!(!s.show_details);
}

#[test]
fn request_kill_stores_pid_and_name() {
    let mut s = AppState::new();
    assert!(s.kill_prompt.is_none());
    s.request_kill(1234, "chrome.exe".to_string());
    let prompt = s.kill_prompt.as_ref().expect("prompt set");
    assert_eq!(prompt.pid, 1234);
    assert_eq!(prompt.name, "chrome.exe");
}

#[test]
fn cancel_kill_clears_prompt() {
    let mut s = AppState::new();
    s.request_kill(1, "x".to_string());
    s.cancel_kill();
    assert!(s.kill_prompt.is_none());
}


#[test]
fn handle_key_q_returns_quit() {
    let mut s = AppState::new();
    assert_eq!(
        handle_key(&mut s, KeyCode::Char('q'), 10, 10, None),
        Action::Quit
    );
    assert_eq!(
        handle_key(&mut s, KeyCode::Char('Q'), 10, 10, None),
        Action::Quit
    );
}

#[test]
fn handle_key_kill_prompt_y_confirms_and_clears_prompt() {
    let mut s = AppState::new();
    s.request_kill(1234, "chrome".to_string());
    let act = handle_key(&mut s, KeyCode::Char('y'), 10, 10, None);
    assert_eq!(
        act,
        Action::KillConfirmed {
            pid: 1234,
            name: "chrome".to_string()
        }
    );
    assert!(s.kill_prompt.is_none());
}

#[test]
fn handle_key_kill_prompt_n_cancels() {
    let mut s = AppState::new();
    s.request_kill(1, "x".to_string());
    let act = handle_key(&mut s, KeyCode::Char('n'), 10, 10, None);
    assert_eq!(act, Action::Nothing);
    assert!(s.kill_prompt.is_none());
}

#[test]
fn handle_key_kill_prompt_esc_cancels() {
    let mut s = AppState::new();
    s.request_kill(1, "x".to_string());
    let act = handle_key(&mut s, KeyCode::Esc, 10, 10, None);
    assert_eq!(act, Action::Nothing);
    assert!(s.kill_prompt.is_none());
}

#[test]
fn handle_key_kill_prompt_blocks_navigation_and_quit() {
    let mut s = AppState::new();
    s.select_first(10);
    s.request_kill(1, "x".to_string());

    let act = handle_key(&mut s, KeyCode::Down, 10, 10, None);
    assert_eq!(act, Action::Nothing);
    assert_eq!(s.table.selected(), Some(0));

    let act = handle_key(&mut s, KeyCode::Char('q'), 10, 10, None);
    assert_eq!(act, Action::Nothing);
    assert!(s.kill_prompt.is_some());
}

#[test]
fn handle_key_filter_edit_appends_char_and_pops_backspace() {
    let mut s = AppState::new();
    s.start_filter_edit();
    handle_key(&mut s, KeyCode::Char('a'), 0, 10, None);
    handle_key(&mut s, KeyCode::Char('b'), 0, 10, None);
    assert_eq!(s.filter, "ab");
    handle_key(&mut s, KeyCode::Backspace, 0, 10, None);
    assert_eq!(s.filter, "a");
}

#[test]
fn handle_key_filter_edit_q_is_typed_not_quit() {
    let mut s = AppState::new();
    s.start_filter_edit();
    let act = handle_key(&mut s, KeyCode::Char('q'), 0, 10, None);
    assert_eq!(act, Action::Nothing);
    assert_eq!(s.filter, "q");
    assert_eq!(s.filter_mode, FilterMode::Editing);
}

#[test]
fn handle_key_filter_edit_enter_confirms() {
    let mut s = AppState::new();
    s.start_filter_edit();
    s.filter.push_str("ch");
    handle_key(&mut s, KeyCode::Enter, 0, 10, None);
    assert_eq!(s.filter_mode, FilterMode::Applied);
    assert_eq!(s.filter, "ch");
}

#[test]
fn handle_key_filter_edit_esc_clears() {
    let mut s = AppState::new();
    s.start_filter_edit();
    s.filter.push_str("x");
    handle_key(&mut s, KeyCode::Esc, 0, 10, None);
    assert_eq!(s.filter_mode, FilterMode::Inactive);
    assert!(s.filter.is_empty());
}

#[test]
fn handle_key_slash_enters_filter_edit() {
    let mut s = AppState::new();
    handle_key(&mut s, KeyCode::Char('/'), 0, 10, None);
    assert_eq!(s.filter_mode, FilterMode::Editing);
}

#[test]
fn handle_key_d_toggles_details() {
    let mut s = AppState::new();
    handle_key(&mut s, KeyCode::Char('d'), 0, 10, None);
    assert!(s.show_details);
    handle_key(&mut s, KeyCode::Char('d'), 0, 10, None);
    assert!(!s.show_details);
}

#[test]
fn handle_key_k_opens_kill_prompt_for_selected() {
    let mut s = AppState::new();
    let sel = (5678u32, "firefox".to_string());
    handle_key(&mut s, KeyCode::Char('k'), 10, 10, Some(&sel));
    let p = s.kill_prompt.as_ref().expect("prompt set");
    assert_eq!(p.pid, 5678);
    assert_eq!(p.name, "firefox");
}

#[test]
fn handle_key_delete_also_opens_kill_prompt() {
    let mut s = AppState::new();
    let sel = (1u32, "x".to_string());
    handle_key(&mut s, KeyCode::Delete, 10, 10, Some(&sel));
    assert!(s.kill_prompt.is_some());
}

#[test]
fn handle_key_k_without_selection_is_noop() {
    let mut s = AppState::new();
    handle_key(&mut s, KeyCode::Char('k'), 0, 10, None);
    assert!(s.kill_prompt.is_none());
}

#[test]
fn handle_key_esc_priority_status_msg_first() {
    let mut s = AppState::new();
    s.status_msg = Some("hi".to_string());
    s.show_details = true;
    s.filter.push_str("x");
    s.filter_mode = FilterMode::Applied;
    handle_key(&mut s, KeyCode::Esc, 0, 10, None);
    assert!(s.status_msg.is_none());
    assert!(s.show_details, "details should still be open");
    assert_eq!(s.filter, "x", "filter should be untouched");
}

#[test]
fn handle_key_esc_priority_details_second() {
    let mut s = AppState::new();
    s.show_details = true;
    s.filter.push_str("x");
    s.filter_mode = FilterMode::Applied;
    handle_key(&mut s, KeyCode::Esc, 0, 10, None);
    assert!(!s.show_details);
    assert_eq!(s.filter, "x", "filter should be untouched");
}

#[test]
fn handle_key_esc_priority_filter_last() {
    let mut s = AppState::new();
    s.filter.push_str("x");
    s.filter_mode = FilterMode::Applied;
    handle_key(&mut s, KeyCode::Esc, 0, 10, None);
    assert!(s.filter.is_empty());
    assert_eq!(s.filter_mode, FilterMode::Inactive);
}

#[test]
fn handle_key_arrows_navigate() {
    let mut s = AppState::new();
    handle_key(&mut s, KeyCode::Down, 5, 10, None);
    assert_eq!(s.table.selected(), Some(1));
    handle_key(&mut s, KeyCode::Up, 5, 10, None);
    assert_eq!(s.table.selected(), Some(0));
}

#[test]
fn handle_key_page_keys_jump() {
    let mut s = AppState::new();
    handle_key(&mut s, KeyCode::PageDown, 100, 10, None);
    assert_eq!(s.table.selected(), Some(10));
    handle_key(&mut s, KeyCode::End, 100, 10, None);
    assert_eq!(s.table.selected(), Some(99));
    handle_key(&mut s, KeyCode::Home, 100, 10, None);
    assert_eq!(s.table.selected(), Some(0));
}

#[test]
fn default_state_is_running_at_default_interval() {
    let s = AppState::new();
    assert!(!s.paused);
    assert_eq!(s.refresh_ms, DEFAULT_REFRESH_MS);
}

#[test]
fn toggle_pause_flips_bool() {
    let mut s = AppState::new();
    s.toggle_pause();
    assert!(s.paused);
    s.toggle_pause();
    assert!(!s.paused);
}

#[test]
fn faster_refresh_steps_down_through_array() {
    let mut s = AppState::new();
    assert_eq!(s.refresh_ms, 1000);
    s.faster_refresh();
    assert_eq!(s.refresh_ms, 500);
    s.faster_refresh();
    assert_eq!(s.refresh_ms, 250);
}

#[test]
fn faster_refresh_clamps_at_minimum() {
    let mut s = AppState::new();
    s.refresh_ms = REFRESH_STEPS_MS[0];
    s.faster_refresh();
    assert_eq!(s.refresh_ms, REFRESH_STEPS_MS[0]);
}

#[test]
fn slower_refresh_steps_up_through_array() {
    let mut s = AppState::new();
    assert_eq!(s.refresh_ms, 1000);
    s.slower_refresh();
    assert_eq!(s.refresh_ms, 2000);
    s.slower_refresh();
    assert_eq!(s.refresh_ms, 5000);
}

#[test]
fn slower_refresh_clamps_at_maximum() {
    let mut s = AppState::new();
    let max = *REFRESH_STEPS_MS.last().unwrap();
    s.refresh_ms = max;
    s.slower_refresh();
    assert_eq!(s.refresh_ms, max);
}

#[test]
fn handle_key_space_toggles_pause() {
    let mut s = AppState::new();
    handle_key(&mut s, KeyCode::Char(' '), 0, 10, None);
    assert!(s.paused);
    handle_key(&mut s, KeyCode::Char(' '), 0, 10, None);
    assert!(!s.paused);
}

#[test]
fn handle_key_plus_and_equals_make_faster() {
    let mut s = AppState::new();
    handle_key(&mut s, KeyCode::Char('+'), 0, 10, None);
    assert_eq!(s.refresh_ms, 500);
    handle_key(&mut s, KeyCode::Char('='), 0, 10, None);
    assert_eq!(s.refresh_ms, 250);
}

#[test]
fn handle_key_minus_makes_slower() {
    let mut s = AppState::new();
    handle_key(&mut s, KeyCode::Char('-'), 0, 10, None);
    assert_eq!(s.refresh_ms, 2000);
}

#[test]
fn handle_key_kill_prompt_blocks_pause_and_speed_keys() {
    let mut s = AppState::new();
    s.request_kill(1, "x".to_string());
    let pre_paused = s.paused;
    let pre_ms = s.refresh_ms;
    handle_key(&mut s, KeyCode::Char(' '), 0, 10, None);
    handle_key(&mut s, KeyCode::Char('+'), 0, 10, None);
    handle_key(&mut s, KeyCode::Char('-'), 0, 10, None);
    assert_eq!(s.paused, pre_paused);
    assert_eq!(s.refresh_ms, pre_ms);
    assert!(s.kill_prompt.is_some());
}

#[test]
fn handle_key_filter_edit_space_is_typed_not_pause() {
    let mut s = AppState::new();
    s.start_filter_edit();
    handle_key(&mut s, KeyCode::Char(' '), 0, 10, None);
    assert!(!s.paused);
    assert_eq!(s.filter, " ");
}

#[test]
fn handle_key_sort_keys_change_sort_column() {
    let mut s = AppState::new();
    handle_key(&mut s, KeyCode::Char('c'), 0, 10, None);
    assert_eq!(s.sort_key, SortKey::Cpu);
    handle_key(&mut s, KeyCode::Char('m'), 0, 10, None);
    assert_eq!(s.sort_key, SortKey::Memory);
    handle_key(&mut s, KeyCode::Char('n'), 0, 10, None);
    assert_eq!(s.sort_key, SortKey::Name);
    handle_key(&mut s, KeyCode::Char('p'), 0, 10, None);
    assert_eq!(s.sort_key, SortKey::Pid);
    handle_key(&mut s, KeyCode::Char('i'), 0, 10, None);
    assert_eq!(s.sort_key, SortKey::Io);
}

#[test]
fn sort_processes_by_io_desc_uses_read_plus_write() {
    let mut v = vec![
        proc_io(1, 10.0, 0.0),  // total 10
        proc_io(2, 0.0, 50.0),  // total 50
        proc_io(3, 30.0, 30.0), // total 60
    ];
    sort_processes(&mut v, SortKey::Io, SortDir::Desc);
    assert_eq!(v.iter().map(|p| p.pid).collect::<Vec<_>>(), vec![3, 2, 1]);
}

#[test]
fn sort_processes_by_io_asc_uses_read_plus_write() {
    let mut v = vec![
        proc_io(1, 30.0, 30.0),
        proc_io(2, 0.0, 50.0),
        proc_io(3, 10.0, 0.0),
    ];
    sort_processes(&mut v, SortKey::Io, SortDir::Asc);
    assert_eq!(v.iter().map(|p| p.pid).collect::<Vec<_>>(), vec![3, 2, 1]);
}

#[test]
fn toggle_sort_io_defaults_to_desc() {
    let mut s = AppState::new();
    s.toggle_sort(SortKey::Io);
    assert_eq!(s.sort_key, SortKey::Io);
    assert_eq!(s.sort_dir, SortDir::Desc);
}

#[test]
fn clamp_to_shrinks_selection_when_list_shrinks() {
    let mut s = AppState::new();
    s.select_last(50);
    assert_eq!(s.table.selected(), Some(49));
    s.clamp_to(10);
    assert_eq!(s.table.selected(), Some(9));
    s.clamp_to(0);
    assert_eq!(s.table.selected(), None);
}

// ---- sort freeze tests ----

#[test]
fn default_state_is_not_frozen() {
    let s = AppState::new();
    assert!(!s.sort_frozen);
    assert!(s.frozen_order.is_empty());
}

#[test]
fn toggle_freeze_flips_bool_and_clears_order_on_off() {
    let mut s = AppState::new();
    s.toggle_freeze();
    assert!(s.sort_frozen);
    s.frozen_order = vec![1, 2, 3];
    s.toggle_freeze();
    assert!(!s.sort_frozen);
    assert!(s.frozen_order.is_empty());
}

#[test]
fn handle_key_f_toggles_freeze() {
    let mut s = AppState::new();
    handle_key(&mut s, KeyCode::Char('f'), 0, 10, None);
    assert!(s.sort_frozen);
    handle_key(&mut s, KeyCode::Char('F'), 0, 10, None);
    assert!(!s.sort_frozen);
}

#[test]
fn handle_key_f_in_filter_edit_is_typed_not_toggle() {
    let mut s = AppState::new();
    s.start_filter_edit();
    handle_key(&mut s, KeyCode::Char('f'), 0, 10, None);
    assert!(!s.sort_frozen);
    assert_eq!(s.filter, "f");
}

#[test]
fn toggle_sort_invalidates_frozen_order() {
    let mut s = AppState::new();
    s.toggle_freeze();
    s.frozen_order = vec![10, 20, 30];
    s.toggle_sort(SortKey::Cpu);
    assert!(s.sort_frozen, "ainda travado");
    assert!(s.frozen_order.is_empty(), "ordem foi invalidada");
}

#[test]
fn stable_reorder_preserves_known_pid_order() {
    let mut v = vec![
        proc(3, "c", 0.0, 0.0),
        proc(1, "a", 0.0, 0.0),
        proc(2, "b", 0.0, 0.0),
    ];
    let mut order = vec![1u32, 2, 3];
    stable_reorder(&mut v, &mut order);
    assert_eq!(v.iter().map(|p| p.pid).collect::<Vec<_>>(), vec![1, 2, 3]);
    assert_eq!(order, vec![1, 2, 3]);
}

#[test]
fn stable_reorder_appends_new_pids_sorted_at_end() {
    let mut v = vec![
        proc(7, "g", 0.0, 0.0), // novo
        proc(1, "a", 0.0, 0.0),
        proc(5, "e", 0.0, 0.0), // novo
        proc(2, "b", 0.0, 0.0),
    ];
    let mut order = vec![1u32, 2];
    stable_reorder(&mut v, &mut order);
    assert_eq!(v.iter().map(|p| p.pid).collect::<Vec<_>>(), vec![1, 2, 5, 7]);
    assert_eq!(order, vec![1, 2, 5, 7]);
}

#[test]
fn stable_reorder_drops_dead_pids_from_order() {
    let mut v = vec![proc(1, "a", 0.0, 0.0), proc(3, "c", 0.0, 0.0)];
    let mut order = vec![1u32, 2, 3]; // pid 2 morreu
    stable_reorder(&mut v, &mut order);
    assert_eq!(v.iter().map(|p| p.pid).collect::<Vec<_>>(), vec![1, 3]);
    assert_eq!(order, vec![1, 3]);
}

#[test]
fn stable_reorder_empty_processes_yields_empty_order() {
    let mut v: Vec<ProcessInfo> = vec![];
    let mut order = vec![1u32, 2, 3];
    stable_reorder(&mut v, &mut order);
    assert!(v.is_empty());
    assert!(order.is_empty());
}

#[test]
fn handle_key_kill_prompt_blocks_freeze_toggle() {
    let mut s = AppState::new();
    s.request_kill(1, "x".to_string());
    handle_key(&mut s, KeyCode::Char('f'), 0, 10, None);
    assert!(!s.sort_frozen);
    assert!(s.kill_prompt.is_some());
}


fn pids(rows: &[TreeRow], processes: &[ProcessInfo]) -> Vec<u32> {
    rows.iter().map(|r| processes[r.idx].pid).collect()
}

#[test]
fn build_tree_view_empty_returns_empty() {
    let v: Vec<ProcessInfo> = vec![];
    let rows = build_tree_view(&v, SortKey::Pid, SortDir::Asc, &HashSet::new(), "", None);
    assert!(rows.is_empty());
}

#[test]
fn build_tree_view_flat_when_no_relations() {
    let v = vec![
        proc_with_parent(3, None, "c"),
        proc_with_parent(1, None, "a"),
        proc_with_parent(2, None, "b"),
    ];
    let rows = build_tree_view(&v, SortKey::Pid, SortDir::Asc, &HashSet::new(), "", None);
    assert_eq!(pids(&rows, &v), vec![1, 2, 3]);
    for row in &rows {
        assert_eq!(row.depth, 0);
        assert!(row.branches.is_empty());
        assert!(!row.has_children);
    }
}

#[test]
fn build_tree_view_nests_children_under_parent() {
    let v = vec![
        proc_with_parent(1, None, "root"),
        proc_with_parent(2, Some(1), "child_a"),
        proc_with_parent(3, Some(1), "child_b"),
        proc_with_parent(4, Some(2), "grand"),
    ];
    let rows = build_tree_view(&v, SortKey::Pid, SortDir::Asc, &HashSet::new(), "", None);
    assert_eq!(pids(&rows, &v), vec![1, 2, 4, 3]);

    let by_pid: HashMap<u32, &TreeRow> = rows
        .iter()
        .map(|r| (v[r.idx].pid, r))
        .collect();

    assert_eq!(by_pid[&1].depth, 0);
    assert_eq!(by_pid[&1].branches, vec![]);
    assert!(by_pid[&1].has_children);

    assert_eq!(by_pid[&2].depth, 1);
    assert_eq!(by_pid[&2].branches, vec![BranchKind::Tee]);
    assert!(by_pid[&2].has_children);

    assert_eq!(by_pid[&3].depth, 1);
    assert_eq!(by_pid[&3].branches, vec![BranchKind::Corner]);

    assert_eq!(by_pid[&4].depth, 2);
    assert_eq!(by_pid[&4].branches, vec![BranchKind::Pipe, BranchKind::Corner]);
}

#[test]
fn build_tree_view_orphan_parent_becomes_root() {
    let v = vec![
        proc_with_parent(10, Some(999), "orphan"),
        proc_with_parent(11, Some(10), "child"),
    ];
    let rows = build_tree_view(&v, SortKey::Pid, SortDir::Asc, &HashSet::new(), "", None);
    assert_eq!(pids(&rows, &v), vec![10, 11]);
    assert_eq!(rows[0].depth, 0);
    assert_eq!(rows[1].depth, 1);
}

#[test]
fn build_tree_view_self_parent_becomes_root() {
    let v = vec![proc_with_parent(5, Some(5), "x")];
    let rows = build_tree_view(&v, SortKey::Pid, SortDir::Asc, &HashSet::new(), "", None);
    assert_eq!(rows.len(), 1);
    assert_eq!(rows[0].depth, 0);
}

#[test]
fn build_tree_view_breaks_cycle() {
    let v = vec![
        proc_with_parent(1, Some(2), "a"),
        proc_with_parent(2, Some(1), "b"),
    ];
    let rows = build_tree_view(&v, SortKey::Pid, SortDir::Asc, &HashSet::new(), "", None);
    assert_eq!(rows.len(), 2);
    let roots = rows.iter().filter(|r| r.depth == 0).count();
    assert!(roots >= 1);
}

#[test]
fn build_tree_view_collapsed_hides_descendants() {
    let v = vec![
        proc_with_parent(1, None, "root"),
        proc_with_parent(2, Some(1), "child"),
        proc_with_parent(3, Some(2), "grand"),
    ];
    let mut collapsed = HashSet::new();
    collapsed.insert(1);
    let rows = build_tree_view(&v, SortKey::Pid, SortDir::Asc, &collapsed, "", None);
    assert_eq!(pids(&rows, &v), vec![1]);
    assert!(rows[0].is_collapsed);
    assert_eq!(rows[0].collapsed_count, 2);
}

#[test]
fn build_tree_view_collapsed_leaf_is_not_marked() {
    let v = vec![proc_with_parent(1, None, "leaf")];
    let mut collapsed = HashSet::new();
    collapsed.insert(1);
    let rows = build_tree_view(&v, SortKey::Pid, SortDir::Asc, &collapsed, "", None);
    assert_eq!(rows.len(), 1);
    assert!(!rows[0].is_collapsed, "folha não deve aparecer como colapsada");
    assert!(!rows[0].has_children);
}

#[test]
fn build_tree_view_filter_preserves_ancestor_chain() {
    let v = vec![
        proc_with_parent(1, None, "root"),
        proc_with_parent(2, Some(1), "branch"),
        proc_with_parent(3, Some(2), "target"),
        proc_with_parent(4, Some(1), "noise"),
    ];
    let rows = build_tree_view(&v, SortKey::Pid, SortDir::Asc, &HashSet::new(), "target", None);
    assert_eq!(pids(&rows, &v), vec![1, 2, 3]);
}

#[test]
fn build_tree_view_filter_no_match_returns_empty() {
    let v = vec![
        proc_with_parent(1, None, "root"),
        proc_with_parent(2, Some(1), "child"),
    ];
    let rows = build_tree_view(&v, SortKey::Pid, SortDir::Asc, &HashSet::new(), "zzz", None);
    assert!(rows.is_empty());
}

#[test]
fn build_tree_view_sorts_siblings_by_cpu_desc() {
    let v = vec![
        full(1, None, "p", 0.0),
        full(2, Some(1), "low", 5.0),
        full(3, Some(1), "high", 90.0),
        full(4, Some(1), "mid", 50.0),
    ];
    let rows = build_tree_view(&v, SortKey::Cpu, SortDir::Desc, &HashSet::new(), "", None);
    assert_eq!(pids(&rows, &v), vec![1, 3, 4, 2]);
}

#[test]
fn build_tree_view_branches_string_for_deep_tree() {
    // raiz com 2 filhos; primeiro filho tem 2 netos
    let v = vec![
        proc_with_parent(1, None, "a"),
        proc_with_parent(2, Some(1), "b"),
        proc_with_parent(3, Some(1), "c"),
        proc_with_parent(4, Some(2), "d"),
        proc_with_parent(5, Some(2), "e"),
    ];
    let rows = build_tree_view(&v, SortKey::Pid, SortDir::Asc, &HashSet::new(), "", None);
    // ordem DFS: 1, 2, 4, 5, 3
    assert_eq!(pids(&rows, &v), vec![1, 2, 4, 5, 3]);

    // 1: root, sem branches
    assert_eq!(rows[0].branches, vec![]);
    // 2: filho de 1, com irmão (3) depois → Tee
    assert_eq!(rows[1].branches, vec![BranchKind::Tee]);
    // 4: neto, pai 2 ainda tem irmão (3) abaixo → Pipe; 4 tem irmão (5) → Tee
    assert_eq!(rows[2].branches, vec![BranchKind::Pipe, BranchKind::Tee]);
    // 5: neto, pai 2 ainda tem irmão (3) → Pipe; 5 é último → Corner
    assert_eq!(rows[3].branches, vec![BranchKind::Pipe, BranchKind::Corner]);
    // 3: filho de 1, último → Corner
    assert_eq!(rows[4].branches, vec![BranchKind::Corner]);
}

#[test]
fn toggle_view_mode_swaps_and_clears_collapsed() {
    let mut s = AppState::new();
    s.collapsed.insert(123);
    assert_eq!(s.view_mode, ViewMode::Flat);
    s.toggle_view_mode();
    assert_eq!(s.view_mode, ViewMode::Tree);
    assert!(s.collapsed.is_empty(), "alternar modo limpa colapsados");
    s.toggle_view_mode();
    assert_eq!(s.view_mode, ViewMode::Flat);
}

#[test]
fn toggle_collapsed_inserts_and_removes() {
    let mut s = AppState::new();
    s.toggle_collapsed(42);
    assert!(s.collapsed.contains(&42));
    s.toggle_collapsed(42);
    assert!(!s.collapsed.contains(&42));
}

#[test]
fn handle_key_t_toggles_view_mode() {
    let mut s = AppState::new();
    handle_key(&mut s, KeyCode::Char('t'), 0, 10, None);
    assert_eq!(s.view_mode, ViewMode::Tree);
    handle_key(&mut s, KeyCode::Char('T'), 0, 10, None);
    assert_eq!(s.view_mode, ViewMode::Flat);
}

#[test]
fn handle_key_enter_in_tree_toggles_collapse_on_selected() {
    let mut s = AppState::new();
    s.view_mode = ViewMode::Tree;
    let sel = (777u32, "x".to_string());
    handle_key(&mut s, KeyCode::Enter, 1, 10, Some(&sel));
    assert!(s.collapsed.contains(&777));
    handle_key(&mut s, KeyCode::Enter, 1, 10, Some(&sel));
    assert!(!s.collapsed.contains(&777));
}

#[test]
fn handle_key_enter_in_flat_is_noop() {
    let mut s = AppState::new();
    let sel = (1u32, "x".to_string());
    handle_key(&mut s, KeyCode::Enter, 1, 10, Some(&sel));
    assert!(s.collapsed.is_empty());
}

#[test]
fn capture_tree_order_records_siblings_by_parent() {
    let v = vec![
        proc_with_parent(1, None, "root"),
        proc_with_parent(2, Some(1), "a"),
        proc_with_parent(3, Some(1), "b"),
        proc_with_parent(4, Some(2), "grand"),
        proc_with_parent(5, None, "another_root"),
    ];
    let rows = build_tree_view(&v, SortKey::Pid, SortDir::Asc, &HashSet::new(), "", None);
    let captured = capture_tree_order(&rows, &v);
    assert_eq!(captured.get(&None).unwrap(), &vec![1, 5]);
    assert_eq!(captured.get(&Some(1)).unwrap(), &vec![2, 3]);
    assert_eq!(captured.get(&Some(2)).unwrap(), &vec![4]);
}

#[test]
fn build_tree_view_with_frozen_order_preserves_siblings_under_changing_cpu() {
    let make = |cpu2: f32, cpu3: f32| {
        vec![
            full(1, None, "root", 0.0),
            full(2, Some(1), "a", cpu2),
            full(3, Some(1), "b", cpu3),
        ]
    };
    // ordena por CPU desc: pid 2 tem 90, pid 3 tem 10 → ordem 2,3
    let v1 = make(90.0, 10.0);
    let rows1 = build_tree_view(&v1, SortKey::Cpu, SortDir::Desc, &HashSet::new(), "", None);
    assert_eq!(pids(&rows1, &v1), vec![1, 2, 3]);

    // captura ordem
    let frozen = capture_tree_order(&rows1, &v1);

    // CPU inverte (3 agora alto, 2 baixo) — sem frozen, ordem mudaria para 1,3,2
    let v2 = make(5.0, 95.0);
    let rows_unfrozen = build_tree_view(&v2, SortKey::Cpu, SortDir::Desc, &HashSet::new(), "", None);
    assert_eq!(pids(&rows_unfrozen, &v2), vec![1, 3, 2]);

    // com frozen, ordem permanece 1,2,3
    let rows_frozen = build_tree_view(&v2, SortKey::Cpu, SortDir::Desc, &HashSet::new(), "", Some(&frozen));
    assert_eq!(pids(&rows_frozen, &v2), vec![1, 2, 3]);
}

#[test]
fn build_tree_view_with_frozen_appends_new_pids_sorted_at_end() {
    // Trava captura ordem [2, 3] como filhos de 1. Depois aparece o pid 4.
    let v_initial = vec![
        proc_with_parent(1, None, "root"),
        proc_with_parent(2, Some(1), "a"),
        proc_with_parent(3, Some(1), "b"),
    ];
    let rows_initial = build_tree_view(&v_initial, SortKey::Pid, SortDir::Asc, &HashSet::new(), "", None);
    let frozen = capture_tree_order(&rows_initial, &v_initial);

    let v_after = vec![
        proc_with_parent(1, None, "root"),
        proc_with_parent(2, Some(1), "a"),
        proc_with_parent(3, Some(1), "b"),
        proc_with_parent(4, Some(1), "novo"),
    ];
    let rows = build_tree_view(&v_after, SortKey::Pid, SortDir::Asc, &HashSet::new(), "", Some(&frozen));
    // 2 e 3 mantêm a posição de antes; 4 aparece no fim
    assert_eq!(pids(&rows, &v_after), vec![1, 2, 3, 4]);
}

#[test]
fn build_tree_view_with_frozen_drops_dead_pids_silently() {
    let v_initial = vec![
        proc_with_parent(1, None, "root"),
        proc_with_parent(2, Some(1), "a"),
        proc_with_parent(3, Some(1), "b"),
        proc_with_parent(4, Some(1), "c"),
    ];
    let rows_initial = build_tree_view(&v_initial, SortKey::Pid, SortDir::Asc, &HashSet::new(), "", None);
    let frozen = capture_tree_order(&rows_initial, &v_initial);

    // pid 3 morreu
    let v_after = vec![
        proc_with_parent(1, None, "root"),
        proc_with_parent(2, Some(1), "a"),
        proc_with_parent(4, Some(1), "c"),
    ];
    let rows = build_tree_view(&v_after, SortKey::Pid, SortDir::Asc, &HashSet::new(), "", Some(&frozen));
    assert_eq!(pids(&rows, &v_after), vec![1, 2, 4]);
}

#[test]
fn toggle_freeze_off_clears_tree_order_too() {
    let mut s = AppState::new();
    s.frozen_tree_order.insert(None, vec![1, 2]);
    s.toggle_freeze();
    assert!(s.sort_frozen);
    s.toggle_freeze();
    assert!(!s.sort_frozen);
    assert!(s.frozen_tree_order.is_empty());
}

#[test]
fn toggle_sort_invalidates_tree_order() {
    let mut s = AppState::new();
    s.toggle_freeze();
    s.frozen_tree_order.insert(None, vec![1, 2]);
    s.toggle_sort(SortKey::Cpu);
    assert!(s.frozen_tree_order.is_empty());
}

#[test]
fn toggle_view_mode_clears_tree_order() {
    let mut s = AppState::new();
    s.frozen_tree_order.insert(None, vec![1, 2]);
    s.frozen_order = vec![1, 2];
    s.toggle_view_mode();
    assert!(s.frozen_tree_order.is_empty());
    assert!(s.frozen_order.is_empty());
}

#[test]
fn handle_key_t_in_filter_edit_is_typed_not_toggle() {
    let mut s = AppState::new();
    s.start_filter_edit();
    handle_key(&mut s, KeyCode::Char('t'), 0, 10, None);
    assert_eq!(s.view_mode, ViewMode::Flat);
    assert_eq!(s.filter, "t");
}
