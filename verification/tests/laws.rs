use monitorando::app::{
    handle_key, indices_holding, selected_process, Action, AppState, FilterMode, KeyCode, ViewMode,
    REFRESH_STEPS_MS,
};
use monitorando::display::{name_text, sort_label, table_title};
use monitorando::order::{lowered_names, sort_indices, sort_processes, stable_reorder, SortDir, SortKey};
use monitorando::process::ProcessInfo;
use monitorando::tree::{
    build_flat_view, build_tree_view, capture_tree_order, count_flagged_below, shown_from_lowered,
    BranchKind, TreeOrder, TreeRow,
};
use std::collections::HashSet;

fn p(pid: u32, ppid: Option<u32>, name: &str, cpu: u32) -> ProcessInfo {
    ProcessInfo { pid, ppid, name: name.to_string(), cpu_key: cpu, memory_key: 0, io_key: 0 }
}

fn pids_of(v: &[ProcessInfo]) -> Vec<u32> {
    v.iter().map(|x| x.pid).collect()
}

fn row_pids(rows: &[TreeRow], v: &[ProcessInfo]) -> Vec<u32> {
    rows.iter().map(|r| v[r.idx].pid).collect()
}

#[test]
fn law_toggles_twice_restore_state() {
    let mut s = AppState::new();
    s.toggle_details();
    s.toggle_details();
    assert!(!s.show_details);
    s.toggle_pause();
    s.toggle_pause();
    assert!(!s.paused);
    s.toggle_collapsed(7);
    s.toggle_collapsed(7);
    assert!(s.collapsed.is_empty());
    s.toggle_view_mode();
    s.toggle_view_mode();
    assert_eq!(s.view_mode, ViewMode::Flat);
    s.toggle_freeze();
    s.toggle_freeze();
    assert!(!s.sort_frozen);
    s.toggle_sort(SortKey::Pid);
    s.toggle_sort(SortKey::Pid);
    assert_eq!(s.sort_dir, SortDir::Asc);
}

#[test]
fn law_navigation_keeps_selection_in_range() {
    for total in 0..6usize {
        for start in [None, Some(0usize), Some(2), Some(9)] {
            let mut s = AppState::new();
            s.table.select(start);
            s.clamp_to(total);
            for step in 0..4 {
                match step {
                    0 => s.select_next(total),
                    1 => s.page_down(total, 3),
                    2 => s.select_prev(total),
                    _ => s.page_up(total, 2),
                }
                match s.table.selected() {
                    None => assert_eq!(total, 0),
                    Some(i) => assert!(i < total),
                }
            }
        }
    }
}

#[test]
fn law_kill_prompt_ignores_other_keys() {
    let mut s = AppState::new();
    s.request_kill(42, "x".to_string());
    for key in [KeyCode::Char('q'), KeyCode::Down, KeyCode::Enter, KeyCode::Char('/'), KeyCode::Other] {
        let act = handle_key(&mut s, key, 10, 10, None);
        assert_eq!(act, Action::Nothing);
        assert_eq!(s.table.selected(), Some(0));
        assert_eq!(s.filter_mode, FilterMode::Inactive);
        assert!(s.kill_prompt.is_some());
    }
    let act = handle_key(&mut s, KeyCode::Char('Y'), 10, 10, None);
    assert_eq!(act, Action::KillConfirmed { pid: 42, name: "x".to_string() });
    assert!(s.kill_prompt.is_none());
}

#[test]
fn law_only_q_quits() {
    let mut s = AppState::new();
    for key in [KeyCode::Char('x'), KeyCode::Esc, KeyCode::End, KeyCode::Backspace] {
        assert_ne!(handle_key(&mut s, key, 3, 10, None), Action::Quit);
    }
    s.start_filter_edit();
    assert_eq!(handle_key(&mut s, KeyCode::Char('Q'), 3, 10, None), Action::Nothing);
    assert_eq!(s.filter, "Q");
}

#[test]
fn backspace_on_empty_filter_keeps_it_empty() {
    let mut s = AppState::new();
    s.start_filter_edit();
    handle_key(&mut s, KeyCode::Backspace, 0, 10, None);
    assert!(s.filter.is_empty());
    assert_eq!(s.filter_mode, FilterMode::Editing);
}

#[test]
fn law_refresh_steps_round_trip() {
    for (i, &ms) in REFRESH_STEPS_MS.iter().enumerate() {
        let mut s = AppState::new();
        s.refresh_ms = ms;
        s.slower_refresh();
        s.faster_refresh();
        if i + 1 < REFRESH_STEPS_MS.len() {
            assert_eq!(s.refresh_ms, ms);
        }
        s.refresh_ms = ms;
        s.faster_refresh();
        s.slower_refresh();
        if i > 0 {
            assert_eq!(s.refresh_ms, ms);
        }
    }
    let mut s = AppState::new();
    s.refresh_ms = 700;
    s.faster_refresh();
    assert_eq!(s.refresh_ms, 500);
    s.refresh_ms = 700;
    s.slower_refresh();
    assert_eq!(s.refresh_ms, 1000);
}

#[test]
fn law_sorting_twice_equals_sorting_once() {
    let mut v = vec![p(5, None, "e", 3), p(1, None, "a", 3), p(4, None, "d", 9), p(2, None, "B", 1)];
    sort_processes(&mut v, SortKey::Cpu, SortDir::Desc);
    assert_eq!(pids_of(&v), vec![4, 5, 1, 2]);
    let once = pids_of(&v);
    sort_processes(&mut v, SortKey::Cpu, SortDir::Desc);
    assert_eq!(pids_of(&v), once);
    sort_processes(&mut v, SortKey::Name, SortDir::Desc);
    assert_eq!(pids_of(&v), vec![5, 4, 2, 1]);
}

#[test]
fn law_stable_reorder_is_idempotent_and_keeps_every_pid() {
    let mut v = vec![p(9, None, "i", 0), p(3, None, "c", 0), p(7, None, "g", 0)];
    let mut order = vec![7u32, 4, 9];
    stable_reorder(&mut v, &mut order);
    assert_eq!(order, vec![7, 9, 3]);
    assert_eq!(pids_of(&v), vec![7, 9, 3]);
    stable_reorder(&mut v, &mut order);
    assert_eq!(order, vec![7, 9, 3]);
    assert_eq!(pids_of(&v), vec![7, 9, 3]);
}

#[test]
fn stable_reorder_keeps_last_of_duplicate_pids() {
    let mut v = vec![p(1, None, "first", 0), p(2, None, "b", 0), p(1, None, "second", 0)];
    let mut order = vec![1u32, 1];
    stable_reorder(&mut v, &mut order);
    assert_eq!(order, vec![1, 2]);
    assert_eq!(v[0].name, "second");
    assert_eq!(v.len(), 2);
}

#[test]
fn law_tree_without_filter_shows_every_process_once() {
    let v = vec![
        p(10, Some(1), "a", 0),
        p(1, None, "init", 0),
        p(11, Some(10), "b", 0),
        p(12, Some(99), "orphan", 0),
        p(13, Some(1), "c", 0),
    ];
    let rows = build_tree_view(&v, SortKey::Pid, SortDir::Asc, &HashSet::new(), "", None);
    assert_eq!(row_pids(&rows, &v), vec![1, 10, 11, 13, 12]);
    let mut seen: Vec<usize> = rows.iter().map(|r| r.idx).collect();
    seen.sort();
    assert_eq!(seen, vec![0, 1, 2, 3, 4]);
}

#[test]
fn law_tree_filter_keeps_every_ancestor() {
    let v = vec![
        p(1, None, "init", 0),
        p(2, Some(1), "shell", 0),
        p(3, Some(2), "Editor", 0),
        p(4, Some(1), "daemon", 0),
    ];
    let rows = build_tree_view(&v, SortKey::Pid, SortDir::Asc, &HashSet::new(), "EDIT", None);
    assert_eq!(row_pids(&rows, &v), vec![1, 2, 3]);
    assert_eq!(rows[2].depth, 2);
}

#[test]
fn tree_cycle_of_three_is_cut_where_it_is_entered() {
    // 1 -> 2 -> 3 -> 1 (each naming the next as parent); index 0 is pid 1.
    let v = vec![p(1, Some(2), "a", 0), p(2, Some(3), "b", 0), p(3, Some(1), "c", 0)];
    let rows = build_tree_view(&v, SortKey::Pid, SortDir::Asc, &HashSet::new(), "", None);
    // the walk from index 0 enters the cycle at index 0 itself, so pid 1 becomes the root
    assert_eq!(row_pids(&rows, &v), vec![1, 3, 2]);
    assert_eq!(rows.iter().map(|r| r.depth).collect::<Vec<_>>(), vec![0, 1, 2]);
}

#[test]
fn tree_tail_into_cycle_cuts_at_entry() {
    // index 0 (pid 5) hangs below the cycle 6 <-> 7 and enters it at pid 6.
    let v = vec![p(5, Some(6), "tail", 0), p(6, Some(7), "x", 0), p(7, Some(6), "y", 0)];
    let rows = build_tree_view(&v, SortKey::Pid, SortDir::Asc, &HashSet::new(), "", None);
    assert_eq!(row_pids(&rows, &v), vec![6, 5, 7]);
}

#[test]
fn tree_collapsed_count_counts_only_shown_descendants() {
    let v = vec![
        p(1, None, "root", 0),
        p(2, Some(1), "keep", 0),
        p(3, Some(1), "drop", 0),
        p(4, Some(2), "keep-too", 0),
    ];
    let mut collapsed = HashSet::new();
    collapsed.insert(1);
    let rows = build_tree_view(&v, SortKey::Pid, SortDir::Asc, &collapsed, "keep", None);
    assert_eq!(rows.len(), 1);
    assert!(rows[0].is_collapsed);
    assert_eq!(rows[0].collapsed_count, 2);
}

#[test]
fn law_capture_then_frozen_build_reproduces_order() {
    let v = vec![
        p(1, None, "r", 0),
        p(2, Some(1), "a", 50),
        p(3, Some(1), "b", 90),
        p(4, None, "s", 10),
    ];
    let rows = build_tree_view(&v, SortKey::Cpu, SortDir::Desc, &HashSet::new(), "", None);
    let frozen = capture_tree_order(&rows, &v);
    let again = build_tree_view(&v, SortKey::Name, SortDir::Asc, &HashSet::new(), "", Some(&frozen));
    assert_eq!(row_pids(&again, &v), row_pids(&rows, &v));
}

#[test]
fn tree_order_map_operations() {
    let mut t = TreeOrder::new();
    assert!(t.is_empty());
    t.push_to(None, 1);
    t.push_to(Some(1), 2);
    t.push_to(None, 5);
    assert_eq!(t.get(&None), Some(&vec![1, 5]));
    t.insert(Some(1), vec![9]);
    assert_eq!(t.get(&Some(1)), Some(&vec![9]));
    assert_eq!(t.get(&Some(3)), None);
    t.clear();
    assert!(t.is_empty());
}

#[test]
fn flat_view_rows_are_plain() {
    let rows = build_flat_view(&vec![3, 1]);
    assert_eq!(rows.len(), 2);
    assert_eq!(rows[0].idx, 3);
    assert_eq!(rows[1].idx, 1);
    assert!(rows.iter().all(|r| r.depth == 0 && r.branches.is_empty() && !r.has_children));
}

#[test]
fn sort_label_marks_sorted_column() {
    let mut s = AppState::new();
    assert_eq!(sort_label("PID", SortKey::Pid, &s), "PID \u{25B2}");
    assert_eq!(sort_label("CPU%", SortKey::Cpu, &s), "CPU%");
    s.toggle_sort(SortKey::Cpu);
    assert_eq!(sort_label("CPU%", SortKey::Cpu, &s), "CPU% \u{25BC}");
}

#[test]
fn selected_process_follows_rows() {
    let v = vec![p(1, None, "a", 0), p(2, None, "b", 0)];
    let rows = build_flat_view(&vec![1, 0]);
    let mut s = AppState::new();
    assert_eq!(selected_process(&v, &rows, &s).map(|x| x.pid), Some(2));
    s.table.select(Some(5));
    assert!(selected_process(&v, &rows, &s).is_none());
    s.table.select(None);
    assert!(selected_process(&v, &rows, &s).is_none());
}

#[test]
fn law_frozen_rebuild_keeps_rows_when_measurements_change() {
    let before = vec![
        p(1, None, "root", 0),
        p(2, Some(1), "a", 10),
        p(3, Some(1), "b", 90),
        p(4, Some(3), "c", 5),
        p(5, Some(3), "d", 50),
        p(6, None, "other", 1),
    ];
    let rows = build_tree_view(&before, SortKey::Cpu, SortDir::Desc, &HashSet::new(), "", None);
    assert_eq!(row_pids(&rows, &before), vec![6, 1, 3, 5, 4, 2]);
    let frozen = capture_tree_order(&rows, &before);
    let after = vec![
        p(1, None, "root", 70),
        p(2, Some(1), "a", 99),
        p(3, Some(1), "b", 0),
        p(4, Some(3), "c", 80),
        p(5, Some(3), "d", 3),
        p(6, None, "other", 1),
    ];
    let unfrozen = build_tree_view(&after, SortKey::Cpu, SortDir::Desc, &HashSet::new(), "", None);
    assert_eq!(row_pids(&unfrozen, &after), vec![1, 2, 3, 4, 5, 6]);
    let again = build_tree_view(&after, SortKey::Name, SortDir::Asc, &HashSet::new(), "", Some(&frozen));
    assert_eq!(again, rows);
}

#[test]
fn frozen_order_keeps_one_of_siblings_sharing_a_pid() {
    let v = vec![p(1, None, "a", 0), p(1, None, "b", 0)];
    let mut f = TreeOrder::new();
    f.push_to(None, 1);
    let rows = build_tree_view(&v, SortKey::Pid, SortDir::Asc, &HashSet::new(), "", Some(&f));
    assert_eq!(rows.len(), 1);
    assert_eq!(rows[0].idx, 1);
}

#[test]
fn sibling_sort_keeps_list_order_on_ties() {
    let v = vec![p(1, None, "a", 5), p(2, None, "b", 5), p(3, None, "c", 9)];
    let low = lowered_names(&v);
    assert_eq!(sort_indices(&v, &low, &vec![1, 0], SortKey::Cpu, SortDir::Asc), vec![1, 0]);
    assert_eq!(sort_indices(&v, &low, &vec![2, 1, 0, 1], SortKey::Cpu, SortDir::Asc), vec![1, 0, 1, 2]);
    assert_eq!(sort_indices(&v, &low, &vec![0, 2, 1], SortKey::Cpu, SortDir::Desc), vec![2, 0, 1]);
}

#[test]
fn matching_on_lowered_names() {
    let lowered = vec![vec!['e', 'd', 'i', 't'], vec!['s', 'h'], vec!['t', 'e', 'd']];
    assert_eq!(indices_holding(&lowered, &vec!['e', 'd']), vec![0, 2]);
    assert_eq!(indices_holding(&lowered, &vec![]), vec![0, 1, 2]);
}

#[test]
fn tree_visibility_on_lowered_names() {
    let lowered = vec![vec!['r'], vec!['a'], vec!['b', 'x']];
    let par = vec![None, Some(0), Some(0)];
    assert_eq!(shown_from_lowered(&lowered, &par, &vec!['x'], false), vec![true, false, true]);
    assert_eq!(shown_from_lowered(&lowered, &par, &vec!['q'], true), vec![true, true, true]);
}

#[test]
fn folded_count_stops_at_hidden_nodes() {
    let par = vec![None, Some(0), Some(0), Some(1)];
    assert_eq!(count_flagged_below(&par, &vec![true, false, true, true], 0), 1);
    assert_eq!(count_flagged_below(&par, &vec![true, true, true, true], 0), 3);
    assert_eq!(count_flagged_below(&par, &vec![true, true, true, true], 1), 1);
}

#[test]
fn name_cell_draws_tree_columns_and_fold_count() {
    let row = TreeRow {
        idx: 0,
        depth: 2,
        branches: vec![BranchKind::Pipe, BranchKind::Corner],
        has_children: true,
        is_collapsed: true,
        collapsed_count: 12,
    };
    assert_eq!(name_text(&row, "bash"), "│  └─ bash (+12)");
    let plain = TreeRow { is_collapsed: false, collapsed_count: 0, branches: vec![BranchKind::Space, BranchKind::Tee], ..row };
    assert_eq!(name_text(&plain, "sh"), "   ├─ sh");
}

#[test]
fn table_title_counts_rows() {
    assert_eq!(table_title(false, 3, 250), "Processos (250)");
    assert_eq!(table_title(true, 7, 250), "Processos (7/250)");
}
