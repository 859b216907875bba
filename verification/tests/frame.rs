use monitorando::app::{AppState, ViewMode};
use monitorando::frame::{kill_status, layout_frame};
use monitorando::order::{SortDir, SortKey};
use monitorando::process::ProcessInfo;

fn q(pid: u32, ppid: Option<u32>, name: &str, cpu: u32) -> ProcessInfo {
    ProcessInfo { pid, ppid, name: name.to_string(), cpu_key: cpu, memory_key: 0, io_key: 0 }
}

fn pid_list(v: &[ProcessInfo]) -> Vec<u32> {
    v.iter().map(|x| x.pid).collect()
}

#[test]
fn flat_frame_sorts_filters_and_clamps_selection() {
    let mut s = AppState::new();
    s.sort_key = SortKey::Cpu;
    s.sort_dir = SortDir::Desc;
    s.filter = "a".to_string();
    s.table.select(Some(7));
    let mut v = vec![q(1, None, "alpha", 10), q(2, None, "beta", 90), q(3, None, "gamma", 50)];
    let rows = layout_frame(&mut s, &mut v);
    assert_eq!(pid_list(&v), vec![2, 3, 1]);
    assert_eq!(rows.iter().map(|r| r.idx).collect::<Vec<_>>(), vec![0, 1, 2]);
    assert_eq!(s.table.selected(), Some(2));
    assert!(s.frozen_order.is_empty());
}

#[test]
fn flat_frame_records_then_keeps_frozen_order() {
    let mut s = AppState::new();
    s.sort_key = SortKey::Cpu;
    s.sort_dir = SortDir::Desc;
    s.toggle_freeze();
    let mut v = vec![q(1, None, "a", 10), q(2, None, "b", 90)];
    layout_frame(&mut s, &mut v);
    assert_eq!(s.frozen_order, vec![2, 1]);
    let mut w = vec![q(1, None, "a", 99), q(2, None, "b", 0), q(3, None, "c", 50)];
    layout_frame(&mut s, &mut w);
    assert_eq!(pid_list(&w), vec![2, 1, 3]);
    assert_eq!(s.frozen_order, vec![2, 1, 3]);
}

#[test]
fn tree_frame_records_sibling_order_when_freezing_begins() {
    let mut s = AppState::new();
    s.view_mode = ViewMode::Tree;
    s.sort_key = SortKey::Cpu;
    s.sort_dir = SortDir::Desc;
    s.toggle_freeze();
    let mut v = vec![q(1, None, "r", 0), q(2, Some(1), "a", 10), q(3, Some(1), "b", 90)];
    let rows = layout_frame(&mut s, &mut v);
    assert_eq!(rows.iter().map(|r| v[r.idx].pid).collect::<Vec<_>>(), vec![1, 3, 2]);
    assert_eq!(s.frozen_tree_order.get(&Some(1)), Some(&vec![3, 2]));
    assert_eq!(s.frozen_tree_order.get(&None), Some(&vec![1]));
    let mut w = vec![q(1, None, "r", 0), q(2, Some(1), "a", 99), q(3, Some(1), "b", 1)];
    let again = layout_frame(&mut s, &mut w);
    assert_eq!(again.iter().map(|r| w[r.idx].pid).collect::<Vec<_>>(), vec![1, 3, 2]);
    assert_eq!(pid_list(&w), vec![1, 2, 3]);
}

#[test]
fn tree_frame_without_rows_clears_selection() {
    let mut s = AppState::new();
    s.view_mode = ViewMode::Tree;
    let mut v: Vec<ProcessInfo> = Vec::new();
    let rows = layout_frame(&mut s, &mut v);
    assert!(rows.is_empty());
    assert_eq!(s.table.selected(), None);
}

#[test]
fn kill_status_reports_success() {
    assert_eq!(kill_status(4321, "editor", true), "PID 4321 (editor) encerrado");
}

#[test]
fn kill_status_reports_failure() {
    assert_eq!(kill_status(0, "init", false), "Falha ao encerrar PID 0 (init) — sem permissão?");
    assert_eq!(kill_status(4294967295, "x", false), "Falha ao encerrar PID 4294967295 (x) — sem permissão?");
}
