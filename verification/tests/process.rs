use monitorando::process::{History, HISTORY_CAPACITY};

/// A sampled snapshot, reduced to what the history records.
struct Snap {
    cpu: f32,
    used_gb: f64,
    total_gb: f64,
}

fn snap(cpu: f32, used_gb: f64, total_gb: f64) -> Snap {
    Snap { cpu, used_gb, total_gb }
}

/// Records a snapshot the way the monitor does: percentages clamped to 0..=100 and rounded.
fn record(h: &mut History, s: &Snap) {
    let cpu = s.cpu.clamp(0.0, 100.0).round() as u64;
    let ram = if s.total_gb > 0.0 {
        ((s.used_gb / s.total_gb) * 100.0).clamp(0.0, 100.0).round() as u64
    } else {
        0
    };
    h.push(cpu, ram);
}

#[test]
fn history_starts_empty() {
    let h = History::new();
    assert!(h.cpu().is_empty());
    assert!(h.ram_pct().is_empty());
    assert_eq!(h.capacity(), HISTORY_CAPACITY);
}

#[test]
fn history_push_appends_samples_and_computes_ram_pct() {
    let mut h = History::with_capacity(10);
    record(&mut h, &snap(10.0, 4.0, 8.0));
    record(&mut h, &snap(20.0, 6.0, 8.0));
    assert_eq!(h.cpu(), vec![10, 20]);
    assert_eq!(h.ram_pct(), vec![50, 75]);
}

#[test]
fn history_evicts_oldest_when_at_capacity() {
    let mut h = History::with_capacity(3);
    for cpu in [1.0, 2.0, 3.0, 4.0, 5.0] {
        record(&mut h, &snap(cpu, 0.0, 1.0));
    }
    assert_eq!(h.cpu(), vec![3, 4, 5]);
}

#[test]
fn history_clamps_cpu_to_0_100_range() {
    let mut h = History::with_capacity(3);
    record(&mut h, &snap(150.0, 0.0, 1.0));
    record(&mut h, &snap(-5.0, 0.0, 1.0));
    record(&mut h, &snap(42.6, 0.0, 1.0));
    assert_eq!(h.cpu(), vec![100, 0, 43]);
}

#[test]
fn history_zero_total_memory_yields_zero_ram_pct() {
    let mut h = History::with_capacity(1);
    record(&mut h, &snap(0.0, 4.0, 0.0));
    assert_eq!(h.ram_pct(), vec![0]);
}

#[test]
fn history_keeps_both_series_bounded_and_in_order() {
    let mut h = History::with_capacity(2);
    h.push(1, 10);
    h.push(2, 20);
    h.push(3, 30);
    assert_eq!(h.cpu(), vec![2, 3]);
    assert_eq!(h.ram_pct(), vec![20, 30]);
    assert_eq!(h.capacity(), 2);
}

#[test]
fn history_with_zero_capacity_never_evicts() {
    let mut h = History::with_capacity(0);
    h.push(1, 1);
    h.push(2, 2);
    assert_eq!(h.cpu(), vec![1, 2]);
}
