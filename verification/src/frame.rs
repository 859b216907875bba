//! One frame of the monitor: the processes put in display order, the rows shown, the
//! frozen orders recorded when freezing has just begun, and the selection kept on a row;
//! and the status line after a kill.

use crate::app::{
    clamped_selection, filter_indices, filtered_indices, push_char, with_selection, AppState,
    AppView, ViewMode,
};
use crate::order::{
    index_set, pick, reorder_arrangement, sort_processes, sorted_arrangement, stable_reorder,
};
use crate::freeze::{
    lemma_frozen_rebuild, lemma_rebuild_basics, lemma_same_shown_kids, rebuilt, siblings_distinct,
    same_processes,
};
use crate::listing::{folds, lemma_tree_rows_each_once, listed, row_indices};
use crate::process::ProcessInfo;
use crate::tree::{
    ancestor_at, build_flat_view, build_tree_view, capture_state, capture_tree_order, flat_rows, frozen_view,
    rows_view, RowView, TreeInput, TreeRow,
};
use vstd::prelude::*;
use vstd::string::StringExecFns;

verus! {

/// The processes of a flat frame in display order: after the frozen order when freezing
/// keeps one, else sorted.
pub open spec fn flat_order(s: AppView, ps: Seq<ProcessInfo>) -> Seq<ProcessInfo> {
    if s.sort_frozen && s.frozen_order.len() > 0 {
        pick(ps, reorder_arrangement(ps, s.frozen_order))
    } else {
        pick(ps, sorted_arrangement(ps, s.sort_key, s.sort_dir, index_set(ps.len())))
    }
}

/// The pids of a list of processes, in order.
pub open spec fn pid_list(ps: Seq<ProcessInfo>) -> Seq<u32> {
    ps.map_values(|p: ProcessInfo| p.pid)
}

/// The frozen tree orders a tree frame is built after: those kept, when frozen and some
/// are kept.
pub open spec fn frame_frozen(s: AppView) -> Option<Map<Option<u32>, Seq<u32>>> {
    if s.sort_frozen && s.frozen_tree_order != Map::<Option<u32>, Seq<u32>>::empty() {
        Some(s.frozen_tree_order)
    } else {
        None
    }
}

/// The tree a tree frame shows.
pub open spec fn frame_tree(s: AppView, ps: Seq<ProcessInfo>) -> TreeInput {
    TreeInput {
        ps,
        key: s.sort_key,
        dir: s.sort_dir,
        collapsed: s.collapsed,
        filter: s.filter,
        frozen: frame_frozen(s),
    }
}

/// The processes after a frame: reordered for a flat frame, untouched for a tree.
pub open spec fn frame_processes(s: AppView, ps: Seq<ProcessInfo>) -> Seq<ProcessInfo> {
    match s.view_mode {
        ViewMode::Flat => flat_order(s, ps),
        ViewMode::Tree => ps,
    }
}

/// The rows a frame shows.
pub open spec fn frame_rows(s: AppView, ps: Seq<ProcessInfo>) -> Seq<RowView> {
    match s.view_mode {
        ViewMode::Flat => flat_rows(filtered_indices(flat_order(s, ps), s.filter)),
        ViewMode::Tree => frame_tree(s, ps).rows(),
    }
}

/// The state after a frame: a flat frame records its pid order while frozen; a tree
/// frame records its sibling orders when freezing has just begun; the selection is kept
/// on a row.
pub open spec fn frame_state(s: AppView, ps: Seq<ProcessInfo>) -> AppView {
    let rows = frame_rows(s, ps);
    let recorded = match s.view_mode {
        ViewMode::Flat => AppView {
            frozen_order: if s.sort_frozen {
                pid_list(flat_order(s, ps))
            } else {
                s.frozen_order
            },
            ..s
        },
        ViewMode::Tree => AppView {
            frozen_tree_order: if s.sort_frozen && s.frozen_tree_order == Map::<Option<u32>, Seq<u32>>::empty() {
                capture_state(rows, ps).0
            } else {
                s.frozen_tree_order
            },
            ..s
        },
    };
    with_selection(recorded, clamped_selection(s.selected, rows.len() as usize))
}

/// The pids of the processes, in order.
fn pids_in_order(ps: &Vec<ProcessInfo>) -> (r: Vec<u32>)
    ensures
        r@ == pid_list(ps@),
{
    let mut out: Vec<u32> = Vec::new();
    let mut i: usize = 0;
    while i < ps.len()
        invariant
            i <= ps@.len(),
            out@ == pid_list(ps@.take(i as int)),
        decreases ps@.len() - i,
    {
        out.push(ps[i].pid);
        assert(ps@.take(i + 1) =~= ps@.take(i as int).push(ps@[i as int]));
        assert(pid_list(ps@.take(i + 1)) =~= pid_list(ps@.take(i as int)).push(ps@[i as int].pid));
        i = i + 1;
    }
    assert(ps@.take(ps@.len() as int) =~= ps@);
    out
}

/// Lays out one frame: puts the processes in display order (flat view), builds the rows
/// (flat or tree), records the order while freezing, and keeps the selection on a row.
pub fn layout_frame(state: &mut AppState, processes: &mut Vec<ProcessInfo>) -> (rows: Vec<TreeRow>)
    ensures
        rows_view(rows@) == frame_rows(old(state)@, old(processes)@),
        final(processes)@ == frame_processes(old(state)@, old(processes)@),
        final(state)@ == frame_state(old(state)@, old(processes)@),
        final(state)@.selected is None <==> rows@.len() == 0,
        final(state)@.selected matches Some(i) ==> i < rows@.len(),
{
    let ghost s0 = state@;
    let ghost ps0 = processes@;
    let count: usize = processes.len();
    let rows = match state.view_mode {
        ViewMode::Flat => {
            if state.sort_frozen && state.frozen_order.len() > 0 {
                stable_reorder(processes, &mut state.frozen_order);
                assert(state.frozen_order@ =~= pid_list(processes@));
            } else {
                sort_processes(processes, state.sort_key, state.sort_dir);
                if state.sort_frozen {
                    state.frozen_order = pids_in_order(processes);
                }
            }
            let visible = filter_indices(processes, &state.filter);
            build_flat_view(&visible)
        },
        ViewMode::Tree => {
            let keep = state.sort_frozen && !state.frozen_tree_order.is_empty();
            let tree_rows = if keep {
                build_tree_view(
                    processes,
                    state.sort_key,
                    state.sort_dir,
                    &state.collapsed,
                    &state.filter,
                    Some(&state.frozen_tree_order),
                )
            } else {
                build_tree_view(processes, state.sort_key, state.sort_dir, &state.collapsed, &state.filter, None)
            };
            assert(frozen_view(if keep { Some(&state.frozen_tree_order) } else { None }) == frame_frozen(s0));
            if state.sort_frozen && state.frozen_tree_order.is_empty() {
                proof {
                    let t = frame_tree(s0, ps0);
                    assert(t.ps.len() == count);
                    assert(crate::listing::frozen_siblings_distinct(t));
                    crate::listing::lemma_tree_rows_each_once(t);
                    assert forall|k: int| 0 <= k < tree_rows@.len() implies #[trigger] tree_rows@[k].idx < processes@.len() by {
                        assert(rows_view(tree_rows@)[k] == tree_rows@[k]@);
                        assert(crate::listing::row_indices(t.rows()).contains(tree_rows@[k].idx)) by {
                            assert(crate::listing::row_indices(t.rows())[k] == tree_rows@[k].idx);
                        }
                    }
                }
                state.frozen_tree_order = capture_tree_order(&tree_rows, processes);
            }
            tree_rows
        },
    };
    state.clamp_to(rows.len());
    proof {
        crate::app::lemma_navigation_stays_valid(s0.selected, rows.len(), 0);
    }
    rows
}

/// The status line after asking to end process `pid` (`name`): whether it was ended.
pub open spec fn kill_message(pid: u32, name: Seq<char>, ended: bool) -> Seq<char> {
    if ended {
        "PID "@ + decimal(pid as nat) + " ("@ + name + ") encerrado"@
    } else {
        "Falha ao encerrar PID "@ + decimal(pid as nat) + " ("@ + name + ") \u{2014} sem permiss\u{e3}o?"@
    }
}

/// The decimal digit `d` (below ten).
pub open spec fn digit(d: nat) -> char {
    if d == 0 {
        '0'
    } else if d == 1 {
        '1'
    } else if d == 2 {
        '2'
    } else if d == 3 {
        '3'
    } else if d == 4 {
        '4'
    } else if d == 5 {
        '5'
    } else if d == 6 {
        '6'
    } else if d == 7 {
        '7'
    } else if d == 8 {
        '8'
    } else {
        '9'
    }
}

/// `n` written in decimal, without leading zeros.
pub open spec fn decimal(n: nat) -> Seq<char>
    decreases n,
{
    if n < 10 {
        seq![digit(n)]
    } else {
        decimal(n / 10).push(digit(n % 10))
    }
}

/// The character of decimal digit `d`.
fn digit_char(d: u64) -> (c: char)
    requires
        d < 10,
    ensures
        c == digit(d as nat),
{
    if d == 0 {
        '0'
    } else if d == 1 {
        '1'
    } else if d == 2 {
        '2'
    } else if d == 3 {
        '3'
    } else if d == 4 {
        '4'
    } else if d == 5 {
        '5'
    } else if d == 6 {
        '6'
    } else if d == 7 {
        '7'
    } else if d == 8 {
        '8'
    } else {
        '9'
    }
}

/// Appends `n` in decimal to `out`.
pub(crate) fn push_decimal(out: &mut String, n: u64)
    ensures
        final(out)@ == old(out)@ + decimal(n as nat),
    decreases n,
{
    if n >= 10 {
        push_decimal(out, n / 10);
    }
    push_char(out, digit_char(n % 10));
    proof {
        if n >= 10 {
            assert(old(out)@ + decimal(n as nat) =~= (old(out)@ + decimal((n / 10) as nat)).push(digit((n % 10) as nat)));
        } else {
            assert(n % 10 == n);
            assert(old(out)@ + decimal(n as nat) =~= old(out)@.push(digit(n as nat)));
        }
    }
}

/// The status line after asking to end process `pid` (see `kill_message`).
pub fn kill_status(pid: u32, name: &str, ended: bool) -> (r: String)
    ensures
        r@ == kill_message(pid, name@, ended),
{
    let mut out = String::new();
    if ended {
        proof {
            reveal_strlit("PID ");
            reveal_strlit(" (");
            reveal_strlit(") encerrado");
        }
        out.append("PID ");
        push_decimal(&mut out, pid as u64);
        out.append(" (");
        out.append(name);
        out.append(") encerrado");
        assert(out@ =~= kill_message(pid, name@, ended));
    } else {
        proof {
            reveal_strlit("Falha ao encerrar PID ");
            reveal_strlit(" (");
            reveal_strlit(") \u{2014} sem permiss\u{e3}o?");
        }
        out.append("Falha ao encerrar PID ");
        push_decimal(&mut out, pid as u64);
        out.append(" (");
        out.append(name);
        out.append(") \u{2014} sem permiss\u{e3}o?");
        assert(out@ =~= kill_message(pid, name@, ended));
    }
    out
}

/// Over the same processes, the same nodes are drawn.
proof fn lemma_same_listed(t: TreeInput, t2: TreeInput, j: usize)
    requires
        t.ps.len() <= usize::MAX,
        siblings_distinct(t),
        same_processes(t.ps, t2.ps),
        t2.filter == t.filter,
        t2.collapsed == t.collapsed,
    ensures
        listed(t2, j) == listed(t, j),
{
    lemma_rebuild_basics(t, t2);
    crate::listing::lemma_forest(t);
    let par = t.par();
    if j < t.ps.len() {
        assert forall|k: nat| 1 <= k implies (match #[trigger] ancestor_at(par, j, k) {
            Some(a) => !folds(t2, a),
            None => true,
        }) == (match ancestor_at(par, j, k) {
            Some(a) => !folds(t, a),
            None => true,
        }) by {
            crate::forest::lemma_walk_in_range(par, j, k);
            match ancestor_at(par, j, k) {
                Some(a) => {
                    lemma_same_shown_kids(t, t2, Some(a));
                    assert(t2.ps[a as int].pid == t.ps[a as int].pid);
                },
                None => {},
            }
        }
    }
}

/// Freezing keeps the tree: once a tree frame has recorded its sibling orders, a later
/// frame over the same processes (pid, parent and name alike; siblings with distinct
/// pids) shows the same rows, whatever the processes' measurements.
pub proof fn lemma_frozen_tree_frame(s: AppView, ps: Seq<ProcessInfo>, ps2: Seq<ProcessInfo>)
    requires
        s.view_mode == ViewMode::Tree,
        s.sort_frozen,
        s.frozen_tree_order == Map::<Option<u32>, Seq<u32>>::empty(),
        ps.len() <= usize::MAX,
        siblings_distinct(frame_tree(s, ps)),
        same_processes(ps, ps2),
    ensures
        frame_rows(frame_state(s, ps), ps2) == frame_rows(s, ps),
{
    let t = frame_tree(s, ps);
    let rows = t.rows();
    let f = capture_state(rows, ps).0;
    let s1 = frame_state(s, ps);
    assert(s1.frozen_tree_order == f);
    let t2 = frame_tree(s1, ps2);
    if f != Map::<Option<u32>, Seq<u32>>::empty() {
        assert(t2 == rebuilt(t, ps2, s.sort_key, s.sort_dir));
        lemma_frozen_rebuild(t, ps2, s.sort_key, s.sort_dir);
    } else {
        if rows.len() > 0 {
            let st = crate::tree::capture_from((Map::empty(), Seq::empty()), rows.drop_last(), ps);
            let r = rows.last();
            assert(f == crate::tree::capture_step(st, r, ps).0);
            let st2 = if r.depth < st.1.len() {
                st.1.take(r.depth as int)
            } else {
                st.1
            };
            let kk = if r.depth == 0 || st2.len() == 0 {
                None
            } else {
                Some(st2.last())
            };
            assert(f.contains_key(kk));
            assert(!Map::<Option<u32>, Seq<u32>>::empty().contains_key(kk));
        }
        assert(t2.frozen is None);
        lemma_tree_rows_each_once(t);
        lemma_tree_rows_each_once(t2);
        if t2.rows().len() > 0 {
            let j = row_indices(t2.rows())[0];
            assert(row_indices(t2.rows()).contains(j));
            lemma_same_listed(t, t2, j);
            assert(row_indices(rows).contains(j));
        }
        assert(t2.rows() =~= rows);
    }
}

/// After a frame the selection points at one of the rows shown: nothing is selected
/// exactly when no row is shown, and otherwise a row before the end of the rows.
pub proof fn lemma_frame_selection_valid(s: AppView, ps: Seq<ProcessInfo>)
    requires
        frame_rows(s, ps).len() <= usize::MAX,
    ensures
        frame_state(s, ps).selected is None <==> frame_rows(s, ps).len() == 0,
        frame_state(s, ps).selected matches Some(i) ==> i < frame_rows(s, ps).len(),
{
    let n = frame_rows(s, ps).len() as usize;
    crate::app::lemma_navigation_stays_valid(s.selected, n, 0);
}

/// A flat frame shows the processes in order: without a kept frozen order they are all
/// the processes, each once, sorted on the column with ties in their old order; with one,
/// the pids still present come first in the frozen order, each once, then the others in
/// ascending pid order. While frozen, the frame records the pid order it shows. Its rows
/// list, ascending, exactly the positions whose name passes the filter, flat.
pub proof fn lemma_flat_frame(s: AppView, ps: Seq<ProcessInfo>)
    requires
        s.view_mode == ViewMode::Flat,
        ps.len() <= usize::MAX,
        frame_processes(s, ps).len() <= usize::MAX,
    ensures
        !(s.sort_frozen && s.frozen_order.len() > 0) ==> exists|o: Seq<usize>|
            #[trigger] pick(ps, o) == frame_processes(s, ps) && crate::order::holds_exactly(o, index_set(ps.len()))
                && o.len() == ps.len() && forall|a: int, b: int|
                #![trigger o[a], o[b]]
                0 <= a < b < o.len() ==> {
                    let x = crate::order::dir_order(ps[o[a] as int], ps[o[b] as int], s.sort_key, s.sort_dir);
                    x < 0 || (x == 0 && o[a] < o[b])
                },
        s.sort_frozen && s.frozen_order.len() > 0 ==> ({
            let out = pid_list(frame_processes(s, ps));
            let k = crate::order::kept_pids(ps, index_set(ps.len()), s.frozen_order);
            &&& out.take(k.len() as int) == k
            &&& forall|a: int, b: int| k.len() <= a < b < out.len() ==> out[a] < out[b]
            &&& forall|a: int| k.len() <= a < out.len() ==> !s.frozen_order.contains(#[trigger] out[a])
            &&& out.no_duplicates()
            &&& forall|q: u32| #[trigger] out.contains(q) <==> exists|i: int| 0 <= i < ps.len() && ps[i].pid == q
        }),
        s.sort_frozen ==> frame_state(s, ps).frozen_order == pid_list(frame_processes(s, ps)),
        !s.sort_frozen ==> frame_state(s, ps).frozen_order == s.frozen_order,
        frame_rows(s, ps).len() <= frame_processes(s, ps).len(),
        forall|k: int| 0 <= k < frame_rows(s, ps).len() ==> {
            &&& (#[trigger] frame_rows(s, ps)[k]).depth == 0
            &&& frame_rows(s, ps)[k].branches.len() == 0
            &&& !frame_rows(s, ps)[k].has_children
            &&& !frame_rows(s, ps)[k].is_collapsed
            &&& frame_rows(s, ps)[k].idx < frame_processes(s, ps).len()
            &&& crate::app::passes_filter(frame_processes(s, ps)[frame_rows(s, ps)[k].idx as int].name@, s.filter)
        },
        forall|a: int, b: int| 0 <= a < b < frame_rows(s, ps).len() ==> frame_rows(s, ps)[a].idx < frame_rows(s, ps)[b].idx,
        forall|i: usize| i < frame_processes(s, ps).len() && crate::app::passes_filter(frame_processes(s, ps)[i as int].name@, s.filter)
            ==> exists|k: int| 0 <= k < frame_rows(s, ps).len() && #[trigger] frame_rows(s, ps)[k].idx == i,
{
    broadcast use vstd::seq_lib::group_filter_ensures;

    let out = frame_processes(s, ps);
    let n = ps.len();
    if !(s.sort_frozen && s.frozen_order.len() > 0) {
        let o = sorted_arrangement(ps, s.sort_key, s.sort_dir, index_set(n));
        crate::order::lemma_index_set_len(n);
        crate::order::lemma_sorted_arrangement(ps, s.sort_key, s.sort_dir, index_set(n));
        crate::order::lemma_arranged_len(ps, s.sort_key, s.sort_dir, o, n);
        assert forall|a: int, b: int| #![trigger o[a], o[b]] 0 <= a < b < o.len() implies {
            let x = crate::order::dir_order(ps[o[a] as int], ps[o[b] as int], s.sort_key, s.sort_dir);
            x < 0 || (x == 0 && o[a] < o[b])
        } by {
            assert(crate::order::goes_before(ps, s.sort_key, s.sort_dir, o[a], o[b]));
        }
        assert(pick(ps, o) == out);
    } else {
        crate::order::lemma_reorder_pids(ps, s.frozen_order);
        let arr = reorder_arrangement(ps, s.frozen_order);
        assert(pid_list(pick(ps, arr)) =~= arr.map_values(|i: usize| ps[i as int].pid));
        let o2 = arr.map_values(|i: usize| ps[i as int].pid);
        assert forall|q: u32| #[trigger] o2.contains(q) <==> exists|i: int| 0 <= i < ps.len() && ps[i].pid == q by {
            lemma_index_set_len_here(n);
            if exists|i: int| 0 <= i < ps.len() && ps[i].pid == q {
                let i = choose|i: int| 0 <= i < ps.len() && ps[i].pid == q;
                assert(index_set(n).contains(i as usize));
                assert(crate::order::has_pid(ps, index_set(n), q));
            }
            if crate::order::has_pid(ps, index_set(n), q) {
                let c = choose|c: usize| #[trigger] index_set(n).contains(c) && ps[c as int].pid == q;
                assert(0 <= c < ps.len() && ps[c as int].pid == q);
            }
        }
    }
    let vis = filtered_indices(out, s.filter);
    let all = Seq::new(out.len(), |i: int| i as usize);
    let pred = |i: usize| crate::app::passes_filter(out[i as int].name@, s.filter);
    assert(vis == all.filter(pred));
    assert(frame_rows(s, ps) == flat_rows(vis));
    assert forall|a: int, b: int| 0 <= a < b < all.len() implies all[a] < all[b] by {}
    lemma_filter_ascending(all, pred);
    assert forall|k: int| 0 <= k < vis.len() implies #[trigger] vis[k] < out.len() && pred(vis[k]) by {
        assert(vis.contains(vis[k]));
        all.lemma_filter_contains_rev(pred, vis[k]);
    }
    assert forall|i: usize| i < out.len() && #[trigger] pred(i) implies exists|k: int| 0 <= k < vis.len() && vis[k] == i by {
        assert(all[i as int] == i);
        assert(vis.contains(i));
    }
    assert forall|i: usize| i < out.len() && crate::app::passes_filter(out[i as int].name@, s.filter)
        implies exists|k: int| 0 <= k < frame_rows(s, ps).len() && #[trigger] frame_rows(s, ps)[k].idx == i by {
        assert(pred(i));
        let k = choose|k: int| 0 <= k < vis.len() && vis[k] == i;
        assert(frame_rows(s, ps)[k].idx == i);
    }
}

/// Keeping the entries of an ascending list that pass a test keeps it ascending.
proof fn lemma_filter_ascending(s: Seq<usize>, pred: spec_fn(usize) -> bool)
    requires
        forall|a: int, b: int| 0 <= a < b < s.len() ==> s[a] < s[b],
    ensures
        forall|a: int, b: int| 0 <= a < b < s.filter(pred).len() ==> s.filter(pred)[a] < s.filter(pred)[b],
        s.filter(pred).len() <= s.len(),
    decreases s.len(),
{
    reveal(Seq::filter);
    if s.len() > 0 {
        let r = s.drop_last();
        lemma_filter_ascending(r, pred);
        let f = r.filter(pred);
        assert forall|j: int| 0 <= j < f.len() implies f[j] < s.last() by {
            assert(f.contains(f[j]));
            r.lemma_filter_contains_rev(pred, f[j]);
            let i = choose|i: int| 0 <= i < r.len() && r[i] == f[j];
            assert(s[i] == r[i]);
        }
    }
}

/// There are `n` indices below `n`.
proof fn lemma_index_set_len_here(n: nat)
    requires
        n <= usize::MAX,
    ensures
        index_set(n).finite(),
{
    crate::order::lemma_index_set_len(n);
}

} // verus!
