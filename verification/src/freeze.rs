//! What freezing the tree keeps: recording the rows records, for every expanded node,
//! its shown children in the order drawn, and a tree rebuilt after that record, with
//! the same processes whatever their measurements or the sort, is drawn the same.

use crate::forest::{lemma_walk_ends, lemma_walk_split};
use crate::listing::{
    folds, forest, frozen_siblings_distinct, good_list, kids_exact, lemma_fold_listing,
    lemma_forest, lemma_kids_exact, lemma_list_listing, lemma_listed_child_of,
    lemma_listed_through_child, lemma_shown_kids, lemma_siblings_apart, lemma_step_one,
    lemma_tree_rows_each_once, listed, listed_below, row_indices,
};
use crate::order::{
    has_pid, index_set, is_rep, kept_pids, leftover_set, lemma_index_set_len,
    lemma_rep_exists, lemma_rep_unique, lemma_sorted_arrangement, rep_of, sorted_arrangement,
    SortDir, SortKey,
};
use crate::process::ProcessInfo;
use crate::tree::{
    ancestor_at, capture_from, capture_state, capture_step, children_set, count_shown_below,
    parent_pid, pid_index, raw_parent, raw_parents, reaches, shown, BranchKind, RowView,
    TreeInput,
};
use vstd::prelude::*;

verus! {

/// The key a node's pid is recorded under: its parent's pid, `None` for a root.
pub open spec fn parent_key(t: TreeInput, x: usize) -> Option<u32> {
    match t.par()[x as int] {
        Some(p) => Some(t.ps[p as int].pid),
        None => None,
    }
}

/// `m` with the pid of each row appended, in order, under its parent's key.
pub open spec fn append_keys(t: TreeInput, m: Map<Option<u32>, Seq<u32>>, rows: Seq<RowView>) -> Map<Option<u32>, Seq<u32>>
    decreases rows.len(),
{
    if rows.len() == 0 {
        m
    } else {
        let m0 = append_keys(t, m, rows.drop_last());
        let r = rows.last();
        let k = parent_key(t, r.idx);
        let pid = t.ps[r.idx as int].pid;
        m0.insert(k, if m0.contains_key(k) { m0[k].push(pid) } else { seq![pid] })
    }
}

/// The pids of the nodes `d` down to 1 steps above `i`, the farthest first.
pub open spec fn anc_pids(t: TreeInput, i: usize, d: nat) -> Seq<u32> {
    Seq::new(d, |l: int| t.ps[ancestor_at(t.par(), i, (d - l) as nat)->0 as int].pid)
}

/// Reading `a + b` is reading `a`, then `b`.
proof fn lemma_capture_concat(
    state: (Map<Option<u32>, Seq<u32>>, Seq<u32>),
    a: Seq<RowView>,
    b: Seq<RowView>,
    ps: Seq<ProcessInfo>,
)
    ensures
        capture_from(state, a + b, ps) == capture_from(capture_from(state, a, ps), b, ps),
    decreases b.len(),
{
    if b.len() > 0 {
        assert((a + b).drop_last() =~= a + b.drop_last());
        assert((a + b).last() == b.last());
        lemma_capture_concat(state, a, b.drop_last(), ps);
    } else {
        assert(a + b =~= a);
    }
}

/// Appending for `a + b` is appending for `a`, then for `b`.
proof fn lemma_append_concat(t: TreeInput, m: Map<Option<u32>, Seq<u32>>, a: Seq<RowView>, b: Seq<RowView>)
    ensures
        append_keys(t, m, a + b) == append_keys(t, append_keys(t, m, a), b),
    decreases b.len(),
{
    if b.len() > 0 {
        assert((a + b).drop_last() =~= a + b.drop_last());
        assert((a + b).last() == b.last());
        lemma_append_concat(t, m, a, b.drop_last());
    } else {
        assert(a + b =~= a);
    }
}

/// The ancestor pids of a child are its parent's, then the parent's own pid.
proof fn lemma_anc_pids_child(t: TreeInput, i: usize, c: usize, d: nat)
    requires
        c < t.par().len(),
        t.par()[c as int] == Some(i),
    ensures
        anc_pids(t, c, d + 1) == anc_pids(t, i, d).push(t.ps[i as int].pid),
{
    let par = t.par();
    lemma_step_one(par, c);
    assert forall|l: int| 0 <= l < d implies #[trigger] anc_pids(t, c, d + 1)[l] == anc_pids(t, i, d)[l] by {
        lemma_walk_split(par, c, 1, (d - l) as nat);
        assert((d + 1 - l) as nat == 1 + (d - l) as nat);
    }
    assert(anc_pids(t, c, d + 1) =~= anc_pids(t, i, d).push(t.ps[i as int].pid));
}

/// Reading the rows drawn for node `i`, with the stack holding the pids of its
/// ancestors, appends each row's pid under its parent's key and leaves the ancestors and
/// `i` on the stack.
proof fn lemma_node_capture(
    t: TreeInput,
    i: usize,
    is_last: bool,
    is_root: bool,
    prefix: Seq<BranchKind>,
    fuel: nat,
    m: Map<Option<u32>, Seq<u32>>,
    st: Seq<u32>,
)
    requires
        forest(t),
        kids_exact(t),
        i < t.ps.len(),
        t.shown(i),
        fuel <= t.ps.len(),
        ancestor_at(t.par(), i, (t.ps.len() - fuel) as nat) is Some,
        is_root ==> prefix.len() == 0,
        (prefix.len() + if is_root { 0nat } else { 1nat } == 0) == (t.par()[i as int] is None),
        st.len() >= prefix.len() + if is_root { 0nat } else { 1nat },
        st.take((prefix.len() + if is_root { 0nat } else { 1nat }) as int) == anc_pids(
            t,
            i,
            prefix.len() + if is_root { 0nat } else { 1nat },
        ),
    ensures
        ({
            let d = prefix.len() + if is_root { 0nat } else { 1nat };
            let out = capture_from((m, st), t.node_rows(i, is_last, is_root, prefix, fuel), t.ps);
            &&& out.0 == append_keys(t, m, t.node_rows(i, is_last, is_root, prefix, fuel))
            &&& out.1.len() >= d + 1
            &&& out.1.take(d + 1int) == anc_pids(t, i, d).push(t.ps[i as int].pid)
        }),
    decreases fuel, 0nat, 0nat,
{
    let n = t.ps.len();
    let par = t.par();
    let d = prefix.len() + if is_root { 0nat } else { 1nat };
    lemma_walk_ends(par, i, (n - fuel) as nat);
    let row = t.row(i, is_last, is_root, prefix);
    let rows = t.node_rows(i, is_last, is_root, prefix, fuel);
    assert(row.depth == d);
    assert(row.idx == i);
    let st2 = st.take(d as int);
    assert(capture_step((m, st), row, t.ps).1 == st2.push(t.ps[i as int].pid)) by {
        if d >= st.len() {
            assert(st =~= st2);
        }
    }
    assert(capture_step((m, st), row, t.ps).0 == append_keys(t, m, seq![row])) by {
        assert(seq![row].drop_last() =~= Seq::<RowView>::empty());
        assert(append_keys(t, m, Seq::<RowView>::empty()) == m);
        assert(seq![row].last() == row);
        if d >= st.len() {
            assert(st =~= st2);
        }
        if d > 0 {
            lemma_step_one(par, i);
            assert(st2.last() == anc_pids(t, i, d)[d - 1]);
        }
    }
    assert(capture_from((m, st), seq![row], t.ps) == capture_step((m, st), row, t.ps)) by {
        assert(seq![row].drop_last() =~= Seq::<RowView>::empty());
        assert(capture_from((m, st), Seq::<RowView>::empty(), t.ps) == (m, st));
        assert(seq![row].last() == row);
    }
    let m1 = append_keys(t, m, seq![row]);
    let st3 = st2.push(t.ps[i as int].pid);
    assert(st3.take(d + 1int) =~= st3);
    if row.is_collapsed {
        assert(rows == seq![row]);
    } else {
        let kids = t.shown_kids(Some(i));
        let cp = t.child_prefix(is_last, is_root, prefix);
        let f1 = (fuel - 1) as nat;
        lemma_shown_kids(t, Some(i));
        assert forall|x: int| 0 <= x < kids.len() implies {
            &&& #[trigger] kids[x] < t.ps.len()
            &&& t.par()[kids[x] as int] == Some(i)
            &&& t.shown(kids[x])
            &&& ancestor_at(t.par(), kids[x], (t.ps.len() - f1) as nat) is Some
        } by {
            let c = kids[x];
            assert(kids.contains(c));
            lemma_step_one(par, c);
            lemma_walk_split(par, c, 1, (n - fuel) as nat);
            assert((n - f1) as nat == 1 + (n - fuel) as nat);
        }
        assert(good_list(t, kids, Some(i), f1));
        assert(cp.len() + 1 == d + 1);
        assert forall|x: int| 0 <= x < kids.len() implies anc_pids(t, #[trigger] kids[x], d + 1) == st3.take(d + 1int) by {
            lemma_anc_pids_child(t, i, kids[x], d);
        }
        lemma_list_capture(t, kids, Some(i), kids.len(), false, cp, f1, m1, st3);
        let sub = t.list_rows(kids, kids.len(), false, cp, f1);
        assert(rows == seq![row] + sub);
        lemma_capture_concat((m, st), seq![row], sub, t.ps);
        lemma_append_concat(t, m, seq![row], sub);
    }
}

/// Reading the rows drawn for the first `k` siblings of a list, with the stack holding
/// the pids of their ancestors, appends each row's pid under its parent's key and leaves
/// those ancestors on the stack.
proof fn lemma_list_capture(
    t: TreeInput,
    list: Seq<usize>,
    q: Option<usize>,
    k: nat,
    is_root: bool,
    prefix: Seq<BranchKind>,
    fuel: nat,
    m: Map<Option<u32>, Seq<u32>>,
    st: Seq<u32>,
)
    requires
        forest(t),
        kids_exact(t),
        good_list(t, list, q, fuel),
        k <= list.len(),
        is_root ==> prefix.len() == 0,
        (prefix.len() + if is_root { 0nat } else { 1nat } == 0) == (q is None),
        st.len() >= prefix.len() + if is_root { 0nat } else { 1nat },
        forall|x: int| 0 <= x < list.len() ==> anc_pids(t, #[trigger] list[x], prefix.len() + if is_root { 0nat } else { 1nat })
            == st.take((prefix.len() + if is_root { 0nat } else { 1nat }) as int),
    ensures
        ({
            let d = prefix.len() + if is_root { 0nat } else { 1nat };
            let out = capture_from((m, st), t.list_rows(list, k, is_root, prefix, fuel), t.ps);
            &&& out.0 == append_keys(t, m, t.list_rows(list, k, is_root, prefix, fuel))
            &&& out.1.len() >= d
            &&& out.1.take(d as int) == st.take(d as int)
        }),
    decreases fuel, 1nat, k,
{
    let d = prefix.len() + if is_root { 0nat } else { 1nat };
    let rows = t.list_rows(list, k, is_root, prefix, fuel);
    if k == 0 {
        assert(rows == Seq::<RowView>::empty());
    } else {
        let k1 = (k - 1) as nat;
        lemma_list_capture(t, list, q, k1, is_root, prefix, fuel, m, st);
        let a = t.list_rows(list, k1, is_root, prefix, fuel);
        let (m1, st1) = capture_from((m, st), a, t.ps);
        let c = list[k1 as int];
        assert(anc_pids(t, c, d) == st.take(d as int));
        assert(st1.take(d as int) == anc_pids(t, c, d));
        lemma_node_capture(t, c, k1 == list.len() - 1, is_root, prefix, fuel, m1, st1);
        let b = t.node_rows(c, k1 == list.len() - 1, is_root, prefix, fuel);
        assert(rows == a + b);
        lemma_capture_concat((m, st), a, b, t.ps);
        lemma_append_concat(t, m, a, b);
        let st2 = capture_from((m1, st1), b, t.ps).1;
        assert(st2.take(d as int) =~= st2.take(d + 1int).take(d as int));
        assert(anc_pids(t, c, d).push(t.ps[c as int].pid).take(d as int) =~= anc_pids(t, c, d));
    }
}

/// The pids recorded under `k` in `m` (none when `k` is absent).
pub open spec fn recorded(m: Map<Option<u32>, Seq<u32>>, k: Option<u32>) -> Seq<u32> {
    if m.contains_key(k) {
        m[k]
    } else {
        Seq::empty()
    }
}

/// Node `x`'s parent key is `k`.
pub open spec fn keyed(t: TreeInput, k: Option<u32>) -> spec_fn(usize) -> bool {
    |x: usize| parent_key(t, x) == k
}

/// Node `x`'s parent link is `q`.
pub open spec fn child_of(t: TreeInput, q: Option<usize>) -> spec_fn(usize) -> bool {
    |x: usize| t.par()[x as int] == q
}

/// The pids of the listed nodes.
pub open spec fn pids_of(t: TreeInput, s: Seq<usize>) -> Seq<u32> {
    s.map_values(|x: usize| t.ps[x as int].pid)
}

/// Under each key, `append_keys` records the pids of the rows with that parent key, in
/// order.
proof fn lemma_append_keys_at(t: TreeInput, m: Map<Option<u32>, Seq<u32>>, rows: Seq<RowView>, k: Option<u32>)
    ensures
        recorded(append_keys(t, m, rows), k) == recorded(m, k) + pids_of(t, row_indices(rows).filter(keyed(t, k))),
        append_keys(t, m, rows).contains_key(k) <==> (m.contains_key(k) || row_indices(rows).filter(keyed(t, k)).len() > 0),
    decreases rows.len(),
{
    broadcast use vstd::seq_lib::group_filter_ensures;

    if rows.len() == 0 {
        assert(row_indices(rows) =~= Seq::<usize>::empty());
        reveal(Seq::filter);
        assert(row_indices(rows).filter(keyed(t, k)) =~= Seq::<usize>::empty());
        assert(recorded(m, k) + pids_of(t, Seq::<usize>::empty()) =~= recorded(m, k));
    } else {
        let r = rows.last();
        lemma_append_keys_at(t, m, rows.drop_last(), k);
        let pre = row_indices(rows.drop_last());
        assert(row_indices(rows) =~= pre.push(r.idx));
        pre.lemma_filter_push(r.idx, keyed(t, k));
        let f0 = pre.filter(keyed(t, k));
        if parent_key(t, r.idx) == k {
            assert(pids_of(t, f0.push(r.idx)) =~= pids_of(t, f0).push(t.ps[r.idx as int].pid));
            assert(recorded(m, k) + pids_of(t, f0.push(r.idx)) =~= (recorded(m, k) + pids_of(t, f0)).push(
                t.ps[r.idx as int].pid,
            ));
        }
    }
}

/// Filtering with two tests that agree on every element gives the same list.
pub(crate) proof fn lemma_filter_agree(s: Seq<usize>, f: spec_fn(usize) -> bool, g: spec_fn(usize) -> bool)
    requires
        forall|i: int| 0 <= i < s.len() ==> f(#[trigger] s[i]) == g(s[i]),
    ensures
        s.filter(f) == s.filter(g),
    decreases s.len(),
{
    reveal(Seq::filter);
    if s.len() > 0 {
        lemma_filter_agree(s.drop_last(), f, g);
    }
}

/// The rows drawn for `j` with parent link `q`: `j` itself when that is its link; the
/// shown children of `q`'s node when that node is drawn below `j` and does not fold;
/// otherwise none.
proof fn lemma_node_children_rows(
    t: TreeInput,
    j: usize,
    q: Option<usize>,
    is_last: bool,
    is_root: bool,
    prefix: Seq<BranchKind>,
    fuel: nat,
)
    requires
        forest(t),
        kids_exact(t),
        j < t.ps.len(),
        t.shown(j),
        fuel <= t.ps.len(),
        ancestor_at(t.par(), j, (t.ps.len() - fuel) as nat) is Some,
        match q {
            Some(p) => p < t.ps.len(),
            None => true,
        },
    ensures
        row_indices(t.node_rows(j, is_last, is_root, prefix, fuel)).filter(child_of(t, q)) == if t.par()[j as int] == q {
            seq![j]
        } else if q is Some && listed_below(t, j, q->0) && !folds(t, q->0) {
            t.shown_kids(q)
        } else {
            Seq::empty()
        },
    decreases fuel, 0nat, 0nat,
{
    broadcast use Seq::filter_distributes_over_add;

    let n = t.ps.len();
    let par = t.par();
    lemma_walk_ends(par, j, (n - fuel) as nat);
    let row = t.row(j, is_last, is_root, prefix);
    let rows = t.node_rows(j, is_last, is_root, prefix, fuel);
    let head = seq![j];
    assert(head.filter(child_of(t, q)) == if par[j as int] == q { seq![j] } else { Seq::<usize>::empty() }) by {
        reveal(Seq::filter);
        assert(head =~= Seq::<usize>::empty().push(j));
        Seq::<usize>::empty().lemma_filter_push(j, child_of(t, q));
        assert(Seq::<usize>::empty().filter(child_of(t, q)) =~= Seq::<usize>::empty());
    }
    if folds(t, j) {
        assert(rows == seq![row]);
        assert(row_indices(rows) =~= head);
        if q is Some && listed_below(t, j, q->0) && !folds(t, q->0) {
            lemma_fold_listing(t, j, q->0);
        }
    } else {
        let kids = t.shown_kids(Some(j));
        let cp = t.child_prefix(is_last, is_root, prefix);
        let f1 = (fuel - 1) as nat;
        lemma_shown_kids(t, Some(j));
        assert forall|x: int| 0 <= x < kids.len() implies {
            &&& #[trigger] kids[x] < t.ps.len()
            &&& t.par()[kids[x] as int] == Some(j)
            &&& t.shown(kids[x])
            &&& ancestor_at(t.par(), kids[x], (t.ps.len() - f1) as nat) is Some
        } by {
            let c = kids[x];
            assert(kids.contains(c));
            lemma_step_one(par, c);
            lemma_walk_split(par, c, 1, (n - fuel) as nat);
            assert((n - f1) as nat == 1 + (n - fuel) as nat);
        }
        assert(good_list(t, kids, Some(j), f1));
        lemma_list_children_rows(t, kids, Some(j), q, kids.len(), false, cp, f1);
        let sub = t.list_rows(kids, kids.len(), false, cp, f1);
        assert(rows == seq![row] + sub);
        assert(row_indices(rows) =~= head + row_indices(sub));
        assert(kids.take(kids.len() as int) =~= kids);
        if par[j as int] == q {
            if q is Some {
                assert forall|m: int| 0 <= m < kids.len() implies !listed_below(t, #[trigger] kids[m], q->0) by {
                    lemma_grandparent_not_below(t, q->0, j, kids[m]);
                }
            }
        } else if q is Some {
            let p = q->0;
            if j == p {
                assert(listed_below(t, j, j)) by {
                    assert(ancestor_at(par, j, 0) == Some(j));
                    assert(crate::listing::open_above(t, j, 0));
                }
            } else {
                lemma_below_iff_kid(t, j, p);
            }
        }
    }
}

/// A node is never drawn below a grandchild of its own.
proof fn lemma_grandparent_not_below(t: TreeInput, p: usize, j: usize, c: usize)
    requires
        forest(t),
        p < t.ps.len(),
        j < t.ps.len(),
        c < t.ps.len(),
        t.par()[j as int] == Some(p),
        t.par()[c as int] == Some(j),
    ensures
        !listed_below(t, c, p),
{
    let par = t.par();
    if listed_below(t, c, p) {
        let d = choose|d: nat| #[trigger] ancestor_at(par, p, d) == Some(c) && crate::listing::open_above(t, p, d);
        lemma_step_one(par, c);
        lemma_step_one(par, j);
        lemma_walk_split(par, p, d, 1);
        lemma_walk_split(par, p, d + 1, 1);
        assert(ancestor_at(par, p, d + 2) == Some(p));
        lemma_walk_ends(par, p, d + 2);
        assert(crate::tree::on_cycle(par, p));
    }
}

/// Below a node `j` that does not fold, `p` (another node) is drawn exactly when it is
/// drawn below one of `j`'s shown children.
proof fn lemma_below_iff_kid(t: TreeInput, j: usize, p: usize)
    requires
        forest(t),
        kids_exact(t),
        j < t.ps.len(),
        !folds(t, j),
        j != p,
    ensures
        (exists|m: int| 0 <= m < t.shown_kids(Some(j)).len() && listed_below(t, t.shown_kids(Some(j))[m], p))
            == listed_below(t, j, p),
{
    let kids = t.shown_kids(Some(j));
    lemma_shown_kids(t, Some(j));
    if exists|m: int| 0 <= m < kids.len() && listed_below(t, kids[m], p) {
        let m = choose|m: int| 0 <= m < kids.len() && listed_below(t, kids[m], p);
        assert(kids.contains(kids[m]));
        lemma_listed_through_child(t, j, kids[m], p);
    }
    if listed_below(t, j, p) {
        lemma_listed_child_of(t, j, p);
    }
}

/// The rows drawn for the first `k` siblings of a list (siblings under `ql`) with parent
/// link `q`: those siblings themselves when `ql` is `q`; the shown children of `q`'s node
/// when that node is drawn below one of them and does not fold; otherwise none.
proof fn lemma_list_children_rows(
    t: TreeInput,
    list: Seq<usize>,
    ql: Option<usize>,
    q: Option<usize>,
    k: nat,
    is_root: bool,
    prefix: Seq<BranchKind>,
    fuel: nat,
)
    requires
        forest(t),
        kids_exact(t),
        good_list(t, list, ql, fuel),
        k <= list.len(),
        match q {
            Some(p) => p < t.ps.len(),
            None => true,
        },
    ensures
        row_indices(t.list_rows(list, k, is_root, prefix, fuel)).filter(child_of(t, q)) == if ql == q {
            list.take(k as int)
        } else if q is Some && (exists|m: int| 0 <= m < k && listed_below(t, list[m], q->0)) && !folds(t, q->0) {
            t.shown_kids(q)
        } else {
            Seq::empty()
        },
    decreases fuel, 1nat, k,
{
    broadcast use Seq::filter_distributes_over_add;

    let rows = t.list_rows(list, k, is_root, prefix, fuel);
    if k == 0 {
        assert(row_indices(rows) =~= Seq::<usize>::empty());
        reveal(Seq::filter);
        assert(list.take(0) =~= Seq::<usize>::empty());
    } else {
        let k1 = (k - 1) as nat;
        lemma_list_children_rows(t, list, ql, q, k1, is_root, prefix, fuel);
        let c = list[k1 as int];
        lemma_node_children_rows(t, c, q, k1 == list.len() - 1, is_root, prefix, fuel);
        let a = t.list_rows(list, k1, is_root, prefix, fuel);
        let b = t.node_rows(c, k1 == list.len() - 1, is_root, prefix, fuel);
        assert(rows == a + b);
        assert(row_indices(rows) =~= row_indices(a) + row_indices(b));
        if ql == q {
            assert(list.take(k as int) =~= list.take(k1 as int) + seq![c]);
        } else if q is Some {
            let p = q->0;
            if (exists|m: int| 0 <= m < k1 && listed_below(t, list[m], p)) && listed_below(t, c, p) {
                let m = choose|m: int| 0 <= m < k1 && listed_below(t, list[m], p);
                lemma_siblings_apart(t, list[m], c, p);
            }
            if exists|m: int| 0 <= m < k && listed_below(t, list[m], p) {
                let m = choose|m: int| 0 <= m < k && listed_below(t, list[m], p);
                if m < k1 {
                    assert(exists|m: int| 0 <= m < k1 && listed_below(t, list[m], p));
                }
            }
            if listed_below(t, c, p) {
                assert(exists|m: int| 0 <= m < k && listed_below(t, list[m], p)) by {
                    assert(list[k1 as int] == c);
                }
            }
            if exists|m: int| 0 <= m < k1 && listed_below(t, list[m], p) {
                let m = choose|m: int| 0 <= m < k1 && listed_below(t, list[m], p);
                assert(exists|m: int| 0 <= m < k && listed_below(t, list[m], p));
            }
        }
    }
}

/// No two children of one process, and no two roots, share a pid.
pub open spec fn siblings_distinct(t: TreeInput) -> bool {
    forall|q: Option<usize>, a: usize, b: usize|
        #[trigger] children_set(t.par(), q).contains(a) && #[trigger] children_set(t.par(), q).contains(b) && a != b
            ==> t.ps[a as int].pid != t.ps[b as int].pid
}

/// The same processes at the same positions (pid, parent pid and name alike), whatever
/// their measurements.
pub open spec fn same_processes(a: Seq<ProcessInfo>, b: Seq<ProcessInfo>) -> bool {
    &&& a.len() == b.len()
    &&& forall|i: int|
        #![trigger a[i]]
        #![trigger b[i]]
        0 <= i < a.len() ==> a[i].pid == b[i].pid && a[i].ppid == b[i].ppid && a[i].name@ == b[i].name@
}

/// The pid lookup finds the same process in lists of the same processes.
proof fn lemma_same_pid_index(a: Seq<ProcessInfo>, b: Seq<ProcessInfo>, q: u32)
    requires
        a.len() <= usize::MAX,
        same_processes(a, b),
    ensures
        pid_index(a, q) == pid_index(b, q),
{
    let n = a.len();
    let s = index_set(n);
    lemma_index_set_len(n);
    if has_pid(a, s, q) {
        let c = choose|c: usize| #[trigger] s.contains(c) && a[c as int].pid == q;
        assert(s.contains(c) && b[c as int].pid == q);
        lemma_rep_exists(a, s, q);
        lemma_rep_exists(b, s, q);
        let ra = rep_of(a, s, q);
        let rb = rep_of(b, s, q);
        assert(is_rep(a, s, rb)) by {
            assert forall|d: usize| #[trigger] s.contains(d) && d > rb implies a[d as int].pid != a[rb as int].pid by {
                assert(b[d as int].pid != b[rb as int].pid);
            }
        }
        lemma_rep_unique(a, s, ra, rb);
    } else {
        if has_pid(b, s, q) {
            let c = choose|c: usize| #[trigger] s.contains(c) && b[c as int].pid == q;
            assert(s.contains(c) && a[c as int].pid == q);
        }
    }
}

/// Lists of the same processes have the same tree links.
proof fn lemma_same_links(a: Seq<ProcessInfo>, b: Seq<ProcessInfo>)
    requires
        a.len() <= usize::MAX,
        same_processes(a, b),
    ensures
        raw_parents(a) == raw_parents(b),
{
    assert forall|i: int| 0 <= i < a.len() implies #[trigger] raw_parents(a)[i] == raw_parents(b)[i] by {
        assert(a[i].ppid == b[i].ppid);
        match a[i].ppid {
            Some(q) => {
                lemma_same_pid_index(a, b, q);
            },
            None => {},
        }
    }
    assert(raw_parents(a) =~= raw_parents(b));
}

/// Lists of the same processes, on the same links, show the same nodes under a filter.
proof fn lemma_same_shown(a: Seq<ProcessInfo>, b: Seq<ProcessInfo>, par: Seq<Option<usize>>, filter: Seq<char>, j: usize)
    requires
        same_processes(a, b),
    ensures
        shown(a, par, filter, j) == shown(b, par, filter, j),
{
    if shown(a, par, filter, j) {
        let w = choose|w: usize| w < a.len() && crate::tree::name_matches(a[w as int].name@, filter) && #[trigger] reaches(par, w, j);
        assert(b[w as int].name@ == a[w as int].name@);
    }
    if shown(b, par, filter, j) {
        let w = choose|w: usize| w < b.len() && crate::tree::name_matches(b[w as int].name@, filter) && #[trigger] reaches(par, w, j);
        assert(b[w as int].name@ == a[w as int].name@);
    }
}

/// Lists of the same processes, on the same links, count the same shown nodes below a node.
proof fn lemma_same_count(a: Seq<ProcessInfo>, b: Seq<ProcessInfo>, par: Seq<Option<usize>>, filter: Seq<char>, i: usize, k: nat)
    requires
        same_processes(a, b),
    ensures
        count_shown_below(a, par, filter, i, k) == count_shown_below(b, par, filter, i, k),
    decreases k,
{
    if k > 0 {
        lemma_same_count(a, b, par, filter, i, (k - 1) as nat);
        lemma_same_shown(a, b, par, filter, (k - 1) as usize);
    }
}

/// Siblings with distinct pids have them wherever a frozen order applies.
proof fn lemma_distinct_siblings(t: TreeInput)
    requires
        siblings_distinct(t),
    ensures
        frozen_siblings_distinct(t),
{
}

/// A frozen order is kept for `p`'s children.
spec fn frozen_for_some(t: TreeInput, p: Option<usize>) -> bool {
    crate::tree::frozen_for(t.frozen, parent_pid(t.ps, p)) is Some
}

/// What the tree view is read from: the forest, exact child lists, and the roots'
/// list drawn with every level available.
proof fn lemma_rows_setup(t: TreeInput)
    requires
        t.ps.len() <= usize::MAX,
        frozen_siblings_distinct(t),
    ensures
        forest(t),
        kids_exact(t),
        frozen_siblings_distinct(t),
        good_list(t, t.shown_kids(None), None, t.ps.len()),
        t.rows() == t.list_rows(t.shown_kids(None), t.shown_kids(None).len(), true, Seq::empty(), t.ps.len()),
{
    let n = t.ps.len();
    lemma_forest(t);
    assert forall|p: Option<usize>| #![trigger t.kids(p)] t.kids(p).no_duplicates() && forall|c: usize| #[trigger] t.kids(p).contains(c)
        <==> children_set(t.par(), p).contains(c) by {
        lemma_kids_exact(t, p);
    }
    let roots = t.shown_kids(None);
    lemma_shown_kids(t, None);
    assert forall|m: int| 0 <= m < roots.len() implies {
        &&& #[trigger] roots[m] < t.ps.len()
        &&& t.par()[roots[m] as int] == None::<usize>
        &&& t.shown(roots[m])
        &&& ancestor_at(t.par(), roots[m], (t.ps.len() - n) as nat) is Some
    } by {
        assert(roots.contains(roots[m]));
    }
}

/// A parent is the process its children's pid lookup finds: no later process has its pid.
proof fn lemma_parent_is_rep(t: TreeInput, x: usize)
    requires
        t.ps.len() <= usize::MAX,
        x < t.ps.len(),
        t.par()[x as int] is Some,
    ensures
        is_rep(t.ps, index_set(t.ps.len()), t.par()[x as int]->0),
{
    let n = t.ps.len();
    lemma_index_set_len(n);
    let raw = raw_parents(t.ps);
    assert(t.par()[x as int] == (if crate::tree::is_cut(raw, x) { None } else { raw[x as int] }));
    assert(raw[x as int] == raw_parent(t.ps, x));
    let q = t.ps[x as int].ppid->0;
    lemma_rep_exists(t.ps, index_set(n), q);
}

/// Recording the tree view records, under the roots' key and under the pid of every
/// node drawn expanded that has children, the pids of its shown children in the order
/// they are drawn, and records the key exactly when there are such children (for a
/// view built after frozen orders, siblings under them taken to have distinct pids).
pub proof fn lemma_capture_records_order(t: TreeInput, q: Option<usize>)
    requires
        t.ps.len() <= usize::MAX,
        frozen_siblings_distinct(t),
        match q {
            Some(p) => listed(t, p) && !folds(t, p) && exists|c: usize| #[trigger] children_set(t.par(), q).contains(c),
            None => true,
        },
    ensures
        capture_state(t.rows(), t.ps).0.contains_key(parent_pid(t.ps, q)) == (t.shown_kids(q).len() > 0),
        recorded(capture_state(t.rows(), t.ps).0, parent_pid(t.ps, q)) == pids_of(t, t.shown_kids(q)),
{
    let n = t.ps.len();
    lemma_rows_setup(t);
    let par = t.par();
    let roots = t.shown_kids(None);
    let rows = t.rows();
    let k = parent_pid(t.ps, q);
    assert forall|x: int| 0 <= x < roots.len() implies anc_pids(t, #[trigger] roots[x], 0) == Seq::<u32>::empty().take(0) by {
        assert(anc_pids(t, roots[x], 0) =~= Seq::<u32>::empty().take(0));
    }
    lemma_list_capture(t, roots, None, roots.len(), true, Seq::empty(), n, Map::empty(), Seq::empty());
    let f = capture_state(rows, t.ps).0;
    assert(f == append_keys(t, Map::empty(), rows));
    lemma_append_keys_at(t, Map::empty(), rows, k);
    lemma_tree_rows_each_once(t);
    let idx = row_indices(rows);
    assert forall|i: int| 0 <= i < idx.len() implies keyed(t, k)(#[trigger] idx[i]) == child_of(t, q)(idx[i]) by {
        assert(idx.contains(idx[i]));
        let x = idx[i];
        assert(x < n);
        match par[x as int] {
            Some(p2) => {
                assert(p2 < n);
                match q {
                    Some(p) => {
                        if t.ps[p2 as int].pid == t.ps[p as int].pid {
                            let c0 = choose|c: usize| #[trigger] children_set(t.par(), q).contains(c);
                            lemma_parent_is_rep(t, x);
                            lemma_parent_is_rep(t, c0);
                            lemma_rep_unique(t.ps, index_set(n), p2, p);
                        }
                    },
                    None => {},
                }
            },
            None => {},
        }
    }
    lemma_filter_agree(idx, keyed(t, k), child_of(t, q));
    lemma_list_children_rows(t, roots, None, q, roots.len(), true, Seq::empty(), n);
    assert(roots.take(roots.len() as int) =~= roots);
    match q {
        Some(p) => {
            lemma_list_listing(t, roots, None, roots.len(), true, Seq::empty(), n);
            assert(idx.contains(p));
        },
        None => {},
    }
    assert(recorded(Map::<Option<u32>, Seq<u32>>::empty(), k) + pids_of(t, t.shown_kids(q)) =~= pids_of(t, t.shown_kids(q)));
}

/// The tree input rebuilt from `t`'s recorded view, over `ps2`, sorted by `key2`/`dir2`.
pub open spec fn rebuilt(t: TreeInput, ps2: Seq<ProcessInfo>, key2: SortKey, dir2: SortDir) -> TreeInput {
    TreeInput {
        ps: ps2,
        key: key2,
        dir: dir2,
        collapsed: t.collapsed,
        filter: t.filter,
        frozen: Some(capture_state(t.rows(), t.ps).0),
    }
}

/// Over the same processes, links, shown nodes and folded counts do not change.
pub(crate) proof fn lemma_rebuild_basics(t: TreeInput, t2: TreeInput)
    requires
        t.ps.len() <= usize::MAX,
        same_processes(t.ps, t2.ps),
        t2.filter == t.filter,
    ensures
        t2.par() == t.par(),
        siblings_distinct(t) ==> siblings_distinct(t2),
        t2.ps.len() <= usize::MAX,
        forall|j: usize| #[trigger] t2.shown(j) == t.shown(j),
        forall|i: usize| #[trigger] t2.hidden_below(i) == t.hidden_below(i),
{
    lemma_same_links(t.ps, t2.ps);
    if siblings_distinct(t) {
        assert forall|q: Option<usize>, a: usize, b: usize|
            #[trigger] children_set(t2.par(), q).contains(a) && #[trigger] children_set(t2.par(), q).contains(b) && a != b
                implies t2.ps[a as int].pid != t2.ps[b as int].pid by {
            assert(children_set(t.par(), q).contains(a) && children_set(t.par(), q).contains(b));
            assert(a < t.ps.len() && b < t.ps.len());
            assert(t2.ps[a as int].pid == t.ps[a as int].pid && t2.ps[b as int].pid == t.ps[b as int].pid);
        }
    }
    assert forall|j: usize| #[trigger] t2.shown(j) == t.shown(j) by {
        lemma_same_shown(t.ps, t2.ps, t.par(), t.filter, j);
    }
    assert forall|i: usize| #[trigger] t2.hidden_below(i) == t.hidden_below(i) by {
        lemma_same_count(t.ps, t2.ps, t.par(), t.filter, i, t.ps.len());
    }
}

/// Keeping, in the order of `f`, the pids of `f` present keeps all of `f` when it repeats
/// none and all are present.
proof fn lemma_kept_all(ps: Seq<ProcessInfo>, s: Set<usize>, f: Seq<u32>)
    requires
        f.no_duplicates(),
        forall|m: int| 0 <= m < f.len() ==> has_pid(ps, s, #[trigger] f[m]),
    ensures
        kept_pids(ps, s, f) == f,
    decreases f.len(),
{
    if f.len() > 0 {
        let g = f.drop_last();
        assert forall|m: int| 0 <= m < g.len() implies has_pid(ps, s, #[trigger] g[m]) by {
            assert(f[m] == g[m]);
        }
        lemma_kept_all(ps, s, g);
        if g.contains(f.last()) {
            let m = choose|m: int| 0 <= m < g.len() && g[m] == f.last();
            assert(f[m] == f[f.len() - 1]);
        }
        assert(has_pid(ps, s, f[f.len() - 1]));
        assert(g.push(f.last()) =~= f);
    }
}

/// Keeping the elements that pass a test nobody fails keeps everything.
pub(crate) proof fn lemma_filter_all(s: Seq<usize>, pred: spec_fn(usize) -> bool)
    requires
        forall|i: int| 0 <= i < s.len() ==> pred(#[trigger] s[i]),
    ensures
        s.filter(pred) == s,
    decreases s.len(),
{
    reveal(Seq::filter);
    if s.len() > 0 {
        lemma_filter_all(s.drop_last(), pred);
        assert(s.drop_last().push(s.last()) =~= s);
    }
}

/// Keeping the elements that pass a test everybody fails keeps nothing.
proof fn lemma_filter_none(s: Seq<usize>, pred: spec_fn(usize) -> bool)
    requires
        forall|i: int| 0 <= i < s.len() ==> !pred(#[trigger] s[i]),
    ensures
        s.filter(pred) == Seq::<usize>::empty(),
    decreases s.len(),
{
    reveal(Seq::filter);
    if s.len() > 0 {
        lemma_filter_none(s.drop_last(), pred);
    } else {
        assert(s =~= Seq::<usize>::empty());
    }
}

/// Over the same processes, every sibling list holds the same shown children.
pub(crate) proof fn lemma_same_shown_kids(t: TreeInput, t2: TreeInput, q: Option<usize>)
    requires
        t.ps.len() <= usize::MAX,
        siblings_distinct(t),
        same_processes(t.ps, t2.ps),
        t2.filter == t.filter,
    ensures
        t.shown_kids(q).no_duplicates(),
        t2.shown_kids(q).no_duplicates(),
        forall|c: usize| #[trigger] t2.shown_kids(q).contains(c) == t.shown_kids(q).contains(c),
        (t2.shown_kids(q).len() > 0) == (t.shown_kids(q).len() > 0),
{
    lemma_rebuild_basics(t, t2);
    lemma_distinct_siblings(t);
    lemma_distinct_siblings(t2);
    lemma_rows_setup(t);
    lemma_rows_setup(t2);
    lemma_shown_kids(t, q);
    lemma_shown_kids(t2, q);
    if t.shown_kids(q).len() > 0 {
        assert(t.shown_kids(q).contains(t.shown_kids(q)[0]));
        assert(t2.shown_kids(q).contains(t.shown_kids(q)[0]));
    }
    if t2.shown_kids(q).len() > 0 {
        assert(t2.shown_kids(q).contains(t2.shown_kids(q)[0]));
        assert(t.shown_kids(q).contains(t2.shown_kids(q)[0]));
    }
}

/// Rebuilt after the record, the shown children of the roots and of every node drawn
/// expanded come in the recorded order.
proof fn lemma_frozen_kids(t: TreeInput, ps2: Seq<ProcessInfo>, key2: SortKey, dir2: SortDir, q: Option<usize>)
    requires
        t.ps.len() <= usize::MAX,
        siblings_distinct(t),
        same_processes(t.ps, ps2),
        match q {
            Some(p) => listed(t, p) && !folds(t, p),
            None => true,
        },
    ensures
        rebuilt(t, ps2, key2, dir2).shown_kids(q) == t.shown_kids(q),
{
    let t2 = rebuilt(t, ps2, key2, dir2);
    let n = t.ps.len();
    lemma_rebuild_basics(t, t2);
    lemma_same_shown_kids(t, t2, q);
    lemma_distinct_siblings(t);
    lemma_distinct_siblings(t2);
    lemma_rows_setup(t);
    lemma_rows_setup(t2);
    let sk = t.shown_kids(q);
    let par = t.par();
    if sk.len() == 0 {
        assert(t2.shown_kids(q).len() == 0);
        assert(t2.shown_kids(q) =~= sk);
    } else {
        assert(sk.contains(sk[0]));
        lemma_shown_kids(t, q);
        assert(children_set(t.par(), q).contains(sk[0]));
        lemma_capture_records_order(t, q);
        let fm = capture_state(t.rows(), t.ps).0;
        let k = parent_pid(t.ps, q);
        assert(parent_pid(ps2, q) == k) by {
            match q {
                Some(p) => {
                    assert(p < n);
                    assert(ps2[p as int].pid == t.ps[p as int].pid);
                },
                None => {},
            }
        }
        let f = pids_of(t, sk);
        assert(fm.contains_key(k) && fm[k] == f);
        let s = children_set(par, q);
        lemma_shown_kids(t, q);
        assert forall|m: int| 0 <= m < sk.len() implies s.contains(#[trigger] sk[m]) && t.shown(sk[m]) by {
            assert(sk.contains(sk[m]));
        }
        assert(f.no_duplicates()) by {
            assert forall|a: int, b: int| 0 <= a < f.len() && 0 <= b < f.len() && a != b implies f[a] != f[b] by {
                assert(s.contains(sk[a]) && s.contains(sk[b]));
                assert(sk[a] != sk[b]);
                assert(t.ps[sk[a] as int].pid != t.ps[sk[b] as int].pid);
            }
        }
        assert forall|m: int| 0 <= m < f.len() implies has_pid(ps2, s, #[trigger] f[m]) by {
            assert(s.contains(sk[m]));
            assert(ps2[sk[m] as int].pid == f[m]);
        }
        lemma_kept_all(ps2, s, f);
        let kr = kept_pids(ps2, s, f).map_values(|q2: u32| rep_of(ps2, s, q2));
        lemma_index_set_len(n);
        assert(s.subset_of(index_set(n)));
        vstd::set_lib::lemma_len_subset(s, index_set(n));
        assert(kr =~= sk) by {
            assert forall|m: int| 0 <= m < sk.len() implies #[trigger] kr[m] == sk[m] by {
                assert(s.contains(sk[m]));
                assert(has_pid(ps2, s, f[m]));
                lemma_rep_exists(ps2, s, f[m]);
                let r = rep_of(ps2, s, f[m]);
                assert(s.contains(r));
                assert(ps2[r as int].pid == ps2[sk[m] as int].pid);
            }
        }
        let ls = leftover_set(ps2, s, f);
        assert(ls.subset_of(s));
        vstd::set_lib::lemma_len_subset(ls, s);
        let sa = sorted_arrangement(ps2, key2, dir2, ls);
        lemma_sorted_arrangement(ps2, key2, dir2, ls);
        assert(t2.kids(q) == kr + sa);
        let pred = |c: usize| t2.shown(c);
        assert forall|i: int| 0 <= i < kr.len() implies pred(#[trigger] kr[i]) by {
            assert(t.shown(sk[i]));
        }
        assert forall|i: int| 0 <= i < sa.len() implies !pred(#[trigger] sa[i]) by {
            let c = sa[i];
            assert(sa.contains(c));
            assert(ls.contains(c));
            if t.shown(c) {
                assert(sk.contains(c));
                let m = choose|m: int| 0 <= m < sk.len() && sk[m] == c;
                assert(f[m] == t.ps[c as int].pid);
                assert(f.contains(ps2[c as int].pid));
            }
        }
        lemma_filter_all(kr, pred);
        lemma_filter_none(sa, pred);
        assert((kr + sa).filter(pred) == kr.filter(pred) + sa.filter(pred)) by {
            broadcast use Seq::filter_distributes_over_add;
        }
        assert(t2.shown_kids(q) == (kr + sa).filter(pred));
        assert(kr + Seq::<usize>::empty() =~= kr);
    }
}

/// A shown child of a node drawn expanded is drawn.
proof fn lemma_kid_listed(t: TreeInput, i: usize, c: usize)
    requires
        forest(t),
        kids_exact(t),
        listed(t, i),
        !folds(t, i),
        t.shown_kids(Some(i)).contains(c),
    ensures
        listed(t, c),
{
    let par = t.par();
    lemma_shown_kids(t, Some(i));
    assert(c < t.ps.len() && par[c as int] == Some(i) && t.shown(c));
    assert forall|k: nat| 1 <= k implies match #[trigger] ancestor_at(t.par(), c, k) {
        Some(a) => !folds(t, a),
        None => true,
    } by {
        lemma_step_one(par, c);
        lemma_walk_split(par, c, 1, (k - 1) as nat);
        if k > 1 {
            assert(match ancestor_at(t.par(), i, (k - 1) as nat) {
                Some(a) => !folds(t, a),
                None => true,
            });
        }
    }
}

/// A shown root is drawn.
proof fn lemma_root_listed(t: TreeInput, r: usize)
    requires
        forest(t),
        kids_exact(t),
        t.shown_kids(None).contains(r),
    ensures
        listed(t, r),
{
    let par = t.par();
    lemma_shown_kids(t, None);
    assert(r < t.ps.len() && par[r as int] is None && t.shown(r));
    assert forall|k: nat| 1 <= k implies match #[trigger] ancestor_at(t.par(), r, k) {
        Some(a) => !folds(t, a),
        None => true,
    } by {
        lemma_step_one(par, r);
        if ancestor_at(par, r, k) is Some {
            crate::forest::lemma_walk_defined_before(par, r, k, 1);
        }
    }
}

/// Rebuilt after the record, a drawn node is drawn with the same rows.
proof fn lemma_rebuilt_node(
    t: TreeInput,
    ps2: Seq<ProcessInfo>,
    key2: SortKey,
    dir2: SortDir,
    i: usize,
    is_last: bool,
    is_root: bool,
    prefix: Seq<BranchKind>,
    fuel: nat,
)
    requires
        t.ps.len() <= usize::MAX,
        siblings_distinct(t),
        same_processes(t.ps, ps2),
        listed(t, i),
    ensures
        rebuilt(t, ps2, key2, dir2).node_rows(i, is_last, is_root, prefix, fuel) == t.node_rows(
            i,
            is_last,
            is_root,
            prefix,
            fuel,
        ),
    decreases fuel, 0nat, 0nat,
{
    let t2 = rebuilt(t, ps2, key2, dir2);
    if fuel > 0 {
        lemma_distinct_siblings(t);
        lemma_rows_setup(t);
        lemma_rebuild_basics(t, t2);
        lemma_same_shown_kids(t, t2, Some(i));
        assert(t2.ps[i as int].pid == t.ps[i as int].pid);
        let row = t.row(i, is_last, is_root, prefix);
        assert(t2.row(i, is_last, is_root, prefix) == row);
        if !row.is_collapsed {
            lemma_frozen_kids(t, ps2, key2, dir2, Some(i));
            let kids = t.shown_kids(Some(i));
            assert forall|m: int| 0 <= m < kids.len() implies listed(t, #[trigger] kids[m]) by {
                assert(kids.contains(kids[m]));
                lemma_kid_listed(t, i, kids[m]);
            }
            lemma_rebuilt_list(
                t,
                ps2,
                key2,
                dir2,
                kids,
                kids.len(),
                false,
                t.child_prefix(is_last, is_root, prefix),
                (fuel - 1) as nat,
            );
        }
    }
}

/// Rebuilt after the record, a list of drawn siblings is drawn with the same rows.
proof fn lemma_rebuilt_list(
    t: TreeInput,
    ps2: Seq<ProcessInfo>,
    key2: SortKey,
    dir2: SortDir,
    list: Seq<usize>,
    k: nat,
    is_root: bool,
    prefix: Seq<BranchKind>,
    fuel: nat,
)
    requires
        t.ps.len() <= usize::MAX,
        siblings_distinct(t),
        same_processes(t.ps, ps2),
        forall|m: int| 0 <= m < list.len() ==> listed(t, #[trigger] list[m]),
    ensures
        rebuilt(t, ps2, key2, dir2).list_rows(list, k, is_root, prefix, fuel) == t.list_rows(
            list,
            k,
            is_root,
            prefix,
            fuel,
        ),
    decreases fuel, 1nat, k,
{
    if k > 0 && k <= list.len() {
        lemma_rebuilt_list(t, ps2, key2, dir2, list, (k - 1) as nat, is_root, prefix, fuel);
        lemma_rebuilt_node(t, ps2, key2, dir2, list[k - 1], k - 1 == list.len() - 1, is_root, prefix, fuel);
    }
}

/// Freezing keeps the view: a tree rebuilt after recording its rows, over the same
/// processes (pid, parent and name alike) with the same filter and collapsed set, is drawn
/// exactly as before, row for row, whatever the processes' measurements and the sort in
/// force (siblings taken to have distinct pids: the record keeps one process per pid).
pub proof fn lemma_frozen_rebuild(t: TreeInput, ps2: Seq<ProcessInfo>, key2: SortKey, dir2: SortDir)
    requires
        t.ps.len() <= usize::MAX,
        siblings_distinct(t),
        same_processes(t.ps, ps2),
    ensures
        rebuilt(t, ps2, key2, dir2).rows() == t.rows(),
{
    let t2 = rebuilt(t, ps2, key2, dir2);
    lemma_distinct_siblings(t);
    lemma_rows_setup(t);
    lemma_frozen_kids(t, ps2, key2, dir2, None);
    let roots = t.shown_kids(None);
    assert forall|m: int| 0 <= m < roots.len() implies listed(t, #[trigger] roots[m]) by {
        assert(roots.contains(roots[m]));
        lemma_root_listed(t, roots[m]);
    }
    lemma_rebuilt_list(t, ps2, key2, dir2, roots, roots.len(), true, Seq::empty(), t.ps.len());
}

} // verus!
