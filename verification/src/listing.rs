//! Which processes the tree view lists: every process that survives the filter and is
//! not folded into a collapsed ancestor, each exactly once, and nothing else.

use crate::forest::{
    lemma_cut_links_in_range, lemma_raw_parents_in_range, lemma_reaches_trans,
    lemma_tree_parents_acyclic, lemma_walk_defined_before, lemma_walk_ends, lemma_walk_in_range,
    lemma_walk_split,
};
use crate::order::{
    goes_before, has_pid, index_set, is_arranged, is_rep, kept_pids,
    leftover_set, lemma_goes_before, lemma_index_set_len, lemma_kept_pids, lemma_rep_exists,
    lemma_rep_unique, lemma_sorted_arrangement, rep_of, sorted_arrangement, SortDir, SortKey,
};
use crate::process::ProcessInfo;
use crate::tree::{
    ancestor_at, children_set, count_shown_below, frozen_for, links_in_range, on_cycle,
    parent_pid, raw_parents, reaches, step_up, strictly_below, BranchKind, RowView, TreeInput,
};
use vstd::prelude::*;
use vstd::seq_lib::lemma_no_dup_in_concat;

verus! {

/// The process indices of a list of rows, in order.
pub open spec fn row_indices(rows: Seq<RowView>) -> Seq<usize> {
    rows.map_values(|r: RowView| r.idx)
}

/// Node `a` is drawn collapsed: it has shown children and its pid is collapsed.
pub open spec fn folds(t: TreeInput, a: usize) -> bool {
    t.shown_kids(Some(a)).len() > 0 && t.collapsed.contains(t.ps[a as int].pid)
}

/// None of the first `d` nodes above `j` folds.
pub open spec fn open_above(t: TreeInput, j: usize, d: nat) -> bool {
    forall|k: nat| 1 <= k <= d ==> match #[trigger] ancestor_at(t.par(), j, k) {
        Some(a) => !folds(t, a),
        None => true,
    }
}

/// `j` is among the rows drawn for `i`: it is shown, lies `d` steps below `i`, and nothing
/// from its parent up to `i` folds.
pub open spec fn listed_below(t: TreeInput, i: usize, j: usize) -> bool {
    t.shown(j) && exists|d: nat| #[trigger] ancestor_at(t.par(), j, d) == Some(i) && open_above(t, j, d)
}

/// `j` is in the tree view: it survives the filter and no ancestor of it folds.
pub open spec fn listed(t: TreeInput, j: usize) -> bool {
    &&& j < t.ps.len()
    &&& t.shown(j)
    &&& forall|k: nat| 1 <= k ==> match #[trigger] ancestor_at(t.par(), j, k) {
        Some(a) => !folds(t, a),
        None => true,
    }
}

/// Wherever a frozen order applies, the siblings have distinct pids (a frozen order keeps
/// one process per pid).
pub open spec fn frozen_siblings_distinct(t: TreeInput) -> bool {
    forall|p: Option<usize>, a: usize, b: usize|
        frozen_for(t.frozen, parent_pid(t.ps, p)) is Some && #[trigger] children_set(t.par(), p).contains(a)
            && #[trigger] children_set(t.par(), p).contains(b) && a != b ==> t.ps[a as int].pid
            != t.ps[b as int].pid
}

/// The tree's links point into the list and form no cycle.
pub(crate) open spec fn forest(t: TreeInput) -> bool {
    &&& t.par().len() == t.ps.len()
    &&& links_in_range(t.par())
    &&& forall|x: usize| !#[trigger] on_cycle(t.par(), x)
}

/// Every child list holds each child exactly once.
pub(crate) open spec fn kids_exact(t: TreeInput) -> bool {
    forall|p: Option<usize>|
        #![trigger t.kids(p)]
        t.kids(p).no_duplicates() && forall|c: usize| #[trigger] t.kids(p).contains(c) <==> children_set(
            t.par(),
            p,
        ).contains(c)
}

pub(crate) proof fn lemma_forest(t: TreeInput)
    requires
        t.ps.len() <= usize::MAX,
    ensures
        forest(t),
{
    lemma_raw_parents_in_range(t.ps);
    lemma_cut_links_in_range(raw_parents(t.ps));
    assert forall|x: usize| !#[trigger] on_cycle(t.par(), x) by {
        lemma_tree_parents_acyclic(t.ps, x);
    }
}

/// An arrangement lists no index twice.
proof fn lemma_arranged_no_dup(ps: Seq<ProcessInfo>, key: SortKey, dir: SortDir, o: Seq<usize>)
    requires
        is_arranged(ps, key, dir, o),
    ensures
        o.no_duplicates(),
{
    assert forall|a: int, b: int| 0 <= a < o.len() && 0 <= b < o.len() && a != b implies o[a] != o[b] by {
        lemma_goes_before(ps, key, dir, o[a], o[a], o[a]);
        if a < b {
            assert(goes_before(ps, key, dir, o[a], o[b]));
        } else {
            assert(goes_before(ps, key, dir, o[b], o[a]));
        }
    }
}

/// A sibling set is finite.
proof fn lemma_children_finite(t: TreeInput, p: Option<usize>)
    requires
        t.ps.len() <= usize::MAX,
        forest(t),
    ensures
        children_set(t.par(), p).finite(),
{
    lemma_index_set_len(t.ps.len());
    assert(children_set(t.par(), p).subset_of(index_set(t.ps.len())));
    vstd::set_lib::lemma_len_subset(children_set(t.par(), p), index_set(t.ps.len()));
}

/// A frozen order over siblings with distinct pids lists each sibling exactly once.
proof fn lemma_frozen_exact(
    ps: Seq<ProcessInfo>,
    s: Set<usize>,
    f: Seq<u32>,
    key: SortKey,
    dir: SortDir,
)
    requires
        s.finite(),
        forall|a: usize, b: usize| #[trigger] s.contains(a) && #[trigger] s.contains(b) && a != b ==> ps[a as int].pid
            != ps[b as int].pid,
    ensures
        crate::order::frozen_arrangement(ps, s, f, key, dir).no_duplicates(),
        forall|c: usize| #[trigger] crate::order::frozen_arrangement(ps, s, f, key, dir).contains(c) <==> s.contains(c),
{
    let kp = kept_pids(ps, s, f);
    let kr = kp.map_values(|q: u32| rep_of(ps, s, q));
    let ls = leftover_set(ps, s, f);
    let sa = sorted_arrangement(ps, key, dir, ls);
    lemma_kept_pids(ps, s, f);
    assert(ls.subset_of(s));
    vstd::set_lib::lemma_len_subset(ls, s);
    lemma_sorted_arrangement(ps, key, dir, ls);
    lemma_arranged_no_dup(ps, key, dir, sa);
    assert forall|m: int| 0 <= m < kr.len() implies is_rep(ps, s, #[trigger] kr[m]) && ps[kr[m] as int].pid == kp[m]
        && f.contains(kp[m]) by {
        assert(kp.contains(kp[m]));
        lemma_rep_exists(ps, s, kp[m]);
    }
    assert(kr.no_duplicates()) by {
        assert forall|a: int, b: int| 0 <= a < kr.len() && 0 <= b < kr.len() && a != b implies kr[a] != kr[b] by {
            assert(is_rep(ps, s, kr[a]) && is_rep(ps, s, kr[b]));
        }
    }
    assert forall|x: int, y: int| 0 <= x < kr.len() && 0 <= y < sa.len() implies kr[x] != sa[y] by {
        assert(sa.contains(sa[y]));
        assert(ls.contains(sa[y]));
        assert(is_rep(ps, s, kr[x]));
    }
    lemma_no_dup_in_concat(kr, sa);
    assert(crate::order::frozen_arrangement(ps, s, f, key, dir) == kr + sa);
    assert forall|c: usize| #[trigger] (kr + sa).contains(c) <==> s.contains(c) by {
        if (kr + sa).contains(c) {
            let m = choose|m: int| 0 <= m < (kr + sa).len() && (kr + sa)[m] == c;
            if m < kr.len() {
                assert(kr[m] == c);
            } else {
                assert(sa[m - kr.len()] == c);
                assert(sa.contains(c));
            }
        }
        if s.contains(c) {
            assert(is_rep(ps, s, c));
            let q = ps[c as int].pid;
            if f.contains(q) {
                assert(has_pid(ps, s, q));
                assert(kp.contains(q));
                let m = choose|m: int| 0 <= m < kp.len() && kp[m] == q;
                lemma_rep_unique(ps, s, kr[m], c);
                assert((kr + sa)[m] == c);
            } else {
                assert(ls.contains(c));
                assert(sa.contains(c));
                let m = choose|m: int| 0 <= m < sa.len() && sa[m] == c;
                assert((kr + sa)[kr.len() + m] == c);
            }
        }
    }
}

/// Each child list holds its children exactly once.
pub(crate) proof fn lemma_kids_exact(t: TreeInput, p: Option<usize>)
    requires
        t.ps.len() <= usize::MAX,
        forest(t),
        frozen_siblings_distinct(t),
    ensures
        t.kids(p).no_duplicates(),
        forall|c: usize| #[trigger] t.kids(p).contains(c) <==> children_set(t.par(), p).contains(c),
{
    let s = children_set(t.par(), p);
    lemma_children_finite(t, p);
    match frozen_for(t.frozen, parent_pid(t.ps, p)) {
        Some(f) => {
            lemma_frozen_exact(t.ps, s, f, t.key, t.dir);
        },
        None => {
            lemma_sorted_arrangement(t.ps, t.key, t.dir, s);
            lemma_arranged_no_dup(t.ps, t.key, t.dir, sorted_arrangement(t.ps, t.key, t.dir, s));
        },
    }
}

/// Keeping some elements of a list without repeats gives a list without repeats.
proof fn lemma_filter_no_dup(s: Seq<usize>, pred: spec_fn(usize) -> bool)
    requires
        s.no_duplicates(),
    ensures
        s.filter(pred).no_duplicates(),
    decreases s.len(),
{
    reveal(Seq::filter);
    if s.len() > 0 {
        let rest = s.drop_last();
        let x = s.last();
        assert(rest.no_duplicates());
        lemma_filter_no_dup(rest, pred);
        if pred(x) {
            if rest.filter(pred).contains(x) {
                rest.lemma_filter_contains_rev(pred, x);
                let m = choose|m: int| 0 <= m < rest.len() && rest[m] == x;
                assert(s[m] == s[s.len() - 1]);
            }
            assert(s.filter(pred) == rest.filter(pred).push(x));
        }
    }
}

/// The shown children of `p` are listed each once.
pub(crate) proof fn lemma_shown_kids(t: TreeInput, p: Option<usize>)
    requires
        kids_exact(t),
    ensures
        t.shown_kids(p).no_duplicates(),
        forall|c: usize| #[trigger] t.shown_kids(p).contains(c) <==> (children_set(t.par(), p).contains(c) && t.shown(c)),
{
    broadcast use vstd::seq_lib::group_filter_ensures;

    let kids = t.kids(p);
    assert(kids.no_duplicates() && forall|c: usize| #[trigger] kids.contains(c) <==> children_set(t.par(), p).contains(c));
    let pred = |c: usize| t.shown(c);
    lemma_filter_no_dup(kids, pred);
    assert forall|c: usize| #[trigger] t.shown_kids(p).contains(c) <==> (children_set(t.par(), p).contains(c) && t.shown(c)) by {
        if t.shown_kids(p).contains(c) {
            kids.lemma_filter_contains_rev(pred, c);
            let m = choose|m: int| 0 <= m < kids.filter(pred).len() && kids.filter(pred)[m] == c;
            assert(pred(kids.filter(pred)[m]));
        }
        if children_set(t.par(), p).contains(c) && t.shown(c) {
            assert(kids.contains(c));
            let m = choose|m: int| 0 <= m < kids.len() && kids[m] == c;
            assert(kids.filter(pred).contains(kids[m]));
        }
    }
}

/// A shown node is a node of the list.
pub(crate) proof fn lemma_shown_in_range(t: TreeInput, j: usize)
    requires
        forest(t),
        t.shown(j),
    ensures
        j < t.ps.len(),
{
    let par = t.par();
    let j2 = choose|j2: usize| j2 < t.ps.len() && crate::tree::name_matches(t.ps[j2 as int].name@, t.filter) && #[trigger] reaches(par, j2, j);
    let k = choose|k: nat| k <= par.len() && #[trigger] ancestor_at(par, j2, k) == Some(j);
    lemma_walk_in_range(par, j2, k);
}

/// A node above a shown node is shown.
proof fn lemma_shown_up(t: TreeInput, j: usize, d: nat, c: usize)
    requires
        forest(t),
        t.shown(j),
        ancestor_at(t.par(), j, d) == Some(c),
    ensures
        t.shown(c),
{
    let par = t.par();
    lemma_shown_in_range(t, j);
    lemma_walk_ends(par, j, d);
    assert(reaches(par, j, c));
    let j2 = choose|j2: usize| j2 < t.ps.len() && crate::tree::name_matches(t.ps[j2 as int].name@, t.filter) && #[trigger] reaches(par, j2, j);
    lemma_reaches_trans(par, j2, j, c);
}

/// One step up from a node is its link.
pub(crate) proof fn lemma_step_one(par: Seq<Option<usize>>, c: usize)
    requires
        c < par.len(),
    ensures
        ancestor_at(par, c, 1) == par[c as int],
{
    assert(ancestor_at(par, c, 1) == step_up(par, ancestor_at(par, c, 0)));
}

/// Walking up from `j`, no sibling of a node is met after it: that would close a cycle.
proof fn lemma_siblings_apart_ordered(t: TreeInput, c1: usize, c2: usize, j: usize, d1: nat, d2: nat)
    requires
        forest(t),
        j < t.ps.len(),
        c1 < t.ps.len(),
        c2 < t.ps.len(),
        d1 <= d2,
        ancestor_at(t.par(), j, d1) == Some(c1),
        ancestor_at(t.par(), j, d2) == Some(c2),
        t.par()[c1 as int] == t.par()[c2 as int],
    ensures
        d1 == d2,
{
    let par = t.par();
    if d1 < d2 {
        lemma_walk_ends(par, j, d2);
        let e = (d2 - d1) as nat;
        lemma_walk_split(par, j, d1, e);
        assert(ancestor_at(par, c1, e) == Some(c2));
        lemma_walk_split(par, c1, 1, (e - 1) as nat);
        lemma_step_one(par, c1);
        match par[c1 as int] {
            Some(p) => {
                assert(ancestor_at(par, p, (e - 1) as nat) == Some(c2));
                assert(ancestor_at(par, p, e) == step_up(par, ancestor_at(par, p, (e - 1) as nat)));
                assert(ancestor_at(par, p, e) == Some(p));
                assert(on_cycle(par, p));
            },
            None => {},
        }
    }
}

/// Siblings whose rows share a node are the same node.
pub(crate) proof fn lemma_siblings_apart(t: TreeInput, c1: usize, c2: usize, j: usize)
    requires
        forest(t),
        c1 < t.ps.len(),
        c2 < t.ps.len(),
        t.par()[c1 as int] == t.par()[c2 as int],
        listed_below(t, c1, j),
        listed_below(t, c2, j),
    ensures
        c1 == c2,
{
    let par = t.par();
    lemma_shown_in_range(t, j);
    let d1 = choose|d: nat| #[trigger] ancestor_at(par, j, d) == Some(c1) && open_above(t, j, d);
    let d2 = choose|d: nat| #[trigger] ancestor_at(par, j, d) == Some(c2) && open_above(t, j, d);
    if d1 <= d2 {
        lemma_siblings_apart_ordered(t, c1, c2, j, d1, d2);
    } else {
        lemma_siblings_apart_ordered(t, c2, c1, j, d2, d1);
    }
}

/// A sibling list drawn with `fuel` levels left: siblings under `q`, each shown, none
/// repeated, each deep enough in the forest for the levels left.
pub(crate) open spec fn good_list(t: TreeInput, list: Seq<usize>, q: Option<usize>, fuel: nat) -> bool {
    &&& fuel <= t.ps.len()
    &&& list.no_duplicates()
    &&& forall|m: int|
        0 <= m < list.len() ==> {
            &&& #[trigger] list[m] < t.ps.len()
            &&& t.par()[list[m] as int] == q
            &&& t.shown(list[m])
            &&& ancestor_at(t.par(), list[m], (t.ps.len() - fuel) as nat) is Some
        }
}

/// Below a node that folds, only the node itself is listed.
pub(crate) proof fn lemma_fold_listing(t: TreeInput, i: usize, j: usize)
    requires
        folds(t, i),
        listed_below(t, i, j),
    ensures
        j == i,
{
    let d = choose|d: nat| #[trigger] ancestor_at(t.par(), j, d) == Some(i) && open_above(t, j, d);
    if d >= 1 {
        assert(match ancestor_at(t.par(), j, d) {
            Some(a) => !folds(t, a),
            None => true,
        });
    }
}

/// Below a node that does not fold, what is listed below a child is listed below the node.
pub(crate) proof fn lemma_listed_through_child(t: TreeInput, i: usize, c: usize, j: usize)
    requires
        forest(t),
        c < t.ps.len(),
        t.par()[c as int] == Some(i),
        !folds(t, i),
        listed_below(t, c, j),
    ensures
        listed_below(t, i, j),
{
    let par = t.par();
    let d = choose|d: nat| #[trigger] ancestor_at(par, j, d) == Some(c) && open_above(t, j, d);
    lemma_step_one(par, c);
    lemma_walk_split(par, j, d, 1);
    assert(ancestor_at(par, j, d + 1) == Some(i));
    assert forall|k: nat| 1 <= k <= d + 1 implies match #[trigger] ancestor_at(t.par(), j, k) {
        Some(a) => !folds(t, a),
        None => true,
    } by {
        if k <= d {
        }
    }
    assert(open_above(t, j, d + 1));
}

/// What is listed strictly below a node is listed below one of its shown children.
pub(crate) proof fn lemma_listed_child_of(t: TreeInput, i: usize, j: usize)
    requires
        forest(t),
        kids_exact(t),
        i < t.ps.len(),
        listed_below(t, i, j),
        j != i,
    ensures
        exists|m: int| 0 <= m < t.shown_kids(Some(i)).len() && listed_below(t, t.shown_kids(Some(i))[m], j),
{
    let par = t.par();
    let n = t.ps.len();
    let kids = t.shown_kids(Some(i));
    lemma_shown_kids(t, Some(i));
    let d = choose|d: nat| #[trigger] ancestor_at(par, j, d) == Some(i) && open_above(t, j, d);
    assert(d != 0);
    lemma_walk_defined_before(par, j, d, (d - 1) as nat);
    let c = ancestor_at(par, j, (d - 1) as nat)->0;
    assert(ancestor_at(par, j, d) == step_up(par, ancestor_at(par, j, (d - 1) as nat)));
    assert(c < n && par[c as int] == Some(i));
    lemma_shown_up(t, j, (d - 1) as nat, c);
    assert(children_set(par, Some(i)).contains(c));
    assert(kids.contains(c));
    let m = choose|m: int| 0 <= m < kids.len() && kids[m] == c;
    assert(open_above(t, j, (d - 1) as nat));
    assert(listed_below(t, kids[m], j));
}

/// A node is not listed below a child of its own.
proof fn lemma_not_below_child(t: TreeInput, i: usize, c: usize)
    requires
        forest(t),
        i < t.ps.len(),
        c < t.ps.len(),
        t.par()[c as int] == Some(i),
    ensures
        !listed_below(t, c, i),
{
    let par = t.par();
    if listed_below(t, c, i) {
        let d = choose|d: nat| #[trigger] ancestor_at(par, i, d) == Some(c) && open_above(t, i, d);
        lemma_walk_ends(par, i, d);
        lemma_step_one(par, c);
        lemma_walk_split(par, i, d, 1);
        assert(ancestor_at(par, i, d + 1) == Some(i));
        assert(on_cycle(par, i));
    }
}

/// The rows drawn for node `i` list `i` and what is listed below it, each once.
proof fn lemma_node_listing(t: TreeInput, i: usize, is_last: bool, is_root: bool, prefix: Seq<BranchKind>, fuel: nat)
    requires
        forest(t),
        kids_exact(t),
        i < t.ps.len(),
        t.shown(i),
        fuel <= t.ps.len(),
        ancestor_at(t.par(), i, (t.ps.len() - fuel) as nat) is Some,
    ensures
        row_indices(t.node_rows(i, is_last, is_root, prefix, fuel)).no_duplicates(),
        forall|j: usize| #[trigger] row_indices(t.node_rows(i, is_last, is_root, prefix, fuel)).contains(j) <==> listed_below(t, i, j),
    decreases fuel, 0nat, 0nat,
{
    let n = t.ps.len();
    let par = t.par();
    lemma_walk_ends(par, i, (n - fuel) as nat);
    let row = t.row(i, is_last, is_root, prefix);
    let rows = t.node_rows(i, is_last, is_root, prefix, fuel);
    assert(ancestor_at(par, i, 0) == Some(i));
    assert(open_above(t, i, 0));
    assert(listed_below(t, i, i));
    if folds(t, i) {
        assert(rows == seq![row]);
        assert(row_indices(rows) =~= seq![i]);
        assert forall|j: usize| #[trigger] row_indices(rows).contains(j) <==> listed_below(t, i, j) by {
            if listed_below(t, i, j) {
                lemma_fold_listing(t, i, j);
                assert(row_indices(rows)[0] == j);
            }
        }
    } else {
        let kids = t.shown_kids(Some(i));
        let cp = t.child_prefix(is_last, is_root, prefix);
        let f1 = (fuel - 1) as nat;
        lemma_shown_kids(t, Some(i));
        assert forall|m: int| 0 <= m < kids.len() implies {
            &&& #[trigger] kids[m] < t.ps.len()
            &&& t.par()[kids[m] as int] == Some(i)
            &&& t.shown(kids[m])
            &&& ancestor_at(t.par(), kids[m], (t.ps.len() - f1) as nat) is Some
        } by {
            let c = kids[m];
            assert(kids.contains(c));
            lemma_step_one(par, c);
            lemma_walk_split(par, c, 1, (n - fuel) as nat);
            assert((n - f1) as nat == 1 + (n - fuel) as nat);
        }
        assert(good_list(t, kids, Some(i), f1));
        lemma_list_listing(t, kids, Some(i), kids.len(), false, cp, f1);
        let sub = t.list_rows(kids, kids.len(), false, cp, f1);
        assert(rows == seq![row] + sub);
        assert(row_indices(rows) =~= seq![i] + row_indices(sub));
        if row_indices(sub).contains(i) {
            let m = choose|m: int| 0 <= m < kids.len() && listed_below(t, kids[m], i);
            lemma_not_below_child(t, i, kids[m]);
        }
        lemma_no_dup_in_concat(seq![i], row_indices(sub));
        assert forall|j: usize| #[trigger] row_indices(rows).contains(j) <==> listed_below(t, i, j) by {
            if row_indices(rows).contains(j) && j != i {
                assert(row_indices(sub).contains(j)) by {
                    let x = choose|x: int| 0 <= x < row_indices(rows).len() && row_indices(rows)[x] == j;
                    assert(row_indices(sub)[x - 1] == j);
                }
                let m = choose|m: int| 0 <= m < kids.len() && listed_below(t, kids[m], j);
                lemma_listed_through_child(t, i, kids[m], j);
            }
            if listed_below(t, i, j) && j != i {
                lemma_listed_child_of(t, i, j);
                assert(row_indices(sub).contains(j));
                let x = choose|x: int| 0 <= x < row_indices(sub).len() && row_indices(sub)[x] == j;
                assert(row_indices(rows)[x + 1] == j);
            }
            if j == i {
                assert(row_indices(rows)[0] == i);
            }
        }
    }
}

/// The rows drawn for the first `k` siblings of a list list what is listed below them,
/// each once.
pub(crate) proof fn lemma_list_listing(
    t: TreeInput,
    list: Seq<usize>,
    q: Option<usize>,
    k: nat,
    is_root: bool,
    prefix: Seq<BranchKind>,
    fuel: nat,
)
    requires
        forest(t),
        kids_exact(t),
        good_list(t, list, q, fuel),
        k <= list.len(),
    ensures
        row_indices(t.list_rows(list, k, is_root, prefix, fuel)).no_duplicates(),
        forall|j: usize| #[trigger] row_indices(t.list_rows(list, k, is_root, prefix, fuel)).contains(j) <==> exists|m: int|
            0 <= m < k && listed_below(t, list[m], j),
    decreases fuel, 1nat, k,
{
    let rows = t.list_rows(list, k, is_root, prefix, fuel);
    if k == 0 {
        assert(row_indices(rows) =~= Seq::<usize>::empty());
    } else {
        let k1 = (k - 1) as nat;
        lemma_list_listing(t, list, q, k1, is_root, prefix, fuel);
        let c = list[k1 as int];
        assert(c < t.ps.len() && t.shown(c));
        lemma_node_listing(t, c, k1 == list.len() - 1, is_root, prefix, fuel);
        let a = t.list_rows(list, k1, is_root, prefix, fuel);
        let b = t.node_rows(c, k1 == list.len() - 1, is_root, prefix, fuel);
        assert(rows == a + b);
        assert(row_indices(rows) =~= row_indices(a) + row_indices(b));
        assert forall|x: int, y: int| 0 <= x < row_indices(a).len() && 0 <= y < row_indices(b).len() implies row_indices(a)[x]
            != row_indices(b)[y] by {
            let j = row_indices(a)[x];
            if j == row_indices(b)[y] {
                assert(row_indices(a).contains(j));
                assert(row_indices(b).contains(j));
                let m = choose|m: int| 0 <= m < k1 && listed_below(t, list[m], j);
                assert(list[m] != c);
                lemma_siblings_apart(t, list[m], c, j);
            }
        }
        lemma_no_dup_in_concat(row_indices(a), row_indices(b));
        assert forall|j: usize| #[trigger] row_indices(rows).contains(j) <==> exists|m: int|
            0 <= m < k && listed_below(t, list[m], j) by {
            if row_indices(rows).contains(j) {
                let x = choose|x: int| 0 <= x < row_indices(rows).len() && row_indices(rows)[x] == j;
                if x < row_indices(a).len() {
                    assert(row_indices(a).contains(j));
                } else {
                    assert(row_indices(b)[x - row_indices(a).len()] == j);
                    assert(row_indices(b).contains(j));
                }
            }
            if exists|m: int| 0 <= m < k && listed_below(t, list[m], j) {
                let m = choose|m: int| 0 <= m < k && listed_below(t, list[m], j);
                if m < k1 {
                    assert(row_indices(a).contains(j));
                    let x = choose|x: int| 0 <= x < row_indices(a).len() && row_indices(a)[x] == j;
                    assert(row_indices(rows)[x] == j);
                } else {
                    assert(row_indices(b).contains(j));
                    let x = choose|x: int| 0 <= x < row_indices(b).len() && row_indices(b)[x] == j;
                    assert(row_indices(rows)[row_indices(a).len() + x] == j);
                }
            }
        }
    }
}

/// Walking up from `j` past step `d` ends at a root.
proof fn lemma_root_from(t: TreeInput, j: usize, d: nat)
    requires
        forest(t),
        j < t.ps.len(),
        ancestor_at(t.par(), j, d) is Some,
    ensures
        exists|e: nat| #![trigger ancestor_at(t.par(), j, e)] ancestor_at(t.par(), j, e) is Some && t.par()[ancestor_at(t.par(), j, e)->0 as int]
            is None,
    decreases t.ps.len() - d,
{
    let par = t.par();
    lemma_walk_ends(par, j, d);
    lemma_walk_in_range(par, j, d);
    let r = ancestor_at(par, j, d)->0;
    assert(ancestor_at(par, j, d + 1) == step_up(par, ancestor_at(par, j, d)));
    if par[r as int] is Some {
        lemma_root_from(t, j, d + 1);
    }
}

/// The tree view lists every process that survives the filter and is not folded into a
/// collapsed ancestor, each exactly once, and no other (where a frozen order applies,
/// siblings are taken to have distinct pids: the frozen order keeps one per pid).
pub proof fn lemma_tree_rows_each_once(t: TreeInput)
    requires
        t.ps.len() <= usize::MAX,
        frozen_siblings_distinct(t),
    ensures
        row_indices(t.rows()).no_duplicates(),
        forall|j: usize| #[trigger] row_indices(t.rows()).contains(j) <==> listed(t, j),
{
    let n = t.ps.len();
    lemma_forest(t);
    let par = t.par();
    assert forall|p: Option<usize>| #![trigger t.kids(p)] t.kids(p).no_duplicates() && forall|c: usize| #[trigger] t.kids(p).contains(c)
        <==> children_set(t.par(), p).contains(c) by {
        lemma_kids_exact(t, p);
    }
    assert(kids_exact(t));
    let roots = t.shown_kids(None);
    lemma_shown_kids(t, None);
    assert forall|m: int| 0 <= m < roots.len() implies {
        &&& #[trigger] roots[m] < t.ps.len()
        &&& t.par()[roots[m] as int] == None::<usize>
        &&& t.shown(roots[m])
        &&& ancestor_at(t.par(), roots[m], (t.ps.len() - n) as nat) is Some
    } by {
        assert(roots.contains(roots[m]));
    }
    assert(good_list(t, roots, None, n));
    lemma_list_listing(t, roots, None, roots.len(), true, Seq::empty(), n);
    assert(t.rows() == t.list_rows(roots, roots.len(), true, Seq::empty(), n));
    assert forall|j: usize| #[trigger] row_indices(t.rows()).contains(j) <==> listed(t, j) by {
        if row_indices(t.rows()).contains(j) {
            let m = choose|m: int| 0 <= m < roots.len() && listed_below(t, roots[m], j);
            let r = roots[m];
            lemma_shown_in_range(t, j);
            let d = choose|d: nat| #[trigger] ancestor_at(par, j, d) == Some(r) && open_above(t, j, d);
            assert forall|k: nat| 1 <= k implies match #[trigger] ancestor_at(t.par(), j, k) {
                Some(a) => !folds(t, a),
                None => true,
            } by {
                if k > d {
                    lemma_walk_split(par, j, d, (k - d) as nat);
                    lemma_step_one(par, r);
                    if ancestor_at(par, r, (k - d) as nat) is Some {
                        lemma_walk_defined_before(par, r, (k - d) as nat, 1);
                    }
                }
            }
        }
        if listed(t, j) {
            assert(ancestor_at(par, j, 0) == Some(j));
            lemma_root_from(t, j, 0);
            let e = choose|e: nat| #![trigger ancestor_at(t.par(), j, e)] ancestor_at(t.par(), j, e) is Some && t.par()[ancestor_at(t.par(), j, e)->0 as int]
                is None;
            lemma_walk_in_range(par, j, e);
            let r = ancestor_at(par, j, e)->0;
            lemma_shown_up(t, j, e, r);
            assert(children_set(par, None).contains(r));
            assert(roots.contains(r));
            let m = choose|m: int| 0 <= m < roots.len() && roots[m] == r;
            assert(open_above(t, j, e));
            assert(listed_below(t, roots[m], j));
        }
    }
}

/// With an empty filter every process is shown.
pub proof fn lemma_empty_filter_shows_all(t: TreeInput, i: usize)
    requires
        t.filter.len() == 0,
        i < t.ps.len(),
    ensures
        t.shown(i),
{
    assert(ancestor_at(t.par(), i, 0) == Some(i));
    assert(reaches(t.par(), i, i));
    assert(crate::tree::name_matches(t.ps[i as int].name@, t.filter));
}

/// With no filter and nothing collapsed, the tree view lists every process exactly once
/// (where a frozen order applies, siblings taken to have distinct pids).
pub proof fn lemma_unfiltered_tree_lists_all(t: TreeInput)
    requires
        t.ps.len() <= usize::MAX,
        frozen_siblings_distinct(t),
        t.filter.len() == 0,
        t.collapsed == Set::<u32>::empty(),
    ensures
        row_indices(t.rows()).no_duplicates(),
        forall|j: usize| #[trigger] row_indices(t.rows()).contains(j) <==> j < t.ps.len(),
{
    lemma_tree_rows_each_once(t);
    assert forall|j: usize| #[trigger] row_indices(t.rows()).contains(j) <==> j < t.ps.len() by {
        if j < t.ps.len() {
            lemma_empty_filter_shows_all(t, j);
            assert(listed(t, j));
        }
    }
}

/// Node `a` is the last of its parent's shown children (of the shown roots, for a root).
pub open spec fn last_shown(t: TreeInput, a: usize) -> bool {
    let sk = t.shown_kids(t.par()[a as int]);
    sk.len() > 0 && sk.last() == a
}

/// What column `col` of a row drawing node `j` at depth `d` must show (`col < d`). The
/// column stands for the ancestor at depth `col + 1`, `j` itself in the last column. The
/// last column is a corner when `j` is the last of its shown siblings and a tee otherwise;
/// an earlier column is blank when its ancestor is the last of its shown siblings, and a
/// vertical line when a later sibling of that ancestor is still to come.
pub open spec fn column(t: TreeInput, j: usize, d: nat, col: nat) -> BranchKind {
    let a = ancestor_at(t.par(), j, (d - 1 - col) as nat)->0;
    if col + 1 == d {
        if last_shown(t, a) {
            BranchKind::Corner
        } else {
            BranchKind::Tee
        }
    } else {
        if last_shown(t, a) {
            BranchKind::Space
        } else {
            BranchKind::Pipe
        }
    }
}

/// The shown nodes strictly below node `i`, among the first `m`.
pub open spec fn shown_below(t: TreeInput, i: usize, m: nat) -> Set<usize> {
    Set::new(|d: usize| d < m && t.shown(d) && strictly_below(t.par(), i, d))
}

/// A row draws its node at its depth below a root (as many columns as ancestors), each
/// column as `column` says; it has children exactly when some child of its node is shown;
/// it is folded exactly when it has children and its pid is collapsed; and a folded row
/// counts the shown nodes below it, an unfolded one zero.
pub open spec fn drawn_right(t: TreeInput, r: RowView) -> bool {
    &&& r.has_children == exists|c: usize| c < t.ps.len() && t.par()[c as int] == Some(r.idx) && #[trigger] t.shown(c)
    &&& r.is_collapsed == (r.has_children && t.collapsed.contains(t.ps[r.idx as int].pid))
    &&& r.collapsed_count == if r.is_collapsed {
        shown_below(t, r.idx, t.ps.len()).len()
    } else {
        0
    }
    &&& r.branches.len() == r.depth
    &&& ancestor_at(t.par(), r.idx, r.depth) is Some
    &&& t.par()[ancestor_at(t.par(), r.idx, r.depth)->0 as int] is None
    &&& forall|col: nat| col < r.depth ==> r.branches[col as int] == #[trigger] column(t, r.idx, r.depth, col)
}

/// The count of shown nodes below `i` is the size of that set.
proof fn lemma_shown_below_count(t: TreeInput, i: usize, m: nat)
    requires
        m <= t.ps.len(),
        t.ps.len() <= usize::MAX,
    ensures
        shown_below(t, i, m).finite(),
        shown_below(t, i, m).len() == count_shown_below(t.ps, t.par(), t.filter, i, m),
    decreases m,
{
    if m == 0 {
        assert(shown_below(t, i, m) =~= Set::<usize>::empty());
    } else {
        let k = (m - 1) as nat;
        lemma_shown_below_count(t, i, k);
        let d = k as usize;
        if t.shown(d) && strictly_below(t.par(), i, d) {
            assert(shown_below(t, i, m) =~= shown_below(t, i, k).insert(d));
        } else {
            assert(shown_below(t, i, m) =~= shown_below(t, i, k));
        }
    }
}

/// The columns a non-root node `c` inherits from its ancestors, at depth `d`, agree with
/// `column`, and `c` lies `d` steps below a root.
spec fn inherits(t: TreeInput, c: usize, prefix: Seq<BranchKind>) -> bool {
    &&& ancestor_at(t.par(), c, prefix.len() + 1) is Some
    &&& t.par()[ancestor_at(t.par(), c, prefix.len() + 1)->0 as int] is None
    &&& forall|col: nat| col < prefix.len() ==> prefix[col as int] == #[trigger] column(t, c, prefix.len() + 1, col)
}

/// Every row drawn for node `i` is drawn right, given that `i`'s columns are.
proof fn lemma_node_columns(t: TreeInput, i: usize, is_last: bool, is_root: bool, prefix: Seq<BranchKind>, fuel: nat)
    requires
        t.ps.len() <= usize::MAX,
        forest(t),
        kids_exact(t),
        i < t.ps.len(),
        is_root ==> prefix.len() == 0 && t.par()[i as int] is None,
        !is_root ==> t.par()[i as int] is Some && is_last == last_shown(t, i) && inherits(t, i, prefix),
    ensures
        forall|x: int| 0 <= x < t.node_rows(i, is_last, is_root, prefix, fuel).len() ==> drawn_right(t, #[trigger] t.node_rows(i, is_last, is_root, prefix, fuel)[x]),
    decreases fuel, 0nat, 0nat,
{
    let par = t.par();
    let rows = t.node_rows(i, is_last, is_root, prefix, fuel);
    if fuel > 0 {
        let row = t.row(i, is_last, is_root, prefix);
        let d = row.depth;
        assert(ancestor_at(par, i, 0) == Some(i));
        assert(drawn_right(t, row)) by {
            lemma_shown_kids(t, Some(i));
            lemma_shown_below_count(t, i, t.ps.len());
            let sk = t.shown_kids(Some(i));
            if sk.len() > 0 {
                assert(sk.contains(sk[0]));
                assert(children_set(par, Some(i)).contains(sk[0]));
            }
            if exists|c: usize| c < t.ps.len() && t.par()[c as int] == Some(i) && #[trigger] t.shown(c) {
                let c = choose|c: usize| c < t.ps.len() && t.par()[c as int] == Some(i) && #[trigger] t.shown(c);
                assert(children_set(par, Some(i)).contains(c));
                assert(sk.contains(c));
            }
            if !is_root {
                assert forall|col: nat| col < row.depth implies row.branches[col as int] == #[trigger] column(t, row.idx, row.depth, col) by {
                    if col + 1 < d {
                        assert(prefix[col as int] == column(t, i, prefix.len() + 1, col));
                    }
                }
            }
        }
        if row.is_collapsed {
            assert(rows == seq![row]);
        } else {
            let kids = t.shown_kids(Some(i));
            let cp = t.child_prefix(is_last, is_root, prefix);
            lemma_shown_kids(t, Some(i));
            assert(cp.len() == d);
            assert forall|m: int| 0 <= m < kids.len() implies inherits(t, #[trigger] kids[m], cp) by {
                let c = kids[m];
                assert(kids.contains(c));
                lemma_step_one(par, c);
                lemma_walk_split(par, c, 1, d);
                assert forall|col: nat| col < cp.len() implies cp[col as int] == #[trigger] column(t, c, cp.len() + 1, col) by {
                    lemma_walk_split(par, c, 1, (d - 1 - col) as nat);
                    assert((cp.len() + 1 - 1 - col) as nat == 1 + (d - 1 - col) as nat);
                    if col + 1 < d {
                        assert(prefix[col as int] == column(t, i, prefix.len() + 1, col));
                    }
                }
            }
            lemma_list_columns(t, Some(i), kids.len(), false, cp, (fuel - 1) as nat);
            let sub = t.list_rows(kids, kids.len(), false, cp, (fuel - 1) as nat);
            assert(rows == seq![row] + sub);
            assert forall|x: int| 0 <= x < rows.len() implies drawn_right(t, #[trigger] rows[x]) by {
                if x > 0 {
                    assert(rows[x] == sub[x - 1]);
                }
            }
        }
    }
}

/// Every row drawn for the first `k` shown children of `q` is drawn right, given that
/// their columns are.
proof fn lemma_list_columns(t: TreeInput, q: Option<usize>, k: nat, is_root: bool, prefix: Seq<BranchKind>, fuel: nat)
    requires
        t.ps.len() <= usize::MAX,
        forest(t),
        kids_exact(t),
        k <= t.shown_kids(q).len(),
        is_root == (q is None),
        is_root ==> prefix.len() == 0,
        !is_root ==> forall|m: int| 0 <= m < t.shown_kids(q).len() ==> inherits(t, #[trigger] t.shown_kids(q)[m], prefix),
    ensures
        forall|x: int| 0 <= x < t.list_rows(t.shown_kids(q), k, is_root, prefix, fuel).len() ==> drawn_right(t, #[trigger] t.list_rows(t.shown_kids(q), k, is_root, prefix, fuel)[x]),
    decreases fuel, 1nat, k,
{
    let list = t.shown_kids(q);
    let rows = t.list_rows(list, k, is_root, prefix, fuel);
    if k > 0 {
        let k1 = (k - 1) as nat;
        lemma_list_columns(t, q, k1, is_root, prefix, fuel);
        lemma_shown_kids(t, q);
        let c = list[k1 as int];
        assert(list.contains(c));
        let lastp = k1 == list.len() - 1;
        if !is_root {
            assert(lastp == last_shown(t, c)) by {
                if list.last() == c && !lastp {
                    assert(list[list.len() - 1] == list[k1 as int]);
                }
            }
        }
        lemma_node_columns(t, c, lastp, is_root, prefix, fuel);
        let a = t.list_rows(list, k1, is_root, prefix, fuel);
        let b = t.node_rows(c, lastp, is_root, prefix, fuel);
        assert(rows == a + b);
        assert forall|x: int| 0 <= x < rows.len() implies drawn_right(t, #[trigger] rows[x]) by {
            if x < a.len() {
                assert(rows[x] == a[x]);
            } else {
                assert(rows[x] == b[x - a.len()]);
            }
        }
    }
}

/// Every row of the tree view draws its node below a root at a depth of as many columns
/// as it has ancestors, and each column describes one ancestor: the node's own column is a
/// corner when it is the last of its shown siblings and a tee otherwise; the column of an
/// ancestor is a vertical line when that ancestor has a later shown sibling and blank when
/// it is the last. A row has children exactly when a child of its node is shown, is
/// folded exactly when it has children and its pid is collapsed, and a folded row counts
/// the shown nodes below it (where a frozen order applies, siblings taken to have distinct
/// pids).
pub proof fn lemma_tree_columns(t: TreeInput)
    requires
        t.ps.len() <= usize::MAX,
        frozen_siblings_distinct(t),
    ensures
        forall|x: int| 0 <= x < t.rows().len() ==> drawn_right(t, #[trigger] t.rows()[x]),
{
    lemma_forest(t);
    assert forall|p: Option<usize>| #![trigger t.kids(p)] t.kids(p).no_duplicates() && forall|c: usize| #[trigger] t.kids(p).contains(c)
        <==> children_set(t.par(), p).contains(c) by {
        lemma_kids_exact(t, p);
    }
    lemma_list_columns(t, None, t.shown_kids(None).len(), true, Seq::empty(), t.ps.len());
}

} // verus!
