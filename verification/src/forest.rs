//! What holds of walks up the parent links: they can be split and shortened,
//! a cycle is met again and again, and once one link of every cycle is cut
//! no cycle is left, so the links form a forest.

use crate::order::{has_pid, index_set, lemma_index_set_len, lemma_rep_exists};
use crate::process::ProcessInfo;
use crate::tree::{
    ancestor_at, at_cycle, cut_links, cycle_entry, entry_step, first_reacher, is_cut,
    links_in_range, on_cycle, raw_parents, reaches, step_up, tree_parents, TreeInput,
};
use vstd::prelude::*;
use vstd::set_lib::{lemma_int_range, lemma_len_subset, lemma_map_size, set_int_range};

verus! {

/// Walking `a + d` steps is walking `a` steps, then `d` more.
pub proof fn lemma_walk_split(par: Seq<Option<usize>>, i: usize, a: nat, d: nat)
    ensures
        ancestor_at(par, i, a + d) == match ancestor_at(par, i, a) {
            Some(x) => ancestor_at(par, x, d),
            None => None,
        },
    decreases d,
{
    if d > 0 {
        lemma_walk_split(par, i, a, (d - 1) as nat);
        assert(ancestor_at(par, i, a + d) == step_up(par, ancestor_at(par, i, (a + (d - 1)) as nat)));
        match ancestor_at(par, i, a) {
            Some(x) => {
                assert(ancestor_at(par, x, d) == step_up(par, ancestor_at(par, x, (d - 1) as nat)));
            },
            None => {},
        }
    }
}

/// A walk that is somewhere after `k` steps was somewhere at every earlier step.
pub proof fn lemma_walk_defined_before(par: Seq<Option<usize>>, i: usize, k: nat, t: nat)
    requires
        ancestor_at(par, i, k) is Some,
        t <= k,
    ensures
        ancestor_at(par, i, t) is Some,
    decreases k,
{
    if t < k {
        assert(ancestor_at(par, i, k) == step_up(par, ancestor_at(par, i, (k - 1) as nat)));
        lemma_walk_defined_before(par, i, (k - 1) as nat, t);
    }
}

/// Every node met walking up from a node of the sequence is a node of the sequence.
pub proof fn lemma_walk_in_range(par: Seq<Option<usize>>, i: usize, k: nat)
    requires
        links_in_range(par),
        i < par.len(),
    ensures
        match ancestor_at(par, i, k) {
            Some(x) => x < par.len(),
            None => true,
        },
    decreases k,
{
    if k > 0 {
        lemma_walk_in_range(par, i, (k - 1) as nat);
        match ancestor_at(par, i, (k - 1) as nat) {
            Some(x) => {
                assert(par[x as int] is Some ==> par[x as int]->0 < par.len());
            },
            None => {},
        }
    }
}

/// The node met after `t` steps, as an integer (`-1` once the walk has ended).
spec fn node_at(par: Seq<Option<usize>>, i: usize, t: int) -> int {
    match ancestor_at(par, i, t as nat) {
        Some(x) => x as int,
        None => -1,
    }
}

/// A walk of as many steps as there are nodes meets some node twice.
proof fn lemma_walk_repeats(par: Seq<Option<usize>>, i: usize)
    requires
        links_in_range(par),
        i < par.len(),
        ancestor_at(par, i, par.len()) is Some,
    ensures
        exists|a: nat, b: nat| a < b <= par.len() && ancestor_at(par, i, a) == ancestor_at(par, i, b),
{
    let n = par.len();
    if !exists|a: nat, b: nat| a < b <= n && ancestor_at(par, i, a) == ancestor_at(par, i, b) {
        let x = set_int_range(0, n + 1int);
        let f = |t: int| node_at(par, i, t);
        let y = x.map(f);
        lemma_int_range(0, n + 1int);
        lemma_int_range(0, n as int);
        assert forall|t: int| x.contains(t) implies #[trigger] ancestor_at(par, i, t as nat) is Some && 0 <= f(t) < n by {
            lemma_walk_defined_before(par, i, n, t as nat);
            lemma_walk_in_range(par, i, t as nat);
        }
        assert(vstd::relations::injective_on(f, x)) by {
            assert forall|t1: int, t2: int| x.contains(t1) && x.contains(t2) && #[trigger] f(t1) == #[trigger] f(t2) implies t1 == t2 by {
                assert(ancestor_at(par, i, t1 as nat) is Some);
                assert(ancestor_at(par, i, t2 as nat) is Some);
                if t1 < t2 {
                    assert(ancestor_at(par, i, t1 as nat) == ancestor_at(par, i, t2 as nat));
                } else if t2 < t1 {
                    assert(ancestor_at(par, i, t2 as nat) == ancestor_at(par, i, t1 as nat));
                }
            }
        }
        lemma_map_size(x, y, f);
        assert(y.subset_of(set_int_range(0, n as int))) by {
            assert forall|v: int| y.contains(v) implies set_int_range(0, n as int).contains(v) by {
                let t = choose|t: int| x.contains(t) && f(t) == v;
            }
        }
        lemma_len_subset(y, set_int_range(0, n as int));
    }
}

/// Whatever a walk meets, it meets within fewer steps than there are nodes.
pub proof fn lemma_walk_shorten(par: Seq<Option<usize>>, i: usize, k: nat)
    requires
        links_in_range(par),
        i < par.len(),
        ancestor_at(par, i, k) is Some,
    ensures
        exists|k2: nat| k2 < par.len() && #[trigger] ancestor_at(par, i, k2) == ancestor_at(par, i, k),
    decreases k,
{
    let n = par.len();
    if k >= n {
        lemma_walk_defined_before(par, i, k, n);
        lemma_walk_repeats(par, i);
        let (a, b) = choose|a: nat, b: nat| a < b <= n && ancestor_at(par, i, a) == ancestor_at(par, i, b);
        let d = (k - b) as nat;
        lemma_walk_split(par, i, b, d);
        lemma_walk_split(par, i, a, d);
        assert(b + d == k);
        lemma_walk_shorten(par, i, a + d);
    } else {
        assert(ancestor_at(par, i, k) == ancestor_at(par, i, k));
    }
}

/// Meeting `x` on the way up from `s`, and `y` on the way up from `x`, is meeting `y` on
/// the way up from `s`.
pub proof fn lemma_reaches_trans(par: Seq<Option<usize>>, s: usize, x: usize, y: usize)
    requires
        links_in_range(par),
        s < par.len(),
        reaches(par, s, x),
        reaches(par, x, y),
    ensures
        reaches(par, s, y),
{
    let a = choose|a: nat| a <= par.len() && #[trigger] ancestor_at(par, s, a) == Some(x);
    let b = choose|b: nat| b <= par.len() && #[trigger] ancestor_at(par, x, b) == Some(y);
    lemma_walk_split(par, s, a, b);
    lemma_walk_shorten(par, s, a + b);
    let k2 = choose|k2: nat| k2 < par.len() && #[trigger] ancestor_at(par, s, k2) == ancestor_at(par, s, a + b);
    assert(ancestor_at(par, s, k2) == Some(y));
}

/// A walk that comes back to its start after `p` steps only ever meets the nodes of its
/// first `p` steps.
pub proof fn lemma_walk_orbit(par: Seq<Option<usize>>, y: usize, p: nat, t: nat)
    requires
        p >= 1,
        ancestor_at(par, y, p) == Some(y),
    ensures
        exists|r: nat| r < p && #[trigger] ancestor_at(par, y, r) == ancestor_at(par, y, t),
    decreases t,
{
    if t == 0 {
        assert(ancestor_at(par, y, 0) == ancestor_at(par, y, t));
    } else {
        lemma_walk_orbit(par, y, p, (t - 1) as nat);
        let r = choose|r: nat| r < p && #[trigger] ancestor_at(par, y, r) == ancestor_at(par, y, (t - 1) as nat);
        assert(ancestor_at(par, y, t) == step_up(par, ancestor_at(par, y, (t - 1) as nat)));
        assert(ancestor_at(par, y, r + 1) == step_up(par, ancestor_at(par, y, r)));
        if r + 1 < p {
            assert(ancestor_at(par, y, (r + 1) as nat) == ancestor_at(par, y, t));
        } else {
            assert(ancestor_at(par, y, 0) == ancestor_at(par, y, t));
        }
    }
}

/// Some smallest index's walk meets `i`, given that `s0`'s does.
proof fn lemma_min_reacher(par: Seq<Option<usize>>, i: usize, s0: usize)
    requires
        s0 < par.len(),
        reaches(par, s0, i),
    ensures
        exists|s: usize| s < par.len() && reaches(par, s, i) && forall|t: usize| t < s ==> !reaches(par, t, i),
    decreases s0,
{
    if exists|t: usize| t < s0 && reaches(par, t, i) {
        let t = choose|t: usize| t < s0 && reaches(par, t, i);
        lemma_min_reacher(par, i, t);
    } else {
        assert(forall|t: usize| t < s0 ==> !reaches(par, t, i));
    }
}

/// `first_reacher(i)` is the smallest index whose walk meets `i`.
pub proof fn lemma_first_reacher(par: Seq<Option<usize>>, i: usize)
    requires
        i < par.len(),
    ensures
        first_reacher(par, i) < par.len(),
        reaches(par, first_reacher(par, i), i),
        forall|t: usize| t < first_reacher(par, i) ==> !reaches(par, t, i),
{
    assert(ancestor_at(par, i, 0) == Some(i));
    lemma_min_reacher(par, i, i);
}

/// Some first step of `m`'s walk is on the cycle through `i`, given that step `k0` is.
proof fn lemma_min_entry(par: Seq<Option<usize>>, m: usize, i: usize, k0: nat)
    requires
        k0 <= par.len(),
        at_cycle(par, m, k0, i),
    ensures
        exists|k: nat| k <= par.len() && at_cycle(par, m, k, i) && forall|j: nat| j < k ==> !at_cycle(par, m, j, i),
    decreases k0,
{
    if exists|j: nat| j < k0 && at_cycle(par, m, j, i) {
        let j = choose|j: nat| j < k0 && at_cycle(par, m, j, i);
        lemma_min_entry(par, m, i, j);
    } else {
        assert(forall|j: nat| j < k0 ==> !at_cycle(par, m, j, i));
    }
}

/// A node on a cycle that meets `i` is met again from `i`.
pub proof fn lemma_cycle_back(par: Seq<Option<usize>>, x: usize, i: usize)
    requires
        on_cycle(par, x),
        reaches(par, x, i),
    ensures
        reaches(par, i, x),
{
    let p = choose|p: nat| 1 <= p <= par.len() && #[trigger] ancestor_at(par, x, p) == Some(x);
    let s = choose|s: nat| s <= par.len() && #[trigger] ancestor_at(par, x, s) == Some(i);
    lemma_walk_orbit(par, x, p, s);
    let r = choose|r: nat| r < p && #[trigger] ancestor_at(par, x, r) == ancestor_at(par, x, s);
    lemma_walk_split(par, x, r, (p - r) as nat);
    assert(ancestor_at(par, i, (p - r) as nat) == Some(x));
}

/// Where the cycle through `i` is entered: a node on that cycle, reached from `i` and
/// reaching it.
pub proof fn lemma_cycle_entry(par: Seq<Option<usize>>, i: usize)
    requires
        links_in_range(par),
        i < par.len(),
        on_cycle(par, i),
    ensures
        entry_step(par, i) <= par.len(),
        at_cycle(par, first_reacher(par, i), entry_step(par, i), i),
        forall|j: nat| j < entry_step(par, i) ==> !at_cycle(par, first_reacher(par, i), j, i),
        cycle_entry(par, i) is Some,
        cycle_entry(par, i)->0 < par.len(),
        on_cycle(par, cycle_entry(par, i)->0),
        reaches(par, cycle_entry(par, i)->0, i),
        reaches(par, i, cycle_entry(par, i)->0),
{
    lemma_first_reacher(par, i);
    let m = first_reacher(par, i);
    let k0 = choose|k0: nat| k0 <= par.len() && #[trigger] ancestor_at(par, m, k0) == Some(i);
    assert(ancestor_at(par, i, 0) == Some(i));
    assert(at_cycle(par, m, k0, i));
    lemma_min_entry(par, m, i, k0);
    let es = entry_step(par, i);
    lemma_walk_in_range(par, m, es);
    let x = cycle_entry(par, i)->0;
    lemma_cycle_back(par, x, i);
}

/// Two nodes that reach each other are met first from the same index.
proof fn lemma_same_first_reacher(par: Seq<Option<usize>>, x: usize, i: usize)
    requires
        links_in_range(par),
        x < par.len(),
        i < par.len(),
        reaches(par, x, i),
        reaches(par, i, x),
    ensures
        first_reacher(par, x) == first_reacher(par, i),
{
    lemma_first_reacher(par, x);
    lemma_first_reacher(par, i);
    let mx = first_reacher(par, x);
    let mi = first_reacher(par, i);
    lemma_reaches_trans(par, mx, x, i);
    lemma_reaches_trans(par, mi, i, x);
    if mx < mi {
        assert(!reaches(par, mx, i));
    } else if mi < mx {
        assert(!reaches(par, mi, x));
    }
}

/// For two nodes that reach each other, a walk is on the cycle through one exactly when
/// it is on the cycle through the other.
proof fn lemma_same_at_cycle(par: Seq<Option<usize>>, m: usize, k: nat, x: usize, i: usize)
    requires
        links_in_range(par),
        m < par.len(),
        reaches(par, x, i),
        reaches(par, i, x),
    ensures
        at_cycle(par, m, k, x) == at_cycle(par, m, k, i),
{
    lemma_walk_in_range(par, m, k);
    match ancestor_at(par, m, k) {
        Some(y) => {
            if reaches(par, y, x) {
                lemma_reaches_trans(par, y, x, i);
            }
            if reaches(par, y, i) {
                lemma_reaches_trans(par, y, i, x);
            }
        },
        None => {},
    }
}

/// Two nodes on one cycle have the same entry.
proof fn lemma_same_entry(par: Seq<Option<usize>>, x: usize, i: usize)
    requires
        links_in_range(par),
        x < par.len(),
        i < par.len(),
        on_cycle(par, x),
        on_cycle(par, i),
        reaches(par, x, i),
        reaches(par, i, x),
    ensures
        cycle_entry(par, x) == cycle_entry(par, i),
{
    lemma_same_first_reacher(par, x, i);
    lemma_cycle_entry(par, x);
    lemma_cycle_entry(par, i);
    let m = first_reacher(par, i);
    lemma_first_reacher(par, i);
    let ex = entry_step(par, x);
    let ei = entry_step(par, i);
    if ex < ei {
        lemma_same_at_cycle(par, m, ex, x, i);
        assert(at_cycle(par, m, ex, x));
    } else if ei < ex {
        lemma_same_at_cycle(par, m, ei, x, i);
        assert(at_cycle(par, m, ei, i));
    }
}

/// Up to a step where the walk in the cut links is still going, it is the walk in the
/// links before the cut.
proof fn lemma_cut_walk_agrees(par: Seq<Option<usize>>, i: usize, k: nat, t: nat)
    requires
        ancestor_at(cut_links(par), i, k) is Some,
        t <= k,
    ensures
        ancestor_at(cut_links(par), i, t) == ancestor_at(par, i, t),
    decreases t,
{
    let c = cut_links(par);
    if t > 0 {
        lemma_cut_walk_agrees(par, i, k, (t - 1) as nat);
        lemma_walk_defined_before(c, i, k, t);
        lemma_walk_defined_before(c, i, k, (t - 1) as nat);
        assert(ancestor_at(c, i, t) == step_up(c, ancestor_at(c, i, (t - 1) as nat)));
        assert(ancestor_at(par, i, t) == step_up(par, ancestor_at(par, i, (t - 1) as nat)));
        let y = ancestor_at(c, i, (t - 1) as nat)->0;
        assert(y < c.len());
        assert(c[y as int] == (if is_cut(par, y) { None } else { par[y as int] }));
    }
}

/// Once one link of every cycle is cut, no cycle is left: walking up from any node never
/// comes back to it.
pub proof fn lemma_cut_links_acyclic(par: Seq<Option<usize>>, i: usize)
    requires
        links_in_range(par),
    ensures
        !on_cycle(cut_links(par), i),
{
    let c = cut_links(par);
    let n = par.len();
    if on_cycle(c, i) {
        let k = choose|k: nat| 1 <= k <= c.len() && #[trigger] ancestor_at(c, i, k) == Some(i);
        lemma_walk_defined_before(c, i, k, 1);
        assert(ancestor_at(c, i, 1) == step_up(c, ancestor_at(c, i, 0)));
        assert(i < n);
        lemma_cut_walk_agrees(par, i, k, k);
        assert(on_cycle(par, i));
        lemma_cycle_entry(par, i);
        let x = cycle_entry(par, i)->0;
        lemma_same_entry(par, x, i);
        assert(is_cut(par, x));
        let s = choose|s: nat| s <= n && #[trigger] ancestor_at(par, i, s) == Some(x);
        lemma_walk_orbit(par, i, k, s);
        let r = choose|r: nat| r < k && #[trigger] ancestor_at(par, i, r) == ancestor_at(par, i, s);
        lemma_cut_walk_agrees(par, i, k, r);
        lemma_walk_defined_before(c, i, k, r + 1);
        assert(ancestor_at(c, i, r + 1) == step_up(c, ancestor_at(c, i, r)));
        assert(c[x as int] == (if is_cut(par, x) { None } else { par[x as int] }));
    }
}

/// Cutting links keeps every remaining link pointing into the sequence.
pub proof fn lemma_cut_links_in_range(par: Seq<Option<usize>>)
    requires
        links_in_range(par),
    ensures
        links_in_range(cut_links(par)),
{
    assert forall|i: int| 0 <= i < cut_links(par).len() implies match #[trigger] cut_links(par)[i] {
        Some(j) => j < cut_links(par).len(),
        None => true,
    } by {
        assert(match par[i] {
            Some(j) => j < par.len(),
            None => true,
        });
    }
}

/// Every parent link a `ppid` gives points at a process of the list.
pub proof fn lemma_raw_parents_in_range(ps: Seq<ProcessInfo>)
    requires
        ps.len() <= usize::MAX,
    ensures
        links_in_range(raw_parents(ps)),
{
    let n = ps.len();
    lemma_index_set_len(n);
    assert forall|i: int| 0 <= i < raw_parents(ps).len() implies match #[trigger] raw_parents(ps)[i] {
        Some(j) => j < raw_parents(ps).len(),
        None => true,
    } by {
        match ps[i].ppid {
            Some(q) => {
                if has_pid(ps, index_set(n), q) {
                    lemma_rep_exists(ps, index_set(n), q);
                }
            },
            None => {},
        }
    }
}

/// The tree's parent links have no cycle: walking up from any process never comes back
/// to it.
pub proof fn lemma_tree_parents_acyclic(ps: Seq<ProcessInfo>, i: usize)
    requires
        ps.len() <= usize::MAX,
    ensures
        !on_cycle(tree_parents(ps), i),
{
    lemma_raw_parents_in_range(ps);
    lemma_cut_links_acyclic(raw_parents(ps), i);
}

/// The filter keeps the ancestors of what it keeps: the parent of a shown process is shown.
pub proof fn lemma_shown_parent(t: TreeInput, i: usize)
    requires
        t.ps.len() <= usize::MAX,
        i < t.ps.len(),
        t.par()[i as int] is Some,
        t.shown(i),
    ensures
        t.shown(t.par()[i as int]->0),
{
    let par = t.par();
    lemma_raw_parents_in_range(t.ps);
    lemma_cut_links_in_range(raw_parents(t.ps));
    let p = par[i as int]->0;
    let j = choose|j: usize| j < t.ps.len() && crate::tree::name_matches(t.ps[j as int].name@, t.filter) && #[trigger] reaches(par, j, i);
    assert(ancestor_at(par, i, 1) == step_up(par, ancestor_at(par, i, 0)));
    assert(reaches(par, i, p));
    lemma_reaches_trans(par, j, i, p);
}

/// In links without a cycle, every walk from a node ends within fewer steps than there
/// are nodes.
pub proof fn lemma_walk_ends(par: Seq<Option<usize>>, i: usize, k: nat)
    requires
        links_in_range(par),
        forall|x: usize| !#[trigger] on_cycle(par, x),
        i < par.len(),
        ancestor_at(par, i, k) is Some,
    ensures
        k < par.len(),
{
    let n = par.len();
    if k >= n {
        lemma_walk_defined_before(par, i, k, n);
        lemma_walk_repeats(par, i);
        let (a, b) = choose|a: nat, b: nat| a < b <= n && ancestor_at(par, i, a) == ancestor_at(par, i, b);
        lemma_walk_defined_before(par, i, n, a);
        let y = ancestor_at(par, i, a)->0;
        lemma_walk_split(par, i, a, (b - a) as nat);
        assert(ancestor_at(par, y, (b - a) as nat) == Some(y));
        assert(on_cycle(par, y));
    }
}

} // verus!
