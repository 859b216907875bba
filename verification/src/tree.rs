//! The process tree: parent links (with cycles cut), sibling order, filter
//! visibility, collapsing, and the rows a tree view shows.

use crate::order::{
    find_rep, frozen_arrangement, frozen_order, has_pid, index_range, index_set, lowered_names,
    names_lowered, rep_of, sort_indices, sorted_arrangement, SortDir, SortKey,
};
use crate::process::ProcessInfo;
use crate::text::{contains_chars, contains_seq, lowercase_chars, lowercase_of};
use std::collections::HashSet;
use vstd::prelude::*;

verus! {

broadcast use vstd::std_specs::hash::group_hash_axioms;

/// The connector drawn in one column of a tree row.
#[derive(Debug, Clone, Copy, PartialEq, Eq, Structural)]
pub enum BranchKind {
    /// A vertical line: an ancestor on this level has later siblings.
    Pipe,
    /// Blank: the ancestor on this level was the last of its siblings.
    Space,
    /// A branch to a node that has later siblings.
    Tee,
    /// A branch to the last sibling.
    Corner,
}

/// One displayed row: the process at `idx` and how to draw it.
#[derive(Debug, PartialEq, Eq)]
pub struct TreeRow {
    pub idx: usize,
    pub depth: usize,
    pub branches: Vec<BranchKind>,
    pub has_children: bool,
    pub is_collapsed: bool,
    pub collapsed_count: usize,
}

/// The mathematical content of a `TreeRow`.
pub struct RowView {
    pub idx: usize,
    pub depth: nat,
    pub branches: Seq<BranchKind>,
    pub has_children: bool,
    pub is_collapsed: bool,
    pub collapsed_count: nat,
}

impl View for TreeRow {
    type V = RowView;

    open spec fn view(&self) -> RowView {
        RowView {
            idx: self.idx,
            depth: self.depth as nat,
            branches: self.branches@,
            has_children: self.has_children,
            is_collapsed: self.is_collapsed,
            collapsed_count: self.collapsed_count as nat,
        }
    }
}

impl Clone for TreeRow {
    fn clone(&self) -> (r: Self)
        ensures
            r@ == self@,
    {
        TreeRow {
            idx: self.idx,
            depth: self.depth,
            branches: copy_branches(&self.branches),
            has_children: self.has_children,
            is_collapsed: self.is_collapsed,
            collapsed_count: self.collapsed_count,
        }
    }
}

/// The views of a sequence of rows.
pub open spec fn rows_view(rows: Seq<TreeRow>) -> Seq<RowView> {
    rows.map_values(|r: TreeRow| r@)
}

/// Frozen sibling orders: for each parent pid (`None` for the roots), the pids of its
/// children in the order they were shown. Held as a list of keys beside a list of orders,
/// since std's hash map gives no facts about lookups under `Option<u32>` keys.
pub struct TreeOrder {
    keys: Vec<Option<u32>>,
    lists: Vec<Vec<u32>>,
}

impl TreeOrder {
    #[verifier::type_invariant]
    spec fn inv(&self) -> bool {
        &&& self.keys@.len() == self.lists@.len()
        &&& self.keys@.no_duplicates()
    }

    spec fn slot(&self, k: Option<u32>) -> int {
        choose|i: int| 0 <= i < self.keys@.len() && self.keys@[i] == k
    }
}

impl View for TreeOrder {
    type V = Map<Option<u32>, Seq<u32>>;

    closed spec fn view(&self) -> Map<Option<u32>, Seq<u32>> {
        Map::new(|k: Option<u32>| self.keys@.contains(k), |k: Option<u32>| self.lists@[self.slot(k)]@)
    }
}

impl TreeOrder {
    /// An empty set of frozen orders.
    pub fn new() -> (r: Self)
        ensures
            r@ == Map::<Option<u32>, Seq<u32>>::empty(),
    {
        let r = TreeOrder { keys: Vec::new(), lists: Vec::new() };
        assert(r@ =~= Map::<Option<u32>, Seq<u32>>::empty());
        r
    }

    fn find(&self, key: &Option<u32>) -> (r: Option<usize>)
        ensures
            match r {
                Some(i) => i < self.keys@.len() && self.keys@[i as int] == *key && self.slot(*key) == i,
                None => !self.keys@.contains(*key),
            },
    {
        proof {
            use_type_invariant(self);
        }
        let mut i: usize = 0;
        while i < self.keys.len()
            invariant
                i <= self.keys@.len(),
                self.keys@.no_duplicates(),
                forall|t: int| 0 <= t < i ==> self.keys@[t] != *key,
            decreases self.keys@.len() - i,
        {
            if self.keys[i] == *key {
                proof {
                    let j = self.slot(*key);
                    assert(self.keys@.contains(*key));
                    assert(0 <= j < self.keys@.len() && self.keys@[j] == *key);
                }
                return Some(i);
            }
            i = i + 1;
        }
        None
    }

    /// The frozen order under `key`, if any.
    pub fn get(&self, key: &Option<u32>) -> (r: Option<&Vec<u32>>)
        ensures
            match r {
                Some(v) => self@.contains_key(*key) && v@ == self@[*key],
                None => !self@.contains_key(*key),
            },
    {
        proof {
            use_type_invariant(self);
        }
        match self.find(key) {
            Some(i) => Some(&self.lists[i]),
            None => None,
        }
    }

    /// Sets the frozen order under `key`.
    pub fn insert(&mut self, key: Option<u32>, value: Vec<u32>)
        ensures
            final(self)@ == old(self)@.insert(key, value@),
    {
        proof {
            use_type_invariant(&*self);
        }
        let ghost old_view = self@;
        let ghost value_view = value@;
        match self.find(&key) {
            Some(i) => {
                let ghost old_keys = self.keys@;
                let ghost old_lists = self.lists@;
                let mut taken = TreeOrder::new();
                std::mem::swap(self, &mut taken);
                let TreeOrder { keys, mut lists } = taken;
                lists.set(i, value);
                *self = TreeOrder { keys, lists };
                proof {
                    assert forall|k: Option<u32>| #[trigger] self@.contains_key(k) implies self@[k] == old_view.insert(key, value_view)[k] by {
                        let j = self.slot(k);
                        if k != key {
                            assert(old_keys.contains(k));
                            assert(j != i);
                        } else {
                            assert(self.keys@[i as int] == key);
                        }
                    }
                    assert(self@ =~= old_view.insert(key, value_view));
                }
            },
            None => {
                let ghost old_keys = self.keys@;
                let ghost old_lists = self.lists@;
                let mut taken = TreeOrder::new();
                std::mem::swap(self, &mut taken);
                let TreeOrder { mut keys, mut lists } = taken;
                keys.push(key);
                lists.push(value);
                proof {
                    let n = old_keys.len();
                    assert forall|a: int, b: int| 0 <= a < b < keys@.len() implies keys@[a] != keys@[b] by {
                        if b == n {
                            assert(old_keys.contains(old_keys[a]));
                        }
                    }
                }
                *self = TreeOrder { keys, lists };
                proof {
                    let n = old_keys.len();
                    assert forall|k: Option<u32>| #[trigger] self@.contains_key(k) implies self@[k] == old_view.insert(key, value_view)[k] by {
                        let j = self.slot(k);
                        if k != key {
                            assert(j != n);
                            let j2 = choose|t: int| 0 <= t < old_keys.len() && old_keys[t] == k;
                            assert(self.keys@[j2] == k);
                            assert(j == j2);
                        } else {
                            assert(self.keys@[n as int] == key);
                            assert(j == n);
                        }
                    }
                    assert forall|k: Option<u32>| #[trigger] self@.contains_key(k) <==> old_view.insert(key, value_view).contains_key(k) by {
                        if k == key {
                            assert(self.keys@[n as int] == key);
                        } else if old_keys.contains(k) {
                            let j2 = choose|t: int| 0 <= t < old_keys.len() && old_keys[t] == k;
                            assert(self.keys@[j2] == k);
                        }
                    }
                    assert(self@ =~= old_view.insert(key, value_view));
                }
            },
        }
    }

    /// Appends `pid` to the frozen order under `key`, starting that order if absent.
    pub fn push_to(&mut self, key: Option<u32>, pid: u32)
        ensures
            final(self)@ == old(self)@.insert(
                key,
                if old(self)@.contains_key(key) {
                    old(self)@[key].push(pid)
                } else {
                    seq![pid]
                },
            ),
    {
        let mut list: Vec<u32> = match self.get(&key) {
            Some(v) => v.clone(),
            None => Vec::new(),
        };
        list.push(pid);
        proof {
            if old(self)@.contains_key(key) {
                assert(list@ =~= old(self)@[key].push(pid));
            } else {
                assert(list@ =~= seq![pid]);
            }
        }
        self.insert(key, list);
    }

    /// Whether no frozen order is held.
    pub fn is_empty(&self) -> (r: bool)
        ensures
            r == (self@ == Map::<Option<u32>, Seq<u32>>::empty()),
    {
        proof {
            use_type_invariant(self);
        }
        if self.keys.len() == 0 {
            assert(self@ =~= Map::<Option<u32>, Seq<u32>>::empty());
            true
        } else {
            assert(self@.contains_key(self.keys@[0]));
            false
        }
    }

    /// Drops every frozen order.
    pub fn clear(&mut self)
        ensures
            final(self)@ == Map::<Option<u32>, Seq<u32>>::empty(),
    {
        *self = TreeOrder::new();
        assert(self@ =~= Map::<Option<u32>, Seq<u32>>::empty());
    }
}

/// The greatest index whose process has pid `q`, if any (the process a pid lookup finds).
pub open spec fn pid_index(ps: Seq<ProcessInfo>, q: u32) -> Option<usize> {
    if has_pid(ps, index_set(ps.len()), q) {
        Some(rep_of(ps, index_set(ps.len()), q))
    } else {
        None
    }
}

/// The parent link of process `i` as its `ppid` gives it: the process found for that pid,
/// unless none is found or it is `i` itself.
pub open spec fn raw_parent(ps: Seq<ProcessInfo>, i: usize) -> Option<usize> {
    match ps[i as int].ppid {
        Some(q) => match pid_index(ps, q) {
            Some(j) => if j != i {
                Some(j)
            } else {
                None
            },
            None => None,
        },
        None => None,
    }
}

/// The parent links of all processes, before cycles are cut.
pub open spec fn raw_parents(ps: Seq<ProcessInfo>) -> Seq<Option<usize>> {
    Seq::new(ps.len(), |i: int| raw_parent(ps, i as usize))
}

/// Every link points at an index of the sequence.
pub open spec fn links_in_range(par: Seq<Option<usize>>) -> bool {
    forall|i: int| 0 <= i < par.len() ==> match #[trigger] par[i] {
        Some(j) => j < par.len(),
        None => true,
    }
}

/// One step up from `a`.
pub open spec fn step_up(par: Seq<Option<usize>>, a: Option<usize>) -> Option<usize> {
    match a {
        Some(x) => if x < par.len() {
            par[x as int]
        } else {
            None
        },
        None => None,
    }
}

/// The node `k` steps up from `i` (`None` once a root has been passed).
pub open spec fn ancestor_at(par: Seq<Option<usize>>, i: usize, k: nat) -> Option<usize>
    decreases k,
{
    if k == 0 {
        Some(i)
    } else {
        step_up(par, ancestor_at(par, i, (k - 1) as nat))
    }
}

/// Walking up from `s` meets `x` (within as many steps as there are nodes).
pub open spec fn reaches(par: Seq<Option<usize>>, s: usize, x: usize) -> bool {
    exists|k: nat| k <= par.len() && #[trigger] ancestor_at(par, s, k) == Some(x)
}

/// Walking up from `i` comes back to `i`.
pub open spec fn on_cycle(par: Seq<Option<usize>>, i: usize) -> bool {
    exists|k: nat| 1 <= k <= par.len() && #[trigger] ancestor_at(par, i, k) == Some(i)
}

/// `x` lies on the cycle through `i`.
pub open spec fn in_cycle_of(par: Seq<Option<usize>>, x: usize, i: usize) -> bool {
    on_cycle(par, x) && reaches(par, x, i)
}

/// The smallest index whose upward walk meets `i`.
pub open spec fn first_reacher(par: Seq<Option<usize>>, i: usize) -> usize {
    choose|s: usize| s < par.len() && reaches(par, s, i) && forall|t: usize| t < s ==> !reaches(par, t, i)
}

/// The walk from `s` is, after `k` steps, on the cycle through `i`.
pub open spec fn at_cycle(par: Seq<Option<usize>>, s: usize, k: nat, i: usize) -> bool {
    match ancestor_at(par, s, k) {
        Some(x) => in_cycle_of(par, x, i),
        None => false,
    }
}

/// How many steps the walk from `first_reacher(i)` takes to enter the cycle through `i`.
pub open spec fn entry_step(par: Seq<Option<usize>>, i: usize) -> nat {
    let m = first_reacher(par, i);
    choose|k: nat| k <= par.len() && at_cycle(par, m, k, i) && forall|j: nat| j < k ==> !at_cycle(par, m, j, i)
}

/// Where the cycle through `i` is first entered, walking up from `first_reacher(i)`.
pub open spec fn cycle_entry(par: Seq<Option<usize>>, i: usize) -> Option<usize> {
    ancestor_at(par, first_reacher(par, i), entry_step(par, i))
}

/// `i`'s link is cut: `i` is on a cycle and is where that cycle is first entered
/// from the smallest index that leads into it.
pub open spec fn is_cut(par: Seq<Option<usize>>, i: usize) -> bool {
    on_cycle(par, i) && cycle_entry(par, i) == Some(i)
}

/// The parent links with one link of every cycle cut.
pub open spec fn cut_links(par: Seq<Option<usize>>) -> Seq<Option<usize>> {
    Seq::new(par.len(), |i: int| if is_cut(par, i as usize) { None } else { par[i] })
}

/// The parent links the tree is built from.
pub open spec fn tree_parents(ps: Seq<ProcessInfo>) -> Seq<Option<usize>> {
    cut_links(raw_parents(ps))
}

/// Computes `raw_parents`.
pub fn parent_links(ps: &Vec<ProcessInfo>) -> (r: Vec<Option<usize>>)
    ensures
        r@ == raw_parents(ps@),
        links_in_range(r@),
{
    let n = ps.len();
    let all = index_range(n);
    let mut out: Vec<Option<usize>> = Vec::new();
    let mut i: usize = 0;
    while i < n
        invariant
            n == ps@.len(),
            all@.len() == n,
            forall|k: int| 0 <= k < n ==> #[trigger] all@[k] == k,
            all@.to_set() == index_set(n as nat),
            i <= n,
            out@.len() == i,
            forall|k: int| 0 <= k < i ==> #[trigger] out@[k] == raw_parent(ps@, k as usize),
            forall|k: int| 0 <= k < i ==> match #[trigger] out@[k] {
                Some(j) => j < n,
                None => true,
            },
        decreases n - i,
    {
        let link = match ps[i].ppid {
            Some(q) => match find_rep(ps, &all, q) {
                Some(j) => {
                    proof {
                        let s = index_set(n as nat);
                        let c = rep_of(ps@, s, q);
                        assert(has_pid(ps@, s, q)) by {
                            assert(s.contains(j));
                        }
                        assert(crate::order::is_rep(ps@, s, c) && ps@[c as int].pid == q);
                        crate::order::lemma_rep_unique(ps@, s, j, c);
                        assert(all@.contains(j));
                        let t = choose|t: int| 0 <= t < n && all@[t] == j;
                    }
                    if j != i {
                        Some(j)
                    } else {
                        None
                    }
                },
                None => None,
            },
            None => None,
        };
        out.push(link);
        i = i + 1;
    }
    assert(out@ =~= raw_parents(ps@));
    out
}

/// The node `k` steps up from `i`.
fn ancestor(par: &Vec<Option<usize>>, i: usize, k: usize) -> (r: Option<usize>)
    ensures
        r == ancestor_at(par@, i, k as nat),
{
    let mut cur: Option<usize> = Some(i);
    let mut t: usize = 0;
    while t < k
        invariant
            t <= k,
            cur == ancestor_at(par@, i, t as nat),
        decreases k - t,
    {
        cur = match cur {
            Some(x) => if x < par.len() {
                par[x]
            } else {
                None
            },
            None => None,
        };
        t = t + 1;
    }
    cur
}

/// Whether walking up from `s` meets `x` within `par.len()` steps.
fn reaches_exec(par: &Vec<Option<usize>>, s: usize, x: usize) -> (r: bool)
    ensures
        r == reaches(par@, s, x),
{
    let n = par.len();
    let mut cur: Option<usize> = Some(s);
    let mut t: usize = 0;
    loop
        invariant
            n == par@.len(),
            t <= n,
            cur == ancestor_at(par@, s, t as nat),
            forall|j: nat| j < t ==> #[trigger] ancestor_at(par@, s, j) != Some(x),
        decreases n - t,
    {
        if cur == Some(x) {
            return true;
        }
        if t == n {
            assert forall|k: nat| k <= par@.len() implies #[trigger] ancestor_at(par@, s, k) != Some(x) by {
                if k < t {
                } else {
                    assert(k == t);
                }
            }
            return false;
        }
        cur = match cur {
            Some(y) => if y < par.len() {
                par[y]
            } else {
                None
            },
            None => None,
        };
        t = t + 1;
    }
}

/// Whether walking up from `i` comes back to `i` within `par.len()` steps.
fn on_cycle_exec(par: &Vec<Option<usize>>, i: usize) -> (r: bool)
    ensures
        r == on_cycle(par@, i),
{
    let n = par.len();
    let mut cur: Option<usize> = Some(i);
    let mut t: usize = 0;
    while t < n
        invariant
            n == par@.len(),
            t <= n,
            cur == ancestor_at(par@, i, t as nat),
            forall|j: nat| 1 <= j <= t ==> #[trigger] ancestor_at(par@, i, j) != Some(i),
        decreases n - t,
    {
        cur = match cur {
            Some(y) => if y < par.len() {
                par[y]
            } else {
                None
            },
            None => None,
        };
        t = t + 1;
        if cur == Some(i) {
            return true;
        }
    }
    false
}

/// Cuts one link of every cycle, as `cut_links` says.
pub fn cut_cycles(par: &Vec<Option<usize>>) -> (r: Vec<Option<usize>>)
    ensures
        r@ == cut_links(par@),
{
    let n = par.len();
    let mut out: Vec<Option<usize>> = Vec::new();
    let mut i: usize = 0;
    while i < n
        invariant
            n == par@.len(),
            i <= n,
            out@.len() == i,
            forall|k: int| 0 <= k < i ==> #[trigger] out@[k] == cut_links(par@)[k],
        decreases n - i,
    {
        let mut cut = false;
        if on_cycle_exec(par, i) {
            // the smallest index whose walk meets i
            let mut m: usize = 0;
            while !reaches_exec(par, m, i)
                invariant
                    n == par@.len(),
                    i < n,
                    m <= i,
                    forall|t: usize| t < m ==> !reaches(par@, t, i),
                decreases i - m,
            {
                if m == i {
                    assert(ancestor_at(par@, i, 0) == Some(i));
                    assert(reaches(par@, i, i));
                }
                m = m + 1;
            }
            proof {
                let fr = first_reacher(par@, i);
                assert(m < par@.len() && reaches(par@, m, i) && forall|t: usize| t < m ==> !reaches(par@, t, i));
                if fr < m {
                } else if m < fr {
                }
                assert(fr == m);
            }
            // the first step of that walk that is on i's cycle
            let mut cur: Option<usize> = Some(m);
            let mut k: usize = 0;
            let mut found: bool = false;
            loop
                invariant
                    n == par@.len(),
                    i < n,
                    m == first_reacher(par@, i),
                    reaches(par@, m, i),
                    on_cycle(par@, i),
                    k <= n,
                    cur == ancestor_at(par@, m, k as nat),
                    found ==> at_cycle(par@, m, k as nat, i),
                    forall|j: nat| j < k ==> !#[trigger] at_cycle(par@, m, j, i),
                ensures
                    found,
                    k <= n,
                    cur == ancestor_at(par@, m, k as nat),
                    at_cycle(par@, m, k as nat, i),
                    forall|j: nat| j < k ==> !#[trigger] at_cycle(par@, m, j, i),
                decreases n - k,
            {
                let hit = match cur {
                    Some(x) => on_cycle_exec(par, x) && reaches_exec(par, x, i),
                    None => false,
                };
                if hit {
                    found = true;
                    break;
                }
                if k == n {
                    proof {
                        let k0 = choose|k0: nat| k0 <= par@.len() && #[trigger] ancestor_at(par@, m, k0) == Some(i);
                        assert(ancestor_at(par@, i, 0) == Some(i));
                        assert(reaches(par@, i, i));
                        assert(at_cycle(par@, m, k0, i));
                        if k0 < k {
                        } else {
                            assert(k0 == k);
                        }
                        assert(false);
                    }
                    break;
                }
                cur = match cur {
                    Some(y) => if y < par.len() {
                        par[y]
                    } else {
                        None
                    },
                    None => None,
                };
                k = k + 1;
            }
            proof {
                assert(found);
                let es = entry_step(par@, i);
                assert(k <= par@.len() && at_cycle(par@, m, k as nat, i) && forall|j: nat| j < k ==> !at_cycle(par@, m, j, i));
                if es < k {
                } else if k < es {
                }
                assert(es == k);
            }
            cut = cur == Some(i);
        }
        out.push(if cut {
            None
        } else {
            par[i]
        });
        i = i + 1;
    }
    assert(out@ =~= cut_links(par@));
    out
}

/// The indices whose link is `p` (the roots when `p` is `None`).
pub open spec fn children_set(par: Seq<Option<usize>>, p: Option<usize>) -> Set<usize> {
    Set::new(|c: usize| c < par.len() && par[c as int] == p)
}

/// The pid a sibling list is frozen under: the parent's pid, or `None` for the roots.
pub open spec fn parent_pid(ps: Seq<ProcessInfo>, p: Option<usize>) -> Option<u32> {
    match p {
        Some(x) => Some(ps[x as int].pid),
        None => None,
    }
}

/// The frozen order kept under `k`, if a frozen map is given and holds one.
pub open spec fn frozen_for(frozen: Option<Map<Option<u32>, Seq<u32>>>, k: Option<u32>) -> Option<Seq<u32>> {
    match frozen {
        Some(m) => if m.contains_key(k) {
            Some(m[k])
        } else {
            None
        },
        None => None,
    }
}

/// The children of `p` in display order: after the frozen order kept for `p`'s pid when
/// there is one, otherwise stably sorted.
pub open spec fn ordered_children(
    ps: Seq<ProcessInfo>,
    par: Seq<Option<usize>>,
    key: SortKey,
    dir: SortDir,
    frozen: Option<Map<Option<u32>, Seq<u32>>>,
    p: Option<usize>,
) -> Seq<usize> {
    let s = children_set(par, p);
    match frozen_for(frozen, parent_pid(ps, p)) {
        Some(f) => frozen_arrangement(ps, s, f, key, dir),
        None => sorted_arrangement(ps, key, dir, s),
    }
}

/// The process's name matches the filter: the filter is empty, or its lower-cased form
/// occurs in the lower-cased name.
pub open spec fn name_matches(name: Seq<char>, filter: Seq<char>) -> bool {
    filter.len() == 0 || contains_seq(lowercase_of(name), lowercase_of(filter))
}

/// Node `i` is shown under the filter: some node at or below it matches.
pub open spec fn shown(ps: Seq<ProcessInfo>, par: Seq<Option<usize>>, filter: Seq<char>, i: usize) -> bool {
    exists|j: usize| j < ps.len() && name_matches(ps[j as int].name@, filter) && #[trigger] reaches(par, j, i)
}

/// `j` lies strictly below `i`.
pub open spec fn strictly_below(par: Seq<Option<usize>>, i: usize, j: usize) -> bool {
    exists|k: nat| 1 <= k <= par.len() && #[trigger] ancestor_at(par, j, k) == Some(i)
}

/// How many of the nodes `0..t` are shown and lie strictly below `i`.
pub open spec fn count_shown_below(
    ps: Seq<ProcessInfo>,
    par: Seq<Option<usize>>,
    filter: Seq<char>,
    i: usize,
    t: nat,
) -> nat
    decreases t,
{
    if t == 0 {
        0
    } else {
        count_shown_below(ps, par, filter, i, (t - 1) as nat) + if shown(ps, par, filter, (t - 1) as usize)
            && strictly_below(par, i, (t - 1) as usize) {
            1nat
        } else {
            0nat
        }
    }
}

/// Builds the child lists (`kids[p]` for each node, and the roots) in display order.
fn order_children(
    ps: &Vec<ProcessInfo>,
    lowered: &Vec<Vec<char>>,
    par: &Vec<Option<usize>>,
    key: SortKey,
    dir: SortDir,
    frozen: Option<&TreeOrder>,
    p: Option<usize>,
) -> (r: Vec<usize>)
    requires
        names_lowered(ps@, lowered@),
        par@.len() == ps@.len(),
        match p {
            Some(x) => x < ps@.len(),
            None => true,
        },
    ensures
        r@ == ordered_children(
            ps@,
            par@,
            key,
            dir,
            match frozen {
                Some(f) => Some(f@),
                None => None,
            },
            p,
        ),
        forall|k: int| 0 <= k < r@.len() ==> #[trigger] r@[k] < ps@.len(),
{
    let n = par.len();
    let mut list: Vec<usize> = Vec::new();
    let mut c: usize = 0;
    while c < n
        invariant
            n == par@.len(),
            c <= n,
            forall|k: int| 0 <= k < list@.len() ==> #[trigger] list@[k] < c,
            forall|a: int, b: int| 0 <= a < b < list@.len() ==> list@[a] < list@[b],
            forall|y: usize| #[trigger] list@.contains(y) <==> (y < c && par@[y as int] == p),
        decreases n - c,
    {
        let ghost before = list@;
        if par[c] == p {
            list.push(c);
        }
        proof {
            assert forall|y: usize| #[trigger] list@.contains(y) <==> (y < c + 1 && par@[y as int] == p) by {
                if list@.contains(y) {
                    let t = choose|t: int| 0 <= t < list@.len() && list@[t] == y;
                    if t < before.len() {
                        assert(before.contains(y));
                    }
                }
                if y < c + 1 && par@[y as int] == p {
                    if y < c {
                        assert(before.contains(y));
                        let t = choose|t: int| 0 <= t < before.len() && before[t] == y;
                        assert(list@[t] == y);
                    } else {
                        assert(list@[list@.len() - 1] == y);
                    }
                }
            }
        }
        c = c + 1;
    }
    let ghost s = children_set(par@, p);
    assert(list@.to_set() =~= s);
    assert(crate::order::ascending(list@));
    let pkey: Option<u32> = match p {
        Some(x) => Some(ps[x].pid),
        None => None,
    };
    let frozen_list: Option<&Vec<u32>> = match frozen {
        Some(f) => f.get(&pkey),
        None => None,
    };
    match frozen_list {
        Some(f) => frozen_order(ps, lowered, &list, f, key, dir),
        None => sort_indices(ps, lowered, &list, key, dir),
    }
}

/// Name `j` of the lower-cased names passes: every name passes when `keep_all`, otherwise
/// those holding `needle`.
pub open spec fn passes_lowered(lowered: Seq<Vec<char>>, needle: Seq<char>, keep_all: bool, j: usize) -> bool {
    keep_all || contains_seq(lowered[j as int]@, needle)
}

/// Node `i` lies at or above a node whose lower-cased name passes (see `passes_lowered`).
pub open spec fn shown_lowered(
    lowered: Seq<Vec<char>>,
    par: Seq<Option<usize>>,
    needle: Seq<char>,
    keep_all: bool,
    i: usize,
) -> bool {
    exists|j: usize| j < lowered.len() && passes_lowered(lowered, needle, keep_all, j) && #[trigger] reaches(par, j, i)
}

/// Marks every node met walking up from `j`.
fn mark_up(par: &Vec<Option<usize>>, shown_flags: &mut Vec<bool>, j: usize)
    requires
        links_in_range(par@),
        j < par@.len(),
        old(shown_flags)@.len() == par@.len(),
    ensures
        final(shown_flags)@.len() == par@.len(),
        forall|a: usize| a < par@.len() ==> #[trigger] final(shown_flags)@[a as int] == (old(shown_flags)@[a as int]
            || reaches(par@, j, a)),
{
    let n = par.len();
    let mut cur: Option<usize> = Some(j);
    let mut t: usize = 0;
    loop
        invariant_except_break
            forall|a: usize| a < n ==> #[trigger] shown_flags@[a as int] == (old(shown_flags)@[a as int]
                || exists|k: nat| k < t && #[trigger] ancestor_at(par@, j, k) == Some(a)),
        invariant
            n == par@.len(),
            links_in_range(par@),
            j < n,
            t <= n,
            shown_flags@.len() == n,
            old(shown_flags)@.len() == n,
            cur == ancestor_at(par@, j, t as nat),
            match cur {
                Some(x) => x < n,
                None => true,
            },
        ensures
            shown_flags@.len() == n,
            forall|a: usize| a < n ==> #[trigger] shown_flags@[a as int] == (old(shown_flags)@[a as int]
                || reaches(par@, j, a)),
        decreases n - t,
    {
        let ghost before = shown_flags@;
        match cur {
            Some(x) => {
                shown_flags.set(x, true);
            },
            None => {},
        }
        proof {
            assert forall|a: usize| a < n implies #[trigger] shown_flags@[a as int] == (old(shown_flags)@[a as int]
                || exists|k: nat| k < t + 1 && #[trigger] ancestor_at(par@, j, k) == Some(a)) by {
                if exists|k: nat| k < t + 1 && #[trigger] ancestor_at(par@, j, k) == Some(a) {
                    let k = choose|k: nat| k < t + 1 && #[trigger] ancestor_at(par@, j, k) == Some(a);
                    if k < t {
                        assert(before[a as int]);
                    }
                }
            }
        }
        if t == n {
            proof {
                assert forall|a: usize| a < n implies #[trigger] shown_flags@[a as int] == (old(shown_flags)@[a as int]
                    || reaches(par@, j, a)) by {
                    if reaches(par@, j, a) {
                        let k = choose|k: nat| k <= par@.len() && #[trigger] ancestor_at(par@, j, k) == Some(a);
                        assert(k < t + 1);
                    }
                    if exists|k: nat| k < t + 1 && #[trigger] ancestor_at(par@, j, k) == Some(a) {
                        let k = choose|k: nat| k < t + 1 && #[trigger] ancestor_at(par@, j, k) == Some(a);
                        assert(k <= par@.len());
                    }
                }
            }
            break;
        }
        cur = match cur {
            Some(y) => par[y],
            None => None,
        };
        t = t + 1;
    }
}

/// Flags, for every node, whether it lies at or above a node whose lower-cased name
/// passes (see `shown_lowered`).
pub fn shown_from_lowered(
    lowered: &Vec<Vec<char>>,
    par: &Vec<Option<usize>>,
    needle: &Vec<char>,
    keep_all: bool,
) -> (r: Vec<bool>)
    requires
        par@.len() == lowered@.len(),
        links_in_range(par@),
    ensures
        r@.len() == lowered@.len(),
        forall|i: usize| i < lowered@.len() ==> #[trigger] r@[i as int] == shown_lowered(lowered@, par@, needle@, keep_all, i),
{
    let n = lowered.len();
    let mut flags: Vec<bool> = Vec::new();
    let mut i: usize = 0;
    while i < n
        invariant
            i <= n,
            flags@.len() == i,
            forall|a: int| 0 <= a < i ==> !#[trigger] flags@[a],
        decreases n - i,
    {
        flags.push(false);
        i = i + 1;
    }
    let mut j: usize = 0;
    while j < n
        invariant
            n == lowered@.len(),
            par@.len() == n,
            links_in_range(par@),
            j <= n,
            flags@.len() == n,
            forall|a: usize| a < n ==> #[trigger] flags@[a as int] == exists|j2: usize| j2 < j
                && passes_lowered(lowered@, needle@, keep_all, j2) && #[trigger] reaches(par@, j2, a),
        decreases n - j,
    {
        let ghost before = flags@;
        let pass = keep_all || contains_chars(&lowered[j], needle);
        if pass {
            mark_up(par, &mut flags, j);
        }
        proof {
            assert forall|a: usize| a < n implies #[trigger] flags@[a as int] == exists|j2: usize| j2 < j + 1
                && passes_lowered(lowered@, needle@, keep_all, j2) && #[trigger] reaches(par@, j2, a) by {
                if exists|j2: usize| j2 < j + 1 && passes_lowered(lowered@, needle@, keep_all, j2) && #[trigger] reaches(par@, j2, a) {
                    let j2 = choose|j2: usize| j2 < j + 1 && passes_lowered(lowered@, needle@, keep_all, j2) && #[trigger] reaches(par@, j2, a);
                    if j2 < j {
                        assert(before[a as int]);
                    }
                }
            }
        }
        j = j + 1;
    }
    flags
}

/// Computes `shown` for every node.
fn shown_nodes(
    ps: &Vec<ProcessInfo>,
    lowered: &Vec<Vec<char>>,
    par: &Vec<Option<usize>>,
    filter: &str,
) -> (r: Vec<bool>)
    requires
        names_lowered(ps@, lowered@),
        par@.len() == ps@.len(),
        links_in_range(par@),
    ensures
        r@.len() == ps@.len(),
        forall|i: usize| i < ps@.len() ==> #[trigger] r@[i as int] == shown(ps@, par@, filter@, i),
{
    let keep_all = filter.is_empty();
    let needle: Vec<char> = if keep_all {
        Vec::new()
    } else {
        lowercase_chars(filter)
    };
    let flags = shown_from_lowered(lowered, par, &needle, keep_all);
    proof {
        assert forall|j: usize| j < ps@.len() implies #[trigger] passes_lowered(lowered@, needle@, keep_all, j)
            == name_matches(ps@[j as int].name@, filter@) by {
            assert(lowered@[j as int]@ == lowercase_of(ps@[j as int].name@));
        }
        assert forall|i: usize| i < ps@.len() implies #[trigger] flags@[i as int] == shown(ps@, par@, filter@, i) by {
            if shown(ps@, par@, filter@, i) {
                let j = choose|j: usize| j < ps@.len() && name_matches(ps@[j as int].name@, filter@) && #[trigger] reaches(par@, j, i);
                assert(passes_lowered(lowered@, needle@, keep_all, j));
            }
            if shown_lowered(lowered@, par@, needle@, keep_all, i) {
                let j = choose|j: usize| j < lowered@.len() && passes_lowered(lowered@, needle@, keep_all, j) && #[trigger] reaches(par@, j, i);
                assert(name_matches(ps@[j as int].name@, filter@));
            }
        }
    }
    flags
}

/// Walking up from `d`, the first `k` nodes (`d` included) are flagged.
pub open spec fn flagged_before(par: Seq<Option<usize>>, flags: Seq<bool>, d: usize, k: nat) -> bool {
    forall|t: nat| t < k ==> match #[trigger] ancestor_at(par, d, t) {
        Some(x) => x < flags.len() && flags[x as int],
        None => false,
    }
}

/// `d` lies strictly below `i` and every node from `d` up to, not including, `i` is
/// flagged: a count that stops at unflagged nodes reaches `d` from `i`.
pub open spec fn open_below(par: Seq<Option<usize>>, flags: Seq<bool>, i: usize, d: usize) -> bool {
    exists|k: nat| 1 <= k <= par.len() && #[trigger] ancestor_at(par, d, k) == Some(i) && flagged_before(par, flags, d, k)
}

/// How many of the nodes `0..m` are `open_below` `i`.
pub open spec fn count_open_below(par: Seq<Option<usize>>, flags: Seq<bool>, i: usize, m: nat) -> nat
    decreases m,
{
    if m == 0 {
        0
    } else {
        count_open_below(par, flags, i, (m - 1) as nat) + if open_below(par, flags, i, (m - 1) as usize) {
            1nat
        } else {
            0nat
        }
    }
}

/// Whether `d` is `open_below` `i`.
fn open_below_exec(par: &Vec<Option<usize>>, flags: &Vec<bool>, i: usize, d: usize) -> (r: bool)
    ensures
        r == open_below(par@, flags@, i, d),
{
    let n = par.len();
    let mut cur: Option<usize> = Some(d);
    let mut t: usize = 0;
    loop
        invariant
            n == par@.len(),
            t <= n,
            cur == ancestor_at(par@, d, t as nat),
            flagged_before(par@, flags@, d, t as nat),
            forall|k: nat| 1 <= k <= t ==> #[trigger] ancestor_at(par@, d, k) != Some(i),
        decreases n - t,
    {
        if t == n {
            proof {
                if open_below(par@, flags@, i, d) {
                    let k = choose|k: nat| 1 <= k <= par@.len() && #[trigger] ancestor_at(par@, d, k) == Some(i)
                        && flagged_before(par@, flags@, d, k);
                    assert(ancestor_at(par@, d, k) != Some(i));
                }
            }
            return false;
        }
        let ok = match cur {
            Some(x) => x < flags.len() && flags[x],
            None => false,
        };
        if !ok {
            proof {
                if open_below(par@, flags@, i, d) {
                    let k = choose|k: nat| 1 <= k <= par@.len() && #[trigger] ancestor_at(par@, d, k) == Some(i)
                        && flagged_before(par@, flags@, d, k);
                    if k <= t {
                        assert(ancestor_at(par@, d, k) != Some(i));
                    } else {
                        assert(match ancestor_at(par@, d, t as nat) {
                            Some(x) => x < flags@.len() && flags@[x as int],
                            None => false,
                        });
                    }
                }
            }
            return false;
        }
        let ghost t0 = t;
        cur = match cur {
            Some(y) => if y < par.len() {
                par[y]
            } else {
                None
            },
            None => None,
        };
        t = t + 1;
        proof {
            assert(ancestor_at(par@, d, t as nat) == step_up(par@, ancestor_at(par@, d, t0 as nat)));
            assert forall|u: nat| u < t implies match #[trigger] ancestor_at(par@, d, u) {
                Some(x) => x < flags@.len() && flags@[x as int],
                None => false,
            } by {
                if u < t0 {
                    assert(flagged_before(par@, flags@, d, t0 as nat));
                }
            }
        }
        if cur == Some(i) {
            return true;
        }
    }
}

/// Counts the nodes below `i` reached by a count that stops at unflagged nodes (see
/// `open_below`).
pub fn count_flagged_below(par: &Vec<Option<usize>>, flags: &Vec<bool>, i: usize) -> (r: usize)
    ensures
        r == count_open_below(par@, flags@, i, par@.len()),
{
    let n = par.len();
    let mut count: usize = 0;
    let mut j: usize = 0;
    while j < n
        invariant
            n == par@.len(),
            j <= n,
            count <= j,
            count == count_open_below(par@, flags@, i, j as nat),
        decreases n - j,
    {
        if open_below_exec(par, flags, i, j) {
            count = count + 1;
        }
        j = j + 1;
    }
    count
}

/// Over the shown flags, a node is open below `i` exactly when it is shown and lies
/// strictly below `i`.
proof fn lemma_open_below_shown(ps: Seq<ProcessInfo>, par: Seq<Option<usize>>, flags: Seq<bool>, filter: Seq<char>, i: usize, d: usize)
    requires
        links_in_range(par),
        par.len() == ps.len(),
        flags.len() == ps.len(),
        forall|a: usize| a < ps.len() ==> #[trigger] flags[a as int] == shown(ps, par, filter, a),
        d < ps.len(),
    ensures
        open_below(par, flags, i, d) == (shown(ps, par, filter, d) && strictly_below(par, i, d)),
{
    if open_below(par, flags, i, d) {
        let k = choose|k: nat| 1 <= k <= par.len() && #[trigger] ancestor_at(par, d, k) == Some(i) && flagged_before(par, flags, d, k);
        assert(ancestor_at(par, d, 0) == Some(d));
        assert(match ancestor_at(par, d, 0) {
            Some(x) => x < flags.len() && flags[x as int],
            None => false,
        });
    }
    if shown(ps, par, filter, d) && strictly_below(par, i, d) {
        let k = choose|k: nat| 1 <= k <= par.len() && #[trigger] ancestor_at(par, d, k) == Some(i);
        let j = choose|j: usize| j < ps.len() && name_matches(ps[j as int].name@, filter) && #[trigger] reaches(par, j, d);
        assert forall|u: nat| u < k implies match #[trigger] ancestor_at(par, d, u) {
            Some(x) => x < flags.len() && flags[x as int],
            None => false,
        } by {
            crate::forest::lemma_walk_defined_before(par, d, k, u);
            crate::forest::lemma_walk_in_range(par, d, u);
            let x = ancestor_at(par, d, u)->0;
            assert(reaches(par, d, x));
            crate::forest::lemma_reaches_trans(par, j, d, x);
            assert(shown(ps, par, filter, x));
        }
        assert(flagged_before(par, flags, d, k));
    }
}

/// Counts the shown nodes strictly below `i`.
fn count_below(ps: &Vec<ProcessInfo>, par: &Vec<Option<usize>>, flags: &Vec<bool>, i: usize, Ghost(filter): Ghost<Seq<char>>) -> (r: usize)
    requires
        links_in_range(par@),
        flags@.len() == ps@.len(),
        par@.len() == ps@.len(),
        forall|a: usize| a < ps@.len() ==> #[trigger] flags@[a as int] == shown(ps@, par@, filter, a),
    ensures
        r == count_shown_below(ps@, par@, filter, i, ps@.len()),
{
    let r = count_flagged_below(par, flags, i);
    proof {
        lemma_count_open_shown(ps@, par@, flags@, filter, i, ps@.len());
    }
    r
}

/// Over the shown flags, the open count equals the shown count.
proof fn lemma_count_open_shown(ps: Seq<ProcessInfo>, par: Seq<Option<usize>>, flags: Seq<bool>, filter: Seq<char>, i: usize, m: nat)
    requires
        links_in_range(par),
        par.len() == ps.len(),
        flags.len() == ps.len(),
        forall|a: usize| a < ps.len() ==> #[trigger] flags[a as int] == shown(ps, par, filter, a),
        m <= ps.len(),
    ensures
        count_open_below(par, flags, i, m) == count_shown_below(ps, par, filter, i, m),
    decreases m,
{
    if m > 0 {
        lemma_count_open_shown(ps, par, flags, filter, i, (m - 1) as nat);
        lemma_open_below_shown(ps, par, flags, filter, i, (m - 1) as usize);
    }
}

/// Everything a tree layout depends on.
pub struct TreeInput {
    pub ps: Seq<ProcessInfo>,
    pub key: SortKey,
    pub dir: SortDir,
    pub collapsed: Set<u32>,
    pub filter: Seq<char>,
    pub frozen: Option<Map<Option<u32>, Seq<u32>>>,
}

impl TreeInput {
    /// The parent links of the tree.
    pub open spec fn par(self) -> Seq<Option<usize>> {
        tree_parents(self.ps)
    }

    /// The children of `p` (the roots for `None`) in display order.
    pub open spec fn kids(self, p: Option<usize>) -> Seq<usize> {
        ordered_children(self.ps, self.par(), self.key, self.dir, self.frozen, p)
    }

    /// Node `i` survives the filter.
    pub open spec fn shown(self, i: usize) -> bool {
        shown(self.ps, self.par(), self.filter, i)
    }

    /// The children of `p` that survive the filter, in display order.
    pub open spec fn shown_kids(self, p: Option<usize>) -> Seq<usize> {
        self.kids(p).filter(|c: usize| self.shown(c))
    }

    /// How many shown nodes lie strictly below `i`.
    pub open spec fn hidden_below(self, i: usize) -> nat {
        count_shown_below(self.ps, self.par(), self.filter, i, self.ps.len())
    }

    /// The row drawn for node `i`.
    pub open spec fn row(self, i: usize, is_last: bool, is_root: bool, prefix: Seq<BranchKind>) -> RowView {
        let has = self.shown_kids(Some(i)).len() > 0;
        let coll = has && self.collapsed.contains(self.ps[i as int].pid);
        let branches = if is_root {
            prefix
        } else {
            prefix.push(
                if is_last {
                    BranchKind::Corner
                } else {
                    BranchKind::Tee
                },
            )
        };
        RowView {
            idx: i,
            depth: branches.len(),
            branches,
            has_children: has,
            is_collapsed: coll,
            collapsed_count: if coll {
                self.hidden_below(i)
            } else {
                0
            },
        }
    }

    /// The prefix handed to the children of a node drawn with `is_last`, `is_root`, `prefix`.
    pub open spec fn child_prefix(self, is_last: bool, is_root: bool, prefix: Seq<BranchKind>) -> Seq<BranchKind> {
        if is_root {
            prefix
        } else {
            prefix.push(
                if is_last {
                    BranchKind::Space
                } else {
                    BranchKind::Pipe
                },
            )
        }
    }

    /// The rows of node `i` and, unless it is collapsed, of its shown descendants,
    /// depth first (at most `fuel` levels).
    pub open spec fn node_rows(self, i: usize, is_last: bool, is_root: bool, prefix: Seq<BranchKind>, fuel: nat) -> Seq<RowView>
        decreases fuel, 0nat, 0nat,
    {
        if fuel == 0 {
            Seq::empty()
        } else {
            let row = self.row(i, is_last, is_root, prefix);
            if row.is_collapsed {
                seq![row]
            } else {
                let kids = self.shown_kids(Some(i));
                seq![row] + self.list_rows(
                    kids,
                    kids.len(),
                    false,
                    self.child_prefix(is_last, is_root, prefix),
                    (fuel - 1) as nat,
                )
            }
        }
    }

    /// The rows of the first `k` nodes of the sibling list `list`.
    pub open spec fn list_rows(self, list: Seq<usize>, k: nat, is_root: bool, prefix: Seq<BranchKind>, fuel: nat) -> Seq<RowView>
        decreases fuel, 1nat, k,
    {
        if k == 0 || k > list.len() {
            Seq::empty()
        } else {
            self.list_rows(list, (k - 1) as nat, is_root, prefix, fuel) + self.node_rows(
                list[k - 1],
                k - 1 == list.len() - 1,
                is_root,
                prefix,
                fuel,
            )
        }
    }

    /// All rows of the tree view.
    pub open spec fn rows(self) -> Seq<RowView> {
        let roots = self.shown_kids(None);
        self.list_rows(roots, roots.len(), true, Seq::empty(), self.ps.len())
    }
}

/// What the tree walk works from, held together.
struct Layout<'a> {
    ps: &'a Vec<ProcessInfo>,
    par: Vec<Option<usize>>,
    kids: Vec<Vec<usize>>,
    flags: Vec<bool>,
    collapsed: &'a HashSet<u32>,
}

impl<'a> Layout<'a> {
    /// The layout data agrees with `t`.
    spec fn matches(&self, t: TreeInput) -> bool {
        &&& links_in_range(self.par@)
        &&& self.ps@ == t.ps
        &&& self.par@ == t.par()
        &&& self.collapsed@ == t.collapsed
        &&& self.kids@.len() == t.ps.len()
        &&& forall|p: usize| p < t.ps.len() ==> (#[trigger] self.kids@[p as int])@ == t.kids(Some(p))
        &&& forall|p: usize, k: int| p < t.ps.len() && 0 <= k < self.kids@[p as int]@.len() ==> #[trigger] self.kids@[p as int]@[k] < t.ps.len()
        &&& self.flags@.len() == t.ps.len()
        &&& forall|i: usize| i < t.ps.len() ==> #[trigger] self.flags@[i as int] == t.shown(i)
    }
}

/// The elements of `list` whose flag is set, in order.
fn keep_flagged(list: &Vec<usize>, flags: &Vec<bool>, Ghost(t): Ghost<TreeInput>) -> (r: Vec<usize>)
    requires
        flags@.len() == t.ps.len(),
        forall|i: usize| i < t.ps.len() ==> #[trigger] flags@[i as int] == t.shown(i),
        forall|k: int| 0 <= k < list@.len() ==> #[trigger] list@[k] < t.ps.len(),
    ensures
        r@ == list@.filter(|c: usize| t.shown(c)),
        forall|k: int| 0 <= k < r@.len() ==> #[trigger] r@[k] < t.ps.len(),
{
    let mut out: Vec<usize> = Vec::new();
    let mut k: usize = 0;
    while k < list.len()
        invariant
            flags@.len() == t.ps.len(),
            forall|i: usize| i < t.ps.len() ==> #[trigger] flags@[i as int] == t.shown(i),
            forall|j: int| 0 <= j < list@.len() ==> #[trigger] list@[j] < t.ps.len(),
            k <= list@.len(),
            out@ == list@.take(k as int).filter(|c: usize| t.shown(c)),
            forall|j: int| 0 <= j < out@.len() ==> #[trigger] out@[j] < t.ps.len(),
        decreases list@.len() - k,
    {
        let c = list[k];
        assert(list@.take(k + 1).drop_last() =~= list@.take(k as int));
        reveal_with_fuel(Seq::filter, 1);
        if flags[c] {
            out.push(c);
        }
        k = k + 1;
    }
    assert(list@.take(list@.len() as int) =~= list@);
    out
}

fn copy_branches(v: &Vec<BranchKind>) -> (r: Vec<BranchKind>)
    ensures
        r@ == v@,
{
    let mut out: Vec<BranchKind> = Vec::new();
    let mut i: usize = 0;
    while i < v.len()
        invariant
            i <= v@.len(),
            out@ =~= v@.take(i as int),
        decreases v@.len() - i,
    {
        out.push(v[i]);
        i = i + 1;
    }
    assert(v@.take(v@.len() as int) =~= v@);
    out
}

/// Appends the rows of node `idx` (see `TreeInput::node_rows`).
fn dfs_tree(
    lay: &Layout,
    idx: usize,
    is_last: bool,
    is_root: bool,
    prefix: &mut Vec<BranchKind>,
    out: &mut Vec<TreeRow>,
    fuel: usize,
    Ghost(t): Ghost<TreeInput>,
)
    requires
        lay.matches(t),
        idx < t.ps.len(),
        old(prefix)@.len() + fuel <= t.ps.len(),
    ensures
        rows_view(final(out)@) == rows_view(old(out)@) + t.node_rows(idx, is_last, is_root, old(prefix)@, fuel as nat),
        final(prefix)@ == old(prefix)@,
    decreases fuel,
{
    if fuel == 0 {
        assert(rows_view(out@) =~= rows_view(out@) + t.node_rows(idx, is_last, is_root, prefix@, 0));
        return;
    }
    let ghost prefix0 = prefix@;
    let ghost out0 = out@;
    let pid = lay.ps[idx].pid;
    let kids = keep_flagged(&lay.kids[idx], &lay.flags, Ghost(t));
    assert(kids@ == t.shown_kids(Some(idx)));
    let has_children = kids.len() > 0;
    let is_collapsed = has_children && lay.collapsed.contains(&pid);
    let collapsed_count = if is_collapsed {
        count_below(lay.ps, &lay.par, &lay.flags, idx, Ghost(t.filter))
    } else {
        0
    };
    let mut branches = copy_branches(prefix);
    if !is_root {
        branches.push(
            if is_last {
                BranchKind::Corner
            } else {
                BranchKind::Tee
            },
        );
    }
    let depth = branches.len();
    let row = TreeRow { idx, depth, branches, has_children, is_collapsed, collapsed_count };
    assert(row@ == t.row(idx, is_last, is_root, prefix0));
    out.push(row);
    assert(rows_view(out@) =~= rows_view(out0).push(t.row(idx, is_last, is_root, prefix0)));
    if is_collapsed {
        assert(rows_view(out@) =~= rows_view(out0) + t.node_rows(idx, is_last, is_root, prefix0, fuel as nat));
        return;
    }
    let pushed = if !is_root {
        prefix.push(
            if is_last {
                BranchKind::Space
            } else {
                BranchKind::Pipe
            },
        );
        true
    } else {
        false
    };
    assert(prefix@ == t.child_prefix(is_last, is_root, prefix0));
    let ghost out1 = out@;
    let n = kids.len();
    let mut i: usize = 0;
    while i < n
        invariant
            lay.matches(t),
            n == kids@.len(),
            kids@ == t.shown_kids(Some(idx)),
            forall|k: int| 0 <= k < kids@.len() ==> #[trigger] kids@[k] < t.ps.len(),
            i <= n,
            fuel >= 1,
            prefix@ == t.child_prefix(is_last, is_root, prefix0),
            prefix@.len() + fuel - 1 <= t.ps.len(),
            rows_view(out@) == rows_view(out1) + t.list_rows(kids@, i as nat, false, prefix@, (fuel - 1) as nat),
        decreases n - i,
    {
        let ghost before = out@;
        dfs_tree(lay, kids[i], i == n - 1, false, prefix, out, fuel - 1, Ghost(t));
        assert(rows_view(out@) =~= rows_view(out1) + t.list_rows(kids@, (i + 1) as nat, false, prefix@, (fuel - 1) as nat));
        i = i + 1;
    }
    if pushed {
        prefix.pop();
        assert(prefix@ =~= prefix0);
    }
    assert(rows_view(out@) =~= rows_view(out0) + t.node_rows(idx, is_last, is_root, prefix0, fuel as nat));
}

/// The frozen orders as a map, if any.
pub open spec fn frozen_view(frozen: Option<&TreeOrder>) -> Option<Map<Option<u32>, Seq<u32>>> {
    match frozen {
        Some(f) => Some(f@),
        None => None,
    }
}

/// Lays the processes out as a tree: each process under the process its `ppid` names
/// (links closing a cycle cut, see `cut_links`), siblings in display order, nodes kept
/// when they or a descendant match the filter, and the descendants of collapsed nodes
/// folded into their row.
pub fn build_tree_view(
    processes: &Vec<ProcessInfo>,
    sort_key: SortKey,
    sort_dir: SortDir,
    collapsed: &HashSet<u32>,
    filter: &str,
    frozen: Option<&TreeOrder>,
) -> (r: Vec<TreeRow>)
    ensures
        rows_view(r@) == (TreeInput {
            ps: processes@,
            key: sort_key,
            dir: sort_dir,
            collapsed: collapsed@,
            filter: filter@,
            frozen: frozen_view(frozen),
        }).rows(),
{
    let ghost t = TreeInput {
        ps: processes@,
        key: sort_key,
        dir: sort_dir,
        collapsed: collapsed@,
        filter: filter@,
        frozen: frozen_view(frozen),
    };
    let n = processes.len();
    let lowered = lowered_names(processes);
    let raw = parent_links(processes);
    let par = cut_cycles(&raw);
    assert(links_in_range(par@)) by {
        assert forall|i: int| 0 <= i < par@.len() implies match #[trigger] par@[i] {
            Some(j) => j < par@.len(),
            None => true,
        } by {
            assert(par@[i] == cut_links(raw@)[i]);
            assert(match raw@[i] {
                Some(j) => j < raw@.len(),
                None => true,
            });
        }
    }
    let mut kids: Vec<Vec<usize>> = Vec::new();
    let mut p: usize = 0;
    while p < n
        invariant
            n == processes@.len(),
            names_lowered(processes@, lowered@),
            par@ == t.par(),
            par@.len() == n,
            t.ps == processes@,
            t.key == sort_key,
            t.dir == sort_dir,
            t.frozen == frozen_view(frozen),
            p <= n,
            kids@.len() == p,
            forall|q: usize| q < p ==> (#[trigger] kids@[q as int])@ == t.kids(Some(q)),
            forall|q: usize, k: int| q < p && 0 <= k < kids@[q as int]@.len() ==> #[trigger] kids@[q as int]@[k] < n,
        decreases n - p,
    {
        let list = order_children(processes, &lowered, &par, sort_key, sort_dir, frozen, Some(p));
        kids.push(list);
        p = p + 1;
    }
    let roots = order_children(processes, &lowered, &par, sort_key, sort_dir, frozen, None);
    let flags = shown_nodes(processes, &lowered, &par, filter);
    let lay = Layout { ps: processes, par, kids, flags, collapsed };
    assert(lay.matches(t));
    let vroots = keep_flagged(&roots, &lay.flags, Ghost(t));
    let mut out: Vec<TreeRow> = Vec::new();
    let mut prefix: Vec<BranchKind> = Vec::new();
    let m = vroots.len();
    let mut i: usize = 0;
    while i < m
        invariant
            lay.matches(t),
            m == vroots@.len(),
            vroots@ == t.shown_kids(None),
            forall|k: int| 0 <= k < vroots@.len() ==> #[trigger] vroots@[k] < t.ps.len(),
            n == t.ps.len(),
            i <= m,
            prefix@ == Seq::<BranchKind>::empty(),
            rows_view(out@) == t.list_rows(vroots@, i as nat, true, Seq::empty(), n as nat),
        decreases m - i,
    {
        dfs_tree(&lay, vroots[i], i == m - 1, true, &mut prefix, &mut out, n, Ghost(t));
        assert(rows_view(out@) =~= t.list_rows(vroots@, (i + 1) as nat, true, Seq::empty(), n as nat));
        i = i + 1;
    }
    out
}

/// The plain row of a flat view for index `i`.
pub open spec fn flat_row(i: usize) -> RowView {
    RowView {
        idx: i,
        depth: 0,
        branches: Seq::empty(),
        has_children: false,
        is_collapsed: false,
        collapsed_count: 0,
    }
}

/// The rows of a flat view listing `visible`.
pub open spec fn flat_rows(visible: Seq<usize>) -> Seq<RowView> {
    visible.map_values(|i: usize| flat_row(i))
}

/// One row per listed index, flat: no nesting, no branches.
pub fn build_flat_view(visible: &Vec<usize>) -> (r: Vec<TreeRow>)
    ensures
        rows_view(r@) == flat_rows(visible@),
{
    let mut out: Vec<TreeRow> = Vec::new();
    let mut k: usize = 0;
    while k < visible.len()
        invariant
            k <= visible@.len(),
            rows_view(out@) =~= flat_rows(visible@.take(k as int)),
        decreases visible@.len() - k,
    {
        let row = TreeRow {
            idx: visible[k],
            depth: 0,
            branches: Vec::new(),
            has_children: false,
            is_collapsed: false,
            collapsed_count: 0,
        };
        let ghost before = out@;
        assert(row@.branches =~= Seq::<BranchKind>::empty());
        out.push(row);
        assert(rows_view(out@) =~= rows_view(before).push(out@[k as int]@));
        assert(visible@.take(k + 1) =~= visible@.take(k as int).push(visible@[k as int]));
        assert(flat_rows(visible@.take(k + 1)) =~= flat_rows(visible@.take(k as int)).push(flat_row(visible@[k as int])));
        k = k + 1;
    }
    assert(visible@.take(visible@.len() as int) =~= visible@);
    out
}

/// One step of recording: the row's pid is appended to the order of its parent (the
/// ancestor one level up on the stack of ancestor pids; `None` at depth 0), and the stack
/// is cut to the row's depth with the row's pid pushed.
pub open spec fn capture_step(state: (Map<Option<u32>, Seq<u32>>, Seq<u32>), r: RowView, ps: Seq<ProcessInfo>) -> (Map<Option<u32>, Seq<u32>>, Seq<u32>) {
    let (m, stack) = state;
    let st = if r.depth < stack.len() {
        stack.take(r.depth as int)
    } else {
        stack
    };
    let pid = ps[r.idx as int].pid;
    let key = if r.depth == 0 || st.len() == 0 {
        None
    } else {
        Some(st.last())
    };
    (m.insert(key, if m.contains_key(key) { m[key].push(pid) } else { seq![pid] }), st.push(pid))
}

/// The recording state after reading `rows` top to bottom, starting from `state`.
pub open spec fn capture_from(state: (Map<Option<u32>, Seq<u32>>, Seq<u32>), rows: Seq<RowView>, ps: Seq<ProcessInfo>) -> (Map<Option<u32>, Seq<u32>>, Seq<u32>)
    decreases rows.len(),
{
    if rows.len() == 0 {
        state
    } else {
        capture_step(capture_from(state, rows.drop_last(), ps), rows.last(), ps)
    }
}

/// The frozen orders recorded by reading `rows` top to bottom, with the stack of
/// ancestor pids in force after the last row.
pub open spec fn capture_state(rows: Seq<RowView>, ps: Seq<ProcessInfo>) -> (Map<Option<u32>, Seq<u32>>, Seq<u32>) {
    capture_from((Map::empty(), Seq::empty()), rows, ps)
}

/// Records the sibling order the rows show, so that a frozen tree keeps it.
pub fn capture_tree_order(rows: &Vec<TreeRow>, processes: &Vec<ProcessInfo>) -> (r: TreeOrder)
    requires
        forall|k: int| 0 <= k < rows@.len() ==> #[trigger] rows@[k].idx < processes@.len(),
    ensures
        r@ == capture_state(rows_view(rows@), processes@).0,
{
    let mut result = TreeOrder::new();
    let mut stack: Vec<u32> = Vec::new();
    let mut k: usize = 0;
    while k < rows.len()
        invariant
            forall|j: int| 0 <= j < rows@.len() ==> #[trigger] rows@[j].idx < processes@.len(),
            k <= rows@.len(),
            (result@, stack@) == capture_state(rows_view(rows@.take(k as int)), processes@),
        decreases rows@.len() - k,
    {
        let row = &rows[k];
        assert(rows_view(rows@.take(k + 1)).drop_last() =~= rows_view(rows@.take(k as int)));
        assert(rows_view(rows@.take(k + 1)).last() == row@);
        stack.truncate(row.depth);
        let pid = processes[row.idx].pid;
        let parent_key: Option<u32> = if row.depth == 0 || stack.len() == 0 {
            None
        } else {
            Some(stack[stack.len() - 1])
        };
        result.push_to(parent_key, pid);
        stack.push(pid);
        proof {
            let (m, st) = capture_state(rows_view(rows@.take(k + 1)), processes@);
            assert(result@ == m);
            assert(stack@ =~= st);
        }
        k = k + 1;
    }
    assert(rows@.take(rows@.len() as int) =~= rows@);
    result
}

} // verus!
