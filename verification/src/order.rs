//! Sort keys and the stable orderings used for the process table and the tree.

use crate::process::ProcessInfo;
use crate::text::{compare_chars, lemma_lex_basic, lemma_lex_trans, lex_order, lowercase_chars, lowercase_of};
use vstd::prelude::*;

verus! {

/// The column the table is ordered by.
#[derive(Debug, Clone, Copy, PartialEq, Eq, Structural)]
pub enum SortKey {
    Cpu,
    Memory,
    Name,
    Pid,
    Io,
}

impl Default for SortKey {
    fn default() -> (r: Self)
        ensures
            r == SortKey::Pid,
    {
        SortKey::Pid
    }
}

/// Ascending or descending order.
#[derive(Debug, Clone, Copy, PartialEq, Eq, Structural)]
pub enum SortDir {
    Asc,
    Desc,
}

impl Default for SortDir {
    fn default() -> (r: Self)
        ensures
            r == SortDir::Asc,
    {
        SortDir::Asc
    }
}

/// -1, 0 or 1 as `a` is below, equal to or above `b`.
pub open spec fn three_way(a: int, b: int) -> int {
    if a < b {
        -1
    } else if a > b {
        1
    } else {
        0
    }
}

/// How two processes compare on a column: names compare lower-cased, lexicographically.
pub open spec fn key_order(a: ProcessInfo, b: ProcessInfo, key: SortKey) -> int {
    match key {
        SortKey::Cpu => three_way(a.cpu_key as int, b.cpu_key as int),
        SortKey::Memory => three_way(a.memory_key as int, b.memory_key as int),
        SortKey::Name => lex_order(lowercase_of(a.name@), lowercase_of(b.name@)),
        SortKey::Pid => three_way(a.pid as int, b.pid as int),
        SortKey::Io => three_way(a.io_key as int, b.io_key as int),
    }
}

/// `key_order`, reversed for a descending direction.
pub open spec fn dir_order(a: ProcessInfo, b: ProcessInfo, key: SortKey, dir: SortDir) -> int {
    match dir {
        SortDir::Asc => key_order(a, b, key),
        SortDir::Desc => -key_order(a, b, key),
    }
}

/// In a stable ordering, the element at index `i` of `ps` comes before the one at index `j`:
/// it orders strictly first, or the two tie and `i` came first.
pub open spec fn goes_before(ps: Seq<ProcessInfo>, key: SortKey, dir: SortDir, i: usize, j: usize) -> bool {
    let o = dir_order(ps[i as int], ps[j as int], key, dir);
    o < 0 || (o == 0 && i < j)
}

/// `o` lists indices of `ps` in strictly increasing `goes_before` order.
pub open spec fn is_arranged(ps: Seq<ProcessInfo>, key: SortKey, dir: SortDir, o: Seq<usize>) -> bool {
    forall|a: int, b: int| 0 <= a < b < o.len() ==> #[trigger] goes_before(ps, key, dir, o[a], o[b])
}

/// `o` holds exactly the indices in `s`.
pub open spec fn holds_exactly(o: Seq<usize>, s: Set<usize>) -> bool {
    forall|y: usize| #[trigger] o.contains(y) <==> s.contains(y)
}

/// The indices in `s` in stable sorted order (unique, see `lemma_arrangement_unique`).
pub open spec fn sorted_arrangement(ps: Seq<ProcessInfo>, key: SortKey, dir: SortDir, s: Set<usize>) -> Seq<usize> {
    choose|o: Seq<usize>| is_arranged(ps, key, dir, o) && holds_exactly(o, s)
}

/// The indices below `n`.
pub open spec fn index_set(n: nat) -> Set<usize> {
    Set::new(|i: usize| i < n)
}

/// The elements of `ps` at the positions listed in `o`.
pub open spec fn pick(ps: Seq<ProcessInfo>, o: Seq<usize>) -> Seq<ProcessInfo> {
    o.map_values(|i: usize| ps[i as int])
}

/// `key_order` is a three-way comparison of a total preorder.
pub proof fn lemma_key_order(a: ProcessInfo, b: ProcessInfo, c: ProcessInfo, key: SortKey)
    ensures
        -1 <= key_order(a, b, key) <= 1,
        key_order(a, b, key) == -key_order(b, a, key),
        key_order(a, b, key) <= 0 && key_order(b, c, key) <= 0 ==> key_order(a, c, key) <= 0,
        key_order(a, b, key) <= 0 && key_order(b, c, key) <= 0 && (key_order(a, b, key) < 0
            || key_order(b, c, key) < 0) ==> key_order(a, c, key) < 0,
{
    if key == SortKey::Name {
        let (x, y, z) = (lowercase_of(a.name@), lowercase_of(b.name@), lowercase_of(c.name@));
        lemma_lex_basic(x, y);
        if lex_order(x, y) <= 0 && lex_order(y, z) <= 0 {
            lemma_lex_trans(x, y, z);
        }
    }
}

/// `goes_before` is a strict total order on distinct indices.
pub proof fn lemma_goes_before(ps: Seq<ProcessInfo>, key: SortKey, dir: SortDir, i: usize, j: usize, k: usize)
    ensures
        !goes_before(ps, key, dir, i, i),
        i != j ==> (goes_before(ps, key, dir, i, j) <==> !goes_before(ps, key, dir, j, i)),
        goes_before(ps, key, dir, i, j) && goes_before(ps, key, dir, j, k) ==> goes_before(
            ps,
            key,
            dir,
            i,
            k,
        ),
{
    let (a, b, c) = (ps[i as int], ps[j as int], ps[k as int]);
    lemma_key_order(a, b, c, key);
    lemma_key_order(b, c, a, key);
    lemma_key_order(c, a, b, key);
    lemma_key_order(a, a, a, key);
    lemma_key_order(b, a, c, key);
    lemma_key_order(a, c, b, key);
    lemma_key_order(c, b, a, key);
}

/// Two stable orderings of the same index set are the same sequence.
pub proof fn lemma_arrangement_unique(
    ps: Seq<ProcessInfo>,
    key: SortKey,
    dir: SortDir,
    o1: Seq<usize>,
    o2: Seq<usize>,
)
    requires
        is_arranged(ps, key, dir, o1),
        is_arranged(ps, key, dir, o2),
        forall|y: usize| o1.contains(y) <==> o2.contains(y),
    ensures
        o1 == o2,
    decreases o1.len() + o2.len(),
{
    if o1.len() == 0 {
        if o2.len() > 0 {
            assert(o2.contains(o2[0]));
        }
        assert(o1 =~= o2);
        return;
    }
    if o2.len() == 0 {
        assert(o1.contains(o1[0]));
        return;
    }
    let (x, y) = (o1[0], o2[0]);
    assert(o1.contains(x));
    assert(o2.contains(y));
    if x != y {
        let a = choose|a: int| 0 <= a < o2.len() && o2[a] == x;
        let b = choose|b: int| 0 <= b < o1.len() && o1[b] == y;
        assert(a > 0);
        assert(goes_before(ps, key, dir, o2[0], o2[a]));
        assert(b > 0);
        assert(goes_before(ps, key, dir, o1[0], o1[b]));
        lemma_goes_before(ps, key, dir, x, y, x);
        assert(false);
    }
    let (r1, r2) = (o1.drop_first(), o2.drop_first());
    assert forall|a: int, b: int| 0 <= a < b < r1.len() implies #[trigger] goes_before(ps, key, dir, r1[a], r1[b]) by {
        assert(goes_before(ps, key, dir, o1[a + 1], o1[b + 1]));
    }
    assert forall|a: int, b: int| 0 <= a < b < r2.len() implies #[trigger] goes_before(ps, key, dir, r2[a], r2[b]) by {
        assert(goes_before(ps, key, dir, o2[a + 1], o2[b + 1]));
    }
    assert forall|z: usize| r1.contains(z) <==> r2.contains(z) by {
        if r1.contains(z) {
            let a = choose|a: int| 0 <= a < r1.len() && r1[a] == z;
            assert(o1[a + 1] == z);
            assert(goes_before(ps, key, dir, o1[0], o1[a + 1]));
            lemma_goes_before(ps, key, dir, z, z, z);
            assert(z != x);
            assert(o1.contains(z));
            let c = choose|c: int| 0 <= c < o2.len() && o2[c] == z;
            assert(c > 0);
            assert(r2[c - 1] == z);
        }
        if r2.contains(z) {
            let a = choose|a: int| 0 <= a < r2.len() && r2[a] == z;
            assert(o2[a + 1] == z);
            assert(goes_before(ps, key, dir, o2[0], o2[a + 1]));
            lemma_goes_before(ps, key, dir, z, z, z);
            assert(z != y);
            assert(o2.contains(z));
            let c = choose|c: int| 0 <= c < o1.len() && o1[c] == z;
            assert(c > 0);
            assert(r1[c - 1] == z);
        }
    }
    lemma_arrangement_unique(ps, key, dir, r1, r2);
    assert(o1 =~= seq![x] + r1);
    assert(o2 =~= seq![y] + r2);
}

/// Any stable ordering of `s` is `sorted_arrangement` of `s`.
pub proof fn lemma_sorted_arrangement_is(
    ps: Seq<ProcessInfo>,
    key: SortKey,
    dir: SortDir,
    s: Set<usize>,
    o: Seq<usize>,
)
    requires
        is_arranged(ps, key, dir, o),
        holds_exactly(o, s),
    ensures
        sorted_arrangement(ps, key, dir, s) == o,
{
    let c = sorted_arrangement(ps, key, dir, s);
    assert(is_arranged(ps, key, dir, c) && holds_exactly(c, s));
    lemma_arrangement_unique(ps, key, dir, c, o);
}

/// `o` with `x` put in its place in stable sorted order.
pub open spec fn insert_sorted(ps: Seq<ProcessInfo>, key: SortKey, dir: SortDir, o: Seq<usize>, x: usize) -> Seq<usize>
    decreases o.len(),
{
    if o.len() == 0 {
        seq![x]
    } else if goes_before(ps, key, dir, x, o[0]) {
        seq![x] + o
    } else {
        seq![o[0]] + insert_sorted(ps, key, dir, o.drop_first(), x)
    }
}

/// Inserting a new index into a stable ordering gives a stable ordering.
pub proof fn lemma_insert_sorted(ps: Seq<ProcessInfo>, key: SortKey, dir: SortDir, o: Seq<usize>, x: usize)
    requires
        is_arranged(ps, key, dir, o),
        !o.contains(x),
    ensures
        is_arranged(ps, key, dir, insert_sorted(ps, key, dir, o, x)),
        forall|y: usize| #[trigger] insert_sorted(ps, key, dir, o, x).contains(y) <==> (o.contains(y) || y == x),
    decreases o.len(),
{
    let r = insert_sorted(ps, key, dir, o, x);
    if o.len() == 0 {
        assert forall|y: usize| #[trigger] r.contains(y) <==> (o.contains(y) || y == x) by {
            if r.contains(y) {
                let i = choose|i: int| 0 <= i < r.len() && r[i] == y;
            }
            if y == x {
                assert(r[0] == x);
            }
        }
    } else if goes_before(ps, key, dir, x, o[0]) {
        assert forall|a: int, b: int| 0 <= a < b < r.len() implies #[trigger] goes_before(ps, key, dir, r[a], r[b]) by {
            if a == 0 {
                if b > 1 {
                    assert(goes_before(ps, key, dir, o[0], o[b - 1]));
                    lemma_goes_before(ps, key, dir, x, o[0], o[b - 1]);
                }
            } else {
                assert(goes_before(ps, key, dir, o[a - 1], o[b - 1]));
            }
        }
        assert forall|y: usize| #[trigger] r.contains(y) <==> (o.contains(y) || y == x) by {
            if r.contains(y) {
                let i = choose|i: int| 0 <= i < r.len() && r[i] == y;
                if i > 0 {
                    assert(o[i - 1] == y);
                }
            }
            if o.contains(y) {
                let i = choose|i: int| 0 <= i < o.len() && o[i] == y;
                assert(r[i + 1] == y);
            }
            if y == x {
                assert(r[0] == x);
            }
        }
    } else {
        let rest = o.drop_first();
        assert forall|a: int, b: int| 0 <= a < b < rest.len() implies #[trigger] goes_before(ps, key, dir, rest[a], rest[b]) by {
            assert(goes_before(ps, key, dir, o[a + 1], o[b + 1]));
        }
        assert(!rest.contains(x)) by {
            if rest.contains(x) {
                let i = choose|i: int| 0 <= i < rest.len() && rest[i] == x;
                assert(o[i + 1] == x);
            }
        }
        lemma_insert_sorted(ps, key, dir, rest, x);
        let r2 = insert_sorted(ps, key, dir, rest, x);
        assert(r == seq![o[0]] + r2);
        assert(o.contains(o[0]));
        assert(o[0] != x);
        lemma_goes_before(ps, key, dir, x, o[0], x);
        assert(goes_before(ps, key, dir, o[0], x));
        assert forall|a: int, b: int| 0 <= a < b < r.len() implies #[trigger] goes_before(ps, key, dir, r[a], r[b]) by {
            if a == 0 {
                let y = r2[b - 1];
                assert(r2.contains(y));
                if y != x {
                    assert(rest.contains(y));
                    let i = choose|i: int| 0 <= i < rest.len() && rest[i] == y;
                    assert(goes_before(ps, key, dir, o[0], o[i + 1]));
                }
            } else {
                assert(goes_before(ps, key, dir, r2[a - 1], r2[b - 1]));
            }
        }
        assert forall|y: usize| #[trigger] r.contains(y) <==> (o.contains(y) || y == x) by {
            if r.contains(y) {
                let i = choose|i: int| 0 <= i < r.len() && r[i] == y;
                if i > 0 {
                    assert(r2.contains(y));
                    if y != x {
                        let j = choose|j: int| 0 <= j < rest.len() && rest[j] == y;
                        assert(o[j + 1] == y);
                    }
                }
            }
            if o.contains(y) {
                let i = choose|i: int| 0 <= i < o.len() && o[i] == y;
                if i == 0 {
                    assert(r[0] == y);
                } else {
                    assert(rest[i - 1] == y);
                    assert(r2.contains(y));
                    let j = choose|j: int| 0 <= j < r2.len() && r2[j] == y;
                    assert(r[j + 1] == y);
                }
            }
            if y == x {
                assert(r2.contains(x));
                let j = choose|j: int| 0 <= j < r2.len() && r2[j] == x;
                assert(r[j + 1] == x);
            }
        }
    }
}

/// Every finite set of indices has a stable ordering.
pub proof fn lemma_arrangement_exists(ps: Seq<ProcessInfo>, key: SortKey, dir: SortDir, s: Set<usize>)
    requires
        s.finite(),
    ensures
        exists|o: Seq<usize>| is_arranged(ps, key, dir, o) && holds_exactly(o, s),
    decreases s.len(),
{
    if s.len() == 0 {
        let o = Seq::<usize>::empty();
        assert(s =~= Set::<usize>::empty());
        assert(is_arranged(ps, key, dir, o) && holds_exactly(o, s));
    } else {
        let x = s.choose();
        lemma_arrangement_exists(ps, key, dir, s.remove(x));
        let o = choose|o: Seq<usize>| is_arranged(ps, key, dir, o) && holds_exactly(o, s.remove(x));
        lemma_insert_sorted(ps, key, dir, o, x);
        let r = insert_sorted(ps, key, dir, o, x);
        assert(is_arranged(ps, key, dir, r) && holds_exactly(r, s));
    }
}

/// `sorted_arrangement` of a finite set is a stable ordering of exactly that set.
pub proof fn lemma_sorted_arrangement(ps: Seq<ProcessInfo>, key: SortKey, dir: SortDir, s: Set<usize>)
    requires
        s.finite(),
    ensures
        is_arranged(ps, key, dir, sorted_arrangement(ps, key, dir, s)),
        holds_exactly(sorted_arrangement(ps, key, dir, s), s),
{
    lemma_arrangement_exists(ps, key, dir, s);
}

/// The lower-cased names of all processes.
pub fn lowered_names(ps: &Vec<ProcessInfo>) -> (r: Vec<Vec<char>>)
    ensures
        r@.len() == ps@.len(),
        forall|i: int| 0 <= i < r@.len() ==> #[trigger] r@[i]@ == lowercase_of(ps@[i].name@),
{
    let mut out: Vec<Vec<char>> = Vec::new();
    let mut i: usize = 0;
    while i < ps.len()
        invariant
            i <= ps@.len(),
            out@.len() == i,
            forall|k: int| 0 <= k < i ==> #[trigger] out@[k]@ == lowercase_of(ps@[k].name@),
        decreases ps@.len() - i,
    {
        out.push(lowercase_chars(ps[i].name.as_str()));
        i = i + 1;
    }
    out
}

/// The vector `lowered` holds the lower-cased names of `ps`.
pub open spec fn names_lowered(ps: Seq<ProcessInfo>, lowered: Seq<Vec<char>>) -> bool {
    &&& lowered.len() == ps.len()
    &&& forall|i: int| 0 <= i < lowered.len() ==> #[trigger] lowered[i]@ == lowercase_of(ps[i].name@)
}

fn three_way_u64(a: u64, b: u64) -> (r: i8)
    ensures
        r as int == three_way(a as int, b as int),
{
    if a < b {
        -1
    } else if a > b {
        1
    } else {
        0
    }
}

/// Whether index `i` goes before index `j` in the stable order on `key` and `dir`.
pub fn before(
    ps: &Vec<ProcessInfo>,
    lowered: &Vec<Vec<char>>,
    key: SortKey,
    dir: SortDir,
    i: usize,
    j: usize,
) -> (r: bool)
    requires
        i < ps@.len(),
        j < ps@.len(),
        names_lowered(ps@, lowered@),
    ensures
        r == goes_before(ps@, key, dir, i, j),
{
    let a = &ps[i];
    let b = &ps[j];
    let o: i8 = match key {
        SortKey::Cpu => three_way_u64(a.cpu_key as u64, b.cpu_key as u64),
        SortKey::Memory => three_way_u64(a.memory_key, b.memory_key),
        SortKey::Name => compare_chars(&lowered[i], &lowered[j]),
        SortKey::Pid => three_way_u64(a.pid as u64, b.pid as u64),
        SortKey::Io => three_way_u64(a.io_key, b.io_key),
    };
    proof {
        lemma_key_order(ps@[i as int], ps@[j as int], ps@[j as int], key);
    }
    let d: i8 = match dir {
        SortDir::Asc => o,
        SortDir::Desc => -o,
    };
    d < 0 || (d == 0 && i < j)
}

/// Arranges a list of distinct indices of `ps` in their stable sorted order (ties by
/// index, see `sorted_arrangement`).
fn arrange_distinct(
    ps: &Vec<ProcessInfo>,
    lowered: &Vec<Vec<char>>,
    list: &Vec<usize>,
    key: SortKey,
    dir: SortDir,
) -> (r: Vec<usize>)
    requires
        names_lowered(ps@, lowered@),
        forall|k: int| 0 <= k < list@.len() ==> #[trigger] list@[k] < ps@.len(),
        list@.no_duplicates(),
    ensures
        is_arranged(ps@, key, dir, r@),
        forall|k: int| 0 <= k < r@.len() ==> #[trigger] r@[k] < ps@.len(),
        forall|y: usize| #[trigger] r@.contains(y) <==> list@.contains(y),
        r@ == sorted_arrangement(ps@, key, dir, list@.to_set()),
{
    let mut out: Vec<usize> = Vec::new();
    let mut k: usize = 0;
    while k < list.len()
        invariant
            names_lowered(ps@, lowered@),
            forall|t: int| 0 <= t < list@.len() ==> #[trigger] list@[t] < ps@.len(),
            list@.no_duplicates(),
            k <= list@.len(),
            is_arranged(ps@, key, dir, out@),
            forall|a: int| 0 <= a < out@.len() ==> #[trigger] out@[a] < ps@.len(),
            forall|y: usize| #[trigger] out@.contains(y) <==> list@.take(k as int).contains(y),
        decreases list@.len() - k,
    {
        let x = list[k];
        assert(!out@.contains(x)) by {
            if out@.contains(x) {
                let t = choose|t: int| 0 <= t < k && list@.take(k as int)[t] == x;
                assert(list@[t] == list@[k as int]);
            }
        }
        let mut p: usize = 0;
        while p < out.len() && before(ps, lowered, key, dir, out[p], x)
            invariant
                names_lowered(ps@, lowered@),
                x < ps@.len(),
                forall|a: int| 0 <= a < out@.len() ==> #[trigger] out@[a] < ps@.len(),
                p <= out@.len(),
                forall|a: int| 0 <= a < p ==> #[trigger] goes_before(ps@, key, dir, out@[a], x),
            decreases out@.len() - p,
        {
            p = p + 1;
        }
        let ghost old_out = out@;
        proof {
            if p < old_out.len() {
                assert(old_out.contains(old_out[p as int]));
                lemma_goes_before(ps@, key, dir, old_out[p as int], x, x);
                assert(goes_before(ps@, key, dir, x, old_out[p as int]));
                assert forall|b: int| p <= b < old_out.len() implies #[trigger] goes_before(ps@, key, dir, x, old_out[b]) by {
                    if b > p {
                        assert(goes_before(ps@, key, dir, old_out[p as int], old_out[b]));
                        lemma_goes_before(ps@, key, dir, x, old_out[p as int], old_out[b]);
                    }
                }
            }
        }
        out.insert(p, x);
        proof {
            let n = out@;
            assert(n == old_out.insert(p as int, x));
            assert forall|a: int, b: int| 0 <= a < b < n.len() implies #[trigger] goes_before(ps@, key, dir, n[a], n[b]) by {
                if b < p {
                    assert(goes_before(ps@, key, dir, old_out[a], old_out[b]));
                } else if b == p {
                } else if a < p {
                    assert(old_out.contains(old_out[a]));
                    assert(old_out.contains(old_out[b - 1]));
                    lemma_goes_before(ps@, key, dir, old_out[a], x, old_out[b - 1]);
                } else if a == p {
                } else {
                    assert(goes_before(ps@, key, dir, old_out[a - 1], old_out[b - 1]));
                }
            }
            let tk = list@.take(k + 1);
            assert(tk =~= list@.take(k as int).push(x));
            assert forall|y: usize| #[trigger] n.contains(y) <==> tk.contains(y) by {
                if n.contains(y) {
                    let t = choose|t: int| 0 <= t < n.len() && n[t] == y;
                    if t < p {
                        assert(old_out[t] == y);
                        assert(old_out.contains(y));
                    } else if t > p {
                        assert(old_out[t - 1] == y);
                        assert(old_out.contains(y));
                    }
                    if y == x {
                        assert(tk[k as int] == x);
                    } else {
                        assert(list@.take(k as int).contains(y));
                        let w = choose|w: int| 0 <= w < k && list@.take(k as int)[w] == y;
                        assert(tk[w] == y);
                    }
                }
                if tk.contains(y) {
                    let t = choose|t: int| 0 <= t < tk.len() && tk[t] == y;
                    if t < k {
                        assert(list@.take(k as int)[t] == y);
                        assert(old_out.contains(y));
                        let u = choose|u: int| 0 <= u < old_out.len() && old_out[u] == y;
                        if u < p {
                            assert(n[u] == y);
                        } else {
                            assert(n[u + 1] == y);
                        }
                    } else {
                        assert(n[p as int] == y);
                    }
                }
            }
        }
        k = k + 1;
    }
    proof {
        assert(list@.take(list@.len() as int) =~= list@);
        assert(holds_exactly(out@, list@.to_set()));
        lemma_sorted_arrangement_is(ps@, key, dir, list@.to_set(), out@);
    }
    out
}

/// The indices of `o` read through `list`: `list[o[0]], list[o[1]], ...`.
pub open spec fn through(list: Seq<usize>, o: Seq<usize>) -> Seq<usize> {
    o.map_values(|k: usize| list[k as int])
}

/// `list` sorted stably on `key` in direction `dir`: entries that tie keep their order in
/// `list` (repeated entries included).
pub open spec fn stable_sorted(ps: Seq<ProcessInfo>, key: SortKey, dir: SortDir, list: Seq<usize>) -> Seq<usize> {
    through(list, sorted_arrangement(pick(ps, list), key, dir, index_set(list.len())))
}

/// The entries of `list` increase strictly.
pub open spec fn ascending(list: Seq<usize>) -> bool {
    forall|a: int, b: int| 0 <= a < b < list.len() ==> list[a] < list[b]
}

/// Stably sorts a list of indices of `ps` on `key` in direction `dir`: entries that tie
/// keep their order in the list.
pub fn sort_indices(
    ps: &Vec<ProcessInfo>,
    lowered: &Vec<Vec<char>>,
    list: &Vec<usize>,
    key: SortKey,
    dir: SortDir,
) -> (r: Vec<usize>)
    requires
        names_lowered(ps@, lowered@),
        forall|k: int| 0 <= k < list@.len() ==> #[trigger] list@[k] < ps@.len(),
    ensures
        r@ == stable_sorted(ps@, key, dir, list@),
        r@.len() == list@.len(),
        forall|k: int| 0 <= k < r@.len() ==> #[trigger] r@[k] < ps@.len(),
        forall|y: usize| #[trigger] r@.contains(y) <==> list@.contains(y),
        ascending(list@) ==> r@ == sorted_arrangement(ps@, key, dir, list@.to_set()),
{
    let n = list.len();
    let picked = pick_processes(ps, list);
    let mut low: Vec<Vec<char>> = Vec::new();
    let mut k: usize = 0;
    while k < n
        invariant
            n == list@.len(),
            names_lowered(ps@, lowered@),
            forall|t: int| 0 <= t < list@.len() ==> #[trigger] list@[t] < ps@.len(),
            picked@ == pick(ps@, list@),
            k <= n,
            low@.len() == k,
            forall|t: int| 0 <= t < k ==> #[trigger] low@[t]@ == lowercase_of(picked@[t].name@),
        decreases n - k,
    {
        let c = lowered[list[k]].clone();
        proof {
            assert(c@ =~= lowered@[list@[k as int] as int]@);
        }
        low.push(c);
        k = k + 1;
    }
    let all = index_range(n);
    let pos = arrange_distinct(&picked, &low, &all, key, dir);
    let ghost psp = picked@;
    proof {
        lemma_sorted_arrangement(psp, key, dir, index_set(n as nat));
        lemma_arranged_len(psp, key, dir, pos@, n as nat);
    }
    let mut out: Vec<usize> = Vec::new();
    let mut i: usize = 0;
    while i < n
        invariant
            n == list@.len(),
            pos@.len() == n,
            pos@ == sorted_arrangement(psp, key, dir, index_set(n as nat)),
            holds_exactly(pos@, index_set(n as nat)),
            i <= n,
            out@ == through(list@, pos@.take(i as int)),
        decreases n - i,
    {
        assert(pos@.contains(pos@[i as int]));
        out.push(list[pos[i]]);
        assert(pos@.take(i + 1) =~= pos@.take(i as int).push(pos@[i as int]));
        assert(through(list@, pos@.take(i + 1)) =~= through(list@, pos@.take(i as int)).push(list@[pos@[i as int] as int]));
        i = i + 1;
    }
    proof {
        assert(pos@.take(n as int) =~= pos@);
        assert forall|t: int| 0 <= t < out@.len() implies #[trigger] out@[t] < ps@.len() by {
            assert(pos@.contains(pos@[t]));
        }
        assert forall|y: usize| #[trigger] out@.contains(y) <==> list@.contains(y) by {
            if out@.contains(y) {
                let t = choose|t: int| 0 <= t < out@.len() && out@[t] == y;
                assert(pos@.contains(pos@[t]));
                assert(list@[pos@[t] as int] == y);
            }
            if list@.contains(y) {
                let t = choose|t: int| 0 <= t < list@.len() && list@[t] == y;
                assert(index_set(n as nat).contains(t as usize));
                assert(pos@.contains(t as usize));
                let u = choose|u: int| 0 <= u < pos@.len() && pos@[u] == t as usize;
                assert(out@[u] == y);
            }
        }
        if ascending(list@) {
            assert forall|a: int, b: int| 0 <= a < b < out@.len() implies #[trigger] goes_before(ps@, key, dir, out@[a], out@[b]) by {
                assert(goes_before(psp, key, dir, pos@[a], pos@[b]));
                assert(pos@.contains(pos@[a]) && pos@.contains(pos@[b]));
                assert(psp[pos@[a] as int] == ps@[out@[a] as int]);
                assert(psp[pos@[b] as int] == ps@[out@[b] as int]);
                if pos@[a] < pos@[b] {
                    assert(list@[pos@[a] as int] < list@[pos@[b] as int]);
                } else if pos@[b] < pos@[a] {
                    assert(list@[pos@[b] as int] < list@[pos@[a] as int]);
                }
            }
            assert forall|y: usize| #[trigger] out@.contains(y) <==> list@.to_set().contains(y) by {
                assert(out@.contains(y) <==> list@.contains(y));
            }
            lemma_sorted_arrangement_is(ps@, key, dir, list@.to_set(), out@);
        }
    }
    out
}

/// The vector `0, 1, ..., n - 1`.
pub fn index_range(n: usize) -> (r: Vec<usize>)
    ensures
        r@.len() == n,
        forall|i: int| 0 <= i < n ==> #[trigger] r@[i] == i,
        r@.no_duplicates(),
        r@.to_set() == index_set(n as nat),
{
    let mut out: Vec<usize> = Vec::new();
    let mut i: usize = 0;
    while i < n
        invariant
            i <= n,
            out@.len() == i,
            forall|k: int| 0 <= k < i ==> #[trigger] out@[k] == k,
        decreases n - i,
    {
        out.push(i);
        i = i + 1;
    }
    assert forall|a: int, b: int| 0 <= a < out@.len() && 0 <= b < out@.len() && a != b implies out@[a] != out@[b] by {
        assert(out@[a] == a && out@[b] == b);
    }
    assert forall|y: usize| out@.to_set().contains(y) <==> index_set(n as nat).contains(y) by {
        if y < n {
            assert(out@[y as int] == y);
        }
    }
    assert(out@.to_set() =~= index_set(n as nat));
    out
}

/// Copies the processes at the listed positions, in list order.
pub fn pick_processes(ps: &Vec<ProcessInfo>, o: &Vec<usize>) -> (r: Vec<ProcessInfo>)
    requires
        forall|k: int| 0 <= k < o@.len() ==> #[trigger] o@[k] < ps@.len(),
    ensures
        r@ == pick(ps@, o@),
{
    let mut out: Vec<ProcessInfo> = Vec::new();
    let mut k: usize = 0;
    while k < o.len()
        invariant
            forall|t: int| 0 <= t < o@.len() ==> #[trigger] o@[t] < ps@.len(),
            k <= o@.len(),
            out@ =~= pick(ps@, o@.take(k as int)),
        decreases o@.len() - k,
    {
        out.push(ps[o[k]].clone());
        assert(o@.take(k + 1) =~= o@.take(k as int).push(o@[k as int]));
        k = k + 1;
    }
    assert(o@.take(o@.len() as int) =~= o@);
    out
}

/// Stably sorts the processes on `key` in direction `dir` (ties keep their order).
/// The result is a rearrangement of all the processes, ordered on the column.
pub fn sort_processes(processes: &mut Vec<ProcessInfo>, key: SortKey, dir: SortDir)
    ensures
        final(processes)@ == pick(
            old(processes)@,
            sorted_arrangement(old(processes)@, key, dir, index_set(old(processes)@.len())),
        ),
        is_arranged(
            old(processes)@,
            key,
            dir,
            sorted_arrangement(old(processes)@, key, dir, index_set(old(processes)@.len())),
        ),
        holds_exactly(
            sorted_arrangement(old(processes)@, key, dir, index_set(old(processes)@.len())),
            index_set(old(processes)@.len()),
        ),
        final(processes)@.len() == old(processes)@.len(),
        forall|i: int, j: int|
            0 <= i < j < final(processes)@.len() ==> dir_order(
                #[trigger] final(processes)@[i],
                #[trigger] final(processes)@[j],
                key,
                dir,
            ) <= 0,
{
    let ghost ps = processes@;
    let lowered = lowered_names(processes);
    let all = index_range(processes.len());
    let order = arrange_distinct(processes, &lowered, &all, key, dir);
    proof {
        lemma_arranged_len(ps, key, dir, order@, ps.len());
        assert forall|i: int, j: int| 0 <= i < j < order@.len() implies dir_order(
            ps[order@[i] as int],
            ps[order@[j] as int],
            key,
            dir,
        ) <= 0 by {
            assert(goes_before(ps, key, dir, order@[i], order@[j]));
        }
    }
    let sorted = pick_processes(processes, &order);
    *processes = sorted;
}

/// An arrangement of exactly the indices below `n` has length `n`.
pub proof fn lemma_arranged_len(ps: Seq<ProcessInfo>, key: SortKey, dir: SortDir, o: Seq<usize>, n: nat)
    requires
        is_arranged(ps, key, dir, o),
        holds_exactly(o, index_set(n)),
        n <= usize::MAX,
    ensures
        o.len() == n,
        o.no_duplicates(),
{
    assert forall|a: int, b: int| 0 <= a < o.len() && 0 <= b < o.len() && a != b implies o[a] != o[b] by {
        if a < b {
            assert(goes_before(ps, key, dir, o[a], o[b]));
            lemma_goes_before(ps, key, dir, o[a], o[a], o[a]);
        } else {
            assert(goes_before(ps, key, dir, o[b], o[a]));
            lemma_goes_before(ps, key, dir, o[b], o[b], o[b]);
        }
    }
    o.unique_seq_to_set();
    assert(o.to_set() =~= index_set(n));
    lemma_index_set_len(n);
}

/// There are `n` indices below `n`.
pub proof fn lemma_index_set_len(n: nat)
    requires
        n <= usize::MAX,
    ensures
        index_set(n).finite(),
        index_set(n).len() == n,
    decreases n,
{
    if n == 0 {
        assert(index_set(0) =~= Set::<usize>::empty());
    } else {
        lemma_index_set_len((n - 1) as nat);
        let m = (n - 1) as usize;
        assert(index_set(n) =~= index_set((n - 1) as nat).insert(m));
    }
}

/// Sorting an already sorted list changes nothing: once the processes are in stable
/// sorted order, their stable sorted order is the identity.
pub proof fn lemma_sort_idempotent(ps: Seq<ProcessInfo>, key: SortKey, dir: SortDir, o: Seq<usize>)
    requires
        is_arranged(ps, key, dir, o),
        holds_exactly(o, index_set(ps.len())),
        ps.len() <= usize::MAX,
    ensures
        sorted_arrangement(pick(ps, o), key, dir, index_set(ps.len())) == Seq::new(ps.len(), |i: int| i as usize),
        pick(pick(ps, o), sorted_arrangement(pick(ps, o), key, dir, index_set(ps.len()))) == pick(ps, o),
{
    lemma_arranged_len(ps, key, dir, o, ps.len());
    let ps2 = pick(ps, o);
    let id = Seq::new(ps.len(), |i: int| i as usize);
    assert forall|a: int, b: int| 0 <= a < b < id.len() implies #[trigger] goes_before(ps2, key, dir, id[a], id[b]) by {
        assert(goes_before(ps, key, dir, o[a], o[b]));
        assert(o.contains(o[a]));
        assert(o.contains(o[b]));
        assert(ps2[a] == ps[o[a] as int]);
        assert(ps2[b] == ps[o[b] as int]);
        assert(id[a] == a && id[b] == b);
        if dir_order(ps[o[a] as int], ps[o[b] as int], key, dir) == 0 {
            assert(o[a] < o[b]);
        }
    }
    assert forall|y: usize| #[trigger] id.contains(y) <==> index_set(ps.len()).contains(y) by {
        if y < ps.len() {
            assert(id[y as int] == y);
        }
    }
    lemma_sorted_arrangement_is(ps2, key, dir, index_set(ps.len()), id);
    assert forall|i: int| 0 <= i < ps2.len() implies pick(ps2, id)[i] == ps2[i] by {
        assert(id[i] == i);
    }
    assert(pick(ps2, id) =~= ps2);
}

/// `c` is the greatest index in `s` among those whose process has `c`'s pid.
pub open spec fn is_rep(ps: Seq<ProcessInfo>, s: Set<usize>, c: usize) -> bool {
    &&& s.contains(c)
    &&& forall|d: usize| #[trigger] s.contains(d) && d > c ==> ps[d as int].pid != ps[c as int].pid
}

/// Some index in `s` holds a process with pid `q`.
pub open spec fn has_pid(ps: Seq<ProcessInfo>, s: Set<usize>, q: u32) -> bool {
    exists|c: usize| #[trigger] s.contains(c) && ps[c as int].pid == q
}

/// The greatest index in `s` whose process has pid `q`.
pub open spec fn rep_of(ps: Seq<ProcessInfo>, s: Set<usize>, q: u32) -> usize {
    choose|c: usize| is_rep(ps, s, c) && ps[c as int].pid == q
}

/// The pids of `f` that some process in `s` has, each at its first occurrence in `f`.
pub open spec fn kept_pids(ps: Seq<ProcessInfo>, s: Set<usize>, f: Seq<u32>) -> Seq<u32>
    decreases f.len(),
{
    if f.len() == 0 {
        Seq::empty()
    } else {
        let prev = kept_pids(ps, s, f.drop_last());
        if has_pid(ps, s, f.last()) && !f.drop_last().contains(f.last()) {
            prev.push(f.last())
        } else {
            prev
        }
    }
}

/// The representatives in `s` whose pid is not listed in `f`.
pub open spec fn leftover_set(ps: Seq<ProcessInfo>, s: Set<usize>, f: Seq<u32>) -> Set<usize> {
    Set::new(|c: usize| is_rep(ps, s, c) && !f.contains(ps[c as int].pid))
}

/// The indices in `s` arranged after a frozen pid order `f`: first, for each pid of `f`
/// still present, the greatest index with that pid, in `f`'s order; then the other
/// representatives in stable sorted order. Indices sharing a pid with a greater index
/// in `s` are dropped.
pub open spec fn frozen_arrangement(
    ps: Seq<ProcessInfo>,
    s: Set<usize>,
    f: Seq<u32>,
    key: SortKey,
    dir: SortDir,
) -> Seq<usize> {
    kept_pids(ps, s, f).map_values(|q: u32| rep_of(ps, s, q)) + sorted_arrangement(
        ps,
        key,
        dir,
        leftover_set(ps, s, f),
    )
}

/// Representatives are unique per pid.
pub proof fn lemma_rep_unique(ps: Seq<ProcessInfo>, s: Set<usize>, c: usize, d: usize)
    requires
        is_rep(ps, s, c),
        is_rep(ps, s, d),
        ps[c as int].pid == ps[d as int].pid,
    ensures
        c == d,
{
    if c < d {
        assert(s.contains(d));
    } else if d < c {
        assert(s.contains(c));
    }
}

fn contains_u32(v: &Vec<u32>, upto: usize, q: u32) -> (r: bool)
    requires
        upto <= v@.len(),
    ensures
        r == v@.take(upto as int).contains(q),
{
    let mut i: usize = 0;
    while i < upto
        invariant
            upto <= v@.len(),
            i <= upto,
            forall|t: int| 0 <= t < i ==> v@[t] != q,
        decreases upto - i,
    {
        if v[i] == q {
            assert(v@.take(upto as int)[i as int] == q);
            return true;
        }
        i = i + 1;
    }
    assert forall|t: int| 0 <= t < upto implies v@.take(upto as int)[t] != q by {
        assert(v@.take(upto as int)[t] == v@[t]);
    }
    false
}

/// The greatest listed index whose process has pid `q`, if any.
pub fn find_rep(ps: &Vec<ProcessInfo>, list: &Vec<usize>, q: u32) -> (r: Option<usize>)
    requires
        forall|k: int| 0 <= k < list@.len() ==> #[trigger] list@[k] < ps@.len(),
    ensures
        match r {
            Some(c) => is_rep(ps@, list@.to_set(), c) && ps@[c as int].pid == q,
            None => !has_pid(ps@, list@.to_set(), q),
        },
{
    let mut best: Option<usize> = None;
    let mut k: usize = 0;
    while k < list.len()
        invariant
            forall|t: int| 0 <= t < list@.len() ==> #[trigger] list@[t] < ps@.len(),
            k <= list@.len(),
            match best {
                Some(c) => list@.contains(c) && ps@[c as int].pid == q && forall|t: int|
                    0 <= t < k && #[trigger] ps@[list@[t] as int].pid == q ==> list@[t] <= c,
                None => forall|t: int| 0 <= t < k ==> #[trigger] ps@[list@[t] as int].pid != q,
            },
        decreases list@.len() - k,
    {
        let c = list[k];
        if ps[c].pid == q {
            match best {
                Some(b) => {
                    if c > b {
                        best = Some(c);
                    }
                },
                None => {
                    best = Some(c);
                },
            }
        }
        k = k + 1;
    }
    match best {
        Some(c) => {
            assert forall|d: usize| #[trigger] list@.to_set().contains(d) && d > c implies ps@[d as int].pid
                != ps@[c as int].pid by {
                let t = choose|t: int| 0 <= t < list@.len() && list@[t] == d;
                if ps@[list@[t] as int].pid == q {
                    assert(list@[t] <= c);
                }
            }
        },
        None => {
            assert forall|c: usize| #[trigger] list@.to_set().contains(c) implies ps@[c as int].pid != q by {
                let t = choose|t: int| 0 <= t < list@.len() && list@[t] == c;
                assert(ps@[list@[t] as int].pid != q);
            }
        },
    }
    best
}

/// Arranges a list of indices after a frozen pid order (see `frozen_arrangement`).
pub fn frozen_order(
    ps: &Vec<ProcessInfo>,
    lowered: &Vec<Vec<char>>,
    list: &Vec<usize>,
    frozen: &Vec<u32>,
    key: SortKey,
    dir: SortDir,
) -> (r: Vec<usize>)
    requires
        names_lowered(ps@, lowered@),
        forall|k: int| 0 <= k < list@.len() ==> #[trigger] list@[k] < ps@.len(),
    ensures
        r@ == frozen_arrangement(ps@, list@.to_set(), frozen@, key, dir),
        forall|k: int| 0 <= k < r@.len() ==> #[trigger] r@[k] < ps@.len(),
{
    let ghost s = list@.to_set();
    let mut kept: Vec<usize> = Vec::new();
    let mut t: usize = 0;
    while t < frozen.len()
        invariant
            forall|k: int| 0 <= k < list@.len() ==> #[trigger] list@[k] < ps@.len(),
            s == list@.to_set(),
            t <= frozen@.len(),
            kept@ == kept_pids(ps@, s, frozen@.take(t as int)).map_values(|q: u32| rep_of(ps@, s, q)),
            forall|k: int| 0 <= k < kept@.len() ==> #[trigger] kept@[k] < ps@.len(),
        decreases frozen@.len() - t,
    {
        let q = frozen[t];
        let ghost ft = frozen@.take(t + 1);
        assert(ft.drop_last() =~= frozen@.take(t as int));
        assert(ft.last() == q);
        if !contains_u32(frozen, t, q) {
            match find_rep(ps, list, q) {
                Some(c) => {
                    proof {
                        let c2 = rep_of(ps@, s, q);
                        assert(is_rep(ps@, s, c2) && ps@[c2 as int].pid == q);
                        lemma_rep_unique(ps@, s, c, c2);
                    }
                    kept.push(c);
                    assert(kept@ =~= kept_pids(ps@, s, ft).map_values(|q: u32| rep_of(ps@, s, q)));
                },
                None => {
                    assert(kept@ =~= kept_pids(ps@, s, ft).map_values(|q: u32| rep_of(ps@, s, q)));
                },
            }
        } else {
            assert(kept@ =~= kept_pids(ps@, s, ft).map_values(|q: u32| rep_of(ps@, s, q)));
        }
        t = t + 1;
    }
    assert(frozen@.take(frozen@.len() as int) =~= frozen@);
    let mut rest: Vec<usize> = Vec::new();
    let mut k: usize = 0;
    while k < list.len()
        invariant
            forall|j: int| 0 <= j < list@.len() ==> #[trigger] list@[j] < ps@.len(),
            s == list@.to_set(),
            k <= list@.len(),
            forall|j: int| 0 <= j < rest@.len() ==> #[trigger] rest@[j] < ps@.len(),
            rest@.no_duplicates(),
            forall|y: usize| #[trigger] rest@.contains(y) <==> (list@.take(k as int).contains(y)
                && leftover_set(ps@, s, frozen@).contains(y)),
        decreases list@.len() - k,
    {
        let c = list[k];
        let q = ps[c].pid;
        let mut later: bool = false;
        let mut j: usize = 0;
        while j < list.len()
            invariant
                forall|i: int| 0 <= i < list@.len() ==> #[trigger] list@[i] < ps@.len(),
                j <= list@.len(),
                c < ps@.len(),
                q == ps@[c as int].pid,
                later <==> exists|i: int| 0 <= i < j && #[trigger] list@[i] > c && ps@[list@[i] as int].pid == q,
            decreases list@.len() - j,
        {
            let d = list[j];
            if d > c && ps[d].pid == q {
                later = true;
            }
            j = j + 1;
        }
        let listed = contains_u32(frozen, frozen.len(), q);
        let mut earlier: bool = false;
        let mut e: usize = 0;
        while e < k
            invariant
                k < list@.len(),
                e <= k,
                earlier <==> exists|i: int| 0 <= i < e && #[trigger] list@[i] == c,
                c == list@[k as int],
            decreases k - e,
        {
            if list[e] == c {
                earlier = true;
            }
            e = e + 1;
        }
        proof {
            assert(frozen@.take(frozen@.len() as int) =~= frozen@);
            assert(list@.contains(c));
            assert(s.contains(c));
            if later {
                let i = choose|i: int| 0 <= i < list@.len() && #[trigger] list@[i] > c && ps@[list@[i] as int].pid == q;
                assert(s.contains(list@[i]));
            } else {
                assert forall|d: usize| #[trigger] s.contains(d) && d > c implies ps@[d as int].pid != ps@[c as int].pid by {
                    let i = choose|i: int| 0 <= i < list@.len() && list@[i] == d;
                    if ps@[d as int].pid == q {
                        assert(list@[i] > c && ps@[list@[i] as int].pid == q);
                    }
                }
            }
        }
        let ghost old_rest = rest@;
        if earlier {
            let ghost i = choose|i: int| 0 <= i < k && #[trigger] list@[i] == c;
            assert(list@.take(k as int)[i] == c);
        }
        if !later && !listed && !earlier {
            assert(!old_rest.contains(c)) by {
                if old_rest.contains(c) {
                    let i = choose|i: int| 0 <= i < k && list@.take(k as int)[i] == c;
                    assert(list@[i] == c);
                }
            }
            rest.push(c);
        }
        proof {
            let tk = list@.take(k + 1);
            assert(tk =~= list@.take(k as int).push(c));
            assert forall|y: usize| #[trigger] rest@.contains(y) <==> (tk.contains(y)
                && leftover_set(ps@, s, frozen@).contains(y)) by {
                if rest@.contains(y) && y != c {
                    let i = choose|i: int| 0 <= i < rest@.len() && rest@[i] == y;
                    assert(old_rest[i] == y);
                    assert(old_rest.contains(y));
                    let w = choose|w: int| 0 <= w < k && list@.take(k as int)[w] == y;
                    assert(tk[w] == y);
                }
                if rest@.contains(c) && y == c {
                    assert(tk[k as int] == c);
                }
                if tk.contains(y) && leftover_set(ps@, s, frozen@).contains(y) {
                    let w = choose|w: int| 0 <= w < tk.len() && tk[w] == y;
                    if w < k {
                        assert(list@.take(k as int)[w] == y);
                        assert(old_rest.contains(y));
                        let i = choose|i: int| 0 <= i < old_rest.len() && old_rest[i] == y;
                        assert(rest@[i] == y);
                    } else if earlier {
                        let i = choose|i: int| 0 <= i < k && #[trigger] list@[i] == c;
                        assert(list@.take(k as int)[i] == c);
                        assert(old_rest.contains(c));
                        let u = choose|u: int| 0 <= u < old_rest.len() && old_rest[u] == c;
                        assert(rest@[u] == c);
                    } else {
                        assert(y == c);
                        assert(rest@[rest@.len() - 1] == c);
                    }
                }
            }
        }
        k = k + 1;
    }
    proof {
        assert(list@.take(list@.len() as int) =~= list@);
        assert(rest@.to_set() =~= leftover_set(ps@, s, frozen@));
    }
    let sorted = arrange_distinct(ps, lowered, &rest, key, dir);
    let mut out = kept;
    let ghost kept_view = out@;
    let mut i: usize = 0;
    while i < sorted.len()
        invariant
            i <= sorted@.len(),
            out@ =~= kept_view + sorted@.take(i as int),
            forall|j: int| 0 <= j < kept_view.len() ==> #[trigger] kept_view[j] < ps@.len(),
            forall|j: int| 0 <= j < sorted@.len() ==> #[trigger] sorted@[j] < ps@.len(),
        decreases sorted@.len() - i,
    {
        out.push(sorted[i]);
        assert(sorted@.take(i + 1) =~= sorted@.take(i as int).push(sorted@[i as int]));
        i = i + 1;
    }
    proof {
        assert(sorted@.take(sorted@.len() as int) =~= sorted@);
        assert forall|j: int| 0 <= j < out@.len() implies #[trigger] out@[j] < ps@.len() by {
            if j >= kept_view.len() {
                assert(out@[j] == sorted@[j - kept_view.len()]);
            }
        }
    }
    out
}

/// The arrangement `stable_reorder` applies: all indices after the frozen pid order `f`,
/// processes not listed in `f` following in ascending pid order.
pub open spec fn reorder_arrangement(ps: Seq<ProcessInfo>, f: Seq<u32>) -> Seq<usize> {
    frozen_arrangement(ps, index_set(ps.len()), f, SortKey::Pid, SortDir::Asc)
}

/// Reorders the processes after a frozen pid order: listed pids keep their listed order,
/// pids no longer present are dropped from `order`, new pids follow in ascending order,
/// and `order` becomes the pids of the reordered list. Of processes sharing a pid only the
/// last one is kept.
pub fn stable_reorder(processes: &mut Vec<ProcessInfo>, order: &mut Vec<u32>)
    ensures
        final(processes)@ == pick(old(processes)@, reorder_arrangement(old(processes)@, old(order)@)),
        final(order)@ == reorder_arrangement(old(processes)@, old(order)@).map_values(
            |i: usize| old(processes)@[i as int].pid,
        ),
{
    let lowered = lowered_names(processes);
    let all = index_range(processes.len());
    let arranged = frozen_order(processes, &lowered, &all, order, SortKey::Pid, SortDir::Asc);
    let new_list = pick_processes(processes, &arranged);
    let mut new_order: Vec<u32> = Vec::new();
    let mut k: usize = 0;
    while k < arranged.len()
        invariant
            forall|t: int| 0 <= t < arranged@.len() ==> #[trigger] arranged@[t] < processes@.len(),
            k <= arranged@.len(),
            new_order@ =~= arranged@.take(k as int).map_values(|i: usize| processes@[i as int].pid),
        decreases arranged@.len() - k,
    {
        new_order.push(processes[arranged[k]].pid);
        assert(arranged@.take(k + 1) =~= arranged@.take(k as int).push(arranged@[k as int]));
        k = k + 1;
    }
    assert(arranged@.take(arranged@.len() as int) =~= arranged@);
    *order = new_order;
    *processes = new_list;
}

/// Every pid present in a finite index set has a representative there.
pub proof fn lemma_rep_exists(ps: Seq<ProcessInfo>, s: Set<usize>, q: u32)
    requires
        s.finite(),
        has_pid(ps, s, q),
    ensures
        is_rep(ps, s, rep_of(ps, s, q)),
        ps[rep_of(ps, s, q) as int].pid == q,
    decreases s.len(),
{
    let x = s.choose();
    let s2 = s.remove(x);
    assert(s.contains(x)) by {
        let c = choose|c: usize| #[trigger] s.contains(c) && ps[c as int].pid == q;
    }
    if has_pid(ps, s2, q) {
        lemma_rep_exists(ps, s2, q);
        let c2 = rep_of(ps, s2, q);
        if x > c2 && ps[x as int].pid == q {
            assert(is_rep(ps, s, x));
        } else {
            assert(is_rep(ps, s, c2));
        }
    } else {
        assert(ps[x as int].pid == q) by {
            let c = choose|c: usize| #[trigger] s.contains(c) && ps[c as int].pid == q;
            if c != x {
                assert(s2.contains(c));
            }
        }
        assert forall|d: usize| #[trigger] s.contains(d) && d > x implies ps[d as int].pid != ps[x as int].pid by {
            assert(s2.contains(d));
        }
        assert(is_rep(ps, s, x));
    }
}

/// The pids `kept_pids` keeps: those of `f` present in `s`, each once.
pub proof fn lemma_kept_pids(ps: Seq<ProcessInfo>, s: Set<usize>, f: Seq<u32>)
    ensures
        forall|q: u32| #[trigger] kept_pids(ps, s, f).contains(q) <==> (f.contains(q) && has_pid(ps, s, q)),
        kept_pids(ps, s, f).no_duplicates(),
    decreases f.len(),
{
    if f.len() > 0 {
        let prev = kept_pids(ps, s, f.drop_last());
        lemma_kept_pids(ps, s, f.drop_last());
        let q = f.last();
        assert forall|y: u32| #[trigger] kept_pids(ps, s, f).contains(y) <==> (f.contains(y) && has_pid(ps, s, y)) by {
            if f.drop_last().contains(y) {
                let i = choose|i: int| 0 <= i < f.drop_last().len() && f.drop_last()[i] == y;
                assert(f[i] == y);
            }
            if f.contains(y) && y != q {
                let i = choose|i: int| 0 <= i < f.len() && f[i] == y;
                assert(f.drop_last()[i] == y);
            }
            if f.contains(y) && y == q && has_pid(ps, s, y) && !f.drop_last().contains(q) {
                assert(prev.push(q)[prev.len() as int] == q);
            }
            if prev.push(q).contains(y) && y != q {
                let i = choose|i: int| 0 <= i < prev.push(q).len() && prev.push(q)[i] == y;
                assert(prev[i] == y);
            }
            if prev.contains(y) {
                let i = choose|i: int| 0 <= i < prev.len() && prev[i] == y;
                assert(prev.push(q)[i] == y);
            }
            assert(f.last() == f[f.len() - 1]);
        }
        if has_pid(ps, s, q) && !f.drop_last().contains(q) {
            assert(!prev.contains(q));
            let r = prev.push(q);
            assert forall|a: int, b: int| 0 <= a < r.len() && 0 <= b < r.len() && a != b implies r[a] != r[b] by {
                if b == prev.len() {
                    assert(prev.contains(prev[a]));
                } else if a == prev.len() {
                    assert(prev.contains(prev[b]));
                } else {
                    assert(r[a] == prev[a] && r[b] == prev[b]);
                }
            }
        }
    }
}

/// What `stable_reorder` does to the pid order: the still-present pids of the old order
/// come first, in their old order and each once; then the new pids, ascending; every
/// present pid appears exactly once and no absent pid appears.
pub proof fn lemma_reorder_pids(ps: Seq<ProcessInfo>, f: Seq<u32>)
    requires
        ps.len() <= usize::MAX,
    ensures
        ({
            let out = reorder_arrangement(ps, f).map_values(|i: usize| ps[i as int].pid);
            let k = kept_pids(ps, index_set(ps.len()), f);
            &&& out.take(k.len() as int) == k
            &&& forall|a: int, b: int| k.len() <= a < b < out.len() ==> out[a] < out[b]
            &&& forall|a: int| k.len() <= a < out.len() ==> !f.contains(#[trigger] out[a])
            &&& out.no_duplicates()
            &&& forall|q: u32| #[trigger] out.contains(q) <==> has_pid(ps, index_set(ps.len()), q)
        }),
{
    let n = ps.len();
    let all = index_set(n);
    lemma_index_set_len(n);
    let k = kept_pids(ps, all, f);
    lemma_kept_pids(ps, all, f);
    let kr = k.map_values(|q: u32| rep_of(ps, all, q));
    let ls = leftover_set(ps, all, f);
    assert(ls.subset_of(all));
    vstd::set_lib::lemma_set_subset_finite(all, ls);
    lemma_sorted_arrangement(ps, SortKey::Pid, SortDir::Asc, ls);
    let lo = sorted_arrangement(ps, SortKey::Pid, SortDir::Asc, ls);
    let arr = reorder_arrangement(ps, f);
    assert(arr == kr + lo);
    let out = arr.map_values(|i: usize| ps[i as int].pid);
    // the kept part maps back to the kept pids
    assert forall|i: int| 0 <= i < k.len() implies out[i] == k[i] by {
        assert(k.contains(k[i]));
        lemma_rep_exists(ps, all, k[i]);
        assert(arr[i] == kr[i]);
    }
    assert(out.take(k.len() as int) =~= k);
    // the leftover part is ascending and unlisted
    assert forall|a: int| 0 <= a < lo.len() implies #[trigger] ls.contains(lo[a]) by {
        assert(lo.contains(lo[a]));
    }
    assert forall|a: int, b: int| k.len() <= a < b < out.len() implies out[a] < out[b] by {
        let (x, y) = (lo[a - k.len()], lo[b - k.len()]);
        assert(goes_before(ps, SortKey::Pid, SortDir::Asc, x, y));
        assert(ls.contains(x) && ls.contains(y));
        if ps[x as int].pid == ps[y as int].pid {
            lemma_rep_unique(ps, all, x, y);
            lemma_goes_before(ps, SortKey::Pid, SortDir::Asc, x, x, x);
        }
        assert(arr[a] == x && arr[b] == y);
    }
    assert forall|a: int| k.len() <= a < out.len() implies !f.contains(#[trigger] out[a]) by {
        let x = lo[a - k.len()];
        assert(ls.contains(x));
        assert(arr[a] == x);
    }
    // no pid twice
    assert forall|a: int, b: int| 0 <= a < b < out.len() implies out[a] != out[b] by {
        if b < k.len() {
            assert(out[a] == k[a] && out[b] == k[b]);
        } else if a < k.len() {
            assert(out[a] == k[a]);
            assert(k.contains(k[a]));
            assert(!f.contains(out[b]));
        }
    }
    // exactly the present pids
    assert forall|q: u32| #[trigger] out.contains(q) <==> has_pid(ps, all, q) by {
        if out.contains(q) {
            let a = choose|a: int| 0 <= a < out.len() && out[a] == q;
            if a < k.len() {
                assert(out[a] == k[a]);
                assert(k.contains(k[a]));
            } else {
                let x = lo[a - k.len()];
                assert(ls.contains(x));
                assert(arr[a] == x);
                assert(all.contains(x));
            }
        }
        if has_pid(ps, all, q) {
            if f.contains(q) {
                assert(k.contains(q));
                let i = choose|i: int| 0 <= i < k.len() && k[i] == q;
                assert(out[i] == q);
            } else {
                lemma_rep_exists(ps, all, q);
                let c = rep_of(ps, all, q);
                assert(ls.contains(c));
                assert(lo.contains(c));
                let j = choose|j: int| 0 <= j < lo.len() && lo[j] == c;
                assert(arr[k.len() + j] == c);
                assert(out[k.len() + j] == q);
            }
        }
    }
}

} // verus!
