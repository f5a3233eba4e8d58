//! Lists of scored nodes, kept closest first.
//!
//! A scored node is an ID with a key: an integer whose order is the order
//! of the node's distance to a query (smaller is closer).

use vstd::prelude::*;
use vstd::seq_lib::{to_multiset_build, to_multiset_insert};

verus! {

/// Closest first.
pub open spec fn sorted_by_key(s: Seq<(u64, u32)>) -> bool {
    forall|i: int, j: int| 0 <= i < j < s.len() ==> s[i].1 <= s[j].1
}

/// The sum of the keys of a list of scored nodes.
pub open spec fn key_sum(s: Seq<(u64, u32)>) -> int
    decreases s.len(),
{
    if s.len() == 0 {
        0
    } else {
        key_sum(s.drop_last()) + s.last().1
    }
}

/// Inserting a scored node adds its key to the sum.
pub proof fn lemma_key_sum_insert(s: Seq<(u64, u32)>, i: int, x: (u64, u32))
    requires
        0 <= i <= s.len(),
    ensures
        key_sum(s.insert(i, x)) == key_sum(s) + x.1,
    decreases s.len(),
{
    if i == s.len() {
        assert(s.insert(i, x).drop_last() =~= s);
    } else {
        let t = s.drop_last();
        lemma_key_sum_insert(t, i, x);
        assert(s.insert(i, x).drop_last() =~= t.insert(i, x));
    }
}

/// Keys are never negative.
pub proof fn lemma_key_sum_nonneg(s: Seq<(u64, u32)>)
    ensures
        key_sum(s) >= 0,
    decreases s.len(),
{
    if s.len() > 0 {
        lemma_key_sum_nonneg(s.drop_last());
    }
}

/// The position where `insert_sorted` puts an entry with key `k`: the
/// first position from `i` whose key is above `k`.
pub open spec fn first_above(s: Seq<(u64, u32)>, k: u32, i: int) -> int
    decreases s.len() - i,
{
    if 0 <= i < s.len() && s[i].1 <= k {
        first_above(s, k, i + 1)
    } else {
        i
    }
}

/// `s` with `x` inserted after every entry whose key is not above its own.
pub open spec fn insert_by_key(s: Seq<(u64, u32)>, x: (u64, u32)) -> Seq<(u64, u32)> {
    s.insert(first_above(s, x.1, 0), x)
}

/// `s` sorted by key, entries with equal keys kept in their order (the
/// stable sort that inserts the entries one by one).
pub open spec fn sort_by_key(s: Seq<(u64, u32)>) -> Seq<(u64, u32)>
    decreases s.len(),
{
    if s.len() == 0 {
        s
    } else {
        insert_by_key(sort_by_key(s.drop_last()), s.last())
    }
}

/// Where `first_above` stops: past keys not above `k`, at one above it.
pub proof fn lemma_first_above_bounds(s: Seq<(u64, u32)>, k: u32, i: int)
    requires
        0 <= i <= s.len(),
    ensures
        i <= first_above(s, k, i) <= s.len(),
        forall|j: int| i <= j < first_above(s, k, i) ==> s[j].1 <= k,
        first_above(s, k, i) < s.len() ==> s[first_above(s, k, i)].1 > k,
    decreases s.len() - i,
{
    if i < s.len() && s[i].1 <= k {
        lemma_first_above_bounds(s, k, i + 1);
    }
}

/// An entry is inserted at the front only before a larger first key.
pub proof fn lemma_first_above_zero(s: Seq<(u64, u32)>, k: u32)
    requires
        s.len() >= 1,
        first_above(s, k, 0) == 0,
    ensures
        k < s[0].1,
{
    if s[0].1 <= k {
        assert(first_above(s, k, 0) == first_above(s, k, 1));
        lemma_first_above_bounds(s, k, 1);
    }
}

/// Inserting by key keeps a list sorted by key.
pub proof fn lemma_insert_by_key_sorted(t: Seq<(u64, u32)>, x: (u64, u32))
    requires
        sorted_by_key(t),
    ensures
        sorted_by_key(insert_by_key(t, x)),
{
    lemma_first_above_bounds(t, x.1, 0);
    let p = first_above(t, x.1, 0);
    let u = insert_by_key(t, x);
    assert forall|i: int, j: int| 0 <= i < j < u.len() implies u[i].1 <= u[j].1 by {
        if j < p {
        } else if j == p {
        } else if i < p {
            assert(t[i].1 <= x.1);
            assert(x.1 < t[p].1);
            assert(t[p].1 <= t[j - 1].1);
        } else if i == p {
            assert(x.1 < t[p].1);
            assert(t[p].1 <= t[j - 1].1);
        } else {
            assert(t[i - 1].1 <= t[j - 1].1);
        }
    }
}

/// Sorting by key gives a list sorted by key that holds the same entries.
pub proof fn lemma_sort_by_key_sorted(s: Seq<(u64, u32)>)
    ensures
        sorted_by_key(sort_by_key(s)),
        sort_by_key(s).to_multiset() == s.to_multiset(),
    decreases s.len(),
{
    if s.len() > 0 {
        let t = sort_by_key(s.drop_last());
        lemma_sort_by_key_sorted(s.drop_last());
        lemma_insert_by_key_sorted(t, s.last());
        lemma_first_above_bounds(t, s.last().1, 0);
        to_multiset_insert(t, first_above(t, s.last().1, 0), s.last());
        to_multiset_build(s.drop_last(), s.last());
        assert(s.drop_last().push(s.last()) =~= s);
    }
}

/// No ID occurs twice in a list of scored entries.
pub open spec fn ids_distinct(s: Seq<(u64, u32)>) -> bool {
    forall|i: int, j: int| 0 <= i < j < s.len() ==> (#[trigger] s[i]).0 != (#[trigger] s[j]).0
}

/// Some entry of the list has the ID `id`.
pub open spec fn has_id(s: Seq<(u64, u32)>, id: u64) -> bool {
    exists|i: int| 0 <= i < s.len() && (#[trigger] s[i]).0 == id
}

/// Inserting an entry with a new ID into a list of distinct IDs, then
/// keeping a prefix, keeps the IDs distinct.
pub proof fn lemma_insert_take_distinct(r0: Seq<(u64, u32)>, x: (u64, u32), p: int, n: int)
    requires
        ids_distinct(r0),
        !has_id(r0, x.0),
        0 <= p <= r0.len(),
        0 <= n <= r0.len() + 1,
    ensures
        ids_distinct(r0.insert(p, x).take(n)),
{
    let ins = r0.insert(p, x);
    assert forall|i: int, j: int| 0 <= i < j < ins.len() implies (#[trigger] ins[i]).0 != (#[trigger] ins[j]).0 by {
        if i < p && j < p {
            assert(ins[i] == r0[i] && ins[j] == r0[j]);
        } else if i < p && j == p {
            assert(ins[i] == r0[i]);
        } else if i < p {
            assert(ins[i] == r0[i] && ins[j] == r0[j - 1]);
        } else if i == p {
            assert(ins[j] == r0[j - 1]);
        } else {
            assert(ins[i] == r0[i - 1] && ins[j] == r0[j - 1]);
        }
    }
    let t = ins.take(n);
    assert forall|i: int, j: int| 0 <= i < j < t.len() implies (#[trigger] t[i]).0 != (#[trigger] t[j]).0 by {
        assert(t[i] == ins[i] && t[j] == ins[j]);
    }
}

/// Inserting an entry keeps every entry and holds the new one.
pub proof fn lemma_insert_keeps(r0: Seq<(u64, u32)>, x: (u64, u32), p: int)
    requires
        0 <= p <= r0.len(),
    ensures
        r0.insert(p, x).contains(x),
        forall|i: int| 0 <= i < r0.len() ==> r0.insert(p, x).contains(#[trigger] r0[i]),
{
    let ins = r0.insert(p, x);
    assert(ins[p] == x);
    assert forall|i: int| 0 <= i < r0.len() implies ins.contains(#[trigger] r0[i]) by {
        if i < p {
            assert(ins[i] == r0[i]);
        } else {
            assert(ins[i + 1] == r0[i]);
        }
    }
}

/// Appending keeps every ID and adds the new one.
pub proof fn lemma_has_id_push(a: Seq<(u64, u32)>, e: (u64, u32))
    ensures
        has_id(a.push(e), e.0),
        forall|x: u64| has_id(a, x) ==> #[trigger] has_id(a.push(e), x),
{
    assert(a.push(e)[a.len() as int] == e);
    assert forall|x: u64| has_id(a, x) implies #[trigger] has_id(a.push(e), x) by {
        let w = choose|w: int| 0 <= w < a.len() && (#[trigger] a[w]).0 == x;
        assert(a.push(e)[w] == a[w]);
    }
}

/// Sorting keeps the IDs of a list, and keeps them distinct.
pub proof fn lemma_sort_by_key_ids(s: Seq<(u64, u32)>)
    ensures
        forall|y: u64| #[trigger] has_id(sort_by_key(s), y) <==> has_id(s, y),
        ids_distinct(s) ==> ids_distinct(sort_by_key(s)),
        sort_by_key(s).len() == s.len(),
    decreases s.len(),
{
    if s.len() > 0 {
        let p = s.drop_last();
        let x = s.last();
        let t = sort_by_key(p);
        lemma_sort_by_key_ids(p);
        let q = first_above(t, x.1, 0);
        lemma_first_above_bounds(t, x.1, 0);
        let ins = t.insert(q, x);
        assert(sort_by_key(s) == ins);
        lemma_insert_keeps(t, x, q);
        assert forall|y: u64| #[trigger] has_id(ins, y) <==> has_id(s, y) by {
            if has_id(ins, y) {
                let w = choose|w: int| 0 <= w < ins.len() && (#[trigger] ins[w]).0 == y;
                if w == q {
                    assert(s[s.len() - 1] == x);
                } else {
                    let w2 = if w < q { w } else { w - 1 };
                    assert(ins[w] == t[w2]);
                    assert(has_id(t, y));
                    assert(has_id(p, y));
                    let v = choose|v: int| 0 <= v < p.len() && (#[trigger] p[v]).0 == y;
                    assert(s[v] == p[v]);
                }
            }
            if has_id(s, y) {
                let v = choose|v: int| 0 <= v < s.len() && (#[trigger] s[v]).0 == y;
                if v == s.len() - 1 {
                    assert(ins[q] == x);
                } else {
                    assert(p[v] == s[v]);
                    assert(has_id(p, y));
                    assert(has_id(t, y));
                    let w = choose|w: int| 0 <= w < t.len() && (#[trigger] t[w]).0 == y;
                    assert(ins.contains(t[w]));
                    let w2 = choose|w2: int| 0 <= w2 < ins.len() && ins[w2] == t[w];
                    assert(ins[w2].0 == y);
                }
            }
        }
        if ids_distinct(s) {
            assert(ids_distinct(p)) by {
                assert forall|i: int, j: int| 0 <= i < j < p.len() implies (#[trigger] p[i]).0 != (#[trigger] p[j]).0 by {
                    assert(p[i] == s[i] && p[j] == s[j]);
                }
            }
            assert(!has_id(t, x.0)) by {
                if has_id(t, x.0) {
                    assert(has_id(p, x.0));
                    let v = choose|v: int| 0 <= v < p.len() && (#[trigger] p[v]).0 == x.0;
                    assert(s[v] == p[v]);
                    assert(s[s.len() - 1] == x);
                }
            }
            lemma_insert_take_distinct(t, x, q, ins.len() as int);
            assert(ins.take(ins.len() as int) =~= ins);
        }
    }
}

/// Inserts `x` into a list sorted by key, after the entries with the
/// same key.
pub fn insert_sorted(results: &mut Vec<(u64, u32)>, x: (u64, u32))
    requires
        sorted_by_key(old(results)@),
    ensures
        sorted_by_key(final(results)@),
        final(results)@ == insert_by_key(old(results)@, x),
        exists|p: int| 0 <= p <= old(results)@.len() && final(results)@ == old(results)@.insert(p, x),
{
    let mut p: usize = 0;
    while p < results.len() && results[p].1 <= x.1
        invariant
            p <= results.len(),
            forall|j: int| 0 <= j < p ==> results@[j].1 <= x.1,
            first_above(results@, x.1, p as int) == first_above(results@, x.1, 0),
        decreases results.len() - p,
    {
        p += 1;
    }
    let ghost before = results@;
    results.insert(p, x);
    proof {
        lemma_insert_by_key_sorted(before, x);
        lemma_first_above_bounds(before, x.1, 0);
    }
}

/// How many of `s` occur in `t`.
pub open spec fn count_found(s: Seq<u64>, t: Seq<u64>) -> nat
    decreases s.len(),
{
    if s.len() == 0 {
        0
    } else {
        count_found(s.drop_last(), t) + if t.contains(s.last()) {
            1nat
        } else {
            0nat
        }
    }
}

/// Recall at `k`, as a count: with `k` capped by both lengths, how many
/// of the first `k` approximate IDs are among the first `k` true ones.
/// Returns the count and the capped `k`; recall is their ratio (1 when
/// `k` is 0).
pub fn recall_hits(approx: &[u64], truth: &[u64], k: usize) -> (r: (usize, usize))
    ensures
        r.1 == if k <= approx@.len() && k <= truth@.len() {
            k as int
        } else if approx@.len() <= truth@.len() {
            approx@.len() as int
        } else {
            truth@.len() as int
        },
        r.0 == count_found(approx@.take(r.1 as int), truth@.take(r.1 as int)),
        r.0 <= r.1,
{
    let mut k = k;
    if approx.len() < k {
        k = approx.len();
    }
    if truth.len() < k {
        k = truth.len();
    }
    let ghost t = truth@.take(k as int);
    let mut hits: usize = 0;
    let mut i: usize = 0;
    while i < k
        invariant
            k <= approx@.len(),
            k <= truth@.len(),
            t == truth@.take(k as int),
            i <= k,
            hits == count_found(approx@.take(i as int), t),
            hits <= i,
        decreases k - i,
    {
        let id = approx[i];
        let mut found = false;
        let mut j: usize = 0;
        while j < k
            invariant
                k <= truth@.len(),
                t == truth@.take(k as int),
                j <= k,
                found == exists|m: int| 0 <= m < j && truth@[m] == id,
            decreases k - j,
        {
            if truth[j] == id {
                found = true;
            }
            j += 1;
        }
        proof {
            assert(approx@.take(i + 1).drop_last() =~= approx@.take(i as int));
            assert(approx@.take(i + 1).last() == id);
            if found {
                let m = choose|m: int| 0 <= m < k && truth@[m] == id;
                assert(t[m] == id);
            }
            if t.contains(id) {
                let m = choose|m: int| 0 <= m < t.len() && t[m] == id;
                assert(truth@[m] == id);
            }
        }
        if found {
            hits += 1;
        }
        i += 1;
    }
    (hits, k)
}

} // verus!
