//! Searching the HNSW graph.
//!
//! A search never looks at vectors itself: it asks a distance oracle for
//! the distance between the query and a node, given as a key whose integer
//! order is the order of the distances (smaller is closer).

use vstd::prelude::*;
use crate::error::IndexError;
use crate::hnsw::{
    highest_layer, index_of, lemma_highest_layer, lemma_add_neighbor_keeps_list_well_formed, links, no_duplicates, removed_at, unlinked,
    without, HnswLinks, HnswNode,
};
use crate::ranking::{
    first_above, has_id, ids_distinct, insert_sorted, key_sum, lemma_first_above_bounds, lemma_first_above_zero,
    lemma_has_id_push, lemma_insert_keeps, lemma_insert_take_distinct, lemma_key_sum_insert, lemma_key_sum_nonneg,
    sorted_by_key,
};

verus! {

/// `r` is the subsequence of `c` at the increasing positions `idx`.
pub open spec fn subsequence_via<T>(r: Seq<T>, c: Seq<T>, idx: Seq<int>) -> bool {
    &&& idx.len() == r.len()
    &&& forall|i: int| 0 <= i < idx.len() ==> 0 <= #[trigger] idx[i] < c.len() && r[i] == c[idx[i]]
    &&& forall|i: int, j: int| 0 <= i < j < idx.len() ==> idx[i] < idx[j]
}

/// A measure that every addition to the results of a beam search lowers:
/// each free slot is worth more than any key, and a result set larger than
/// `ef` (a single entry when `ef` is 0) is worth two slots more.
pub open spec fn beam_measure(results: Seq<(u64, u32)>, ef: int) -> int {
    key_sum(results) + (ef + 1 - results.len()) * 0x1_0000_0000 + if results.len() > ef {
        0x2_0000_0000int
    } else {
        0
    }
}

/// The most neighbors a node keeps at a layer: `m_max` at layer 0, `m`
/// above.
pub open spec fn max_links(layer: int, m: usize, m_max: usize) -> int {
    if layer == 0 {
        m_max as int
    } else {
        m as int
    }
}

/// The nodes of `after` are those of `before`, in order, each with the same
/// ID, top layer and deletion mark, and each neighbor list either the same
/// or the same with `id` appended.
pub open spec fn gained_only(before: Seq<HnswNode>, after: Seq<HnswNode>, id: u64) -> bool {
    &&& after.len() == before.len()
    &&& forall|j: int|
        0 <= j < before.len() ==> {
            let b = before[j];
            let a = #[trigger] after[j];
            &&& a.id == b.id
            &&& a.max_layer == b.max_layer
            &&& a.tombstone == b.tombstone
            &&& a.neighbors@.len() == b.neighbors@.len()
            &&& forall|l: int|
                #![trigger links(a, l)]
                links(a, l) == links(b, l) || links(a, l) == links(b, l).push(id)
        }
}

/// Dropping the farthest entry after inserting `x` before it keeps every
/// other entry, and the new farthest is no farther than the old.
proof fn lemma_drop_last_keeps(r0: Seq<(u64, u32)>, x: (u64, u32), p: int)
    requires
        0 <= p < r0.len(),
        sorted_by_key(r0.insert(p, x)),
    ensures
        r0.insert(p, x).drop_last().last().1 <= r0.last().1,
        forall|e: (u64, u32)| #[trigger]
            r0.contains(e) ==> r0.insert(p, x).drop_last().contains(e) || e.1 >= r0.insert(
                p,
                x,
            ).drop_last().last().1,
{
    let ins = r0.insert(p, x);
    let d = ins.drop_last();
    assert(ins.last() == r0.last());
    assert(d.last() == ins[ins.len() - 2]);
    assert forall|e: (u64, u32)| #[trigger] r0.contains(e) implies d.contains(e) || e.1 >= d.last().1 by {
        let q = choose|q: int| 0 <= q < r0.len() && r0[q] == e;
        if q < p {
            assert(d[q] == e);
        } else if q + 1 < ins.len() - 1 {
            assert(d[q + 1] == e);
        } else {
            assert(e == r0.last());
        }
    }
}

/// The beam width of a layer-0 search for `k` results: `ef_search`, or
/// `k` when that is larger.
pub open spec fn search_ef(ef_search: usize, k: usize) -> usize {
    if ef_search >= k {
        ef_search
    } else {
        k
    }
}

/// Some key that `dist` gives `x` is at least `bound`.
pub open spec fn far_from<F: Fn(u64) -> u32>(dist: F, x: u64, bound: u32) -> bool {
    exists|k: u32| dist.ensures((x,), k) && k >= bound
}

/// Each node of `after` whose links at some layer differ from those it had
/// in `before` is listed among the links of `n` at that layer.
pub open spec fn gains_reciprocated(before: Seq<HnswNode>, after: Seq<HnswNode>, n: HnswNode) -> bool {
    forall|j: int, l: int|
        0 <= j < before.len() && #[trigger] links(after[j], l) != links(before[j], l) ==> links(n, l).contains(
            after[j].id,
        )
}

/// Growing the links of `n` at one layer keeps every gain reciprocated.
proof fn lemma_reciprocated_node_grows(
    before: Seq<HnswNode>,
    after: Seq<HnswNode>,
    n0: HnswNode,
    n1: HnswNode,
    layer: int,
    x: u64,
)
    requires
        gains_reciprocated(before, after, n0),
        forall|l: int| l != layer ==> links(n1, l) == links(n0, l),
        links(n1, layer) == links(n0, layer) || links(n1, layer) == links(n0, layer).push(x),
    ensures
        gains_reciprocated(before, after, n1),
{
    assert forall|j: int, l: int|
        0 <= j < before.len() && #[trigger] links(after[j], l) != links(before[j], l) implies links(n1, l).contains(
        after[j].id,
    ) by {
        let y = after[j].id;
        assert(links(n0, l).contains(y));
        let w = choose|w: int| 0 <= w < links(n0, l).len() && links(n0, l)[w] == y;
        if l == layer && links(n1, layer) != links(n0, layer) {
            assert(links(n1, l)[w] == y);
        }
    }
}

/// A link to the new node added to the node with ID `nid` at `layer`, when
/// `n` lists `nid` at that layer, keeps every gain reciprocated.
proof fn lemma_reciprocated_link_added(
    before: Seq<HnswNode>,
    mid: Seq<HnswNode>,
    after: Seq<HnswNode>,
    n: HnswNode,
    nid: u64,
    layer: int,
)
    requires
        gains_reciprocated(before, mid, n),
        mid.len() == before.len(),
        after.len() == mid.len(),
        links(n, layer).contains(nid),
        forall|j: int|
            0 <= j < mid.len() ==> {
                let a = #[trigger] after[j];
                &&& a.id == mid[j].id
                &&& mid[j].id != nid ==> a == mid[j]
                &&& mid[j].id == nid ==> forall|l: int| l != layer ==> links(a, l) == links(mid[j], l)
            },
    ensures
        gains_reciprocated(before, after, n),
{
    assert forall|j: int, l: int|
        0 <= j < before.len() && #[trigger] links(after[j], l) != links(before[j], l) implies links(n, l).contains(
        after[j].id,
    ) by {
        let a = after[j];
        if links(a, l) == links(mid[j], l) {
            assert(links(mid[j], l) != links(before[j], l));
        } else {
            assert(mid[j].id == nid && l == layer);
        }
    }
}

/// Every neighbor list of every node is free of duplicates, does not list
/// its own node, and holds at most `max_links` of its layer.
pub open spec fn lists_within(nodes: Seq<HnswNode>, m: usize, m_max: usize) -> bool {
    forall|j: int, l: int|
        0 <= j < nodes.len() ==> {
            &&& no_duplicates(#[trigger] links(nodes[j], l))
            &&& !links(nodes[j], l).contains(nodes[j].id)
            &&& links(nodes[j], l).len() <= max_links(l, m, m_max)
        }
}

/// Removing an ID from a list keeps only entries it had, keeps it free of
/// duplicates, and does not lengthen it.
proof fn lemma_without_props(s: Seq<u64>, x: u64)
    ensures
        without(s, x).len() <= s.len(),
        forall|y: u64| #[trigger] without(s, x).contains(y) ==> s.contains(y) && y != x,
        no_duplicates(s) ==> no_duplicates(without(s, x)),
    decreases s.len(),
{
    reveal_with_fuel(Seq::<_>::filter, 2);
    if s.len() > 0 {
        let p = s.drop_last();
        lemma_without_props(p, x);
        let f = without(p, x);
        assert forall|y: u64| #[trigger] without(s, x).contains(y) implies s.contains(y) && y != x by {
            let w = choose|w: int| 0 <= w < without(s, x).len() && without(s, x)[w] == y;
            if s.last() != x {
                assert(without(s, x) == f.push(s.last()));
                if w < f.len() {
                    assert(f.contains(y));
                    let v = choose|v: int| 0 <= v < p.len() && p[v] == y;
                    assert(s[v] == y);
                } else {
                    assert(s[s.len() - 1] == y);
                }
            } else {
                assert(without(s, x) == f);
                assert(f.contains(y));
                let v = choose|v: int| 0 <= v < p.len() && p[v] == y;
                assert(s[v] == y);
            }
        }
        if no_duplicates(s) {
            assert(no_duplicates(p)) by {
                assert forall|i: int, j: int| 0 <= i < j < p.len() implies p[i] != p[j] by {
                    assert(p[i] == s[i] && p[j] == s[j]);
                }
            }
            if s.last() != x {
                assert(without(s, x) == f.push(s.last()));
                let g = f.push(s.last());
                assert(!f.contains(s.last())) by {
                    if f.contains(s.last()) {
                        let v = choose|v: int| 0 <= v < p.len() && p[v] == s.last();
                        assert(s[v] == s[s.len() - 1]);
                    }
                }
                assert forall|i: int, j: int| 0 <= i < j < g.len() implies g[i] != g[j] by {
                    if j == f.len() {
                        assert(g[i] == f[i]);
                        assert(f.contains(f[i]));
                    } else {
                        assert(g[i] == f[i] && g[j] == f[j]);
                    }
                }
            }
        }
    } else {
        assert(without(s, x) =~= Seq::<u64>::empty());
    }
}

/// A graph without nodes meets `lists_within`.
pub proof fn lemma_empty_lists_within(g: HnswLinks, m: usize, m_max: usize)
    requires
        g.nodes@.len() == 0,
    ensures
        lists_within(g.nodes@, m, m_max),
{
}

/// Marking nodes deleted, which leaves every ID and list as it was, keeps
/// `lists_within`.
pub proof fn lemma_soft_delete_keeps_lists(before: HnswLinks, after: HnswLinks, m: usize, m_max: usize)
    requires
        lists_within(before.nodes@, m, m_max),
        after.nodes@.len() == before.nodes@.len(),
        forall|k: int|
            0 <= k < before.nodes@.len() ==> (#[trigger] after.nodes@[k]).id == before.nodes@[k].id
                && after.nodes@[k].neighbors == before.nodes@[k].neighbors,
    ensures
        lists_within(after.nodes@, m, m_max),
{
    assert forall|j: int, l: int| 0 <= j < after.nodes@.len() implies {
        &&& no_duplicates(#[trigger] links(after.nodes@[j], l))
        &&& !links(after.nodes@[j], l).contains(after.nodes@[j].id)
        &&& links(after.nodes@[j], l).len() <= max_links(l, m, m_max)
    } by {
        assert(links(after.nodes@[j], l) == links(before.nodes@[j], l));
    }
}

/// Removing a node as `HnswLinks::remove` does keeps `lists_within`.
pub proof fn lemma_remove_keeps_lists(before: HnswLinks, after: HnswLinks, id: u64, m: usize, m_max: usize)
    requires
        before.holds(id),
        lists_within(before.nodes@, m, m_max),
        removed_from(before, after, id),
    ensures
        lists_within(after.nodes@, m, m_max),
{
    let k = index_of(before.nodes@, id);
    let rm = before.nodes@[k];
    assert forall|a: int, l: int| 0 <= a < after.nodes@.len() implies {
        &&& no_duplicates(#[trigger] links(after.nodes@[a], l))
        &&& !links(after.nodes@[a], l).contains(after.nodes@[a].id)
        &&& links(after.nodes@[a], l).len() <= max_links(l, m, m_max)
    } by {
        let j = if a < k { a } else { a + 1 };
        assert(unlinked(rm, before.nodes@[j], after.nodes@[a]));
        let q = before.nodes@[j];
        assert(no_duplicates(links(q, l)));
        lemma_without_props(links(q, l), rm.id);
        if links(after.nodes@[a], l).contains(after.nodes@[a].id) {
            assert(links(q, l).contains(q.id));
        }
    }
}

/// Adding `id` to the list at `layer` of the node `nid` (another node) as
/// `HnswLinks::add_neighbor` does, with the layer's bound, keeps
/// `lists_within`.
proof fn lemma_add_link_keeps_lists(
    before: Seq<HnswNode>,
    after: Seq<HnswNode>,
    nid: u64,
    layer: int,
    id: u64,
    m: usize,
    m_max: usize,
)
    requires
        lists_within(before, m, m_max),
        id != nid,
        after.len() == before.len(),
        forall|j: int|
            0 <= j < before.len() ==> {
                let b = before[j];
                let a = #[trigger] after[j];
                &&& a.id == b.id
                &&& b.id != nid ==> a == b
                &&& b.id == nid ==> forall|l: int|
                    #![trigger links(a, l)]
                    links(a, l) == links(b, l) || (l == layer && !links(b, l).contains(id) && links(b, l).len()
                        < max_links(l, m, m_max) && links(a, l) == links(b, l).push(id))
            },
    ensures
        lists_within(after, m, m_max),
{
    assert forall|j: int, l: int| 0 <= j < after.len() implies {
        &&& no_duplicates(#[trigger] links(after[j], l))
        &&& !links(after[j], l).contains(after[j].id)
        &&& links(after[j], l).len() <= max_links(l, m, m_max)
    } by {
        let b = before[j];
        let a = after[j];
        assert(no_duplicates(links(b, l)));
        if links(a, l) != links(b, l) {
            lemma_add_neighbor_keeps_list_well_formed(links(b, l), id, max_links(l, m, m_max) as usize);
            if links(a, l).contains(a.id) {
                let w = choose|w: int| 0 <= w < links(a, l).len() && links(a, l)[w] == a.id;
                if w < links(b, l).len() {
                    assert(links(b, l)[w] == a.id);
                }
            }
        }
    }
}

/// Appending a node whose lists meet the bounds keeps `lists_within`.
proof fn lemma_push_keeps_lists(nodes: Seq<HnswNode>, n: HnswNode, m: usize, m_max: usize)
    requires
        lists_within(nodes, m, m_max),
        forall|l: int|
            no_duplicates(#[trigger] links(n, l)) && !links(n, l).contains(n.id) && links(n, l).len()
                <= max_links(l, m, m_max),
    ensures
        lists_within(nodes.push(n), m, m_max),
{
    let p = nodes.push(n);
    assert forall|j: int, l: int| 0 <= j < p.len() implies {
        &&& no_duplicates(#[trigger] links(p[j], l))
        &&& !links(p[j], l).contains(p[j].id)
        &&& links(p[j], l).len() <= max_links(l, m, m_max)
    } by {
        if j < nodes.len() {
            assert(p[j] == nodes[j]);
        } else {
            assert(p[j] == n);
        }
    }
}

/// The node `x` lists `id` at layer `l`, or could not: its list there is
/// full or it has no such layer.
pub open spec fn links_back(nodes: Seq<HnswNode>, x: u64, id: u64, l: int, m: usize, m_max: usize) -> bool {
    exists|j: int|
        0 <= j < nodes.len() && (#[trigger] nodes[j]).id == x && (links(nodes[j], l).contains(id) || links(
            nodes[j],
            l,
        ).len() >= max_links(l, m, m_max) || l >= nodes[j].neighbors@.len())
}

/// `links_back` holds on after a node is appended.
proof fn lemma_links_back_push(nodes: Seq<HnswNode>, e: HnswNode, x: u64, id: u64, l: int, m: usize, m_max: usize)
    requires
        links_back(nodes, x, id, l, m, m_max),
    ensures
        links_back(nodes.push(e), x, id, l, m, m_max),
{
    let j = choose|j: int|
        0 <= j < nodes.len() && (#[trigger] nodes[j]).id == x && (links(nodes[j], l).contains(id) || links(
            nodes[j],
            l,
        ).len() >= max_links(l, m, m_max) || l >= nodes[j].neighbors@.len());
    assert(nodes.push(e)[j] == nodes[j]);
}

/// Adding `id` to the list at `layer` of the node `nid`, as
/// `HnswLinks::add_neighbor` does with the layer's bound, keeps every
/// `links_back` and gives one for `nid` at `layer`.
proof fn lemma_link_back_step(
    before: Seq<HnswNode>,
    after: Seq<HnswNode>,
    nid: u64,
    layer: int,
    id: u64,
    m: usize,
    m_max: usize,
    r: bool,
)
    requires
        after.len() == before.len(),
        exists|k: int| 0 <= k < before.len() && (#[trigger] before[k]).id == nid,
        forall|j: int|
            0 <= j < before.len() ==> {
                let b = before[j];
                let a = #[trigger] after[j];
                &&& a.id == b.id
                &&& a.neighbors@.len() == b.neighbors@.len()
                &&& b.id != nid ==> a == b
                &&& b.id == nid ==> {
                    &&& r == (layer < b.neighbors@.len() && !links(b, layer).contains(id) && links(b, layer).len()
                        < max_links(layer, m, m_max))
                    &&& forall|l: int| #![trigger links(a, l)] links(a, l) == if r && l == layer {
                        links(b, l).push(id)
                    } else {
                        links(b, l)
                    }
                }
            },
    ensures
        forall|x: u64, l: int|
            links_back(before, x, id, l, m, m_max) ==> #[trigger] links_back(after, x, id, l, m, m_max),
        links_back(after, nid, id, layer, m, m_max),
{
    assert forall|x: u64, l: int| links_back(before, x, id, l, m, m_max) implies #[trigger] links_back(
        after,
        x,
        id,
        l,
        m,
        m_max,
    ) by {
        let j = choose|j: int|
            0 <= j < before.len() && (#[trigger] before[j]).id == x && (links(before[j], l).contains(id)
                || links(before[j], l).len() >= max_links(l, m, m_max) || l >= before[j].neighbors@.len());
        let a = after[j];
        let b = before[j];
        if b.id == nid && r && l == layer {
            assert(links(a, l) == links(b, l).push(id));
            assert(links(a, l)[links(b, l).len() as int] == id);
        }
    }
    let k = choose|k: int| 0 <= k < before.len() && (#[trigger] before[k]).id == nid;
    let a = after[k];
    let b = before[k];
    if r {
        assert(links(a, layer) == links(b, layer).push(id));
        assert(links(a, layer)[links(b, layer).len() as int] == id);
    } else {
        assert(links(a, layer) == links(b, layer));
    }
}

/// Two lists of nodes whose top layers agree place by place have the same
/// highest layer.
proof fn lemma_highest_same(a: Seq<HnswNode>, b: Seq<HnswNode>)
    requires
        a.len() == b.len(),
        forall|j: int| 0 <= j < a.len() ==> (#[trigger] a[j]).max_layer == b[j].max_layer,
    ensures
        highest_layer(a) == highest_layer(b),
    decreases a.len(),
{
    if a.len() > 0 {
        lemma_highest_same(a.drop_last(), b.drop_last());
    }
}

/// The highest layer after appending a node.
proof fn lemma_highest_push(s: Seq<HnswNode>, n: HnswNode)
    ensures
        highest_layer(s.push(n)) == if n.max_layer > highest_layer(s) {
            n.max_layer
        } else {
            highest_layer(s)
        },
{
    assert(s.push(n).drop_last() =~= s);
}

/// Linking a new node into a graph that meets `graph_ok` gives one that
/// does.
proof fn lemma_link_keeps_graph_ok(
    before: HnswLinks,
    after: HnswLinks,
    id: u64,
    level: usize,
    m: usize,
    m_max: usize,
    ef: usize,
)
    requires
        before.graph_ok(m, m_max),
        linked_into(before, after, id, level, m, m_max, ef),
        lists_within(after.nodes@, m, m_max),
    ensures
        after.graph_ok(m, m_max),
{
    let d = after.nodes@.drop_last();
    let n = after.nodes@.last();
    assert(after.nodes@ =~= d.push(n));
    assert forall|j: int| 0 <= j < after.nodes@.len() implies (#[trigger] after.nodes@[j]).neighbors@.len()
        == after.nodes@[j].max_layer + 1 by {
        if j < d.len() {
            assert(after.nodes@[j] == d[j]);
            assert(before.nodes@[j].neighbors@.len() == before.nodes@[j].max_layer + 1);
        }
    }
    assert forall|j: int| 0 <= j < d.len() implies (#[trigger] d[j]).max_layer == before.nodes@[j].max_layer by {}
    lemma_highest_same(d, before.nodes@);
    lemma_highest_push(d, n);
    if before.entry_point is None || level > before.max_layer {
        assert(after.nodes@[after.nodes@.len() - 1].id == id);
        if before.entry_point is None {
            assert(before.nodes@.len() == 0);
        }
    } else {
        let e = before.entry_point->0;
        let k = choose|k: int| 0 <= k < before.nodes@.len() && (#[trigger] before.nodes@[k]).id == e
            && before.nodes@[k].max_layer == before.max_layer;
        assert(after.nodes@[k] == d[k]);
    }
}

/// Removing a node from a graph that meets `graph_ok`, as
/// `HnswLinks::remove` does, gives one that does.
pub proof fn lemma_remove_keeps_graph_ok(before: HnswLinks, after: HnswLinks, id: u64, m: usize, m_max: usize)
    requires
        before.graph_ok(m, m_max),
        before.holds(id),
        removed_from(before, after, id),
    ensures
        after.graph_ok(m, m_max),
{
    lemma_remove_keeps_lists(before, after, id, m, m_max);
    let k = index_of(before.nodes@, id);
    assert forall|a: int| 0 <= a < after.nodes@.len() implies (#[trigger] after.nodes@[a]).neighbors@.len()
        == after.nodes@[a].max_layer + 1 by {
        let j = if a < k { a } else { a + 1 };
        assert(unlinked(before.nodes@[k], before.nodes@[j], after.nodes@[a]));
        assert(before.nodes@[j].neighbors@.len() == before.nodes@[j].max_layer + 1);
    }
    if before.entry_point != Some(id) {
        let e = before.entry_point->0;
        let q = choose|q: int| 0 <= q < before.nodes@.len() && (#[trigger] before.nodes@[q]).id == e
            && before.nodes@[q].max_layer == before.max_layer;
        assert(q != k);
        let a = if q < k { q } else { q - 1 };
        assert(unlinked(before.nodes@[k], before.nodes@[q], after.nodes@[a]));
        assert(after.nodes@[a].id == e);
        lemma_highest_layer(after.nodes@);
        lemma_highest_layer(before.nodes@);
        let t = choose|t: int| 0 <= t < after.nodes@.len() && (#[trigger] after.nodes@[t]).max_layer
            == highest_layer(after.nodes@);
        let tj = if t < k { t } else { t + 1 };
        assert(unlinked(before.nodes@[k], before.nodes@[tj], after.nodes@[t]));
        assert(before.nodes@[tj].max_layer <= highest_layer(before.nodes@));
    }
}

/// Marking nodes deleted, which leaves every ID, top layer and list as it
/// was, keeps `graph_ok`.
pub proof fn lemma_soft_delete_keeps_graph_ok(before: HnswLinks, after: HnswLinks, m: usize, m_max: usize)
    requires
        before.graph_ok(m, m_max),
        after.entry_point == before.entry_point,
        after.max_layer == before.max_layer,
        after.nodes@.len() == before.nodes@.len(),
        forall|k: int|
            0 <= k < before.nodes@.len() ==> (#[trigger] after.nodes@[k]).id == before.nodes@[k].id
                && after.nodes@[k].max_layer == before.nodes@[k].max_layer && after.nodes@[k].neighbors
                == before.nodes@[k].neighbors,
    ensures
        after.graph_ok(m, m_max),
{
    lemma_soft_delete_keeps_lists(before, after, m, m_max);
    lemma_highest_same(after.nodes@, before.nodes@);
    assert forall|i: int, j: int| 0 <= i < j < after.nodes@.len() implies (#[trigger] after.nodes@[i]).id
        != (#[trigger] after.nodes@[j]).id by {
        assert(before.nodes@[i].id != before.nodes@[j].id);
    }
    if after.entry_point is Some {
        let e = before.entry_point->0;
        let q = choose|q: int| 0 <= q < before.nodes@.len() && (#[trigger] before.nodes@[q]).id == e
            && before.nodes@[q].max_layer == before.max_layer;
        assert(after.nodes@[q].id == e);
    }
}

/// A graph without nodes, entry point or layers meets `graph_ok`.
pub proof fn lemma_new_graph_ok(g: HnswLinks, m: usize, m_max: usize)
    requires
        g.nodes@.len() == 0,
        g.entry_point is None,
        g.max_layer == 0,
    ensures
        g.graph_ok(m, m_max),
{
}

/// The IDs of a list of scored entries.
pub open spec fn ids_of(v: Seq<(u64, u32)>) -> Seq<u64> {
    v.map_values(|e: (u64, u32)| e.0)
}

/// The links of `n` at `layer` are the IDs of a selection, as
/// `select_neighbors` makes it with the layer's bound, from a result of a
/// search of that layer with `ef`, both in a graph `g` that is `before`
/// with links to `id` added.
pub open spec fn layer_chosen<F: Fn(u64) -> u32, G: Fn(u64, u64) -> u32>(
    before: HnswLinks,
    n: HnswNode,
    id: u64,
    layer: int,
    dist: F,
    between: G,
    m: usize,
    m_max: usize,
    ef: usize,
) -> bool {
    exists|g: HnswLinks, start: u64, cands: Seq<(u64, u32)>, sel: Seq<(u64, u32)>|
        #![trigger g.beam_ok(dist, start, ef, layer as usize, cands), g.selection_ok(between, cands, max_links(layer, m, m_max) as usize, sel)]
        gained_only(before.nodes@, g.nodes@, id) && g.beam_ok(dist, start, ef, layer as usize, cands)
            && g.selection_ok(between, cands, max_links(layer, m, m_max) as usize, sel) && links(n, layer)
            == ids_of(sel)
}

/// `layer_chosen` depends on the new node only through its links at that
/// layer.
proof fn lemma_layer_chosen_same_links<F: Fn(u64) -> u32, G: Fn(u64, u64) -> u32>(
    before: HnswLinks,
    n0: HnswNode,
    n1: HnswNode,
    id: u64,
    layer: int,
    dist: F,
    between: G,
    m: usize,
    m_max: usize,
    ef: usize,
)
    requires
        layer_chosen(before, n0, id, layer, dist, between, m, m_max, ef),
        links(n1, layer) == links(n0, layer),
    ensures
        layer_chosen(before, n1, id, layer, dist, between, m, m_max, ef),
{
    let (g, start, cands, sel) = choose|g: HnswLinks, start: u64, cands: Seq<(u64, u32)>, sel: Seq<(u64, u32)>|
        #![trigger g.beam_ok(dist, start, ef, layer as usize, cands), g.selection_ok(between, cands, max_links(layer, m, m_max) as usize, sel)]
        gained_only(before.nodes@, g.nodes@, id) && g.beam_ok(dist, start, ef, layer as usize, cands)
            && g.selection_ok(between, cands, max_links(layer, m, m_max) as usize, sel) && links(n0, layer)
            == ids_of(sel);
    assert(g.beam_ok(dist, start, ef, layer as usize, cands));
    assert(g.selection_ok(between, cands, max_links(layer, m, m_max) as usize, sel));
}

/// A list picked out of a list with distinct IDs has distinct IDs.
proof fn lemma_subsequence_distinct(r: Seq<(u64, u32)>, c: Seq<(u64, u32)>, idx: Seq<int>)
    requires
        subsequence_via(r, c, idx),
        ids_distinct(c),
    ensures
        ids_distinct(r),
{
    assert forall|i: int, j: int| 0 <= i < j < r.len() implies (#[trigger] r[i]).0 != (#[trigger] r[j]).0 by {
        assert(r[i] == c[idx[i]] && r[j] == c[idx[j]]);
        assert(idx[i] < idx[j]);
    }
}

/// `after` is `before` with the node `id` removed as `HnswLinks::remove`
/// does: every other node unlinked from it, and a new entry point on the
/// top layer when it was the entry point.
pub open spec fn removed_from(before: HnswLinks, after: HnswLinks, id: u64) -> bool {
    &&& after.wf()
    &&& removed_at(before.nodes@, after.nodes@, index_of(before.nodes@, id))
    &&& !after.holds(id)
    &&& before.entry_point == Some(id) ==> after.top_entry()
    &&& before.entry_point != Some(id) ==> after.entry_point == before.entry_point && after.max_layer
        == before.max_layer
}

/// `after` is `before` with a new node `id` of top layer `level` linked in
/// as `HnswLinks::link_new_node` does.
pub open spec fn linked_into(
    before: HnswLinks,
    after: HnswLinks,
    id: u64,
    level: usize,
    m: usize,
    m_max: usize,
    ef_construction: usize,
) -> bool {
    let n = after.nodes@.last();
    &&& after.wf()
    &&& after.nodes@.len() == before.nodes@.len() + 1
    &&& n.id == id && n.max_layer == level && !n.tombstone && n.neighbors@.len() == level + 1
    &&& after.links_ok(n, m, m_max)
    &&& gained_only(before.nodes@, after.nodes@.drop_last(), id)
    &&& gains_reciprocated(before.nodes@, after.nodes@.drop_last(), n)
    &&& forall|l: int, x: u64|
        #[trigger] links(n, l).contains(x) ==> links_back(after.nodes@, x, id, l, m, m_max)
    &&& after.entry_point matches Some(e) && after.holds(e)
    &&& before.entry_point is Some && ef_construction >= 1 ==> forall|l: int|
        0 <= l <= level && l <= before.max_layer && max_links(l, m, m_max) >= 1 ==> #[trigger] links(
            n,
            l,
        ).len() >= 1
    &&& (before.entry_point is None || level > before.max_layer) ==> after.entry_point == Some(id)
        && after.max_layer == level
    &&& !(before.entry_point is None || level > before.max_layer) ==> after.entry_point
        == before.entry_point && after.max_layer == before.max_layer
}

/// The IDs of a graph after removing `id`: the others.
proof fn lemma_removed_ids(before: HnswLinks, after: HnswLinks, id: u64)
    requires
        before.wf(),
        before.holds(id),
        removed_from(before, after, id),
    ensures
        forall|x: u64| #[trigger] after.holds(x) <==> before.holds(x) && x != id,
        after.nodes@.len() == before.nodes@.len() - 1,
{
    let k = index_of(before.nodes@, id);
    assert forall|x: u64| #[trigger] after.holds(x) <==> before.holds(x) && x != id by {
        if before.holds(x) && x != id {
            let j = choose|j: int| 0 <= j < before.nodes@.len() && (#[trigger] before.nodes@[j]).id == x;
            assert(j != k);
            let j2 = if j < k { j } else { j - 1 };
            assert(after.nodes@[j2].id == x);
        }
        if after.holds(x) {
            let a = choose|a: int| 0 <= a < after.nodes@.len() && (#[trigger] after.nodes@[a]).id == x;
            let j = if a < k { a } else { a + 1 };
            assert(after.nodes@[if j < k { j } else { j - 1 }].id == before.nodes@[j].id);
        }
    }
}

/// The IDs of a graph after linking in `id`: the old ones and `id`.
proof fn lemma_linked_ids(before: HnswLinks, after: HnswLinks, id: u64, level: usize, m: usize, m_max: usize, ef: usize)
    requires
        linked_into(before, after, id, level, m, m_max, ef),
    ensures
        forall|x: u64| #[trigger] after.holds(x) <==> before.holds(x) || x == id,
{
    let d = after.nodes@.drop_last();
    assert forall|x: u64| #[trigger] after.holds(x) <==> before.holds(x) || x == id by {
        if before.holds(x) {
            let j = choose|j: int| 0 <= j < before.nodes@.len() && (#[trigger] before.nodes@[j]).id == x;
            assert(d[j].id == x);
            assert(after.nodes@[j] == d[j]);
        }
        if x == id {
            assert(after.nodes@[after.nodes@.len() - 1].id == id);
        }
        if after.holds(x) {
            let a = choose|a: int| 0 <= a < after.nodes@.len() && (#[trigger] after.nodes@[a]).id == x;
            if a < d.len() {
                assert(d[a] == after.nodes@[a]);
                assert(d[a].id == before.nodes@[a].id);
            }
        }
    }
}

impl HnswLinks {
    /// The links of `n` lead to other nodes of this graph, each at most
    /// once per layer and at most `max_links` per layer.
    pub open spec fn links_ok(&self, n: HnswNode, m: usize, m_max: usize) -> bool {
        &&& forall|l: int, x: u64| #[trigger] links(n, l).contains(x) ==> self.holds(x) && x != n.id
        &&& forall|l: int| #[trigger] links(n, l).len() <= max_links(l, m, m_max)
        &&& forall|l: int| no_duplicates(#[trigger] links(n, l))
    }

    /// Whether `id` may appear in the results of a search of `layer` that
    /// starts at `entry_id`: it is the entry, or an active node of the graph
    /// that some node lists as a neighbor at that layer.
    pub open spec fn reachable_result(&self, layer: int, entry_id: u64, id: u64) -> bool {
        ||| id == entry_id
        ||| exists|j: int, k: int|
            #![trigger self.nodes@[j], self.nodes@[k]]
            0 <= j < self.nodes@.len() && 0 <= k < self.nodes@.len() && self.nodes@[j].id == id
                && !self.nodes@[j].tombstone && links(self.nodes@[k], layer).contains(id)
    }

    /// What a result of a search of `layer` from `entry_id` is: a node that
    /// search may reach, with the key the oracle gave for it.
    pub open spec fn scored_result<F: Fn(u64) -> u32>(
        &self,
        dist: F,
        layer: int,
        entry_id: u64,
        e: (u64, u32),
    ) -> bool {
        dist.ensures((e.0,), e.1) && self.reachable_result(layer, entry_id, e.0)
    }

    /// Candidate `cand` was passed over: it is in the graph and closer (by
    /// `between`) to a neighbor in `chosen` that is in the graph than to the
    /// query.
    pub open spec fn passed_over<G: Fn(u64, u64) -> u32>(
        &self,
        between: G,
        chosen: Seq<(u64, u32)>,
        cand: (u64, u32),
    ) -> bool {
        &&& self.holds(cand.0)
        &&& exists|j: int, e: u32|
            0 <= j < chosen.len() && self.holds(chosen[j].0) && #[trigger] between.ensures(
                (cand.0, chosen[j].0),
                e,
            ) && e < cand.1
    }

    /// Every candidate before position `upto` that `idx` does not pick was
    /// passed over.
    pub open spec fn others_passed_over<G: Fn(u64, u64) -> u32>(
        &self,
        between: G,
        chosen: Seq<(u64, u32)>,
        candidates: Seq<(u64, u32)>,
        idx: Seq<int>,
        upto: int,
    ) -> bool {
        forall|k: int|
            0 <= k < upto && k < candidates.len() && !idx.contains(k) ==> self.passed_over(
                between,
                chosen,
                #[trigger] candidates[k],
            )
    }

    /// A greedy descent (a search with one result per layer, moving to that
    /// result) from `from` at layer `lc` down to layer 1 can end at `s`.
    pub open spec fn greedy_reaches<F: Fn(u64) -> u32>(&self, dist: F, from: u64, lc: int, s: u64) -> bool
        decreases lc,
    {
        if lc <= 0 {
            s == from
        } else {
            exists|c: Seq<(u64, u32)>|
                #[trigger] self.beam_ok(dist, from, 1, lc as usize, c) && self.greedy_reaches(
                    dist,
                    if c.len() > 0 {
                        c[0].0
                    } else {
                        from
                    },
                    lc - 1,
                    s,
                )
        }
    }

    /// The first `k` entries of `c` from position `i` on, in order, whose
    /// nodes are in the graph and not marked deleted.
    pub open spec fn first_active(&self, c: Seq<(u64, u32)>, i: int, k: int) -> Seq<(u64, u32)>
        decreases c.len() - i,
    {
        if i < 0 || i >= c.len() || k <= 0 {
            Seq::empty()
        } else if self.active(c[i].0) {
            seq![c[i]] + self.first_active(c, i + 1, k - 1)
        } else {
            self.first_active(c, i + 1, k)
        }
    }

    /// The node `s` has a neighbor at `layer`, other than itself, that is in
    /// the graph and not marked deleted.
    pub open spec fn has_active_neighbor(&self, s: u64, layer: int) -> bool {
        exists|j: int, x: u64|
            0 <= j < self.nodes@.len() && (#[trigger] self.nodes@[j]).id == s && #[trigger] links(
                self.nodes@[j],
                layer,
            ).contains(x) && x != s && self.active(x)
    }

    /// With `k` at least 1, `first_active` is not empty when `c` holds an
    /// entry of an active node.
    proof fn lemma_first_active_nonempty(&self, c: Seq<(u64, u32)>, i: int, k: int, w: int)
        requires
            0 <= i <= w < c.len(),
            k >= 1,
            self.active(c[w].0),
        ensures
            self.first_active(c, i, k).len() >= 1,
        decreases w - i,
    {
        if !self.active(c[i].0) {
            self.lemma_first_active_nonempty(c, i + 1, k, w);
        }
    }

    /// A layer-0 search from `s` with `ef` at least 2 finds a node that is
    /// not marked deleted when `s` is one or has one as a neighbor.
    proof fn lemma_beam_finds_active<F: Fn(u64) -> u32>(&self, dist: F, s: u64, ef: usize, c: Seq<(u64, u32)>)
        requires
            self.wf(),
            self.beam_ok(dist, s, ef, 0, c),
            ef >= 2,
            self.active(s) || self.has_active_neighbor(s, 0),
        ensures
            exists|w: int| 0 <= w < c.len() && self.active(#[trigger] c[w].0),
    {
        assert(self.scored_result(dist, 0, s, c[0]));
        if c.len() >= 2 {
            let w: int = if c[0].0 != s { 0 } else { 1 };
            assert(c[0].0 != c[1].0);
            assert(self.scored_result(dist, 0, s, c[w]));
            if c[w].0 != s {
                let (a, b) = choose|a: int, b: int|
                    #![trigger self.nodes@[a], self.nodes@[b]]
                    0 <= a < self.nodes@.len() && 0 <= b < self.nodes@.len() && self.nodes@[a].id == c[w].0
                        && !self.nodes@[a].tombstone && links(self.nodes@[b], 0).contains(c[w].0);
                assert(self.active(c[w].0));
            }
        } else if c[0].0 != s {
            let (a, b) = choose|a: int, b: int|
                #![trigger self.nodes@[a], self.nodes@[b]]
                0 <= a < self.nodes@.len() && 0 <= b < self.nodes@.len() && self.nodes@[a].id == c[0].0
                    && !self.nodes@[a].tombstone && links(self.nodes@[b], 0).contains(c[0].0);
            assert(self.active(c[0].0));
        } else if !self.active(s) {
            let (j, x) = choose|j: int, x: u64|
                0 <= j < self.nodes@.len() && (#[trigger] self.nodes@[j]).id == s && #[trigger] links(
                    self.nodes@[j],
                    0,
                ).contains(x) && x != s && self.active(x);
            assert(self.expanded(c, c[0].0, 0));
            assert(has_id(c, x));
        }
    }

    /// `v` is a result that `search_layer` may give for a search of `layer`
    /// from `entry` with `ef` (what its contract says of a result).
    pub open spec fn beam_ok<F: Fn(u64) -> u32>(
        &self,
        dist: F,
        entry: u64,
        ef: usize,
        layer: usize,
        v: Seq<(u64, u32)>,
    ) -> bool {
        &&& self.holds(entry)
        &&& sorted_by_key(v)
        &&& ids_distinct(v)
        &&& forall|i: int| 0 <= i < v.len() ==> self.scored_result(dist, layer as int, entry, #[trigger] v[i])
        &&& ef >= 1 ==> 1 <= v.len() <= ef
        &&& ef == 0 ==> v.len() <= 1
        &&& ef >= 1 ==> exists|e: u32| dist.ensures((entry,), e) && v[0].1 <= e
        &&& v.len() < ef ==> forall|i: int|
            0 <= i < v.len() ==> self.expanded(v, #[trigger] v[i].0, layer as int)
        &&& ef >= 1 && v.len() == ef ==> forall|i: int|
            0 <= i < v.len() ==> self.neighbors_beyond(dist, v, #[trigger] v[i].0, layer as int)
    }

    /// `r` is a selection that `select_neighbors` may make from
    /// `candidates` (what its contract says of a result).
    pub open spec fn selection_ok<G: Fn(u64, u64) -> u32>(
        &self,
        between: G,
        candidates: Seq<(u64, u32)>,
        max_conn: usize,
        r: Seq<(u64, u32)>,
    ) -> bool {
        &&& candidates.len() <= max_conn ==> r == candidates
        &&& candidates.len() > max_conn ==> r.len() <= max_conn
        &&& max_conn >= 1 && candidates.len() >= 1 ==> r.len() >= 1 && r[0] == candidates[0]
        &&& exists|idx: Seq<int>|
            #[trigger] subsequence_via(r, candidates, idx) && (candidates.len() > max_conn
                ==> self.others_passed_over(
                between,
                r,
                candidates,
                idx,
                if r.len() < max_conn {
                    candidates.len() as int
                } else if r.len() > 0 {
                    idx.last()
                } else {
                    0
                },
            ))
        &&& candidates.len() > max_conn ==> forall|i: int, j: int|
            0 <= j < i < r.len() && self.holds(r[i].0) && self.holds(r[j].0) ==> exists|e: u32|
                between.ensures((r[i].0, r[j].0), e) && !(e < r[i].1)
    }

    /// The shape that `new`, `insert` (with these `m` and `m_max`),
    /// `remove` and `soft_delete` keep: distinct IDs; every node has one
    /// neighbor list per layer up to its top layer, each free of duplicates,
    /// not listing the node itself and within `max_links`; and the entry
    /// point is on the top layer (`top_entry`).
    pub open spec fn graph_ok(&self, m: usize, m_max: usize) -> bool {
        &&& self.wf()
        &&& lists_within(self.nodes@, m, m_max)
        &&& forall|j: int|
            0 <= j < self.nodes@.len() ==> (#[trigger] self.nodes@[j]).neighbors@.len() == self.nodes@[j].max_layer
                + 1
        &&& self.top_entry()
    }

    /// Every neighbor at `layer` of the node `y` (other than `y`) that is in
    /// the graph and not marked deleted is named in `v`.
    pub open spec fn expanded(&self, v: Seq<(u64, u32)>, y: u64, layer: int) -> bool {
        forall|j: int, x: u64|
            0 <= j < self.nodes@.len() && (#[trigger] self.nodes@[j]).id == y && #[trigger] links(
                self.nodes@[j],
                layer,
            ).contains(x) && x != y && self.active(x) ==> has_id(v, x)
    }

    /// No node of the graph is marked deleted.
    pub open spec fn none_deleted(&self) -> bool {
        forall|j: int| 0 <= j < self.nodes@.len() ==> !(#[trigger] self.nodes@[j]).tombstone
    }

    /// Every neighbor at `layer` of the node `y` (other than `y`) that is in
    /// the graph, not marked deleted and not named in `v` has a key no
    /// smaller than that of the farthest entry of `v`.
    pub open spec fn neighbors_beyond<F: Fn(u64) -> u32>(
        &self,
        dist: F,
        v: Seq<(u64, u32)>,
        y: u64,
        layer: int,
    ) -> bool {
        forall|j: int, x: u64|
            0 <= j < self.nodes@.len() && (#[trigger] self.nodes@[j]).id == y && #[trigger] links(
                self.nodes@[j],
                layer,
            ).contains(x) && x != y && self.active(x) && !has_id(v, x) ==> far_from(dist, x, v.last().1)
    }

    /// `expanded` carries over to a list that names every ID of the first.
    proof fn lemma_expanded_to(&self, a: Seq<(u64, u32)>, b: Seq<(u64, u32)>, y: u64, layer: int)
        requires
            self.expanded(a, y, layer),
            forall|w: int| 0 <= w < a.len() ==> has_id(b, #[trigger] a[w].0),
        ensures
            self.expanded(b, y, layer),
    {
        assert forall|j: int, x: u64|
            0 <= j < self.nodes@.len() && (#[trigger] self.nodes@[j]).id == y && #[trigger] links(
                self.nodes@[j],
                layer,
            ).contains(x) && x != y && self.active(x) implies has_id(b, x) by {
            let w = choose|w: int| 0 <= w < a.len() && (#[trigger] a[w]).0 == x;
            assert(has_id(b, a[w].0));
        }
    }

    /// `expanded` carries over when entries are appended.
    proof fn lemma_expanded_push(&self, a: Seq<(u64, u32)>, e: (u64, u32), y: u64, layer: int)
        requires
            self.expanded(a, y, layer),
        ensures
            self.expanded(a.push(e), y, layer),
    {
        assert forall|w: int| 0 <= w < a.len() implies has_id(a.push(e), #[trigger] a[w].0) by {
            assert(a.push(e)[w] == a[w]);
        }
        self.lemma_expanded_to(a, a.push(e), y, layer);
    }

    /// The key cached for `id`, if it was computed.
    fn cached_key(visited: &Vec<(u64, u32)>, id: u64) -> (r: Option<u32>)
        ensures
            r matches Some(k) ==> visited@.contains((id, k)),
            r matches Some(k) ==> exists|j: int|
                0 <= j < visited@.len() && visited@[j] == (id, k) && forall|i: int|
                    0 <= i < j ==> (#[trigger] visited@[i]).0 != id,
            r is None <==> forall|j: int| 0 <= j < visited@.len() ==> (#[trigger] visited@[j]).0 != id,
    {
        let mut i: usize = 0;
        while i < visited.len()
            invariant
                i <= visited.len(),
                forall|j: int| 0 <= j < i ==> (#[trigger] visited@[j]).0 != id,
            decreases visited.len() - i,
        {
            if visited[i].0 == id {
                assert(visited@.contains(visited@[i as int]));
                assert(visited@[i as int] == (id, visited@[i as int].1));
                return Some(visited[i].1);
            }
            i += 1;
        }
        None
    }

    /// Adds `x` to the results of a beam search, then drops the farthest
    /// results until at most `ef` remain.
    #[verifier::spinoff_prover]
    #[verifier::rlimit(30)]
    fn add_result(results: &mut Vec<(u64, u32)>, x: (u64, u32), ef: usize)
        requires
            sorted_by_key(old(results)@),
            old(results)@.len() <= ef || old(results)@.len() <= 1,
            old(results)@.len() < ef || (old(results)@.len() > 0 && x.1 < old(results)@.last().1),
        ensures
            sorted_by_key(final(results)@),
            final(results)@.len() <= ef,
            ef >= 1 && old(results)@.len() >= 1 ==> final(results)@.len() >= 1,
            old(results)@.len() >= 1 && final(results)@.len() >= 1 ==> final(results)@[0].1 <= old(
                results,
            )@[0].1,
            beam_measure(final(results)@, ef as int) < beam_measure(old(results)@, ef as int),
            forall|e: (u64, u32)| #[trigger]
                final(results)@.contains(e) ==> old(results)@.contains(e) || e == x,
            ids_distinct(old(results)@) && !has_id(old(results)@, x.0) ==> ids_distinct(final(results)@),
            old(results)@.len() < ef ==> final(results)@.contains(x),
            old(results)@.len() >= ef ==> final(results)@.len() == ef,
            forall|i: int| 0 <= i < old(results)@.len() && old(results)@.len() < ef ==> final(results)@.contains(
                #[trigger] old(results)@[i],
            ),
            ef >= 1 && old(results)@.len() >= ef ==> final(results)@.last().1 <= old(results)@.last().1,
            ef >= 1 ==> final(results)@.contains(x),
            ef >= 1 ==> forall|e: (u64, u32)| #[trigger]
                old(results)@.contains(e) ==> final(results)@.contains(e) || e.1 >= final(results)@.last().1,
    {
        let ghost r0 = results@;
        insert_sorted(results, x);
        let ghost ins = results@;
        let ghost p = first_above(r0, x.1, 0);
        proof {
            lemma_first_above_bounds(r0, x.1, 0);
            lemma_key_sum_insert(r0, p, x);
            lemma_key_sum_nonneg(r0);
            assert(ins =~= ins.take(ins.len() as int));
        }
        while results.len() > ef
            invariant
                sorted_by_key(results@),
                results@.len() <= ins.len(),
                results@.len() == ins.len() || results@.len() >= ef,
                results@ == ins.take(results@.len() as int),
            decreases results.len(),
        {
            let ghost r1 = results@;
            results.pop();
            assert(results@ =~= ins.take(results@.len() as int));
        }
        proof {
            let n = results@.len();
            if r0.len() >= 1 && n >= 1 {
                assert(results@[0] == ins[0]);
                if p == 0 {
                    lemma_first_above_zero(r0, x.1);
                }
            }
            assert forall|e: (u64, u32)| #[trigger] results@.contains(e) implies r0.contains(e) || e
                == x by {
                let i = choose|i: int| 0 <= i < n && results@[i] == e;
                assert(ins[i] == e);
                if i < p {
                    assert(r0[i] == e);
                } else if i > p {
                    assert(r0[i - 1] == e);
                }
            }
            if ids_distinct(r0) && !has_id(r0, x.0) {
                lemma_insert_take_distinct(r0, x, p, n as int);
            }
            if r0.len() < ef {
                assert(n == r0.len() + 1);
                assert(results@ =~= ins);
                lemma_insert_keeps(r0, x, p);
                assert forall|e: (u64, u32)| #[trigger] r0.contains(e) implies results@.contains(e) by {
                    let q = choose|q: int| 0 <= q < r0.len() && r0[q] == e;
                    assert(results@.contains(r0[q]));
                }
            } else if n == r0.len() {
                // One farthest result was dropped: the old farthest one.
                assert(p < r0.len()) by {
                    if p == r0.len() {
                        assert(ins[r0.len() - 1].1 <= ins[r0.len() as int].1);
                    }
                }
                assert(ins.last() == r0.last());
                assert(results@ =~= ins.drop_last());
                lemma_drop_last_keeps(r0, x, p);
                assert(results@[p] == x);
            } else {
                assert(n == 0);
                assert(results@ =~= Seq::<(u64, u32)>::empty());
            }
        }
    }

    /// Beam search within one layer: starting at `entry_id`, repeatedly
    /// takes the closest unexplored candidate and considers its neighbors
    /// at `layer`; a neighbor seen for the first time that is in the graph
    /// and not soft-deleted becomes a candidate and a
    /// result when fewer than `ef` results are held or it is closer than the
    /// farthest result, which is then dropped. The search stops when the
    /// closest candidate is farther than the farthest of `ef` results.
    /// Returns the results closest first; fails with `VectorNotFound` when
    /// the graph has no node `entry_id`.
    #[verifier::spinoff_prover]
    pub fn search_layer<F: Fn(u64) -> u32 + Copy>(
        &self,
        dist: F,
        entry_id: u64,
        ef: usize,
        layer: usize,
    ) -> (r: Result<Vec<(u64, u32)>, IndexError>)
        requires
            self.wf(),
            forall|id: u64| dist.requires((id,)),
        ensures
            !self.holds(entry_id) ==> r == Err::<Vec<(u64, u32)>, IndexError>(
                IndexError::VectorNotFound(entry_id),
            ),
            self.holds(entry_id) ==> r is Ok,
            r matches Ok(v) ==> {
                &&& sorted_by_key(v@)
                &&& ids_distinct(v@)
                &&& forall|i: int|
                    0 <= i < v@.len() ==> self.scored_result(
                        dist,
                        layer as int,
                        entry_id,
                        #[trigger] v@[i],
                    )
                &&& ef >= 1 ==> 1 <= v@.len() <= ef
                &&& ef == 0 ==> v@.len() <= 1
                &&& ef >= 1 ==> exists|e: u32| dist.ensures((entry_id,), e) && v@[0].1 <= e
                &&& v@.len() < ef ==> forall|i: int|
                    0 <= i < v@.len() ==> self.expanded(v@, #[trigger] v@[i].0, layer as int)
                &&& ef >= 1 && v@.len() == ef ==> forall|i: int|
                    0 <= i < v@.len() ==> self.neighbors_beyond(dist, v@, #[trigger] v@[i].0, layer as int)
            },
    {
        if self.get_node(entry_id).is_none() {
            return Err(IndexError::VectorNotFound(entry_id));
        }
        let d0 = dist(entry_id);
        let mut visited: Vec<(u64, u32)> = Vec::new();
        visited.push((entry_id, d0));
        let mut candidates: Vec<(u64, u32)> = Vec::new();
        candidates.push((entry_id, d0));
        let mut results: Vec<(u64, u32)> = Vec::new();
        results.push((entry_id, d0));
        proof {
            lemma_key_sum_nonneg(results@);
        }
        while candidates.len() > 0
            invariant
                self.wf(),
                forall|id: u64| dist.requires((id,)),
                sorted_by_key(results@),
                ids_distinct(results@),
                forall|i: int| 0 <= i < results@.len() ==> has_id(visited@, #[trigger] results@[i].0),
                results@.len() <= ef || results@.len() <= 1,
                ef >= 1 ==> results@.len() >= 1,
                ef >= 1 ==> results@.len() <= ef,
                dist.ensures((entry_id,), d0),
                results@.len() >= 1 ==> results@[0].1 <= d0,
                forall|i: int|
                    0 <= i < visited@.len() ==> self.scored_result(
                        dist,
                        layer as int,
                        entry_id,
                        #[trigger] visited@[i],
                    ),
                forall|i: int|
                    0 <= i < candidates@.len() ==> self.scored_result(
                        dist,
                        layer as int,
                        entry_id,
                        #[trigger] candidates@[i],
                    ),
                forall|i: int|
                    0 <= i < results@.len() ==> self.scored_result(
                        dist,
                        layer as int,
                        entry_id,
                        #[trigger] results@[i],
                    ),
                results@.len() < ef ==> forall|w: int|
                    0 <= w < visited@.len() ==> has_id(results@, #[trigger] visited@[w].0),
                forall|i: int|
                    0 <= i < results@.len() ==> has_id(candidates@, #[trigger] results@[i].0)
                        || self.expanded(visited@, results@[i].0, layer as int),
                forall|i: int, t: int|
                    0 <= i < results@.len() && 0 <= t < candidates@.len() && (#[trigger] results@[i]).0
                        == (#[trigger] candidates@[t]).0 ==> results@[i].1 == candidates@[t].1,
                forall|t: int| 0 <= t < candidates@.len() ==> has_id(visited@, #[trigger] candidates@[t].0),
                ef >= 1 ==> forall|w: int|
                    0 <= w < visited@.len() ==> has_id(results@, #[trigger] visited@[w].0) || far_from(
                        dist,
                        visited@[w].0,
                        results@.last().1,
                    ),
            ensures
                results@.len() < ef ==> candidates@.len() == 0,
                forall|i: int| 0 <= i < results@.len() ==> self.expanded(visited@, #[trigger] results@[i].0, layer as int),
            decreases beam_measure(results@, ef as int), candidates@.len(),
        {
            // The closest candidate.
            let mut best: usize = 0;
            let mut i: usize = 1;
            while i < candidates.len()
                invariant
                    0 < candidates.len(),
                    best < candidates.len(),
                    1 <= i <= candidates.len(),
                    forall|t: int| 0 <= t < i ==> candidates@[best as int].1 <= #[trigger] candidates@[t].1,
                decreases candidates.len() - i,
            {
                if candidates[i].1 < candidates[best].1 {
                    best = i;
                }
                i += 1;
            }
            let ghost cands0 = candidates@;
            let curr = candidates.remove(best);
            let ghost m0 = beam_measure(results@, ef as int);
            let ghost c0 = candidates@.len();
            proof {
                assert forall|t: int| 0 <= t < candidates@.len() implies has_id(visited@, #[trigger] candidates@[t].0) by {
                    if t < best {
                        assert(candidates@[t] == cands0[t]);
                    } else {
                        assert(candidates@[t] == cands0[t + 1]);
                    }
                }
                assert forall|i: int, t: int|
                    0 <= i < results@.len() && 0 <= t < candidates@.len() && (#[trigger] results@[i]).0
                        == (#[trigger] candidates@[t]).0 implies results@[i].1 == candidates@[t].1 by {
                    if t < best {
                        assert(candidates@[t] == cands0[t]);
                    } else {
                        assert(candidates@[t] == cands0[t + 1]);
                    }
                }
            }
            if results.len() > 0 && results.len() >= ef && curr.1 > results[results.len() - 1].1 {
                proof {
                    assert forall|i: int| 0 <= i < results@.len() implies self.expanded(
                        visited@,
                        #[trigger] results@[i].0,
                        layer as int,
                    ) by {
                        if has_id(cands0, results@[i].0) {
                            let w = choose|w: int| 0 <= w < cands0.len() && (#[trigger] cands0[w]).0 == results@[i].0;
                            assert(results@[i].1 == cands0[w].1);
                            assert(results@[i].1 <= results@[results@.len() - 1].1);
                            assert(curr.1 <= cands0[w].1);
                        }
                    }
                }
                break;
            }
            proof {
                assert forall|i: int| 0 <= i < results@.len() implies has_id(
                    candidates@,
                    #[trigger] results@[i].0,
                ) || self.expanded(visited@, results@[i].0, layer as int) || results@[i].0 == curr.0 by {
                    if has_id(cands0, results@[i].0) && results@[i].0 != curr.0 {
                        let w = choose|w: int| 0 <= w < cands0.len() && (#[trigger] cands0[w]).0 == results@[i].0;
                        if w < best {
                            assert(candidates@[w] == cands0[w]);
                        } else {
                            assert(w != best);
                            assert(candidates@[w - 1] == cands0[w]);
                        }
                    }
                }
            }
            match self.get_node(curr.0) {
                None => {},
                Some(node) => {
                    let nbrs = node.neighbors_at(layer);
                    let mut j: usize = 0;
                    while j < nbrs.len()
                        invariant
                            self.wf(),
                            forall|id: u64| dist.requires((id,)),
                            nbrs@ == links(*node, layer as int),
                            self.nodes@.contains(*node),
                            j <= nbrs.len(),
                            sorted_by_key(results@),
                            ids_distinct(results@),
                            forall|i: int| 0 <= i < results@.len() ==> has_id(visited@, #[trigger] results@[i].0),
                            ef >= 1 ==> results@.len() >= 1,
                            ef >= 1 ==> results@.len() <= ef,
                            results@.len() <= ef || results@.len() <= 1,
                            beam_measure(results@, ef as int) <= m0,
                            dist.ensures((entry_id,), d0),
                            results@.len() >= 1 ==> results@[0].1 <= d0,
                            beam_measure(results@, ef as int) == m0 ==> candidates@.len() == c0,
                            forall|i: int|
                                0 <= i < visited@.len() ==> self.scored_result(
                                    dist,
                                    layer as int,
                                    entry_id,
                                    #[trigger] visited@[i],
                                ),
                            forall|i: int|
                                0 <= i < candidates@.len() ==> self.scored_result(
                                    dist,
                                    layer as int,
                                    entry_id,
                                    #[trigger] candidates@[i],
                                ),
                            forall|i: int|
                                0 <= i < results@.len() ==> self.scored_result(
                                    dist,
                                    layer as int,
                                    entry_id,
                                    #[trigger] results@[i],
                                ),
                            node.id == curr.0,
                            results@.len() < ef ==> forall|w: int|
                                0 <= w < visited@.len() ==> has_id(results@, #[trigger] visited@[w].0),
                            forall|i: int|
                                0 <= i < results@.len() ==> has_id(candidates@, #[trigger] results@[i].0)
                                    || self.expanded(visited@, results@[i].0, layer as int) || results@[i].0
                                    == curr.0,
                            forall|t: int|
                                0 <= t < j && nbrs@[t] != curr.0 && self.active(nbrs@[t]) ==> has_id(
                                    visited@,
                                    #[trigger] nbrs@[t],
                                ),
                            forall|i: int, t: int|
                                0 <= i < results@.len() && 0 <= t < candidates@.len() && (#[trigger] results@[i]).0
                                    == (#[trigger] candidates@[t]).0 ==> results@[i].1 == candidates@[t].1,
                            forall|t: int| 0 <= t < candidates@.len() ==> has_id(visited@, #[trigger] candidates@[t].0),
                            ef >= 1 ==> forall|w: int|
                                0 <= w < visited@.len() ==> has_id(results@, #[trigger] visited@[w].0) || far_from(
                                    dist,
                                    visited@[w].0,
                                    results@.last().1,
                                ),
                        decreases nbrs.len() - j,
                    {
                        let nid = nbrs[j];
                        j += 1;
                        if nid == curr.0 {
                            continue;
                        }
                        let d = match Self::cached_key(&visited, nid) {
                            Some(ck) => {
                                proof {
                                    let w = choose|w: int| 0 <= w < visited@.len() && visited@[w] == (nid, ck);
                                    assert(visited@[w].0 == nid);
                                    assert(nbrs@[j - 1] == nid);
                                }
                                continue;
                            },
                            None => {
                                match self.get_node(nid) {
                                    None => {
                                        proof {
                                            assert(nbrs@[j - 1] == nid);
                                            if self.active(nid) {
                                                let a = choose|a: int|
                                                    0 <= a < self.nodes@.len() && (#[trigger] self.nodes@[a]).id == nid
                                                        && !self.nodes@[a].tombstone;
                                                assert(self.holds(nid));
                                            }
                                        }
                                        continue;
                                    },
                                    Some(nb) => {
                                        if nb.tombstone {
                                            proof {
                                                assert(nbrs@[j - 1] == nid);
                                                if self.active(nid) {
                                                    let a = choose|a: int|
                                                        0 <= a < self.nodes@.len() && (#[trigger] self.nodes@[a]).id == nid
                                                            && !self.nodes@[a].tombstone;
                                                    let w = choose|w: int| 0 <= w < self.nodes@.len() && self.nodes@[w] == *nb;
                                                    assert(a == w);
                                                }
                                            }
                                            continue;
                                        }
                                        let k = dist(nid);
                                        proof {
                                            let jj = choose|jj: int| 0 <= jj < self.nodes@.len() && self.nodes@[jj] == *nb;
                                            let kk = choose|kk: int| 0 <= kk < self.nodes@.len() && self.nodes@[kk] == *node;
                                            assert(links(self.nodes@[kk], layer as int).contains(nid)) by {
                                                assert(nbrs@[j - 1] == nid);
                                            }
                                            assert(self.reachable_result(layer as int, entry_id, nid));
                                        }
                                        let ghost v0 = visited@;
                                        visited.push((nid, k));
                                        proof {
                                            lemma_has_id_push(v0, (nid, k));
                                            assert(nbrs@[j - 1] == nid);
                                            assert(visited@[visited@.len() - 1].0 == nid);
                                            assert forall|i: int| 0 <= i < results@.len() implies has_id(
                                                visited@,
                                                #[trigger] results@[i].0,
                                            ) by {
                                                let w = choose|w: int| 0 <= w < v0.len() && (#[trigger] v0[w]).0 == results@[i].0;
                                                assert(visited@[w] == v0[w]);
                                            }
                                            assert(!has_id(results@, nid)) by {
                                                if has_id(results@, nid) {
                                                    let w = choose|w: int| 0 <= w < results@.len() && (#[trigger] results@[w]).0 == nid;
                                                    assert(has_id(v0, results@[w].0));
                                                }
                                            }
                                            assert forall|i: int| 0 <= i < results@.len() implies has_id(
                                                candidates@,
                                                #[trigger] results@[i].0,
                                            ) || self.expanded(visited@, results@[i].0, layer as int) || results@[i].0
                                                == curr.0 by {
                                                if self.expanded(v0, results@[i].0, layer as int) {
                                                    self.lemma_expanded_push(v0, (nid, k), results@[i].0, layer as int);
                                                }
                                            }
                                            assert forall|t: int| 0 <= t < candidates@.len() implies has_id(
                                                visited@,
                                                #[trigger] candidates@[t].0,
                                            ) by {
                                                assert(has_id(v0, candidates@[t].0));
                                            }
                                            assert(!has_id(candidates@, nid)) by {
                                                if has_id(candidates@, nid) {
                                                    let w = choose|w: int| 0 <= w < candidates@.len() && (#[trigger] candidates@[w]).0 == nid;
                                                    assert(has_id(v0, candidates@[w].0));
                                                }
                                            }
                                        }
                                        k
                                    },
                                }
                            },
                        };
                        let ghost v1 = visited@;
                        let should_add = if results.len() < ef {
                            true
                        } else if results.len() > 0 {
                            d < results[results.len() - 1].1
                        } else {
                            false
                        };
                        if should_add {
                            proof {
                                assert(self.scored_result(dist, layer as int, entry_id, (nid, d)));
                            }
                            let ghost cands1 = candidates@;
                            candidates.push((nid, d));
                            let ghost r0 = results@;
                            Self::add_result(&mut results, (nid, d), ef);
                            proof {
                                lemma_has_id_push(cands1, (nid, d));
                                if results@.len() < ef {
                                    assert(r0.len() < ef);
                                    assert forall|w: int| 0 <= w < visited@.len() implies has_id(
                                        results@,
                                        #[trigger] visited@[w].0,
                                    ) by {
                                        if w == visited@.len() - 1 {
                                            let q = choose|q: int| 0 <= q < results@.len() && results@[q] == (nid, d);
                                            assert(results@[q].0 == nid);
                                        } else {
                                            let q = choose|q: int| 0 <= q < r0.len() && (#[trigger] r0[q]).0 == visited@[w].0;
                                            assert(results@.contains(r0[q]));
                                            let q2 = choose|q2: int| 0 <= q2 < results@.len() && results@[q2] == r0[q];
                                            assert(results@[q2].0 == visited@[w].0);
                                        }
                                    }
                                }
                                assert forall|i: int| 0 <= i < results@.len() implies has_id(
                                    candidates@,
                                    #[trigger] results@[i].0,
                                ) || self.expanded(visited@, results@[i].0, layer as int) || results@[i].0
                                    == curr.0 by {
                                    assert(results@.contains(results@[i]));
                                    if results@[i] == (nid, d) {
                                    } else {
                                        let q = choose|q: int| 0 <= q < r0.len() && r0[q] == results@[i];
                                        assert(has_id(cands1, r0[q].0) || self.expanded(visited@, r0[q].0, layer as int)
                                            || r0[q].0 == curr.0);
                                    }
                                }
                                if ef >= 1 {
                                    assert forall|w: int| 0 <= w < visited@.len() implies has_id(
                                        results@,
                                        #[trigger] visited@[w].0,
                                    ) || far_from(dist, visited@[w].0, results@.last().1) by {
                                        if w == visited@.len() - 1 {
                                            let q = choose|q: int| 0 <= q < results@.len() && results@[q] == (nid, d);
                                            assert(results@[q].0 == nid);
                                        } else if has_id(r0, visited@[w].0) {
                                            let q = choose|q: int| 0 <= q < r0.len() && (#[trigger] r0[q]).0 == visited@[w].0;
                                            assert(r0.contains(r0[q]));
                                            if results@.contains(r0[q]) {
                                                let q2 = choose|q2: int| 0 <= q2 < results@.len() && results@[q2] == r0[q];
                                                assert(results@[q2].0 == visited@[w].0);
                                            } else {
                                                assert(self.scored_result(dist, layer as int, entry_id, r0[q]));
                                                assert(dist.ensures((visited@[w].0,), r0[q].1));
                                            }
                                        } else {
                                            assert(r0.len() >= ef);
                                            assert(far_from(dist, visited@[w].0, r0.last().1));
                                            let kk = choose|kk: u32| dist.ensures((visited@[w].0,), kk) && kk >= r0.last().1;
                                        }
                                    }
                                }
                                assert forall|i: int, t: int|
                                    0 <= i < results@.len() && 0 <= t < candidates@.len() && (#[trigger] results@[i]).0
                                        == (#[trigger] candidates@[t]).0 implies results@[i].1 == candidates@[t].1 by {
                                    assert(results@.contains(results@[i]));
                                    if t == candidates@.len() - 1 {
                                        assert(candidates@[t] == (nid, d));
                                        if results@[i] != (nid, d) {
                                            let q = choose|q: int| 0 <= q < r0.len() && r0[q] == results@[i];
                                            assert(has_id(v1, r0[q].0));
                                        }
                                    } else {
                                        assert(candidates@[t] == cands1[t]);
                                        if results@[i] == (nid, d) {
                                            assert(has_id(v1, cands1[t].0));
                                        } else {
                                            let q = choose|q: int| 0 <= q < r0.len() && r0[q] == results@[i];
                                        }
                                    }
                                }
                                assert forall|i: int| 0 <= i < results@.len() implies self.scored_result(
                                    dist,
                                    layer as int,
                                    entry_id,
                                    #[trigger] results@[i],
                                ) by {
                                    assert(results@.contains(results@[i]));
                                    if r0.contains(results@[i]) {
                                        let w = choose|w: int| 0 <= w < r0.len() && r0[w] == results@[i];
                                        assert(self.scored_result(dist, layer as int, entry_id, r0[w]));
                                    }
                                }
                                assert forall|i: int| 0 <= i < results@.len() implies has_id(
                                    visited@,
                                    #[trigger] results@[i].0,
                                ) by {
                                    assert(results@.contains(results@[i]));
                                    if r0.contains(results@[i]) {
                                        let w = choose|w: int| 0 <= w < r0.len() && r0[w] == results@[i];
                                        assert(has_id(visited@, r0[w].0));
                                    } else {
                                        assert(visited@[visited@.len() - 1].0 == nid);
                                    }
                                }
                            }
                        } else {
                            proof {
                                if ef >= 1 {
                                    assert(dist.ensures((nid,), d));
                                    assert forall|w: int| 0 <= w < visited@.len() implies has_id(
                                        results@,
                                        #[trigger] visited@[w].0,
                                    ) || far_from(dist, visited@[w].0, results@.last().1) by {
                                        if w == visited@.len() - 1 {
                                            assert(visited@[w].0 == nid);
                                        }
                                    }
                                }
                            }
                        }
                    }
                },
            }
            proof {
                lemma_key_sum_nonneg(results@);
            }
        }
        Ok(results)
    }

    /// Searches the whole graph for the `k` nodes closest to the query:
    /// from the entry point a greedy descent (a beam of one) through the
    /// layers above 0, then a beam search of layer 0 with
    /// `max(ef_search, k)`; returns the first `k` results that are not
    /// marked deleted, closest first, each node once.
    /// A graph without an entry point gives no results.
    pub fn search<F: Fn(u64) -> u32 + Copy>(&self, dist: F, k: usize, ef_search: usize) -> (r: Result<
        Vec<(u64, u32)>,
        IndexError,
    >)
        requires
            self.wf(),
            forall|id: u64| dist.requires((id,)),
        ensures
            self.entry_point is None ==> (r matches Ok(v) && v@.len() == 0),
            self.entry_point matches Some(ep) && self.holds(ep) ==> r is Ok,
            self.entry_point matches Some(ep) && self.active(ep) && k >= 1 ==> (r matches Ok(v)
                && v@.len() >= 1),
            r matches Ok(v) ==> {
                &&& sorted_by_key(v@)
                &&& v@.len() <= k
                &&& ids_distinct(v@)
                &&& forall|i: int|
                    0 <= i < v@.len() ==> dist.ensures((v@[i].0,), v@[i].1) && self.holds(
                        #[trigger] v@[i].0,
                    ) && self.active(v@[i].0)
                &&& self.none_deleted() && v@.len() < k ==> forall|i: int|
                    0 <= i < v@.len() ==> self.expanded(v@, #[trigger] v@[i].0, 0)
            },
            self.entry_point is Some ==> (r matches Ok(v) ==> exists|s: u64, c: Seq<(u64, u32)>|
                #[trigger] self.beam_ok(dist, s, search_ef(ef_search, k), 0, c) && v@
                    == self.first_active(c, 0, k as int) && self.greedy_reaches(
                    dist,
                    self.entry_point->0,
                    self.max_layer as int,
                    s,
                ) && (self.max_layer == 0 ==> s
                    == self.entry_point->0) && (self.active(self.entry_point->0) ==> self.active(s)) && (k
                    >= 1 && search_ef(ef_search, k) >= 2 && (self.active(s)
                    || self.has_active_neighbor(s, 0)) ==> v@.len() >= 1)),
    {
        let ep = match self.entry_point {
            Some(id) => id,
            None => {
                return Ok(Vec::new());
            },
        };
        let mut curr = ep;
        let mut lc = self.max_layer;
        while lc >= 1
            invariant
                self.wf(),
                forall|id: u64| dist.requires((id,)),
                self.entry_point == Some(ep),
                self.holds(ep) ==> self.holds(curr),
                self.active(ep) ==> self.active(curr),
                lc <= self.max_layer,
                self.max_layer == 0 ==> curr == ep,
                forall|t: u64|
                    self.greedy_reaches(dist, curr, lc as int, t) ==> #[trigger] self.greedy_reaches(
                        dist,
                        ep,
                        self.max_layer as int,
                        t,
                    ),
            decreases lc,
        {
            let ghost c0 = curr;
            let results = self.search_layer(dist, curr, 1, lc)?;
            proof {
                assert(self.beam_ok(dist, c0, 1, lc, results@));
                let nxt = if results@.len() > 0 { results@[0].0 } else { c0 };
                assert forall|t: u64|
                    self.greedy_reaches(dist, nxt, lc - 1, t) implies #[trigger] self.greedy_reaches(
                    dist,
                    ep,
                    self.max_layer as int,
                    t,
                ) by {
                    let li: int = lc as int;
                    assert(li as usize == lc);
                    assert(li - 1 == lc - 1);
                    assert(self.beam_ok(dist, c0, 1, li as usize, results@));
                    assert(self.greedy_reaches(dist, c0, li, t));
                }
            }
            if results.len() > 0 {
                proof {
                    assert(self.scored_result(dist, lc as int, curr, results@[0]));
                }
                curr = results[0].0;
            }
            lc -= 1;
        }
        let ef = if ef_search >= k {
            ef_search
        } else {
            k
        };
        let results = self.search_layer(dist, curr, ef, 0)?;
        // Deleted nodes are skipped; the first `k` others are returned.
        let mut kept: Vec<(u64, u32)> = Vec::new();
        let ghost mut idx: Seq<int> = Seq::empty();
        let mut i: usize = 0;
        while i < results.len() && kept.len() < k
            invariant
                self.wf(),
                i <= results@.len(),
                kept@.len() <= k,
                subsequence_via(kept@, results@, idx),
                forall|t: int| 0 <= t < idx.len() ==> #[trigger] idx[t] < i,
                forall|t: int| 0 <= t < kept@.len() ==> self.active(#[trigger] kept@[t].0),
                i > 0 && k >= 1 && self.active(results@[0].0) ==> kept@.len() >= 1,
                self.none_deleted() ==> kept@ == results@.take(i as int),
                self.holds(curr),
                forall|t: int| 0 <= t < results@.len() ==> self.scored_result(dist, 0, curr, #[trigger] results@[t]),
                kept@ + self.first_active(results@, i as int, k - kept@.len()) == self.first_active(
                    results@,
                    0,
                    k as int,
                ),
            decreases results@.len() - i,
        {
            proof {
                assert(self.scored_result(dist, 0, curr, results@[i as int]));
                if self.none_deleted() {
                    assert(self.holds(results@[i as int].0));
                }
            }
            match self.get_node(results[i].0) {
                Some(n) => {
                    if !n.tombstone {
                        proof {
                            let w = choose|w: int| 0 <= w < self.nodes@.len() && self.nodes@[w] == *n;
                            assert(self.active(results@[i as int].0));
                        }
                        let ghost kept0 = kept@;
                        kept.push(results[i]);
                        proof {
                            assert(self.first_active(results@, i as int, k - kept0.len()) == seq![results@[i as int]]
                                + self.first_active(results@, i + 1, k - kept0.len() - 1));
                            assert(kept@ + self.first_active(results@, i + 1, k - kept@.len()) =~= kept0
                                + self.first_active(results@, i as int, k - kept0.len()));
                            idx = idx.push(i as int);
                            if self.none_deleted() {
                                assert(kept@ =~= results@.take(i + 1));
                            }
                            assert(kept@[kept@.len() - 1] == results@[i as int]);
                        }
                    } else {
                        proof {
                            if self.none_deleted() {
                                let w = choose|w: int| 0 <= w < self.nodes@.len() && self.nodes@[w] == *n;
                                assert(!self.nodes@[w].tombstone);
                            }
                            if self.active(results@[i as int].0) {
                                let w = choose|w: int| 0 <= w < self.nodes@.len() && self.nodes@[w] == *n;
                                let a = choose|a: int|
                                    0 <= a < self.nodes@.len() && (#[trigger] self.nodes@[a]).id == results@[i as int].0
                                        && !self.nodes@[a].tombstone;
                                assert(a == w);
                            }
                        }
                    }
                },
                None => {},
            }
            proof {
                if !self.active(results@[i as int].0) {
                    assert(self.first_active(results@, i as int, k - kept@.len()) == self.first_active(
                        results@,
                        i + 1,
                        k - kept@.len(),
                    ));
                }
            }
            i += 1;
        }
        proof {
            assert(subsequence_via(kept@, results@, idx));
            assert forall|a: int, b: int| 0 <= a < b < kept@.len() implies kept@[a].1 <= kept@[b].1 by {
                assert(kept@[a] == results@[idx[a]] && kept@[b] == results@[idx[b]]);
            }
            assert forall|a: int, b: int| 0 <= a < b < kept@.len() implies (#[trigger] kept@[a]).0
                != (#[trigger] kept@[b]).0 by {
                assert(kept@[a] == results@[idx[a]] && kept@[b] == results@[idx[b]]);
            }
            assert forall|t: int| 0 <= t < kept@.len() implies dist.ensures((kept@[t].0,), kept@[t].1)
                && self.holds(#[trigger] kept@[t].0) && self.active(kept@[t].0) by {
                assert(kept@[t] == results@[idx[t]]);
                assert(self.scored_result(dist, 0, curr, results@[idx[t]]));
            }
            if self.active(ep) && k >= 1 {
                assert(self.scored_result(dist, 0, curr, results@[0]));
            }
            if self.none_deleted() && kept@.len() < k {
                assert(kept@ =~= results@);
            }
            assert(self.first_active(results@, i as int, k - kept@.len()) =~= Seq::<(u64, u32)>::empty());
            assert(kept@ =~= self.first_active(results@, 0, k as int));
            assert(self.beam_ok(dist, curr, ef, 0, results@));
            if k >= 1 && ef >= 2 && (self.active(curr) || self.has_active_neighbor(curr, 0)) {
                self.lemma_beam_finds_active(dist, curr, ef, results@);
                let w = choose|w: int| 0 <= w < results@.len() && self.active(#[trigger] results@[w].0);
                self.lemma_first_active_nonempty(results@, 0, k as int, w);
            }
            assert(ef == search_ef(ef_search, k));
            assert(self.greedy_reaches(dist, curr, 0, curr));
            assert(self.greedy_reaches(dist, ep, self.max_layer as int, curr));
            assert(self.entry_point->0 == ep);
            assert(self.beam_ok(dist, curr, search_ef(ef_search, k), 0, results@) && kept@ == self.first_active(
                results@,
                0,
                k as int,
            ) && self.greedy_reaches(dist, self.entry_point->0, self.max_layer as int, curr)
                && (self.max_layer == 0 ==> curr == self.entry_point->0) && (self.active(self.entry_point->0)
                ==> self.active(curr)) && (k >= 1 && search_ef(ef_search, k) >= 2 && (self.active(curr)
                || self.has_active_neighbor(curr, 0)) ==> kept@.len() >= 1));
        }
        Ok(kept)
    }

    /// Thins the candidates of a layer (closest first) to at most
    /// `max_conn` neighbors. When there are no more candidates than that,
    /// all are kept. Otherwise candidates are taken in order until
    /// `max_conn` are chosen, skipping one that is closer (by `between`) to
    /// a neighbor chosen already than to the query; a candidate or chosen
    /// neighbor that is not in the graph takes no part in that test.
    pub fn select_neighbors<G: Fn(u64, u64) -> u32 + Copy>(
        &self,
        between: G,
        candidates: &Vec<(u64, u32)>,
        max_conn: usize,
    ) -> (r: Vec<(u64, u32)>)
        requires
            forall|a: u64, b: u64| between.requires((a, b)),
        ensures
            candidates@.len() <= max_conn ==> r@ == candidates@,
            candidates@.len() > max_conn ==> r@.len() <= max_conn,
            max_conn >= 1 && candidates@.len() >= 1 ==> r@.len() >= 1 && r@[0] == candidates@[0],
            exists|idx: Seq<int>|
                #[trigger] subsequence_via(r@, candidates@, idx) && (candidates@.len() > max_conn
                    ==> self.others_passed_over(
                    between,
                    r@,
                    candidates@,
                    idx,
                    if r@.len() < max_conn {
                        candidates@.len() as int
                    } else if r@.len() > 0 {
                        idx.last()
                    } else {
                        0
                    },
                )),
            candidates@.len() > max_conn ==> forall|i: int, j: int|
                0 <= j < i < r@.len() && self.holds(r@[i].0) && self.holds(r@[j].0) ==> exists|e: u32|
                    between.ensures((r@[i].0, r@[j].0), e) && !(e < r@[i].1),
    {
        if candidates.len() <= max_conn {
            let mut all: Vec<(u64, u32)> = Vec::new();
            let mut t: usize = 0;
            while t < candidates.len()
                invariant
                    t <= candidates.len(),
                    all@ == candidates@.take(t as int),
                decreases candidates.len() - t,
            {
                all.push(candidates[t]);
                t += 1;
                assert(all@ =~= candidates@.take(t as int));
            }
            assert(all@ =~= candidates@);
            proof {
                let idx = Seq::new(all@.len(), |i: int| i);
                assert(subsequence_via(all@, candidates@, idx));
            }
            return all;
        }
        let mut selected: Vec<(u64, u32)> = Vec::new();
        let ghost mut idx: Seq<int> = Seq::empty();
        let mut t: usize = 0;
        while t < candidates.len()
            invariant
                forall|a: u64, b: u64| between.requires((a, b)),
                candidates@.len() > max_conn,
                t <= candidates.len(),
                selected@.len() <= max_conn,
                selected@.len() <= t,
                t >= 1 && max_conn >= 1 ==> selected@.len() >= 1 && selected@[0] == candidates@[0],
                subsequence_via(selected@, candidates@, idx),
                forall|i: int| 0 <= i < idx.len() ==> #[trigger] idx[i] < t,
                selected@.len() >= max_conn && selected@.len() > 0 ==> t == idx.last() + 1,
                self.others_passed_over(between, selected@, candidates@, idx, t as int),
                forall|i: int, j: int|
                    0 <= j < i < selected@.len() && self.holds(selected@[i].0) && self.holds(
                        selected@[j].0,
                    ) ==> exists|e: u32|
                        between.ensures((selected@[i].0, selected@[j].0), e) && !(e < selected@[i].1),
            ensures
                candidates@.len() >= 1 && max_conn >= 1 ==> t >= 1,
                selected@.len() <= max_conn,
                t <= candidates.len(),
                t >= 1 && max_conn >= 1 ==> selected@.len() >= 1 && selected@[0] == candidates@[0],
                subsequence_via(selected@, candidates@, idx),
                forall|i: int| 0 <= i < idx.len() ==> #[trigger] idx[i] < t,
                t < candidates.len() ==> selected@.len() >= max_conn,
                selected@.len() >= max_conn && selected@.len() > 0 ==> t == idx.last() + 1,
                self.others_passed_over(between, selected@, candidates@, idx, t as int),
                forall|i: int, j: int|
                    0 <= j < i < selected@.len() && self.holds(selected@[i].0) && self.holds(
                        selected@[j].0,
                    ) ==> exists|e: u32|
                        between.ensures((selected@[i].0, selected@[j].0), e) && !(e < selected@[i].1),
            decreases candidates.len() - t,
        {
            if selected.len() >= max_conn {
                break;
            }
            let cand = candidates[t];
            let mut diverse = true;
            if self.get_node(cand.0).is_some() {
                let mut s: usize = 0;
                while s < selected.len() && diverse
                    invariant
                        forall|a: u64, b: u64| between.requires((a, b)),
                        s <= selected@.len(),
                        diverse || selected@.len() > 0,
                        !diverse ==> self.passed_over(between, selected@, cand),
                        self.holds(cand.0),
                        diverse ==> forall|j: int|
                            0 <= j < s && self.holds(selected@[j].0) ==> exists|e: u32|
                                between.ensures((cand.0, selected@[j].0), e) && !(e < cand.1),
                    decreases selected@.len() - s,
                {
                    if self.get_node(selected[s].0).is_some() {
                        let e = between(cand.0, selected[s].0);
                        if e < cand.1 {
                            diverse = false;
                            assert(self.holds(selected@[s as int].0));
                        }
                    }
                    s += 1;
                }
            }
            if diverse {
                let ghost before = selected@;
                selected.push(cand);
                proof {
                    let ghost old_idx = idx;
                    idx = idx.push(t as int);
                    assert forall|k: int|
                        0 <= k < t + 1 && k < candidates@.len() && !idx.contains(k) implies self.passed_over(
                        between,
                        selected@,
                        #[trigger] candidates@[k],
                    ) by {
                        if old_idx.contains(k) {
                            let w = choose|w: int| 0 <= w < old_idx.len() && old_idx[w] == k;
                            assert(idx[w] == k);
                        }
                        assert(k != t) by {
                            assert(idx[idx.len() - 1] == t);
                        }
                        assert(self.passed_over(between, before, candidates@[k]));
                        let (j, e) = choose|j: int, e: u32|
                            0 <= j < before.len() && self.holds(before[j].0) && #[trigger] between.ensures(
                                (candidates@[k].0, before[j].0),
                                e,
                            ) && e < candidates@[k].1;
                        assert(selected@[j] == before[j]);
                    }
                    assert forall|i: int, j: int|
                        0 <= j < i < selected@.len() && self.holds(selected@[i].0) && self.holds(
                            selected@[j].0,
                        ) implies exists|e: u32|
                        between.ensures((selected@[i].0, selected@[j].0), e) && !(e
                            < selected@[i].1) by {
                        if i < before.len() {
                            assert(selected@[i] == before[i] && selected@[j] == before[j]);
                        } else {
                            assert(selected@[i] == cand);
                            assert(selected@[j] == before[j]);
                        }
                    }
                }
            }
            t += 1;
        }
        assert(subsequence_via(selected@, candidates@, idx));
        selected
    }

    /// Links a node that is not in the graph yet, with top layer `level`:
    /// `dist` gives the key of any node to the new node's vector, `between`
    /// that of two nodes, both in the order of the distances. A graph
    /// without an entry point just takes the node as its entry point.
    /// Otherwise, from the entry point, a greedy descent goes through the
    /// layers above `level`; then each layer from the lower of `level` and
    /// the top layer down to 0 is searched with `ef_construction`, the
    /// results are thinned by `select_neighbors` to `max_links` of the layer,
    /// and the node and each chosen neighbor are linked both ways (each side
    /// while its list has room), the search of the next layer starting at
    /// the closest result. The node becomes the entry point when `level` is
    /// above the top layer. Fails, changing nothing, when the entry point is
    /// not in the graph.
    #[verifier::spinoff_prover]
    pub fn link_new_node<F: Fn(u64) -> u32 + Copy, G: Fn(u64, u64) -> u32 + Copy>(
        &mut self,
        id: u64,
        level: usize,
        dist: F,
        between: G,
        m: usize,
        m_max: usize,
        ef_construction: usize,
    ) -> (r: Result<(), IndexError>)
        requires
            old(self).wf(),
            !old(self).holds(id),
            level < usize::MAX,
            forall|x: u64| dist.requires((x,)),
            forall|a: u64, b: u64| between.requires((a, b)),
        ensures
            final(self).wf(),
            lists_within(old(self).nodes@, m, m_max) ==> lists_within(final(self).nodes@, m, m_max),
            r is Err ==> final(self).nodes@ == old(self).nodes@ && final(self).entry_point == old(self).entry_point && final(self).max_layer == old(self).max_layer,
            old(self).entry_point is None ==> r is Ok,
            old(self).entry_point matches Some(ep) && old(self).holds(ep) ==> r is Ok,
            r is Ok ==> linked_into(*old(self), *final(self), id, level, m, m_max, ef_construction),
            r is Ok && old(self).entry_point is Some ==> forall|l: int|
                0 <= l <= level && l <= old(self).max_layer ==> #[trigger] layer_chosen(
                    *old(self),
                    final(self).nodes@.last(),
                    id,
                    l,
                    dist,
                    between,
                    m,
                    m_max,
                    ef_construction,
                ),
    {
        let ghost h0 = *self;
        let ghost g0 = self.nodes@;
        let ghost lw = lists_within(g0, m, m_max);
        let mut node = HnswNode::new(id, level);
        let ep = match self.entry_point {
            Some(e) => e,
            None => {
                self.set_entry_point(id, level);
                self.insert_node(node);
                proof {
                    if lw {
                        assert forall|l: int|
                            no_duplicates(#[trigger] links(node, l)) && !links(node, l).contains(node.id)
                                && links(node, l).len() <= max_links(l, m, m_max) by {
                            assert(links(node, l).len() == 0);
                        }
                        lemma_push_keeps_lists(g0, node, m, m_max);
                    }
                    assert(self.nodes@.drop_last() =~= g0);
                    assert forall|j: int| 0 <= j < g0.len() implies #[trigger] self.nodes@.drop_last()[j]
                        == g0[j] by {}
                    assert(self.holds(id)) by {
                        assert(self.nodes@[self.nodes@.len() - 1].id == id);
                    }
                    assert(linked_into(*old(self), *self, id, level, m, m_max, ef_construction));
                }
                return Ok(());
            },
        };
        if self.get_node(ep).is_none() {
            return Err(IndexError::VectorNotFound(ep));
        }
        let ep_layer = self.max_layer;
        let mut curr = ep;
        let mut lc = ep_layer;
        while lc > level
            invariant
                self.wf(),
                self.nodes@ == g0,
                g0 == old(self).nodes@,
                old(self).entry_point == Some(ep),
                old(self).max_layer == ep_layer,
                self.entry_point == Some(ep),
                self.max_layer == ep_layer,
                forall|x: u64| dist.requires((x,)),
                self.holds(curr) || curr == ep,
                self.holds(ep),
            decreases lc,
        {
            let results = self.search_layer(dist, curr, 1, lc)?;
            if results.len() > 0 {
                proof {
                    assert(self.scored_result(dist, lc as int, curr, results@[0]));
                }
                curr = results[0].0;
            }
            lc -= 1;
        }
        let top = if level < ep_layer {
            level
        } else {
            ep_layer
        };
        let mut lcp = top + 1;
        while lcp > 0
            invariant
                self.wf(),
                !self.holds(id),
                forall|x: u64| dist.requires((x,)),
                forall|a: u64, b: u64| between.requires((a, b)),
                self.entry_point == Some(ep),
                self.max_layer == ep_layer,
                gained_only(g0, self.nodes@, id),
                node.id == id,
                node.max_layer == level,
                !node.tombstone,
                node.neighbors@.len() == level + 1,
                self.links_ok(node, m, m_max),
                gains_reciprocated(g0, self.nodes@, node),
                forall|l: int| l < lcp ==> #[trigger] links(node, l).len() == 0,
                self.holds(curr) || (curr == ep && self.nodes@ == g0),
                g0 == old(self).nodes@,
                old(self).entry_point == Some(ep),
                old(self).max_layer == ep_layer,
                lcp <= top + 1,
                top <= level,
                top <= ep_layer,
                self.holds(ep),
                lw == lists_within(g0, m, m_max),
                lw ==> lists_within(self.nodes@, m, m_max),
                forall|l: int, x: u64|
                    #[trigger] links(node, l).contains(x) ==> links_back(self.nodes@, x, id, l, m, m_max),
                forall|l: int|
                    lcp <= l <= top && max_links(l, m, m_max) >= 1 && ef_construction >= 1
                        ==> #[trigger] links(node, l).len() >= 1,
                h0 == *old(self),
                forall|l: int|
                    lcp <= l <= top ==> #[trigger] layer_chosen(
                        h0,
                        node,
                        id,
                        l,
                        dist,
                        between,
                        m,
                        m_max,
                        ef_construction,
                    ),
            decreases lcp,
        {
            let lc = lcp - 1;
            let ghost g_l = *self;
            let candidates = self.search_layer(dist, curr, ef_construction, lc)?;
            let max_conn = if lc == 0 {
                m_max
            } else {
                m
            };
            let selected = self.select_neighbors(between, &candidates, max_conn);
            proof {
                assert(g_l.beam_ok(dist, curr, ef_construction, lc, candidates@));
                assert(g_l.selection_ok(between, candidates@, max_conn, selected@));
                let idx = choose|idx: Seq<int>| #[trigger] subsequence_via(selected@, candidates@, idx);
                lemma_subsequence_distinct(selected@, candidates@, idx);
                assert(links(node, lc as int) =~= ids_of(selected@.take(0)));
                assert forall|i: int| 0 <= i < selected@.len() implies self.holds(#[trigger] selected@[i].0) by {
                    assert(selected@[i] == candidates@[idx[i]]);
                    assert(self.scored_result(dist, lc as int, curr, candidates@[idx[i]]));
                }
            }
            assert(ef_construction >= 1 ==> candidates@.len() >= 1);
            assert(ef_construction >= 1 && max_conn >= 1 ==> selected@.len() >= 1);
            let next = if candidates.len() > 0 {
                proof {
                    assert(self.scored_result(dist, lc as int, curr, candidates@[0]));
                }
                candidates[0].0
            } else {
                curr
            };
            let mut s: usize = 0;
            while s < selected.len()
                invariant
                    self.wf(),
                    !self.holds(id),
                    self.entry_point == Some(ep),
                    self.max_layer == ep_layer,
                    gained_only(g0, self.nodes@, id),
                    node.id == id,
                    node.max_layer == level,
                    !node.tombstone,
                    node.neighbors@.len() == level + 1,
                    self.links_ok(node, m, m_max),
                    max_conn == max_links(lc as int, m, m_max),
                    gains_reciprocated(g0, self.nodes@, node),
                    links(node, lc as int).len() <= s,
                    forall|l: int| l < lc ==> #[trigger] links(node, l).len() == 0,
                    selected@.len() <= max_conn,
                    lc <= level,
                    s <= selected@.len(),
                    self.holds(ep),
                    forall|l: int|
                        lc < l <= top && max_links(l, m, m_max) >= 1 && ef_construction >= 1
                            ==> #[trigger] links(node, l).len() >= 1,
                    s >= 1 && max_conn >= 1 && selected@.len() >= 1 ==> links(node, lc as int).len() >= 1,
                    lcp == lc + 1,
                    lc <= top,
                    h0 == *old(self),
                    forall|l: int|
                        lc < l <= top ==> #[trigger] layer_chosen(
                            h0,
                            node,
                            id,
                            l,
                            dist,
                            between,
                            m,
                            m_max,
                            ef_construction,
                        ),
                    links(node, lc as int) == ids_of(selected@.take(s as int)),
                    ids_distinct(selected@),
                    lw ==> lists_within(self.nodes@, m, m_max),
                    forall|l: int, x: u64|
                        #[trigger] links(node, l).contains(x) ==> links_back(self.nodes@, x, id, l, m, m_max),
                    self.holds(curr),
                    self.holds(next),
                    forall|i: int| 0 <= i < selected@.len() ==> self.holds(#[trigger] selected@[i].0),
                decreases selected@.len() - s,
            {
                let nid = selected[s].0;
                if nid != id {
                    let ghost n0 = node;
                    node.add_neighbor(lc, nid, max_conn);
                    proof {
                        assert(!links(n0, lc as int).contains(nid)) by {
                            if links(n0, lc as int).contains(nid) {
                                let w = choose|w: int| 0 <= w < links(n0, lc as int).len() && links(n0, lc as int)[w] == nid;
                                assert(ids_of(selected@.take(s as int))[w] == selected@[w].0);
                                assert(selected@[s as int].0 == nid);
                            }
                        }
                        assert(links(node, lc as int) =~= ids_of(selected@.take(s + 1)));
                        assert forall|l: int| lc < l <= top implies #[trigger] layer_chosen(
                            h0,
                            node,
                            id,
                            l,
                            dist,
                            between,
                            m,
                            m_max,
                            ef_construction,
                        ) by {
                            lemma_layer_chosen_same_links(h0, n0, node, id, l, dist, between, m, m_max, ef_construction);
                        }
                        assert(links(node, lc as int).contains(nid)) by {
                            if links(node, lc as int) != links(n0, lc as int) {
                                assert(links(node, lc as int)[links(node, lc as int).len() - 1] == nid);
                            }
                        }
                        lemma_reciprocated_node_grows(g0, self.nodes@, n0, node, lc as int, nid);
                        assert forall|l: int, x: u64| #[trigger] links(node, l).contains(x) implies self.holds(x)
                            && x != node.id by {
                            if l == lc && links(node, l) != links(n0, l) {
                                if links(n0, l).contains(x) {
                                } else {
                                    assert(links(node, l).last() == x) by {
                                        let w = choose|w: int| 0 <= w < links(node, l).len() && links(node, l)[w] == x;
                                        if w < links(n0, l).len() {
                                            assert(links(n0, l)[w] == x);
                                        }
                                    }
                                }
                            } else {
                                assert(links(node, l) == links(n0, l));
                            }
                        }
                        assert forall|l: int| no_duplicates(#[trigger] links(node, l)) by {
                            if l == lc && links(node, l) != links(n0, l) {
                                assert(no_duplicates(links(n0, l)));
                                assert(!links(n0, l).contains(nid));
                            } else {
                                assert(links(node, l) == links(n0, l));
                            }
                        }
                        assert forall|l: int| #[trigger] links(node, l).len() <= max_links(l, m, m_max) by {
                            if l == lc && links(node, l) != links(n0, l) {
                            } else {
                                assert(links(node, l) == links(n0, l));
                            }
                        }
                    }
                    let ghost s0 = self.nodes@;
                    let added = self.add_neighbor(nid, lc, id, max_conn);
                    proof {
                        lemma_link_back_step(s0, self.nodes@, nid, lc as int, id, m, m_max, added);
                        assert forall|l: int, x: u64|
                            #[trigger] links(node, l).contains(x) implies links_back(self.nodes@, x, id, l, m, m_max) by {
                            if !(l == lc && x == nid) {
                                if links(node, l) != links(n0, l) {
                                    let w = choose|w: int| 0 <= w < links(node, l).len() && links(node, l)[w] == x;
                                    assert(links(node, l) == links(n0, l).push(nid));
                                    assert(links(n0, l)[w] == x);
                                }
                                assert(links(n0, l).contains(x));
                                assert(links_back(s0, x, id, l, m, m_max));
                            }
                        }
                        if lw {
                            lemma_add_link_keeps_lists(s0, self.nodes@, nid, lc as int, id, m, m_max);
                        }
                        lemma_reciprocated_link_added(g0, s0, self.nodes@, node, nid, lc as int);
                        assert forall|x: u64| #[trigger] self.holds(x) == (exists|k: int| 0 <= k < s0.len() && s0[k].id == x) by {
                            if self.holds(x) {
                                let k = choose|k: int| 0 <= k < self.nodes@.len() && (#[trigger] self.nodes@[k]).id == x;
                                assert(s0[k].id == x);
                            }
                            if exists|k: int| 0 <= k < s0.len() && s0[k].id == x {
                                let k = choose|k: int| 0 <= k < s0.len() && s0[k].id == x;
                                assert(self.nodes@[k].id == x);
                            }
                        }
                        assert forall|j: int| 0 <= j < g0.len() implies {
                            let b = g0[j];
                            let a = #[trigger] self.nodes@[j];
                            &&& a.id == b.id
                            &&& a.max_layer == b.max_layer
                            &&& a.tombstone == b.tombstone
                            &&& a.neighbors@.len() == b.neighbors@.len()
                            &&& forall|l: int|
                                #![trigger links(a, l)]
                                links(a, l) == links(b, l) || links(a, l) == links(b, l).push(id)
                        } by {
                            let mid = s0[j];
                            assert forall|l: int| #![trigger links(self.nodes@[j], l)]
                                links(self.nodes@[j], l) == links(g0[j], l) || links(self.nodes@[j], l) == links(g0[j], l).push(id) by {
                                assert(links(mid, l) == links(g0[j], l) || links(mid, l) == links(g0[j], l).push(id));
                                if links(mid, l) == links(g0[j], l).push(id) {
                                    assert(links(mid, l).contains(id)) by {
                                        assert(links(mid, l)[links(mid, l).len() - 1] == id);
                                    }
                                }
                            }
                        }
                    }
                }
                s += 1;
            }
            proof {
                assert(selected@.take(selected@.len() as int) =~= selected@);
                assert(links(node, lc as int) == ids_of(selected@));
                assert(max_conn == max_links(lc as int, m, m_max) as usize);
                assert(gained_only(h0.nodes@, g_l.nodes@, id));
                assert(layer_chosen(h0, node, id, lc as int, dist, between, m, m_max, ef_construction));
            }
            curr = next;
            lcp -= 1;
        }
        if level > self.max_layer {
            self.set_entry_point(id, level);
        }
        let ghost before_insert = self.nodes@;
        self.insert_node(node);
        proof {
            assert forall|l: int, x: u64| #[trigger] links(node, l).contains(x) implies links_back(
                self.nodes@,
                x,
                id,
                l,
                m,
                m_max,
            ) by {
                lemma_links_back_push(before_insert, node, x, id, l, m, m_max);
            }
            if lw {
                assert forall|l: int|
                    no_duplicates(#[trigger] links(node, l)) && !links(node, l).contains(node.id) && links(
                        node,
                        l,
                    ).len() <= max_links(l, m, m_max) by {}
                lemma_push_keeps_lists(before_insert, node, m, m_max);
            }
            assert(self.nodes@.drop_last() =~= before_insert);
            assert forall|l: int, x: u64| #[trigger] links(node, l).contains(x) implies self.holds(x) by {
                let k = choose|k: int| 0 <= k < before_insert.len() && (#[trigger] before_insert[k]).id == x;
                assert(self.nodes@[k].id == x);
            }
        }
        proof {
            assert(linked_into(*old(self), *self, id, level, m, m_max, ef_construction));
        }
        Ok(())
    }

    /// Inserts a node with top layer `level` (see `link_new_node`), first
    /// removing any node with the same ID.
    pub fn insert<F: Fn(u64) -> u32 + Copy, G: Fn(u64, u64) -> u32 + Copy>(
        &mut self,
        id: u64,
        level: usize,
        dist: F,
        between: G,
        m: usize,
        m_max: usize,
        ef_construction: usize,
    ) -> (r: Result<(), IndexError>)
        requires
            old(self).wf(),
            level < usize::MAX,
            forall|x: u64| dist.requires((x,)),
            forall|a: u64, b: u64| between.requires((a, b)),
        ensures
            final(self).wf(),
            lists_within(old(self).nodes@, m, m_max) ==> lists_within(final(self).nodes@, m, m_max),
            old(self).graph_ok(m, m_max) ==> r is Ok && final(self).graph_ok(m, m_max),
            old(self).entry_point is None ==> r is Ok,
            old(self).entry_point matches Some(ep) && old(self).holds(ep) ==> r is Ok,
            r is Ok ==> {
                let n = final(self).nodes@.last();
                &&& final(self).holds(id)
                &&& n.id == id && n.max_layer == level && !n.tombstone
                &&& final(self).links_ok(n, m, m_max)
                &&& final(self).nodes@.len() == old(self).nodes@.len() + if old(self).holds(id) {
                    0int
                } else {
                    1int
                }
                &&& forall|x: u64| #[trigger] final(self).holds(x) <==> old(self).holds(x) || x == id
                &&& final(self).entry_point matches Some(e) && final(self).holds(e)
                &&& !old(self).holds(id) ==> linked_into(
                    *old(self),
                    *final(self),
                    id,
                    level,
                    m,
                    m_max,
                    ef_construction,
                )
                &&& !old(self).holds(id) && old(self).entry_point is Some ==> forall|l: int|
                    0 <= l <= level && l <= old(self).max_layer ==> #[trigger] layer_chosen(
                        *old(self),
                        n,
                        id,
                        l,
                        dist,
                        between,
                        m,
                        m_max,
                        ef_construction,
                    )
                &&& old(self).holds(id) ==> exists|mid: HnswLinks|
                    removed_from(*old(self), mid, id) && #[trigger] linked_into(
                        mid,
                        *final(self),
                        id,
                        level,
                        m,
                        m_max,
                        ef_construction,
                    ) && (mid.entry_point is Some ==> forall|l: int|
                        0 <= l <= level && l <= mid.max_layer ==> #[trigger] layer_chosen(
                            mid,
                            n,
                            id,
                            l,
                            dist,
                            between,
                            m,
                            m_max,
                            ef_construction,
                        ))
            },
    {
        let ghost g0 = *self;
        if self.get_node(id).is_some() {
            self.remove(id)?;
        }
        let ghost mid = *self;
        proof {
            if g0.holds(id) {
                assert(removed_from(g0, mid, id));
                lemma_removed_ids(g0, mid, id);
                if lists_within(g0.nodes@, m, m_max) {
                    lemma_remove_keeps_lists(g0, mid, id, m, m_max);
                }
                if g0.graph_ok(m, m_max) {
                    lemma_remove_keeps_graph_ok(g0, mid, id, m, m_max);
                }
                if g0.entry_point is Some {
                    let ep = g0.entry_point->0;
                    if ep != id && g0.holds(ep) {
                        assert(mid.holds(ep));
                    }
                    if ep == id && mid.nodes@.len() > 0 {
                        let e = mid.entry_point->0;
                        let q = choose|q: int| 0 <= q < mid.nodes@.len() && (#[trigger] mid.nodes@[q]).id == e
                            && mid.nodes@[q].max_layer == mid.max_layer;
                        assert(mid.holds(e));
                    }
                }
            } else {
                assert(mid == g0);
            }
        }
        let r = self.link_new_node(id, level, dist, between, m, m_max, ef_construction);
        proof {
            if r is Ok {
                assert(self.nodes@[self.nodes@.len() - 1].id == id);
                assert(linked_into(mid, *self, id, level, m, m_max, ef_construction));
                lemma_linked_ids(mid, *self, id, level, m, m_max, ef_construction);
                if g0.graph_ok(m, m_max) {
                    lemma_link_keeps_graph_ok(mid, *self, id, level, m, m_max, ef_construction);
                }
            }
            if g0.graph_ok(m, m_max) && mid.entry_point is Some {
                let e = mid.entry_point->0;
                let q = choose|q: int| 0 <= q < mid.nodes@.len() && (#[trigger] mid.nodes@[q]).id == e
                    && mid.nodes@[q].max_layer == mid.max_layer;
                assert(mid.holds(e));
            }
        }
        r
    }
}

} // verus!