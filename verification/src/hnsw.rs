//! The link structure of an HNSW graph: its nodes, their per-layer
//! neighbor lists, tombstones, and the entry point. Distances and the
//! searches that use them are computed by the caller.

use vstd::prelude::*;
use crate::error::IndexError;

verus! {

/// A node of the HNSW graph: its ID, its top layer, one neighbor list per
/// layer from 0 up, and whether it is soft-deleted.
#[derive(Debug)]
pub struct HnswNode {
    /// Node identifier (the vector's ID).
    pub id: u64,
    /// The highest layer this node belongs to.
    pub max_layer: usize,
    /// Adjacency lists, one per layer.
    pub neighbors: Vec<Vec<u64>>,
    /// Whether this node is soft-deleted.
    pub tombstone: bool,
}

/// The neighbor list of a node at a layer; empty past its last layer.
pub open spec fn links(n: HnswNode, layer: int) -> Seq<u64> {
    if 0 <= layer < n.neighbors@.len() {
        n.neighbors@[layer]@
    } else {
        Seq::empty()
    }
}

/// No neighbor occurs twice in a list.
pub open spec fn no_duplicates(s: Seq<u64>) -> bool {
    forall|i: int, j: int| 0 <= i < j < s.len() ==> s[i] != s[j]
}

impl HnswNode {
    /// A node with the given ID and top layer and empty neighbor lists for
    /// layers 0 to `level`.
    pub fn new(id: u64, level: usize) -> (r: Self)
        requires
            level < usize::MAX,
        ensures
            r.id == id,
            r.max_layer == level,
            r.neighbors@.len() == level + 1,
            forall|l: int| 0 <= l <= level ==> links(r, l).len() == 0,
            !r.tombstone,
    {
        let mut neighbors: Vec<Vec<u64>> = Vec::new();
        let mut i: usize = 0;
        while i <= level
            invariant
                i <= level + 1,
                level < usize::MAX,
                neighbors@.len() == i,
                forall|l: int| 0 <= l < i ==> (#[trigger] neighbors@[l])@.len() == 0,
            decreases level + 1 - i,
        {
            neighbors.push(Vec::new());
            i += 1;
        }
        HnswNode { id, max_layer: level, neighbors, tombstone: false }
    }

    /// The neighbor list at a layer; empty past the node's last layer.
    pub fn neighbors_at(&self, layer: usize) -> (r: &[u64])
        ensures
            r@ == links(*self, layer as int),
    {
        if layer < self.neighbors.len() {
            self.neighbors[layer].as_slice()
        } else {
            &[]
        }
    }

    /// Adds a neighbor at a layer unless the layer does not exist, the
    /// neighbor is listed already, or the list holds `max_connections`
    /// neighbors. Returns whether it was added.
    pub fn add_neighbor(&mut self, layer: usize, neighbor_id: u64, max_connections: usize) -> (r: bool)
        ensures
            r == (layer < old(self).neighbors@.len() && !links(*old(self), layer as int).contains(
                neighbor_id,
            ) && links(*old(self), layer as int).len() < max_connections),
            final(self).id == old(self).id,
            final(self).max_layer == old(self).max_layer,
            final(self).tombstone == old(self).tombstone,
            final(self).neighbors@.len() == old(self).neighbors@.len(),
            forall|l: int| l != layer ==> links(*final(self), l) == links(*old(self), l),
            r ==> links(*final(self), layer as int) == links(*old(self), layer as int).push(neighbor_id),
            !r ==> links(*final(self), layer as int) == links(*old(self), layer as int),
    {
        if layer >= self.neighbors.len() {
            return false;
        }
        let mut list = self.neighbors.remove(layer);
        let ghost l0 = list@;
        let mut found = false;
        let mut i: usize = 0;
        while i < list.len()
            invariant
                list@ == l0,
                i <= list@.len(),
                found == exists|j: int| 0 <= j < i && list@[j] == neighbor_id,
            decreases list@.len() - i,
        {
            if list[i] == neighbor_id {
                found = true;
            }
            i += 1;
        }
        let added = !found && list.len() < max_connections;
        if added {
            list.push(neighbor_id);
        }
        let ghost l1 = list@;
        self.neighbors.insert(layer, list);
        proof {
            assert(self.neighbors@[layer as int]@ == l1);
            assert forall|l: int| l != layer implies links(*self, l) == links(*old(self), l) by {
                if 0 <= l < self.neighbors@.len() {
                    if l < layer {
                        assert(self.neighbors@[l] == old(self).neighbors@[l]);
                    } else {
                        assert(self.neighbors@[l] == old(self).neighbors@[l]);
                    }
                }
            }
            assert(l0.contains(neighbor_id) == found);
        }
        added
    }

    /// Removes every occurrence of a neighbor at a layer.
    pub fn remove_neighbor(&mut self, layer: usize, neighbor_id: u64)
        ensures
            final(self).id == old(self).id,
            final(self).max_layer == old(self).max_layer,
            final(self).tombstone == old(self).tombstone,
            final(self).neighbors@.len() == old(self).neighbors@.len(),
            forall|l: int| l != layer ==> links(*final(self), l) == links(*old(self), l),
            links(*final(self), layer as int) == without(links(*old(self), layer as int), neighbor_id),
    {
        if layer < self.neighbors.len() {
            let list = self.neighbors.remove(layer);
            let ghost l0 = list@;
            let mut kept: Vec<u64> = Vec::new();
            let mut i: usize = 0;
            while i < list.len()
                invariant
                    list@ == l0,
                    i <= list@.len(),
                    kept@ == without(l0.take(i as int), neighbor_id),
                decreases list@.len() - i,
            {
                proof {
                    reveal_with_fuel(Seq::<_>::filter, 1);
                    assert(l0.take(i + 1).drop_last() =~= l0.take(i as int));
                }
                if list[i] != neighbor_id {
                    kept.push(list[i]);
                }
                i += 1;
            }
            proof {
                assert(l0.take(list@.len() as int) =~= l0);
            }
            self.neighbors.insert(layer, kept);
            proof {
                assert forall|l: int| l != layer implies links(*self, l) == links(*old(self), l) by {
                    if 0 <= l < self.neighbors@.len() {
                        assert(self.neighbors@[l] == old(self).neighbors@[l]);
                    }
                }
            }
        } else {
            proof {
                reveal_with_fuel(Seq::<_>::filter, 1);
                assert(without(links(*old(self), layer as int), neighbor_id) =~= Seq::<u64>::empty());
            }
        }
    }

    /// Marks this node as deleted.
    pub fn mark_deleted(&mut self)
        ensures
            final(self).id == old(self).id,
            final(self).max_layer == old(self).max_layer,
            final(self).neighbors == old(self).neighbors,
            final(self).tombstone,
    {
        self.tombstone = true;
    }

    /// Whether this node is not deleted.
    pub fn is_active(&self) -> (r: bool)
        ensures
            r == !self.tombstone,
    {
        !self.tombstone
    }
}

/// Adding a neighbor keeps a list free of duplicates and within the
/// connection bound, if it was before.
pub proof fn lemma_add_neighbor_keeps_list_well_formed(
    before: Seq<u64>,
    neighbor_id: u64,
    max_connections: usize,
)
    requires
        no_duplicates(before),
        before.len() <= max_connections,
    ensures
        ({
            let added = !before.contains(neighbor_id) && before.len() < max_connections;
            let after = if added {
                before.push(neighbor_id)
            } else {
                before
            };
            no_duplicates(after) && after.len() <= max_connections
        }),
{
    let added = !before.contains(neighbor_id) && before.len() < max_connections;
    if added {
        let after = before.push(neighbor_id);
        assert forall|i: int, j: int| 0 <= i < j < after.len() implies after[i] != after[j] by {
            if j == before.len() {
                assert(before[i] == after[i]);
            }
        }
    }
}

/// Removing `id` from a list.
pub open spec fn without(s: Seq<u64>, id: u64) -> Seq<u64> {
    s.filter(|x: u64| x != id)
}

/// Removing an ID twice removes no more than removing it once.
pub proof fn lemma_without_idempotent(s: Seq<u64>, id: u64)
    ensures
        without(without(s, id), id) == without(s, id),
    decreases s.len(),
{
    reveal_with_fuel(Seq::<_>::filter, 2);
    if s.len() > 0 {
        lemma_without_idempotent(s.drop_last(), id);
        let f = without(s.drop_last(), id);
        if s.last() != id {
            assert(without(s, id) == f.push(s.last()));
            assert(f.push(s.last()).drop_last() =~= f);
        }
    }
}

/// The neighbor lists of a node after the node `rm` was removed from the
/// graph: at every layer up to `rm`'s top layer where `rm` lists the node,
/// the node no longer lists `rm`; everything else is as it was.
pub open spec fn unlinked(rm: HnswNode, before: HnswNode, after: HnswNode) -> bool {
    &&& after.id == before.id
    &&& after.max_layer == before.max_layer
    &&& after.tombstone == before.tombstone
    &&& after.neighbors@.len() == before.neighbors@.len()
    &&& forall|l: int|
        #![trigger links(after, l)]
        links(after, l) == if 0 <= l <= rm.max_layer && links(rm, l).contains(before.id) {
            without(links(before, l), rm.id)
        } else {
            links(before, l)
        }
}

/// The link structure of an HNSW graph.
#[derive(Debug)]
pub struct HnswLinks {
    /// The nodes, at most one per ID.
    pub nodes: Vec<HnswNode>,
    /// The entry point for searches, if the graph has nodes.
    pub entry_point: Option<u64>,
    /// The highest layer in the graph.
    pub max_layer: usize,
}

/// The node with this ID in a list of nodes with distinct IDs.
pub open spec fn node_of(nodes: Seq<HnswNode>, id: u64) -> HnswNode {
    nodes[choose|k: int| 0 <= k < nodes.len() && (#[trigger] nodes[k]).id == id]
}

/// The highest top layer among the nodes (0 when there are none).
pub open spec fn highest_layer(nodes: Seq<HnswNode>) -> usize
    decreases nodes.len(),
{
    if nodes.len() == 0 {
        0
    } else {
        let rest = highest_layer(nodes.drop_last());
        if nodes.last().max_layer > rest {
            nodes.last().max_layer
        } else {
            rest
        }
    }
}

/// No node is above `highest_layer`, and a non-empty list has a node on it.
pub proof fn lemma_highest_layer(nodes: Seq<HnswNode>)
    ensures
        forall|j: int| 0 <= j < nodes.len() ==> (#[trigger] nodes[j]).max_layer <= highest_layer(nodes),
        nodes.len() > 0 ==> exists|j: int|
            0 <= j < nodes.len() && (#[trigger] nodes[j]).max_layer == highest_layer(nodes),
    decreases nodes.len(),
{
    if nodes.len() > 0 {
        let p = nodes.drop_last();
        lemma_highest_layer(p);
        assert forall|j: int| 0 <= j < nodes.len() implies (#[trigger] nodes[j]).max_layer <= highest_layer(
            nodes,
        ) by {
            if j < p.len() {
                assert(nodes[j] == p[j]);
            }
        }
        if nodes.last().max_layer > highest_layer(p) || p.len() == 0 {
            assert(nodes[nodes.len() - 1].max_layer == highest_layer(nodes)) by {
                if p.len() == 0 {
                    assert(highest_layer(p) == 0);
                }
            }
        } else {
            let j = choose|j: int| 0 <= j < p.len() && (#[trigger] p[j]).max_layer == highest_layer(p);
            assert(nodes[j] == p[j]);
        }
    }
}

/// The number of nodes that are not soft-deleted.
pub open spec fn active_count(nodes: Seq<HnswNode>) -> nat
    decreases nodes.len(),
{
    if nodes.len() == 0 {
        0
    } else {
        active_count(nodes.drop_last()) + if nodes.last().tombstone {
            0nat
        } else {
            1nat
        }
    }
}

impl HnswLinks {
    /// No two nodes share an ID.
    pub open spec fn wf(&self) -> bool {
        forall|i: int, j: int|
            0 <= i < j < self.nodes@.len() ==> (#[trigger] self.nodes@[i]).id
                != (#[trigger] self.nodes@[j]).id
    }

    /// Whether the graph has a node with this ID.
    pub open spec fn holds(&self, id: u64) -> bool {
        exists|k: int| 0 <= k < self.nodes@.len() && (#[trigger] self.nodes@[k]).id == id
    }

    /// The entry point is on the top layer: absent exactly when the graph
    /// is empty, else a node whose top layer is `max_layer`, the highest
    /// top layer of any node.
    pub open spec fn top_entry(&self) -> bool {
        &&& self.max_layer == highest_layer(self.nodes@)
        &&& self.nodes@.len() == 0 <==> self.entry_point is None
        &&& self.entry_point matches Some(e) ==> exists|k: int|
            0 <= k < self.nodes@.len() && (#[trigger] self.nodes@[k]).id == e && self.nodes@[k].max_layer
                == self.max_layer
    }

    /// Whether the graph has a node with this ID that is not marked deleted.
    pub open spec fn active(&self, id: u64) -> bool {
        exists|k: int|
            0 <= k < self.nodes@.len() && (#[trigger] self.nodes@[k]).id == id && !self.nodes@[k].tombstone
    }

    /// An empty graph.
    pub fn new() -> (r: Self)
        ensures
            r.wf(),
            r.nodes@.len() == 0,
            r.entry_point is None,
            r.max_layer == 0,
    {
        HnswLinks { nodes: Vec::new(), entry_point: None, max_layer: 0 }
    }

    /// The position of the node with this ID, if any.
    pub fn find(&self, id: u64) -> (r: Option<usize>)
        ensures
            r matches Some(k) ==> k < self.nodes@.len() && self.nodes@[k as int].id == id,
            r is None ==> !self.holds(id),
    {
        let n = self.nodes.len();
        let mut i: usize = 0;
        while i < n
            invariant
                n == self.nodes@.len(),
                i <= n,
                forall|j: int| 0 <= j < i ==> (#[trigger] self.nodes@[j]).id != id,
            decreases n - i,
        {
            if self.nodes[i].id == id {
                return Some(i);
            }
            i += 1;
        }
        None
    }

    /// The node with this ID, if any.
    pub fn get_node(&self, id: u64) -> (r: Option<&HnswNode>)
        ensures
            r matches Some(n) ==> n.id == id && self.nodes@.contains(*n),
            r is None ==> !self.holds(id),
    {
        match self.find(id) {
            Some(k) => Some(&self.nodes[k]),
            None => None,
        }
    }

    /// The total number of nodes, soft-deleted ones included.
    pub fn total_nodes(&self) -> (r: usize)
        ensures
            r == self.nodes@.len(),
    {
        self.nodes.len()
    }

    /// The number of nodes that are not soft-deleted.
    pub fn len(&self) -> (r: usize)
        ensures
            r == active_count(self.nodes@),
    {
        let n = self.nodes.len();
        let mut count: usize = 0;
        let mut i: usize = 0;
        while i < n
            invariant
                n == self.nodes@.len(),
                i <= n,
                count == active_count(self.nodes@.take(i as int)),
                count <= i,
            decreases n - i,
        {
            proof {
                assert(self.nodes@.take(i + 1).drop_last() =~= self.nodes@.take(i as int));
            }
            if self.nodes[i].is_active() {
                count += 1;
            }
            i += 1;
        }
        proof {
            assert(self.nodes@.take(n as int) =~= self.nodes@);
        }
        count
    }

    /// Whether every node is soft-deleted (or there are none).
    pub fn is_empty(&self) -> (r: bool)
        ensures
            r == (active_count(self.nodes@) == 0),
    {
        self.len() == 0
    }

    /// The entry point and the graph's top layer.
    pub fn entry_point(&self) -> (r: Option<(u64, usize)>)
        ensures
            r == match self.entry_point {
                Some(id) => Some((id, self.max_layer)),
                None => None::<(u64, usize)>,
            },
    {
        match self.entry_point {
            Some(id) => Some((id, self.max_layer)),
            None => None,
        }
    }

    /// Adds a node whose ID is not in the graph yet.
    pub fn insert_node(&mut self, node: HnswNode)
        requires
            old(self).wf(),
            !old(self).holds(node.id),
        ensures
            final(self).wf(),
            final(self).nodes@ == old(self).nodes@.push(node),
            final(self).entry_point == old(self).entry_point,
            final(self).max_layer == old(self).max_layer,
    {
        let ghost n0 = self.nodes@;
        self.nodes.push(node);
        proof {
            assert forall|a: int, b: int|
                0 <= a < b < self.nodes@.len() implies (#[trigger] self.nodes@[a]).id
                    != (#[trigger] self.nodes@[b]).id by {
                if b == n0.len() {
                    assert(self.nodes@[a] == n0[a]);
                } else {
                    assert(n0[a].id != n0[b].id);
                }
            }
        }
    }

    /// Makes a node the entry point, at the given top layer.
    pub fn set_entry_point(&mut self, id: u64, layer: usize)
        ensures
            final(self).nodes == old(self).nodes,
            final(self).entry_point == Some(id),
            final(self).max_layer == layer,
    {
        self.entry_point = Some(id);
        self.max_layer = layer;
    }

    /// Adds a neighbor to the node with ID `id` at a layer (see
    /// `HnswNode::add_neighbor`); false when the graph has no such node.
    pub fn add_neighbor(&mut self, id: u64, layer: usize, neighbor_id: u64, max_connections: usize) -> (r: bool)
        requires
            old(self).wf(),
        ensures
            final(self).wf(),
            final(self).entry_point == old(self).entry_point,
            final(self).max_layer == old(self).max_layer,
            final(self).nodes@.len() == old(self).nodes@.len(),
            !old(self).holds(id) ==> !r && final(self).nodes@ == old(self).nodes@,
            forall|j: int|
                0 <= j < old(self).nodes@.len() ==> {
                    let before = old(self).nodes@[j];
                    let after = #[trigger] final(self).nodes@[j];
                    &&& after.id == before.id
                    &&& after.max_layer == before.max_layer
                    &&& after.tombstone == before.tombstone
                    &&& after.neighbors@.len() == before.neighbors@.len()
                    &&& before.id != id ==> after == before
                    &&& before.id == id ==> {
                        &&& r == (layer < before.neighbors@.len() && !links(before, layer as int).contains(
                            neighbor_id,
                        ) && links(before, layer as int).len() < max_connections)
                        &&& forall|l: int| #![trigger links(after, l)] links(after, l) == if r && l == layer {
                            links(before, l).push(neighbor_id)
                        } else {
                            links(before, l)
                        }
                    }
                },
    {
        let ghost n0 = self.nodes@;
        match self.find(id) {
            None => false,
            Some(k) => {
                let mut node = self.nodes.remove(k);
                let added = node.add_neighbor(layer, neighbor_id, max_connections);
                self.nodes.insert(k, node);
                proof {
                    assert(self.nodes@ =~= n0.update(k as int, node));
                    assert forall|a: int, b: int|
                        0 <= a < b < self.nodes@.len() implies (#[trigger] self.nodes@[a]).id
                            != (#[trigger] self.nodes@[b]).id by {
                        assert(n0[a].id != n0[b].id);
                    }
                    assert forall|j: int| 0 <= j < n0.len() && j != k implies (#[trigger] n0[j]).id
                        != id by {
                        if j < k {
                            assert(n0[j].id != n0[k as int].id);
                        } else {
                            assert(n0[k as int].id != n0[j].id);
                        }
                    }
                }
                added
            },
        }
    }

    /// Marks a node as deleted without unlinking it.
    pub fn soft_delete(&mut self, id: u64) -> (r: Result<(), IndexError>)
        requires
            old(self).wf(),
        ensures
            final(self).wf(),
            !old(self).holds(id) ==> r == Err::<(), IndexError>(IndexError::VectorNotFound(id))
                && *final(self) == *old(self),
            old(self).holds(id) ==> r is Ok && final(self).entry_point == old(self).entry_point
                && final(self).max_layer == old(self).max_layer && final(self).nodes@.len()
                == old(self).nodes@.len() && forall|k: int|
                0 <= k < old(self).nodes@.len() ==> {
                    let before = #[trigger] old(self).nodes@[k];
                    let after = final(self).nodes@[k];
                    &&& after.id == before.id
                    &&& after.max_layer == before.max_layer
                    &&& after.neighbors == before.neighbors
                    &&& after.tombstone == (before.tombstone || before.id == id)
                },
    {
        let ghost n0 = self.nodes@;
        match self.find(id) {
            None => Err(IndexError::VectorNotFound(id)),
            Some(k) => {
                let mut node = self.nodes.remove(k);
                node.mark_deleted();
                self.nodes.insert(k, node);
                proof {
                    assert(self.nodes@ =~= n0.update(k as int, node));
                    assert forall|a: int, b: int|
                        0 <= a < b < self.nodes@.len() implies (#[trigger] self.nodes@[a]).id
                            != (#[trigger] self.nodes@[b]).id by {
                        assert(n0[a].id != n0[b].id);
                    }
                    assert forall|j: int| 0 <= j < n0.len() && (#[trigger] n0[j]).id == id
                        implies j == k by {
                        if j != k && n0[j].id == id {
                            if j < k {
                                assert(n0[j].id != n0[k as int].id);
                            } else {
                                assert(n0[k as int].id != n0[j].id);
                            }
                        }
                    }
                }
                Ok(())
            },
        }
    }
}

/// The neighbor lists of a node partway through removing `rm`: layers
/// below `layer` are done, and at `layer` the first `m` neighbors of `rm`.
pub open spec fn unlinked_upto(rm: HnswNode, before: HnswNode, after: HnswNode, layer: int, m: int) -> bool {
    &&& after.id == before.id
    &&& after.max_layer == before.max_layer
    &&& after.tombstone == before.tombstone
    &&& after.neighbors@.len() == before.neighbors@.len()
    &&& forall|l: int|
        #![trigger links(after, l)]
        links(after, l) == if (0 <= l < layer && l <= rm.max_layer && links(rm, l).contains(
            before.id,
        )) || (l == layer && links(rm, l).take(m).contains(before.id)) {
            without(links(before, l), rm.id)
        } else {
            links(before, l)
        }
}

/// The position of the node with this ID in a list of nodes.
pub open spec fn index_of(nodes: Seq<HnswNode>, id: u64) -> int {
    choose|k: int| 0 <= k < nodes.len() && (#[trigger] nodes[k]).id == id
}

/// `after` is `before` with node `k` removed, and every other node
/// unlinked from it.
pub open spec fn removed_at(before: Seq<HnswNode>, after: Seq<HnswNode>, k: int) -> bool {
    &&& after.len() == before.len() - 1
    &&& forall|j: int|
        0 <= j < before.len() && j != k ==> unlinked(
            before[k],
            #[trigger] before[j],
            after[if j < k {
                j
            } else {
                j - 1
            }],
        )
}

/// A copy of a list of IDs.
fn copy_ids(s: &[u64]) -> (r: Vec<u64>)
    ensures
        r@ == s@,
{
    let mut out: Vec<u64> = Vec::new();
    let mut i: usize = 0;
    while i < s.len()
        invariant
            i <= s@.len(),
            out@ == s@.take(i as int),
        decreases s@.len() - i,
    {
        out.push(s[i]);
        i += 1;
        assert(out@ =~= s@.take(i as int));
    }
    assert(s@.take(s@.len() as int) =~= s@);
    out
}

impl HnswLinks {
    /// Removes `id` from the neighbor list at `layer` of the node
    /// `neighbor_id`, if the graph has that node.
    fn unlink(&mut self, neighbor_id: u64, layer: usize, id: u64)
        requires
            old(self).wf(),
        ensures
            final(self).wf(),
            final(self).entry_point == old(self).entry_point,
            final(self).max_layer == old(self).max_layer,
            final(self).nodes@.len() == old(self).nodes@.len(),
            forall|j: int|
                0 <= j < old(self).nodes@.len() ==> {
                    let before = old(self).nodes@[j];
                    let after = #[trigger] final(self).nodes@[j];
                    &&& after.id == before.id
                    &&& after.max_layer == before.max_layer
                    &&& after.tombstone == before.tombstone
                    &&& after.neighbors@.len() == before.neighbors@.len()
                    &&& forall|l: int|
                        #![trigger links(after, l)]
                        links(after, l) == if before.id == neighbor_id && l == layer {
                            without(links(before, l), id)
                        } else {
                            links(before, l)
                        }
                },
    {
        let ghost n0 = self.nodes@;
        match self.find(neighbor_id) {
            None => {},
            Some(k) => {
                let mut node = self.nodes.remove(k);
                node.remove_neighbor(layer, id);
                self.nodes.insert(k, node);
                proof {
                    assert(self.nodes@ =~= n0.update(k as int, node));
                    assert forall|a: int, b: int|
                        0 <= a < b < self.nodes@.len() implies (#[trigger] self.nodes@[a]).id
                            != (#[trigger] self.nodes@[b]).id by {
                        assert(n0[a].id != n0[b].id);
                    }
                    assert forall|j: int| 0 <= j < n0.len() && j != k implies (#[trigger] n0[j]).id
                        != neighbor_id by {
                        if j < k {
                            assert(n0[j].id != n0[k as int].id);
                        } else {
                            assert(n0[k as int].id != n0[j].id);
                        }
                    }
                }
            },
        }
    }

    /// The highest top layer among the nodes (0 when there are none).
    fn highest_layer(&self) -> (r: usize)
        ensures
            r == highest_layer(self.nodes@),
    {
        let n = self.nodes.len();
        let mut best: usize = 0;
        let mut i: usize = 0;
        while i < n
            invariant
                n == self.nodes@.len(),
                i <= n,
                best == highest_layer(self.nodes@.take(i as int)),
            decreases n - i,
        {
            proof {
                assert(self.nodes@.take(i + 1).drop_last() =~= self.nodes@.take(i as int));
            }
            if self.nodes[i].max_layer > best {
                best = self.nodes[i].max_layer;
            }
            i += 1;
        }
        proof {
            assert(self.nodes@.take(n as int) =~= self.nodes@);
        }
        best
    }

    /// Removes a node: every node that it lists as a neighbor, at any of
    /// its layers, stops listing it; then the node is dropped. When it was
    /// the entry point, the top layer is recomputed and the first remaining
    /// node on it becomes the entry point. Fails with `VectorNotFound` when
    /// the graph has no node with this ID.
    pub fn remove(&mut self, id: u64) -> (r: Result<(), IndexError>)
        requires
            old(self).wf(),
        ensures
            final(self).wf(),
            !old(self).holds(id) ==> r == Err::<(), IndexError>(IndexError::VectorNotFound(id))
                && *final(self) == *old(self),
            old(self).holds(id) ==> {
                &&& r is Ok
                &&& removed_at(old(self).nodes@, final(self).nodes@, index_of(old(self).nodes@, id))
                &&& !final(self).holds(id)
                &&& old(self).entry_point == Some(id) ==> final(self).top_entry()
                &&& old(self).entry_point != Some(id) ==> final(self).entry_point == old(
                    self,
                ).entry_point && final(self).max_layer == old(self).max_layer
            },
    {
        let ghost n0 = self.nodes@;
        let k0 = match self.find(id) {
            None => {
                return Err(IndexError::VectorNotFound(id));
            },
            Some(k) => k,
        };
        let ghost rm = n0[k0 as int];
        proof {
            assert forall|j: int| 0 <= j < n0.len() && (#[trigger] n0[j]).id == id implies j == k0 by {
                if j != k0 {
                    if j < k0 {
                        assert(n0[j].id != n0[k0 as int].id);
                    } else {
                        assert(n0[k0 as int].id != n0[j].id);
                    }
                }
            }
            assert(index_of(n0, id) == k0);
        }
        let top = self.nodes[k0].max_layer;
        let layer_count = self.nodes[k0].neighbors.len();
        let bound = if top < layer_count {
            top + 1
        } else {
            layer_count
        };
        let mut layer: usize = 0;
        while layer < bound
            invariant
                self.wf(),
                self.entry_point == old(self).entry_point,
                self.max_layer == old(self).max_layer,
                rm == n0[k0 as int],
                rm.id == id,
                k0 < n0.len(),
                top == rm.max_layer,
                layer_count == rm.neighbors@.len(),
                self.nodes@[k0 as int].neighbors@.len() == layer_count,
                bound <= layer_count,
                bound <= top + 1,
                layer <= bound,
                self.nodes@.len() == n0.len(),
                forall|j: int| 0 <= j < n0.len() ==> (#[trigger] self.nodes@[j]).id == n0[j].id,
                forall|l: int|
                    #![trigger links(self.nodes@[k0 as int], l)]
                    l >= layer ==> links(self.nodes@[k0 as int], l) == links(rm, l),
                forall|j: int|
                    0 <= j < n0.len() && j != k0 ==> unlinked_upto(
                        rm,
                        #[trigger] n0[j],
                        self.nodes@[j],
                        layer as int,
                        0,
                    ),
            decreases bound - layer,
        {
            let list: Vec<u64> = copy_ids(self.nodes[k0].neighbors_at(layer));
            proof {
                assert(list@ == links(rm, layer as int));
            }
            let mut m: usize = 0;
            while m < list.len()
                invariant
                    self.wf(),
                    self.entry_point == old(self).entry_point,
                    self.max_layer == old(self).max_layer,
                    rm == n0[k0 as int],
                    rm.id == id,
                    k0 < n0.len(),
                    top == rm.max_layer,
                    layer < bound,
                    bound <= layer_count,
                    bound <= top + 1,
                    layer_count == rm.neighbors@.len(),
                    self.nodes@[k0 as int].neighbors@.len() == layer_count,
                    list@ == links(rm, layer as int),
                    m <= list@.len(),
                    self.nodes@.len() == n0.len(),
                    forall|j: int| 0 <= j < n0.len() ==> (#[trigger] self.nodes@[j]).id == n0[j].id,
                    forall|l: int|
                        #![trigger links(self.nodes@[k0 as int], l)]
                        l > layer ==> links(self.nodes@[k0 as int], l) == links(rm, l),
                    forall|j: int|
                        0 <= j < n0.len() && j != k0 ==> unlinked_upto(
                            rm,
                            #[trigger] n0[j],
                            self.nodes@[j],
                            layer as int,
                            m as int,
                        ),
                decreases list@.len() - m,
            {
                let ghost before = self.nodes@;
                self.unlink(list[m], layer, id);
                proof {
                    assert forall|j: int| 0 <= j < n0.len() && j != k0 implies unlinked_upto(
                        rm,
                        #[trigger] n0[j],
                        self.nodes@[j],
                        layer as int,
                        m + 1,
                    ) by {
                        let q = n0[j];
                        let a = self.nodes@[j];
                        assert(before[j].id == q.id);
                        assert(list@.take(m + 1) =~= list@.take(m as int).push(list@[m as int]));
                        assert forall|l: int| #![trigger links(a, l)] links(a, l) == if (0 <= l
                            < layer && l <= rm.max_layer && links(rm, l).contains(q.id)) || (l
                            == layer && links(rm, l).take(m + 1).contains(q.id)) {
                            without(links(q, l), rm.id)
                        } else {
                            links(q, l)
                        } by {
                            assert(links(before[j], l) == links(before[j], l));
                            if l == layer && q.id == list@[m as int] {
                                lemma_without_idempotent(links(q, l), id);
                                assert(links(rm, l).take(m + 1).contains(q.id)) by {
                                    assert(links(rm, l).take(m + 1)[m as int] == q.id);
                                }
                            }
                            if l == layer && q.id != list@[m as int] {
                                assert(links(rm, l).take(m + 1).contains(q.id) == links(rm, l).take(
                                    m as int,
                                ).contains(q.id)) by {
                                    let t1 = links(rm, l).take(m + 1);
                                    let t0 = links(rm, l).take(m as int);
                                    if t1.contains(q.id) {
                                        let w = choose|w: int| 0 <= w < t1.len() && #[trigger] t1[w] == q.id;
                                        assert(w < m);
                                        assert(t0[w] == q.id);
                                    }
                                    if t0.contains(q.id) {
                                        let w = choose|w: int| 0 <= w < t0.len() && #[trigger] t0[w] == q.id;
                                        assert(t1[w] == q.id);
                                    }
                                }
                            }
                        }
                    }
                }
                m += 1;
            }
            proof {
                assert(list@.take(list@.len() as int) =~= list@);
                assert forall|j: int| 0 <= j < n0.len() && j != k0 implies unlinked_upto(
                    rm,
                    #[trigger] n0[j],
                    self.nodes@[j],
                    layer + 1,
                    0,
                ) by {
                    let q = n0[j];
                    let a = self.nodes@[j];
                    assert forall|l: int| #![trigger links(a, l)] links(a, l) == if (0 <= l < layer
                        + 1 && l <= rm.max_layer && links(rm, l).contains(q.id)) || (l == layer + 1
                        && links(rm, l).take(0).contains(q.id)) {
                        without(links(q, l), rm.id)
                    } else {
                        links(q, l)
                    } by {
                        assert(links(rm, l).take(0) =~= Seq::<u64>::empty());
                    }
                }
            }
            layer += 1;
        }
        proof {
            assert forall|j: int| 0 <= j < n0.len() && j != k0 implies unlinked(
                rm,
                #[trigger] n0[j],
                self.nodes@[j],
            ) by {
                let q = n0[j];
                let a = self.nodes@[j];
                assert forall|l: int| #![trigger links(a, l)] links(a, l) == if 0 <= l
                    <= rm.max_layer && links(rm, l).contains(q.id) {
                    without(links(q, l), rm.id)
                } else {
                    links(q, l)
                } by {
                    if l >= bound && l <= rm.max_layer {
                        assert(l >= rm.neighbors@.len());
                        assert(links(rm, l) =~= Seq::<u64>::empty());
                    }
                    if l == bound {
                        assert(links(rm, l).take(0) =~= Seq::<u64>::empty());
                    }
                }
            }
        }
        let ghost mid = self.nodes@;
        self.nodes.remove(k0);
        proof {
            assert forall|j: int| 0 <= j < n0.len() && j != k0 implies unlinked(
                n0[k0 as int],
                #[trigger] n0[j],
                self.nodes@[if j < k0 {
                    j
                } else {
                    j - 1
                }],
            ) by {
                if j < k0 {
                    assert(self.nodes@[j] == mid[j]);
                } else {
                    assert(self.nodes@[j - 1] == mid[j]);
                }
            }
            assert forall|a: int, b: int|
                0 <= a < b < self.nodes@.len() implies (#[trigger] self.nodes@[a]).id
                    != (#[trigger] self.nodes@[b]).id by {
                let a2 = if a < k0 { a } else { a + 1 };
                let b2 = if b < k0 { b } else { b + 1 };
                assert(self.nodes@[a] == mid[a2]);
                assert(self.nodes@[b] == mid[b2]);
                assert(mid[a2].id != mid[b2].id);
            }
            assert forall|j: int| 0 <= j < self.nodes@.len() implies (#[trigger] self.nodes@[j]).id
                != id by {
                let j2 = if j < k0 { j } else { j + 1 };
                assert(self.nodes@[j] == mid[j2]);
                assert(mid[j2].id == n0[j2].id);
                assert(n0[j2].id != n0[k0 as int].id || j2 == k0);
            }
        }
        if self.entry_point == Some(id) {
            if self.nodes.len() == 0 {
                self.entry_point = None;
                self.max_layer = 0;
                proof {
                    assert(highest_layer(self.nodes@) == 0);
                }
            } else {
                let top = self.highest_layer();
                proof {
                    lemma_highest_layer(self.nodes@);
                }
                let mut k: usize = 0;
                while self.nodes[k].max_layer != top
                    invariant
                        k < self.nodes@.len(),
                        self.nodes@.len() <= usize::MAX,
                        top == highest_layer(self.nodes@),
                        exists|j: int| k <= j < self.nodes@.len() && (#[trigger] self.nodes@[j]).max_layer == top,
                    decreases self.nodes@.len() - k,
                {
                    proof {
                        let j = choose|j: int| k <= j < self.nodes@.len() && (#[trigger] self.nodes@[j]).max_layer == top;
                        assert(j != k);
                        assert(k + 1 < self.nodes@.len());
                    }
                    k += 1;
                }
                self.entry_point = Some(self.nodes[k].id);
                self.max_layer = top;
                proof {
                    assert(self.nodes@[k as int].id == self.nodes[k as int].id);
                }
            }
        }
        Ok(())
    }
}

/// After a node is removed, a node it listed at one of its layers no
/// longer lists it at that layer.
pub proof fn lemma_removed_node_is_unlinked(rm: HnswNode, before: HnswNode, after: HnswNode, layer: int)
    requires
        unlinked(rm, before, after),
        0 <= layer <= rm.max_layer,
        links(rm, layer).contains(before.id),
    ensures
        !links(after, layer).contains(rm.id),
{
    let s = links(before, layer);
    assert(links(after, layer) == without(s, rm.id));
    if without(s, rm.id).contains(rm.id) {
        let w = choose|w: int| 0 <= w < without(s, rm.id).len() && without(s, rm.id)[w] == rm.id;
        s.lemma_filter_pred(|x: u64| x != rm.id, w);
    }
}

} // verus!
