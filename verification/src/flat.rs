//! The flat (brute-force) index: every stored vector is compared with the
//! query.
//!
//! Vectors are kept as their packed little-endian `f32` bytes; distances
//! are computed by the caller, through a distance oracle that gives, for
//! the entry at a position, a key whose integer order is the order of the
//! distances (smaller is closer).

use vstd::prelude::*;
use crate::config::DistanceMetric;
use crate::error::IndexError;
use crate::ranking::{insert_sorted, lemma_sort_by_key_ids, sort_by_key, sorted_by_key};

verus! {

/// A flat index: the stored vectors, in order, with their IDs.
pub struct FlatIndex {
    entries: Vec<(u64, Vec<u8>)>,
    dimension: usize,
    metric: DistanceMetric,
}

/// The entries with the vectors' bytes as sequences.
pub open spec fn entries_view(e: Seq<(u64, Vec<u8>)>) -> Seq<(u64, Seq<u8>)> {
    e.map_values(|x: (u64, Vec<u8>)| (x.0, x.1@))
}

/// The entries' IDs, each with its key.
pub open spec fn scored(e: Seq<(u64, Seq<u8>)>, keys: Seq<u32>) -> Seq<(u64, u32)> {
    Seq::new(keys.len(), |i: int| (e[i].0, keys[i]))
}

/// The position of the first entry from `i` with this ID, if any.
pub open spec fn position_from(e: Seq<(u64, Seq<u8>)>, id: u64, i: int) -> Option<int>
    decreases e.len() - i,
{
    if i < 0 || i >= e.len() {
        None
    } else if e[i].0 == id {
        Some(i)
    } else {
        position_from(e, id, i + 1)
    }
}

/// The position of the first entry with this ID, if any.
pub open spec fn position_of(e: Seq<(u64, Seq<u8>)>, id: u64) -> Option<int> {
    position_from(e, id, 0)
}

/// What `position_from` finds: the first match from `i`, or none.
pub proof fn lemma_position_from(e: Seq<(u64, Seq<u8>)>, id: u64, i: int)
    requires
        0 <= i <= e.len(),
    ensures
        match position_from(e, id, i) {
            Some(p) => i <= p < e.len() && e[p].0 == id && forall|j: int| i <= j < p ==> e[j].0 != id,
            None => forall|j: int| i <= j < e.len() ==> e[j].0 != id,
        },
    decreases e.len() - i,
{
    if i < e.len() && e[i].0 != id {
        lemma_position_from(e, id, i + 1);
    }
}

impl FlatIndex {
    /// The entries, in order.
    pub closed spec fn spec_entries(&self) -> Seq<(u64, Seq<u8>)> {
        entries_view(self.entries@)
    }

    /// The dimension of the vectors.
    pub closed spec fn spec_dimension(&self) -> usize {
        self.dimension
    }

    /// The distance metric.
    pub closed spec fn spec_metric(&self) -> DistanceMetric {
        self.metric
    }

    /// An empty index.
    pub fn new(dimension: usize, metric: DistanceMetric) -> (r: Self)
        ensures
            r.spec_entries().len() == 0,
            ids_distinct(r.spec_entries()),
            r.spec_dimension() == dimension,
            r.spec_metric() == metric,
    {
        let r = FlatIndex { entries: Vec::new(), dimension, metric };
        assert(r.spec_entries() =~= Seq::<(u64, Seq<u8>)>::empty());
        r
    }

    /// The dimension of the vectors.
    pub fn dimension(&self) -> (r: usize)
        ensures
            r == self.spec_dimension(),
    {
        self.dimension
    }

    /// The distance metric.
    pub fn metric(&self) -> (r: DistanceMetric)
        ensures
            r == self.spec_metric(),
    {
        self.metric
    }

    /// All entries, in order.
    pub fn all_vectors(&self) -> (r: &[(u64, Vec<u8>)])
        ensures
            entries_view(r@) == self.spec_entries(),
    {
        self.entries.as_slice()
    }

    /// The entry at a position.
    pub fn get_by_idx(&self, idx: usize) -> (r: Option<&(u64, Vec<u8>)>)
        ensures
            idx < self.spec_entries().len() ==> (r matches Some(e) && (e.0, e.1@)
                == self.spec_entries()[idx as int]),
            idx >= self.spec_entries().len() ==> r is None,
    {
        if idx < self.entries.len() {
            Some(&self.entries[idx])
        } else {
            None
        }
    }

    /// The position of the entry with this ID.
    pub fn find_idx(&self, id: u64) -> (r: Option<usize>)
        ensures
            opt_pos(r) == position_of(self.spec_entries(), id),
            r matches Some(i) ==> i < self.spec_entries().len() && self.spec_entries()[i as int].0 == id,
    {
        let n = self.entries.len();
        let mut i: usize = 0;
        while i < n
            invariant
                n == self.entries@.len(),
                i <= n,
                position_from(self.spec_entries(), id, i as int) == position_of(self.spec_entries(), id),
            decreases n - i,
        {
            if self.entries[i].0 == id {
                return Some(i);
            }
            i += 1;
        }
        None
    }

    /// The number of vectors.
    pub fn len(&self) -> (r: usize)
        ensures
            r == self.spec_entries().len(),
    {
        self.entries.len()
    }

    /// Whether the index holds no vector.
    pub fn is_empty(&self) -> (r: bool)
        ensures
            r == (self.spec_entries().len() == 0),
    {
        self.entries.len() == 0
    }

    /// Stores a vector, given as packed `f32` bytes, under `id`: in place of
    /// the vector already stored under `id`, else after the others. Fails
    /// with `DimensionMismatch` (the vector's length in elements) when it
    /// does not have `dimension` elements.
    pub fn insert(&mut self, id: u64, vector: &[u8]) -> (r: Result<(), IndexError>)
        ensures
            final(self).spec_dimension() == old(self).spec_dimension(),
            final(self).spec_metric() == old(self).spec_metric(),
            vector@.len() != 4 * old(self).spec_dimension() ==> r == Err::<(), IndexError>(
                IndexError::DimensionMismatch {
                    expected: old(self).spec_dimension(),
                    actual: (vector@.len() / 4) as usize,
                },
            ) && final(self).spec_entries() == old(self).spec_entries(),
            vector@.len() == 4 * old(self).spec_dimension() ==> r is Ok && final(self).spec_entries()
                == stored(old(self).spec_entries(), id, vector@),
            ids_distinct(old(self).spec_entries()) ==> ids_distinct(final(self).spec_entries()),
    {
        proof {
            lemma_store_then_find(self.spec_entries(), id, vector@);
        }
        if vector.len() % 4 != 0 || vector.len() / 4 != self.dimension {
            return Err(IndexError::DimensionMismatch { expected: self.dimension, actual: vector.len() / 4 });
        }
        let ghost e0 = self.spec_entries();
        let bytes = crate::wal::copy_range(vector, 0, vector.len());
        assert(bytes@ =~= vector@);
        match self.find_idx(id) {
            Some(i) => {
                self.entries.set(i, (id, bytes));
                assert(self.spec_entries() =~= e0.update(i as int, (id, vector@)));
            },
            None => {
                self.entries.push((id, bytes));
                assert(self.spec_entries() =~= e0.push((id, vector@)));
            },
        }
        Ok(())
    }

    /// Removes the vector stored under `id`: the last entry takes its
    /// position. Fails with `VectorNotFound` when there is none.
    pub fn remove(&mut self, id: u64) -> (r: Result<(), IndexError>)
        ensures
            final(self).spec_dimension() == old(self).spec_dimension(),
            final(self).spec_metric() == old(self).spec_metric(),
            match position_of(old(self).spec_entries(), id) {
                Some(i) => r is Ok && final(self).spec_entries() == old(self).spec_entries().update(
                    i,
                    old(self).spec_entries().last(),
                ).drop_last(),
                None => r == Err::<(), IndexError>(IndexError::VectorNotFound(id))
                    && final(self).spec_entries() == old(self).spec_entries(),
            },
            ids_distinct(old(self).spec_entries()) ==> ids_distinct(final(self).spec_entries()),
    {
        proof {
            if ids_distinct(self.spec_entries()) {
                lemma_remove_then_absent(self.spec_entries(), id);
            }
        }
        let ghost e0 = self.spec_entries();
        match self.find_idx(id) {
            None => Err(IndexError::VectorNotFound(id)),
            Some(i) => {
                let ghost v0 = self.entries@;
                self.entries.swap_remove(i);
                proof {
                    assert(self.entries@ =~= v0.update(i as int, v0.last()).drop_last());
                    assert(self.spec_entries() =~= e0.update(i as int, e0.last()).drop_last());
                }
                Ok(())
            },
        }
    }

    /// The `k` nearest stored vectors to a query of `query_dim` elements:
    /// `dist(i)` gives the key of the entry at position `i`. Every entry is
    /// scored, the entries are sorted by key (ties in stored order) and
    /// the first `k` are returned. Fails with `DimensionMismatch` when the
    /// query does not have `dimension` elements.
    pub fn search<F: Fn(usize) -> u32>(&self, query_dim: usize, dist: F, k: usize) -> (r: Result<
        Vec<(u64, u32)>,
        IndexError,
    >)
        requires
            forall|i: usize| dist.requires((i,)),
        ensures
            query_dim != self.spec_dimension() ==> r == Err::<Vec<(u64, u32)>, IndexError>(
                IndexError::DimensionMismatch { expected: self.spec_dimension(), actual: query_dim },
            ),
            query_dim == self.spec_dimension() ==> (r matches Ok(v) && exists|keys: Seq<u32>|
                {
                    &&& keys.len() == self.spec_entries().len()
                    &&& forall|i: int| 0 <= i < keys.len() ==> dist.ensures((i as usize,), #[trigger] keys[i])
                    &&& v@ == sort_by_key(scored(self.spec_entries(), keys)).take(
                        if k < keys.len() { k as int } else { keys.len() as int },
                    )
                }),
            ids_distinct(self.spec_entries()) ==> (r matches Ok(v) ==> crate::ranking::ids_distinct(v@)),
    {
        if query_dim != self.dimension {
            return Err(IndexError::DimensionMismatch { expected: self.dimension, actual: query_dim });
        }
        let n = self.entries.len();
        let mut results: Vec<(u64, u32)> = Vec::new();
        let ghost mut keys: Seq<u32> = Seq::empty();
        let mut i: usize = 0;
        while i < n
            invariant
                n == self.entries@.len(),
                i <= n,
                forall|j: usize| dist.requires((j,)),
                keys.len() == i,
                results@.len() == i,
                forall|j: int| 0 <= j < i ==> dist.ensures((j as usize,), #[trigger] keys[j]),
                results@ == sort_by_key(scored(self.spec_entries(), keys)),
                sorted_by_key(results@),
            decreases n - i,
        {
            let key = dist(i);
            let ghost before = scored(self.spec_entries(), keys);
            insert_sorted(&mut results, (self.entries[i].0, key));
            proof {
                keys = keys.push(key);
                let now = scored(self.spec_entries(), keys);
                assert(now.drop_last() =~= before);
                assert(now.last() == (self.entries@[i as int].0, key));
            }
            i += 1;
        }
        let take = if k < n {
            k
        } else {
            n
        };
        let ghost full = results@;
        results.truncate(take);
        assert(results@ =~= full.take(take as int));
        proof {
            if ids_distinct(self.spec_entries()) {
                let sc = scored(self.spec_entries(), keys);
                assert forall|a: int, b: int| 0 <= a < b < sc.len() implies (#[trigger] sc[a]).0
                    != (#[trigger] sc[b]).0 by {}
                lemma_sort_by_key_ids(sc);
                assert forall|a: int, b: int| 0 <= a < b < results@.len() implies (#[trigger] results@[a]).0
                    != (#[trigger] results@[b]).0 by {
                    assert(results@[a] == full[a] && results@[b] == full[b]);
                }
            }
        }
        Ok(results)
    }
}


/// No two entries share an ID.
pub open spec fn ids_distinct(e: Seq<(u64, Seq<u8>)>) -> bool {
    forall|i: int, j: int| 0 <= i < j < e.len() ==> e[i].0 != e[j].0
}

/// The entries after storing `v` under `id`.
pub open spec fn stored(e: Seq<(u64, Seq<u8>)>, id: u64, v: Seq<u8>) -> Seq<(u64, Seq<u8>)> {
    match position_of(e, id) {
        Some(i) => e.update(i, (id, v)),
        None => e.push((id, v)),
    }
}

proof fn lemma_position_of(e: Seq<(u64, Seq<u8>)>, id: u64, i: int)
    requires
        0 <= i < e.len(),
        e[i].0 == id,
        forall|j: int| 0 <= j < i ==> e[j].0 != id,
    ensures
        position_of(e, id) == Some(i),
{
    lemma_position_from(e, id, 0);
    match position_from(e, id, 0) {
        Some(p) => {
            if p < i {
                assert(e[p].0 != id);
            } else if p > i {
                assert(e[i].0 != id);
            }
        },
        None => {
            assert(e[i].0 != id);
        },
    }
}

/// A vector stored under `id` is what is then found under `id`, and the
/// entries keep distinct IDs.
pub proof fn lemma_store_then_find(e: Seq<(u64, Seq<u8>)>, id: u64, v: Seq<u8>)
    ensures
        ({
            let e2 = stored(e, id, v);
            position_of(e2, id) matches Some(j) && e2[j] == (id, v)
        }),
        ids_distinct(e) ==> ids_distinct(stored(e, id, v)),
{
    let e2 = stored(e, id, v);
    match position_of(e, id) {
        Some(i) => {
            lemma_position_from(e, id, 0);
            lemma_position_of(e2, id, i);
            if ids_distinct(e) {
                assert forall|a: int, b: int| 0 <= a < b < e2.len() implies e2[a].0 != e2[b].0 by {
                    if a != i && b != i {
                        assert(e2[a] == e[a] && e2[b] == e[b]);
                    } else if a == i {
                        assert(e2[b] == e[b]);
                        assert(e[i].0 != e[b].0);
                    } else {
                        assert(e2[a] == e[a]);
                        assert(e[a].0 != e[i].0);
                    }
                }
            }
        },
        None => {
            lemma_position_from(e, id, 0);
            assert forall|j: int| 0 <= j < e.len() implies e2[j].0 != id by {
                assert(e2[j] == e[j]);
            }
            lemma_position_of(e2, id, e.len() as int);
            if ids_distinct(e) {
                assert forall|a: int, b: int| 0 <= a < b < e2.len() implies e2[a].0 != e2[b].0 by {
                    if b < e.len() {
                        assert(e2[a] == e[a] && e2[b] == e[b]);
                    } else {
                        assert(e2[a] == e[a]);
                    }
                }
            }
        },
    }
}

/// With distinct IDs, once the entry under `id` is removed (the last entry
/// taking its place), no entry is found under `id`.
pub proof fn lemma_remove_then_absent(e: Seq<(u64, Seq<u8>)>, id: u64)
    requires
        ids_distinct(e),
    ensures
        ({
            let e2 = match position_of(e, id) {
                Some(i) => e.update(i, e.last()).drop_last(),
                None => e,
            };
            position_of(e2, id) is None && ids_distinct(e2)
        }),
{
    let e2 = match position_of(e, id) {
        Some(i) => e.update(i, e.last()).drop_last(),
        None => e,
    };
    lemma_position_from(e, id, 0);
    match position_of(e, id) {
        Some(i) => {
            let e2 = e.update(i, e.last()).drop_last();
            assert forall|j: int| 0 <= j < e2.len() implies e2[j].0 != id by {
                if j == i {
                    assert(e2[j] == e[e.len() - 1]);
                    assert(e[i].0 != e[e.len() - 1].0);
                } else {
                    assert(e2[j] == e[j]);
                    if j < i {
                        assert(e[j].0 != e[i].0);
                    } else {
                        assert(e[i].0 != e[j].0);
                    }
                }
            }
            assert forall|a: int, b: int| 0 <= a < b < e2.len() implies e2[a].0 != e2[b].0 by {
                if a == i {
                    assert(e[b].0 != e[e.len() - 1].0);
                } else if b == i {
                    assert(e[a].0 != e[e.len() - 1].0);
                } else {
                }
            }
            lemma_position_from(e2, id, 0);
        },
        None => {},
    }
}

/// The optional position as an integer.
pub open spec fn opt_pos(o: Option<usize>) -> Option<int> {
    match o {
        Some(p) => Some(p as int),
        None => None,
    }
}

} // verus!
