//! Configuration and statistics types for databases and collections, and
//! the enumerations that configure an index.

use vstd::prelude::*;
use crate::error::Error;

verus! {

/// Supported distance metrics for vector comparison.
#[derive(Debug, Clone, Copy, PartialEq, Eq, Structural)]
pub enum DistanceMetric {
    /// Cosine distance: 1 - cosine similarity. Range [0, 2].
    Cosine,
    /// Euclidean (L2) distance. Range [0, inf).
    Euclidean,
    /// Dot product similarity, negated so that lower scores rank first.
    DotProduct,
}

impl DistanceMetric {
    /// Whether lower scores are better. Every metric's score is arranged so
    /// that they are (the dot product is negated).
    pub fn lower_is_better(&self) -> (r: bool)
        ensures
            r,
    {
        match self {
            DistanceMetric::Cosine | DistanceMetric::Euclidean => true,
            DistanceMetric::DotProduct => true,
        }
    }
}

/// Supported index backends.
#[derive(Debug, Clone, Copy, PartialEq, Eq, Structural)]
pub enum IndexType {
    /// Exact brute-force search.
    Flat,
    /// Approximate nearest neighbor search over an HNSW graph.
    Hnsw,
}

impl Default for IndexType {
    fn default() -> (r: Self)
        ensures
            r == IndexType::Flat,
    {
        IndexType::Flat
    }
}

/// Top-level database configuration.
#[derive(Debug, Clone)]
pub struct DatabaseConfig {
    /// Page size in bytes.
    pub page_size: u32,
    /// Maximum number of pages in the in-memory cache.
    pub cache_max_pages: usize,
    /// WAL auto-checkpoint threshold (frames).
    pub wal_checkpoint_threshold: u64,
}

impl Default for DatabaseConfig {
    fn default() -> (r: Self)
        ensures
            r.page_size == 4096,
            r.cache_max_pages == 16384,
            r.wal_checkpoint_threshold == 1000,
    {
        DatabaseConfig { page_size: 4096, cache_max_pages: 16384, wal_checkpoint_threshold: 1000 }
    }
}

/// Configuration for creating a new collection.
#[derive(Debug, Clone)]
pub struct CollectionConfig {
    /// Collection name (unique within a database).
    pub name: String,
    /// Vector dimension (number of elements per vector).
    pub dimension: usize,
    /// Distance metric for similarity search.
    pub distance: DistanceMetric,
    /// Optional description.
    pub description: String,
    /// Page ID of the vector data page (0 = not yet allocated).
    pub data_root_page: u64,
    /// Page ID of the metadata page (0 = not yet allocated).
    pub metadata_root_page: u64,
}

/// The distance metric a collection gets when none is given.
pub fn default_distance() -> (r: DistanceMetric)
    ensures
        r == DistanceMetric::Cosine,
{
    DistanceMetric::Cosine
}

/// The number of results a search returns when none is given.
pub fn default_top_k() -> (r: usize)
    ensures
        r == 10,
{
    10
}

/// The default of flags that are on unless turned off.
pub fn default_true() -> (r: bool)
    ensures
        r,
{
    true
}

impl CollectionConfig {
    /// A config with the given name and dimension, the cosine metric, no
    /// description and no pages allocated.
    pub fn new(name: &str, dimension: usize) -> (r: Self)
        ensures
            r.name@ == name@,
            r.dimension == dimension,
            r.distance == DistanceMetric::Cosine,
            r.description@ == Seq::<char>::empty(),
            r.data_root_page == 0,
            r.metadata_root_page == 0,
    {
        CollectionConfig {
            name: name.to_owned(),
            dimension,
            distance: DistanceMetric::Cosine,
            description: String::new(),
            data_root_page: 0,
            metadata_root_page: 0,
        }
    }

    /// Set the distance metric.
    pub fn with_distance(self, distance: DistanceMetric) -> (r: Self)
        ensures
            r == (CollectionConfig { distance, ..self }),
    {
        let mut c = self;
        c.distance = distance;
        c
    }

    /// Set the description.
    pub fn with_description(self, desc: &str) -> (r: Self)
        ensures
            r.description@ == desc@,
            r.name == self.name,
            r.dimension == self.dimension,
            r.distance == self.distance,
            r.data_root_page == self.data_root_page,
            r.metadata_root_page == self.metadata_root_page,
    {
        let mut c = self;
        c.description = desc.to_owned();
        c
    }
}

/// Database statistics.
#[derive(Debug, Clone)]
pub struct DatabaseStats {
    /// Path to the database file.
    pub path: String,
    /// File size in bytes.
    pub file_size: u64,
    /// Page size in bytes.
    pub page_size: u32,
    /// Total number of pages.
    pub page_count: u64,
    /// Number of collections.
    pub collection_count: usize,
    /// Per-collection statistics.
    pub collections: Vec<CollectionStats>,
}

/// Per-collection statistics.
#[derive(Debug, Clone)]
pub struct CollectionStats {
    /// Collection name.
    pub name: String,
    /// Vector dimension.
    pub dimension: usize,
    /// Distance metric, by name.
    pub distance: String,
    /// Number of vectors.
    pub vector_count: usize,
    /// Number of metadata entries.
    pub metadata_count: usize,
}

/// Search parameters for a single HNSW query.
#[derive(Debug, Clone)]
pub struct HnswSearchParams {
    /// Number of results to return (k).
    pub k: usize,
    /// Beam width for search; at least `k`.
    pub ef: usize,
}

impl HnswSearchParams {
    /// Search parameters whose beam width is `ef`, raised to `k` if smaller.
    pub fn new(k: usize, ef: usize) -> (r: Self)
        ensures
            r.k == k,
            r.ef == if ef >= k {
                ef
            } else {
                k
            },
    {
        HnswSearchParams { k, ef: if ef >= k { ef } else { k } }
    }
}

/// A text embedder that hashes words and character n-grams into a vector
/// of fixed dimension.
#[derive(Debug, Clone)]
pub struct SimpleEmbedder {
    pub(crate) dimension: usize,
}

impl SimpleEmbedder {
    /// An embedder with the given output dimension.
    pub fn new(dimension: usize) -> (r: Self)
        ensures
            r.spec_dimension() == dimension,
    {
        SimpleEmbedder { dimension }
    }

    /// The output dimension.
    pub closed spec fn spec_dimension(&self) -> usize {
        self.dimension
    }

    /// The output dimension.
    pub fn dimension(&self) -> (r: usize)
        ensures
            r == self.spec_dimension(),
    {
        self.dimension
    }
}

/// The ID a counter hands out after `n`: the next one, wrapping around
/// after `u64::MAX`.
pub open spec fn after_next(n: u64) -> u64 {
    if n == u64::MAX {
        0
    } else {
        (n + 1) as u64
    }
}

/// The counter that hands out internal document IDs.
#[derive(Debug)]
pub struct DocIdCounter {
    pub next: u64,
}

impl DocIdCounter {
    /// A counter that starts at 1.
    pub fn new() -> (r: Self)
        ensures
            r.next == 1,
    {
        DocIdCounter { next: 1 }
    }

    /// Hands out the next ID; the counter wraps around after `u64::MAX`.
    pub fn next_doc_id(&mut self) -> (r: u64)
        ensures
            r == old(self).next,
            final(self).next == after_next(old(self).next),
    {
        let id = self.next;
        self.next = if self.next == u64::MAX {
            0
        } else {
            self.next + 1
        };
        id
    }
}

/// Restarts the counter at `start`, so IDs handed out next do not collide
/// with persisted ones.
pub fn reset_doc_id_counter(counter: &mut DocIdCounter, start: u64)
    ensures
        final(counter).next == start,
{
    counter.next = start;
}

/// The largest of the counts (0 when there are none).
pub open spec fn max_count(counts: Seq<usize>) -> int
    decreases counts.len(),
{
    if counts.len() == 0 {
        0
    } else {
        let m = max_count(counts.drop_last());
        if counts.last() > m {
            counts.last() as int
        } else {
            m
        }
    }
}

/// Where document IDs start once collections holding these numbers of
/// vectors are loaded: 1000 past the largest, so new IDs stay clear of
/// stored ones.
pub fn id_counter_start(vector_counts: &[usize]) -> (r: u64)
    requires
        forall|i: int| 0 <= i < vector_counts@.len() ==> vector_counts@[i] + 1000 <= u64::MAX,
    ensures
        r == max_count(vector_counts@) + 1000,
{
    let mut m: usize = 0;
    let mut i: usize = 0;
    while i < vector_counts.len()
        invariant
            i <= vector_counts@.len(),
            m == max_count(vector_counts@.take(i as int)),
            m == 0 || exists|j: int| 0 <= j < i && vector_counts@[j] == m,
        decreases vector_counts@.len() - i,
    {
        proof {
            assert(vector_counts@.take(i + 1).drop_last() =~= vector_counts@.take(i as int));
        }
        if vector_counts[i] > m {
            m = vector_counts[i];
        }
        i += 1;
    }
    proof {
        assert(vector_counts@.take(i as int) =~= vector_counts@);
    }
    m as u64 + 1000
}

/// Checks a search query's vector against a collection of `dimension`:
/// a query without a vector (`None`) is refused with `InvalidConfig`, one
/// of another length with `DimensionMismatch`.
pub fn check_query_vector(dimension: usize, vector_len: Option<usize>) -> (r: Result<(), Error>)
    ensures
        vector_len is None ==> (r matches Err(Error::InvalidConfig(msg)) && msg@
            == "Query vector is required for search"@),
        vector_len matches Some(n) && n == dimension ==> r is Ok,
        vector_len is Some && vector_len->0 != dimension ==> r == Err::<(), Error>(
            Error::DimensionMismatch { expected: dimension, actual: vector_len->0 },
        ),
{
    match vector_len {
        None => Err(Error::InvalidConfig(String::from_str("Query vector is required for search"))),
        Some(n) => if n != dimension {
            Err(Error::DimensionMismatch { expected: dimension, actual: n })
        } else {
            Ok(())
        },
    }
}

} // verus!
