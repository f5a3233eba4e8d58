use std::collections::HashMap;
use vexra::config::DistanceMetric;
use vexra::error::IndexError;
use vexra::flat::FlatIndex;
use vexra::hnsw::HnswLinks;

/// The order-preserving key of a distance.
fn key(x: f32) -> u32 {
    let b = x.to_bits();
    if b >> 31 == 1 {
        !b
    } else {
        b | 0x8000_0000
    }
}

/// The distance a key stands for.
fn unkey(k: u32) -> f32 {
    f32::from_bits(if k >> 31 == 1 { k & 0x7FFF_FFFF } else { !k })
}

fn distance(metric: DistanceMetric, a: &[f32], b: &[f32]) -> f32 {
    match metric {
        DistanceMetric::Euclidean => a.iter().zip(b).map(|(x, y)| (x - y) * (x - y)).sum::<f32>().sqrt(),
        DistanceMetric::DotProduct => -a.iter().zip(b).map(|(x, y)| x * y).sum::<f32>(),
        DistanceMetric::Cosine => {
            let dot: f32 = a.iter().zip(b).map(|(x, y)| x * y).sum();
            let na: f32 = a.iter().map(|x| x * x).sum();
            let nb: f32 = b.iter().map(|x| x * x).sum();
            if na == 0.0 || nb == 0.0 {
                1.0
            } else {
                1.0 - dot / (na.sqrt() * nb.sqrt())
            }
        }
    }
}

fn bytes(v: &[f32]) -> Vec<u8> {
    v.iter().flat_map(|x| x.to_le_bytes()).collect()
}

fn floats(b: &[u8]) -> Vec<f32> {
    b.chunks_exact(4).map(|c| f32::from_le_bytes([c[0], c[1], c[2], c[3]])).collect()
}

fn search(idx: &FlatIndex, q: &[f32], k: usize) -> Result<Vec<(u64, f32)>, IndexError> {
    let entries = idx.all_vectors();
    let metric = idx.metric();
    idx.search(q.len(), |i: usize| key(distance(metric, q, &floats(&entries[i].1))), k)
        .map(|v| v.into_iter().map(|(id, k)| (id, unkey(k))).collect())
}

fn make_test_index() -> FlatIndex {
    let mut idx = FlatIndex::new(3, DistanceMetric::Euclidean);
    idx.insert(1, &bytes(&[1.0, 0.0, 0.0])).unwrap();
    idx.insert(2, &bytes(&[0.0, 1.0, 0.0])).unwrap();
    idx.insert(3, &bytes(&[0.0, 0.0, 1.0])).unwrap();
    idx
}

#[test]
fn test_search_euclidean() {
    let idx = make_test_index();
    let results = search(&idx, &[1.0, 0.0, 0.0], 3).unwrap();
    assert_eq!(results.len(), 3);
    assert_eq!(results[0].0, 1);
    assert!((results[0].1 - 0.0).abs() < 1e-6);
    assert!((results[1].1 - 2.0f32.sqrt()).abs() < 1e-6);
    assert!((results[2].1 - 2.0f32.sqrt()).abs() < 1e-6);
    // Equal distances keep the stored order.
    assert_eq!((results[1].0, results[2].0), (2, 3));
}

#[test]
fn test_search_top_k() {
    let idx = make_test_index();
    let results = search(&idx, &[1.0, 0.0, 0.0], 1).unwrap();
    assert_eq!(results.len(), 1);
    assert_eq!(results[0].0, 1);
}

#[test]
fn flat_test_dimension_mismatch() {
    let idx = make_test_index();
    let err = search(&idx, &[1.0, 0.0], 1).unwrap_err();
    assert!(matches!(err, IndexError::DimensionMismatch { .. }));
    let mut idx = make_test_index();
    let err = idx.insert(9, &bytes(&[1.0, 2.0])).unwrap_err();
    assert_eq!(err, IndexError::DimensionMismatch { expected: 3, actual: 2 });
}

#[test]
fn test_insert_replace() {
    let mut idx = make_test_index();
    idx.insert(1, &bytes(&[5.0, 5.0, 5.0])).unwrap();
    assert_eq!(idx.len(), 3);
    let v = idx.get_by_idx(idx.find_idx(1).unwrap()).unwrap();
    assert_eq!(floats(&v.1), vec![5.0, 5.0, 5.0]);
}

#[test]
fn flat_test_remove() {
    let mut idx = make_test_index();
    idx.remove(2).unwrap();
    assert_eq!(idx.len(), 2);
    assert!(idx.find_idx(2).is_none());
    // The last entry took the removed one's place.
    assert_eq!(idx.get_by_idx(1).unwrap().0, 3);
    assert_eq!(idx.remove(2), Err(IndexError::VectorNotFound(2)));
}

#[test]
fn test_cosine_search() {
    let mut idx = FlatIndex::new(2, DistanceMetric::Cosine);
    idx.insert(1, &bytes(&[1.0, 0.0])).unwrap();
    idx.insert(2, &bytes(&[0.0, 1.0])).unwrap();
    idx.insert(3, &bytes(&[1.0, 1.0])).unwrap();
    let results = search(&idx, &[1.0, 0.0], 3).unwrap();
    assert_eq!(results[0].0, 1);
    assert_eq!(results[1].0, 3);
    assert_eq!(results[2].0, 2);
}

#[test]
fn empty_flat_index_finds_nothing() {
    let idx = FlatIndex::new(2, DistanceMetric::Euclidean);
    assert!(idx.is_empty());
    assert!(search(&idx, &[0.0, 0.0], 5).unwrap().is_empty());
}

#[test]
fn keys_order_like_distances() {
    let xs = [-3.5f32, -0.0, 0.0, 1e-30, 0.5, 2.0, 1e30];
    for w in xs.windows(2) {
        assert!(key(w[0]) <= key(w[1]));
        assert_eq!(unkey(key(w[0])), w[0]);
    }
}

struct Graph {
    links: HnswLinks,
    vectors: HashMap<u64, Vec<f32>>,
    metric: DistanceMetric,
}

impl Graph {
    fn new(metric: DistanceMetric) -> Self {
        Graph { links: HnswLinks::new(), vectors: HashMap::new(), metric }
    }

    fn insert(&mut self, id: u64, v: &[f32], level: usize) {
        self.vectors.insert(id, v.to_vec());
        let vectors = &self.vectors;
        let metric = self.metric;
        let new = v.to_vec();
        let new = &new;
        self.links
            .insert(
                id,
                level,
                |x: u64| key(distance(metric, new, &vectors[&x])),
                |a: u64, b: u64| key(distance(metric, &vectors[&a], &vectors[&b])),
                8,
                16,
                50,
            )
            .unwrap();
    }

    fn search(&self, q: &[f32], k: usize) -> Vec<(u64, f32)> {
        let vectors = &self.vectors;
        let metric = self.metric;
        self.links
            .search(|x: u64| key(distance(metric, q, &vectors[&x])), k, 20)
            .unwrap()
            .into_iter()
            .map(|(id, k)| (id, unkey(k)))
            .collect()
    }
}

#[test]
fn graph_test_insert_and_search() {
    let mut graph = Graph::new(DistanceMetric::Euclidean);
    for i in 0..10u64 {
        let v = vec![i as f32, (i * 2) as f32, (i * 3) as f32];
        graph.insert(i, &v, (i % 3 == 0) as usize);
    }
    assert_eq!(graph.links.len(), 10);
    let results = graph.search(&[5.0, 10.0, 15.0], 3);
    assert_eq!(results.len(), 3);
    assert_eq!(results[0].0, 5);
    assert!(results.windows(2).all(|w| w[0].1 <= w[1].1));
}

#[test]
fn graph_test_remove() {
    let mut graph = Graph::new(DistanceMetric::Cosine);
    graph.insert(1, &[1.0, 0.0], 0);
    graph.insert(2, &[0.0, 1.0], 0);
    assert_eq!(graph.links.len(), 2);
    graph.links.remove(1).unwrap();
    graph.vectors.remove(&1);
    assert_eq!(graph.links.len(), 1);
    let results = graph.search(&[1.0, 0.0], 1);
    assert_eq!(results.len(), 1);
    assert_eq!(results[0].0, 2);
}

#[test]
fn test_empty_search() {
    let graph = Graph::new(DistanceMetric::Euclidean);
    assert!(graph.search(&[1.0, 2.0, 3.0], 5).is_empty());
}

#[test]
fn inserted_nodes_are_linked_both_ways() {
    let mut graph = Graph::new(DistanceMetric::Euclidean);
    graph.insert(1, &[0.0, 0.0], 1);
    graph.insert(2, &[1.0, 0.0], 0);
    graph.insert(3, &[0.0, 1.0], 2);
    assert_eq!(graph.links.entry_point(), Some((3, 2)));
    let n2 = graph.links.get_node(2).unwrap();
    assert!(n2.neighbors_at(0).contains(&1));
    assert!(graph.links.get_node(1).unwrap().neighbors_at(0).contains(&2));
    // Re-inserting an ID replaces the node.
    graph.insert(2, &[2.0, 0.0], 0);
    assert_eq!(graph.links.total_nodes(), 3);
}

#[test]
fn select_neighbors_keeps_diverse_candidates() {
    let mut graph = Graph::new(DistanceMetric::Euclidean);
    graph.insert(1, &[1.0, 0.0], 0);
    graph.insert(2, &[1.1, 0.0], 0);
    graph.insert(3, &[-1.0, 0.0], 0);
    let vectors = &graph.vectors;
    let between = |a: u64, b: u64| key(distance(DistanceMetric::Euclidean, &vectors[&a], &vectors[&b]));
    let cands = vec![(1, key(1.0)), (2, key(1.1)), (3, key(1.0))];
    // Node 2 is closer to node 1 (0.1) than to the query (1.1): skipped.
    let chosen = graph.links.select_neighbors(between, &cands, 2);
    assert_eq!(chosen.iter().map(|c| c.0).collect::<Vec<_>>(), vec![1, 3]);
    assert_eq!(graph.links.select_neighbors(between, &cands, 3), cands);
}

#[test]
fn links_to_a_later_node_are_returned_by_it() {
    let mut graph = Graph::new(DistanceMetric::Euclidean);
    for i in 0..40u64 {
        let v = vec![((i * 7) % 13) as f32, ((i * 5) % 11) as f32];
        graph.insert(i, &v, (i % 4 == 0) as usize + (i % 16 == 0) as usize);
    }
    // A node links to a node inserted after it only because the later
    // node chose it, and so lists it back at that layer.
    for x in 0..40u64 {
        let node = graph.links.get_node(x).unwrap();
        for layer in 0..=2usize {
            for &y in node.neighbors_at(layer) {
                if y > x {
                    assert!(graph.links.get_node(y).unwrap().neighbors_at(layer).contains(&x));
                }
            }
        }
    }
}

#[test]
fn search_results_name_each_node_once() {
    let mut graph = Graph::new(DistanceMetric::Euclidean);
    for i in 0..30u64 {
        let v = vec![((i * 3) % 7) as f32, ((i * 2) % 5) as f32];
        graph.insert(i, &v, (i % 5 == 0) as usize);
    }
    let results = graph.search(&[1.0, 1.0], 30);
    let mut ids: Vec<u64> = results.iter().map(|r| r.0).collect();
    let n = ids.len();
    ids.sort();
    ids.dedup();
    assert_eq!(ids.len(), n);
    // Fewer results than asked for: every neighbor of a result is one too.
    assert!(n < 30);
    for r in &results {
        for nb in graph.links.get_node(r.0).unwrap().neighbors_at(0) {
            assert!(ids.contains(nb));
        }
    }
}

#[test]
fn search_skips_soft_deleted_nodes() {
    let mut graph = Graph::new(DistanceMetric::Euclidean);
    graph.insert(1, &[0.0, 0.0], 1);
    graph.insert(2, &[1.0, 0.0], 0);
    graph.insert(3, &[2.0, 0.0], 0);
    graph.links.soft_delete(1).unwrap();
    let results = graph.search(&[0.0, 0.0], 3);
    assert_eq!(results.iter().map(|r| r.0).collect::<Vec<_>>(), vec![2, 3]);
}

#[test]
fn reinserting_keeps_the_count_and_the_entry_point() {
    let mut graph = Graph::new(DistanceMetric::Euclidean);
    graph.insert(1, &[0.0, 0.0], 0);
    graph.insert(2, &[1.0, 0.0], 0);
    graph.insert(1, &[0.5, 0.0], 0);
    assert_eq!(graph.links.total_nodes(), 2);
    assert!(graph.links.entry_point().is_some());
    let results = graph.search(&[0.5, 0.0], 1);
    assert_eq!(results[0].0, 1);
}

#[test]
fn removing_the_entry_point_keeps_it_on_the_top_layer() {
    let mut graph = Graph::new(DistanceMetric::Euclidean);
    graph.insert(1, &[0.0, 0.0], 0);
    graph.insert(2, &[1.0, 0.0], 1);
    graph.insert(3, &[2.0, 0.0], 2);
    assert_eq!(graph.links.entry_point(), Some((3, 2)));
    graph.links.remove(3).unwrap();
    assert_eq!(graph.links.entry_point(), Some((2, 1)));
}
