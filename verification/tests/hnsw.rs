use vexra::error::IndexError;
use vexra::hnsw::{HnswLinks, HnswNode};

#[test]
fn test_node_creation() {
    let node = HnswNode::new(1, 2);
    assert_eq!(node.id, 1);
    assert_eq!(node.max_layer, 2);
    assert_eq!(node.neighbors.len(), 3); // layers 0,1,2
    assert!(!node.tombstone);
}

#[test]
fn test_add_neighbor() {
    let mut node = HnswNode::new(1, 0);
    assert!(node.add_neighbor(0, 2, 32));
    assert_eq!(node.neighbors_at(0), &[2]);
    // Duplicate
    assert!(!node.add_neighbor(0, 2, 32));
    assert_eq!(node.neighbors_at(0).len(), 1);
}

#[test]
fn neighbor_lists_are_capped() {
    let mut node = HnswNode::new(1, 1);
    assert!(node.add_neighbor(1, 2, 2));
    assert!(node.add_neighbor(1, 3, 2));
    assert!(!node.add_neighbor(1, 4, 2));
    assert_eq!(node.neighbors_at(1), &[2, 3]);
    assert!(!node.add_neighbor(5, 4, 2));
    assert!(node.neighbors_at(5).is_empty());
    node.remove_neighbor(1, 2);
    assert_eq!(node.neighbors_at(1), &[3]);
}

#[test]
fn soft_deleted_nodes_are_not_counted() {
    let mut g = HnswLinks::new();
    g.insert_node(HnswNode::new(1, 0));
    g.insert_node(HnswNode::new(2, 0));
    assert_eq!(g.len(), 2);
    assert_eq!(g.soft_delete(1), Ok(()));
    assert_eq!(g.len(), 1);
    assert_eq!(g.total_nodes(), 2);
    assert!(!g.get_node(1).unwrap().is_active());
    assert_eq!(g.soft_delete(9), Err(IndexError::VectorNotFound(9)));
}

#[test]
fn removing_a_node_unlinks_it() {
    let mut g = HnswLinks::new();
    g.insert_node(HnswNode::new(1, 1));
    g.insert_node(HnswNode::new(2, 0));
    g.insert_node(HnswNode::new(3, 1));
    g.set_entry_point(1, 1);
    for (a, b, layer) in [(1, 2, 0), (2, 1, 0), (1, 3, 1), (3, 1, 1), (2, 3, 0), (3, 2, 0)] {
        assert!(g.add_neighbor(a, layer, b, 16));
    }
    assert_eq!(g.remove(1), Ok(()));
    assert!(g.get_node(1).is_none());
    assert_eq!(g.get_node(2).unwrap().neighbors_at(0), &[3]);
    assert!(g.get_node(3).unwrap().neighbors_at(1).is_empty());
    // The entry point moves to the remaining node on the top layer.
    assert_eq!(g.entry_point(), Some((3, 1)));
    assert_eq!(g.remove(1), Err(IndexError::VectorNotFound(1)));
    assert_eq!(g.remove(2), Ok(()));
    assert_eq!(g.remove(3), Ok(()));
    assert!(g.is_empty());
    assert_eq!(g.entry_point(), None);
}
