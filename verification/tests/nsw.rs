use proxima::nsw::NswIndex;
use proxima::vector::Vector;

#[test]
fn empty_index_has_no_entry_and_zero_len() {
    let idx: NswIndex<Vector<f32>> = NswIndex::new(4, 16);
    assert!(idx.is_empty());
    assert_eq!(idx.len(), 0);
}

#[test]
fn insert_assigns_increasing_ids_and_grows_len() {
    let mut idx = NswIndex::new(4, 16);
    let a = idx.insert(Vector::from([0.0, 0.0]));
    let b = idx.insert(Vector::from([1.0, 0.0]));
    assert_eq!((a, b), (0, 1));
    assert_eq!(idx.len(), 2);
    assert!(!idx.is_empty());
}

#[test]
fn get_returns_the_stored_vector() {
    let mut idx = NswIndex::new(4, 16);
    let id = idx.insert(Vector::from([3.0, 4.0]));
    assert_eq!(idx.get(id), Some(&Vector::from([3.0, 4.0])));
    assert_eq!(idx.get(999), None);
}

#[test]
fn first_node_has_no_neighbors() {
    let mut idx = NswIndex::new(4, 16);
    idx.insert(Vector::from([0.0, 0.0]));
    assert!(idx.neighbors(0).is_empty());
}

#[test]
fn insert_builds_a_complete_graph() {
    let mut idx = NswIndex::new(4, 16);
    idx.insert(Vector::from([0.0, 0.0]));
    idx.insert(Vector::from([1.0, 0.0]));
    idx.insert(Vector::from([2.0, 0.0]));

    // K3: every node is linked to the other two.
    for i in 0..idx.len() {
        assert_eq!(idx.neighbors(i).len(), 2);
    }
    // Edges are bidirectional.
    assert!(idx.neighbors(0).contains(&2));
    assert!(idx.neighbors(2).contains(&0));
}

#[test]
fn neighbor_lists_hold_all_other_nodes_in_order() {
    let mut idx = NswIndex::new(2, 8);
    for x in 0..5 {
        idx.insert(Vector::from([x as f32]));
    }
    assert_eq!(idx.neighbors(0), &vec![1, 2, 3, 4]);
    assert_eq!(idx.neighbors(2), &vec![0, 1, 3, 4]);
    assert_eq!(idx.neighbors(4), &vec![0, 1, 2, 3]);
    for id in 0..5u64 {
        assert_eq!(idx.get(id), Some(&Vector::from([id as f32])));
    }
}
