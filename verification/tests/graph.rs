use proxima::graph::{assign_components, knn_edges};

#[test]
fn components_are_numbered_by_first_node() {
    // 0-3, 1-4, 2 alone, 5-1
    let edges = vec![(0, 3), (1, 4), (1, 5)];
    let (labels, count) = assign_components(6, &edges);
    assert_eq!(labels, vec![0, 1, 2, 0, 1, 1]);
    assert_eq!(count, 3);
}

#[test]
fn components_follow_chains_of_edges() {
    let edges = vec![(4, 3), (2, 1), (3, 2), (0, 5)];
    let (labels, count) = assign_components(6, &edges);
    assert_eq!(labels, vec![0, 1, 1, 1, 1, 0]);
    assert_eq!(count, 2);
}

#[test]
fn no_edges_means_every_node_alone() {
    let (labels, count) = assign_components(4, &vec![]);
    assert_eq!(labels, vec![0, 1, 2, 3]);
    assert_eq!(count, 4);
    let (labels, count) = assign_components(0, &vec![]);
    assert!(labels.is_empty());
    assert_eq!(count, 0);
}

#[test]
fn knn_edges_are_undirected_unique_and_sorted() {
    let ids = vec![10, 20, 30, 40];
    let results = vec![
        vec![10, 20, 30], // self is skipped
        vec![20, 10],
        vec![30, 40, 99], // 99 is no node
        vec![40, 30],
    ];
    assert_eq!(knn_edges(&ids, &results), vec![(0, 1), (0, 2), (2, 3)]);
}

#[test]
fn knn_edges_of_nothing() {
    assert_eq!(knn_edges(&vec![1, 2], &vec![vec![], vec![]]), vec![]);
}

#[test]
fn knn_edges_map_a_repeated_id_to_its_last_node() {
    let ids = vec![7, 8, 7];
    let results = vec![vec![8], vec![7], vec![8]];
    assert_eq!(knn_edges(&ids, &results), vec![(1, 2)]);
}
