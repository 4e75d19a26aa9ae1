use edged::compact::Graph;

#[test]
fn graph_test_size() {
    let mut graph = Graph::new(3, 2);
    assert!(graph.is_empty());
    assert_eq!(graph.len(), 3);
    graph.add_edge(0, 1);
    graph.add_edge(0, 1);
    graph.add_edge(1, 1);
    graph.add_edge(1, 0);
    assert!(!graph.is_empty());
    assert_eq!(graph.edge_count(), 4);
}

#[test]
fn test_graph() {
    let graph = Graph::from_edges(&[(2, 3), (2, 4), (4, 1), (1, 2)]);

    assert_eq!(graph.len(), 5);
    assert_eq!(graph.edge_count(), 4);
    assert_eq!(graph.neighbors(2).into_vec(), [(4, 1), (3, 0)]);
}

#[test]
fn graph_test_transpose() {
    let graph = Graph::from_edges(&[(2, 3), (2, 4), (1, 3)]);
    assert_eq!(graph.neighbors(2).into_vec(), [(4, 1), (3, 0)]);
    let transpose = graph.transpose();
    assert_eq!(transpose.neighbors(3).into_vec(), [(2, 2), (1, 0)]);
}

#[test]
fn test() {
    /* tree structure
        1
       / \
      2   3
     /   / \
    4   5   6
       / \
      7   8
     */
    let graph = Graph::from_edges(&[(1, 3), (1, 2), (2, 4), (3, 6), (3, 5), (5, 8), (5, 7)]);

    assert_eq!(
        graph.pre_order(1).into_vec(),
        [(2, 1), (4, 2), (3, 0), (5, 4), (7, 6), (8, 5), (6, 3)]
    );
    assert_eq!(
        graph.level_order(1).into_vec(),
        [(2, 1), (3, 0), (4, 2), (5, 4), (6, 3), (7, 6), (8, 5)]
    );
    assert_eq!(graph.post_order(1).into_vec(), [4, 2, 7, 8, 5, 6, 3, 1]);

    // <https://stackoverflow.com/q/36488968>
    let graph = Graph::from_edges(&[
        (1, 4),
        (1, 2),
        (2, 5),
        (3, 6),
        (3, 5),
        (4, 2),
        (5, 6),
        (5, 4),
    ]);
    assert_eq!(graph.pre_order(1).into_vec(), [(2, 1), (5, 2), (4, 7), (6, 6)]);
    assert_eq!(graph.post_order(1).into_vec(), [4, 6, 5, 2, 1]);

    let graph = Graph::from_edges(&[
        (1, 2),
        (2, 3),
        (2, 1),
        (4, 3),
        (4, 2),
        (5, 1),
        (6, 4),
        (6, 5),
    ]);
    assert_eq!(graph.post_order(6).into_vec(), [3, 2, 1, 5, 4, 6]);
}

#[test]
fn test_dijkstra() {
    let graph = Graph::from_edges(&[(0, 1), (1, 2), (2, 0)]);
    let weights = [7, 3, 5];

    let dist = graph.dijkstra(&weights, 0);
    assert_eq!(dist, vec![0, 7, 10]);

    let graph = Graph::from_edges(&[
        (1, 2),
        (1, 3),
        (1, 5),
        (2, 4),
        (2, 5),
        (3, 2),
        (4, 1),
        (4, 3),
        (5, 4),
    ]);
    let weights = [3, 8, 2, 1, 7, 4, 2, 2, 6];
    let dist = graph.dijkstra(&weights, 1);
    assert_eq!(dist, vec![u64::MAX, 0, 3, 6, 4, 2]);
}

#[test]
fn dijkstra_saturates_instead_of_overflowing() {
    let graph = Graph::from_edges(&[(0, 1), (1, 2)]);
    let dist = graph.dijkstra(&[u64::MAX - 1, 5], 0);
    assert_eq!(dist, vec![0, u64::MAX - 1, u64::MAX]);
}

#[test]
fn from_edges_of_nothing_has_one_vertex() {
    let graph = Graph::from_edges(&[]);
    assert_eq!(graph.len(), 1);
    assert!(graph.is_empty());
}

#[test]
fn compact_transpose_reverses_every_edge() {
    let graph = Graph::from_edges(&[(0, 1), (0, 2), (2, 1)]);
    let transpose = graph.transpose();
    assert_eq!(transpose.len(), 3);
    assert_eq!(transpose.neighbors(1).into_vec(), [(2, 2), (0, 1)]);
    assert_eq!(transpose.neighbors(2).into_vec(), [(0, 0)]);
    assert_eq!(transpose.neighbors(0).into_vec(), []);
}

#[test]
fn compact_neighbors_of_missing_vertex_are_empty() {
    let graph = Graph::from_edges(&[(0, 1)]);
    assert_eq!(graph.len(), 2);
    assert_eq!(graph.neighbors(7).into_vec(), []);
}

#[test]
fn compact_add_edge_leads_the_list() {
    let mut graph = Graph::new(3, 0);
    graph.add_edge(0, 1);
    graph.add_edge(2, 0);
    assert_eq!(graph.add_edge(0, 2), 2);
    assert_eq!(graph.neighbors(0).into_vec(), [(2, 2), (1, 0)]);
    assert_eq!(graph.neighbors(2).into_vec(), [(0, 1)]);
}
