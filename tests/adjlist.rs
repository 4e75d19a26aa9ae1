use edged::archive::adjlist::Graph;

#[test]
fn adjlist_test_size() {
    let mut graph = Graph::new();
    assert!(graph.is_empty());
    assert_eq!(graph.len(), 0);
    assert_eq!(graph.push(0, 1), 0);
    assert_eq!(graph.push(0, 1), 1);
    assert_eq!(graph.push(1, 1), 2);
    assert_eq!(graph.push(1, 0), 3);
    assert!(!graph.is_empty());
    assert_eq!(graph.len(), 2);
    assert_eq!(graph.edge_count(), 4);
}

#[test]
fn test_neighbors() {
    let graph = Graph::from_edges(&[(2, 3), (2, 4), (4, 1), (1, 2)]);
    assert_eq!(graph.edge_count(), 4);
    assert_eq!(graph.neighbors(2).into_vec(), [(4, 1), (3, 0)]);

    let edges = graph.edges().into_vec();
    assert_eq!(edges, [(1, 2), (2, 4), (2, 3), (4, 1)]);
}

#[test]
fn adjlist_test_transpose() {
    let graph = Graph::from_edges(&[(2, 3), (2, 4), (1, 3)]);
    assert_eq!(graph.neighbors(2).into_vec(), [(4, 1), (3, 0)]);
    let transpose = graph.transpose();
    assert_eq!(transpose.neighbors(3).into_vec(), [(2, 2), (1, 0)]);
}

#[test]
fn push_indices_count_up_from_zero() {
    let mut graph = Graph::with_capacity(4, 4);
    for (i, (from, to)) in [(3, 0), (0, 3), (3, 0), (1, 1)].into_iter().enumerate() {
        assert_eq!(graph.push(from, to), i);
        assert_eq!(graph.edge_count(), i + 1);
    }
    assert_eq!(graph.len(), 4);
}

#[test]
fn push_grows_vertices_to_the_larger_endpoint() {
    let mut graph = Graph::new();
    graph.push(0, 7);
    assert_eq!(graph.len(), 8);
    graph.push(9, 2);
    assert_eq!(graph.len(), 10);
}

#[test]
fn neighbors_come_newest_first() {
    let graph = Graph::from_edges(&[(0, 1), (0, 2), (1, 2), (0, 3), (0, 1)]);
    assert_eq!(graph.neighbors(0).into_vec(), [(1, 4), (3, 3), (2, 1), (1, 0)]);
    assert_eq!(graph.neighbors(1).into_vec(), [(2, 2)]);
}

#[test]
fn neighbors_of_missing_vertex_are_empty() {
    let graph = Graph::from_edges(&[(0, 1)]);
    assert_eq!(graph.neighbors(5).into_vec(), []);
    assert_eq!(graph.neighbors(1).into_vec(), []);
}

#[test]
fn edges_of_empty_graph() {
    let graph = Graph::new();
    assert_eq!(graph.edges().into_vec(), []);
    assert!(graph.transpose().is_empty());
}

#[test]
fn transpose_twice_keeps_edge_multiset() {
    let graph = Graph::from_edges(&[(0, 1), (0, 1), (2, 0), (1, 1), (3, 2)]);
    let twice = graph.transpose().transpose();
    let mut original = graph.edges().into_vec();
    let mut back = twice.edges().into_vec();
    original.sort();
    back.sort();
    assert_eq!(original, back);
    assert_eq!(twice.len(), graph.len());
    assert_eq!(twice.edge_count(), graph.edge_count());
}

#[test]
fn transpose_keeps_vertex_count() {
    let graph = Graph::from_edges(&[(0, 1), (4, 1)]);
    let transpose = graph.transpose();
    assert_eq!(transpose.len(), 5);
    assert_eq!(transpose.edge_count(), 2);
    assert_eq!(transpose.neighbors(1).into_vec(), [(4, 1), (0, 0)]);
}

#[test]
fn extend_grows_to_the_largest_endpoint() {
    let mut graph = Graph::from_edges(&[(0, 1)]);
    graph.extend(&[(3, 0), (1, 6)]);
    assert_eq!(graph.len(), 7);
    assert_eq!(graph.edge_count(), 3);
}
