use edged::graph::graph_type::GraphType;
use edged::graph::matrix::Graph;
use edged::graph::traits::{Children, Directed, NodeCount, Outgoing, Parents, Undirected};

#[test]
fn matrix_add_update_remove_round_trip() {
    let mut graph = Graph::<u32, Directed>::new();
    graph.add_edge(1, 2, 10);
    assert_eq!(graph.edge_count(), 1);
    assert_eq!(graph.update_edge(1, 2, 20), Some(10));
    assert_eq!(graph.edge_count(), 1);
    assert_eq!(graph.remove_edge(1, 2), Some(20));
    assert_eq!(graph.edge_count(), 0);
    assert!(graph.is_empty());
    assert_eq!(graph.remove_edge(1, 2), None);
}

#[test]
fn matrix_update_on_empty_slot_counts_an_edge() {
    let mut graph = Graph::<u32, Directed>::with_capacity(2);
    assert_eq!(graph.update_edge(0, 1, 5), None);
    assert_eq!(graph.update_edge(1, 0, 6), None);
    assert_eq!(graph.edge_count(), 2);
    assert_eq!(graph.update_edge(0, 1, 7), Some(5));
    assert_eq!(graph.edge_count(), 2);
}

#[test]
fn matrix_remove_out_of_range_is_none() {
    let mut graph = Graph::<u32, Directed>::with_capacity(3);
    assert_eq!(graph.remove_edge(5, 0), None);
    assert_eq!(graph.remove_edge(0, 0), None);
    assert_eq!((&graph).node_count(), 3);
}

#[test]
fn matrix_growth_keeps_every_edge() {
    let mut graph = Graph::<usize, Directed>::new();
    for a in 0..3 {
        for b in 0..3 {
            graph.add_edge(a, b, a * 10 + b);
        }
    }
    // grow from 3 to 7 nodes, then to 12
    graph.add_edge(6, 0, 60);
    graph.add_edge(0, 11, 11);
    assert_eq!((&graph).node_count(), 12);
    for a in 0..3 {
        for b in 0..3 {
            assert_eq!(graph.update_edge(a, b, 0), Some(a * 10 + b));
        }
    }
    assert_eq!(graph.remove_edge(6, 0), Some(60));
    assert_eq!(graph.remove_edge(0, 11), Some(11));
    assert_eq!(graph.edge_count(), 9);
}

#[test]
fn matrix_children_and_parents_in_increasing_order() {
    let graph = Graph::<(), Directed>::from_edges(&[(2, 3), (2, 4), (4, 1), (1, 2), (2, 0)]);
    assert_eq!((&graph).children(2), vec![0, 3, 4]);
    assert_eq!((&graph).parents(2), vec![1]);
    assert_eq!((&graph).children(9), Vec::<usize>::new());
    assert_eq!((&graph).parents(9), Vec::<usize>::new());
}

#[test]
fn matrix_outgoing_weights() {
    let mut graph = Graph::<u32, Directed>::new();
    graph.add_edge(2, 3, 30);
    graph.add_edge(2, 1, 10);
    let out: Vec<(usize, u32)> = (&graph).outgoing(2).into_iter().map(|(n, w)| (n, *w)).collect();
    assert_eq!(out, vec![(1, 10), (3, 30)]);
}

#[test]
fn undirected_edge_is_seen_from_both_ends() {
    let mut graph = Graph::<u32, Undirected>::new();
    graph.add_edge(1, 4, 9);
    assert_eq!((&graph).children(4), vec![1]);
    assert_eq!((&graph).children(1), vec![4]);
    assert_eq!((&graph).parents(1), vec![4]);
    assert_eq!(graph.update_edge(4, 1, 3), Some(9));
    assert_eq!(graph.edge_count(), 1);
    assert_eq!(graph.remove_edge(4, 1), Some(3));
    assert!(graph.is_empty());
}

#[test]
fn undirected_growth_keeps_every_edge() {
    let mut graph = Graph::<usize, Undirected>::with_capacity(1);
    graph.add_edge(0, 0, 1);
    graph.add_edge(2, 1, 21);
    graph.add_edge(5, 3, 53);
    assert_eq!(graph.remove_edge(0, 0), Some(1));
    assert_eq!(graph.remove_edge(1, 2), Some(21));
    assert_eq!(graph.remove_edge(3, 5), Some(53));
    assert!(graph.is_empty());
}

#[test]
fn weighted_edges_keep_the_last_weight() {
    let graph = Graph::<u32, Directed>::from_weighted_edges(vec![(0, 1, 5), (1, 2, 7), (0, 1, 9)]);
    let out: Vec<(usize, u32)> = (&graph).outgoing(0).into_iter().map(|(n, w)| (n, *w)).collect();
    assert_eq!(out, vec![(1, 9)]);
    assert_eq!(graph.edge_count(), 2);
    let undirected = Graph::<u32, Undirected>::from_weighted_edges(vec![(3, 1, 4), (1, 3, 6)]);
    let out: Vec<(usize, u32)> = (&undirected).outgoing(3).into_iter().map(|(n, w)| (n, *w)).collect();
    assert_eq!(out, vec![(1, 6)]);
}

#[test]
fn undirected_parents_equal_children() {
    let graph = Graph::<(), Undirected>::from_edges(&[(0, 2), (2, 3), (1, 2)]);
    assert_eq!((&graph).parents(2), (&graph).children(2));
    assert_eq!((&graph).children(2), vec![0, 1, 3]);
}

#[test]
fn graph_type_tells_directedness() {
    assert!(<Directed as GraphType>::is_directed());
    assert!(!<Undirected as GraphType>::is_directed());
}
