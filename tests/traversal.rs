use edged::graph::matrix::Graph;
use edged::graph::traits::Directed;
use edged::traversal::{
    levelorder::LevelOrder, postorder::PostOrder, preorder::PreOrder, topological::Topological,
};

#[test]
fn test_traversals() {
    /* tree structure
         1
        / \
       2   3
      /   / \
     4   5   6
        / \
       7   8
    */
    let graph =
        Graph::<(), Directed>::from_edges(&[(1, 3), (1, 2), (2, 4), (3, 6), (3, 5), (5, 8), (5, 7)]);

    let order = PreOrder::new(&graph, 1).into_vec();
    assert_eq!(order, [1, 3, 6, 5, 8, 7, 2, 4]);
    let order = LevelOrder::new(&graph, 1).into_vec();
    assert_eq!(order, [1, 2, 3, 4, 5, 6, 7, 8]);
    let order = PostOrder::new(&graph, 1).into_vec();
    assert_eq!(order, [6, 8, 7, 5, 3, 4, 2, 1]);

    // <https://stackoverflow.com/q/36488968>
    let graph = Graph::<(), Directed>::from_edges(&[
        (1, 4),
        (1, 2),
        (2, 5),
        (3, 6),
        (3, 5),
        (4, 2),
        (5, 6),
        (5, 4),
    ]);

    let order = PreOrder::new(&graph, 1).into_vec();
    assert_eq!(order, [1, 4, 2, 5, 6]);
    let order = LevelOrder::new(&graph, 1).into_vec();
    assert_eq!(order, [1, 2, 4, 5, 6]);
    let order = PostOrder::new(&graph, 1).into_vec();
    assert_eq!(order, [6, 5, 2, 4, 1]);

    // graph from figure 4 of dominance paper
    let graph = Graph::<(), Directed>::from_edges(&[
        (6, 5),
        (6, 4),
        (5, 1),
        (4, 2),
        (4, 3),
        (1, 2),
        (2, 3),
        (2, 1),
        (3, 2),
    ]);
    let order = PostOrder::new(&graph, 6).into_vec();
    assert_eq!(order, [3, 2, 1, 5, 4, 6]);

    let graph = Graph::<(), Directed>::from_edges(&[(2, 3), (2, 4), (4, 1), (1, 2)]);
    let order = PreOrder::new(&graph, 2).into_vec();
    assert_eq!(order, vec![2, 4, 1, 3]);
    let order = LevelOrder::new(&graph, 2).into_vec();
    assert_eq!(order, vec![2, 3, 4, 1]);
    let order = PostOrder::new(&graph, 2).into_vec();
    assert_eq!(order, vec![1, 4, 3, 2]);
}

#[test]
fn test_topo() {
    let graph =
        Graph::<(), Directed>::from_edges(&[(0, 1), (1, 2), (0, 3), (3, 1), (3, 5), (3, 4), (4, 5)]);
    let order = Topological::new(&graph).into_vec();
    assert_eq!(order, [0, 3, 4, 5, 1, 2]);
}

#[test]
fn traversal_steps_one_node_at_a_time() {
    let graph = Graph::<(), Directed>::from_edges(&[(0, 1), (0, 2), (1, 2)]);
    let mut pre = PreOrder::new(&graph, 0);
    assert_eq!(pre.next(), Some(0));
    assert_eq!(pre.next(), Some(2));
    assert_eq!(pre.next(), Some(1));
    assert_eq!(pre.next(), None);
    assert_eq!(pre.next(), None);
}

#[test]
fn traversal_from_an_isolated_start() {
    let graph = Graph::<(), Directed>::from_edges(&[(0, 1)]);
    assert_eq!(PreOrder::new(&graph, 7).into_vec(), [7]);
    assert_eq!(LevelOrder::new(&graph, 7).into_vec(), [7]);
    assert_eq!(PostOrder::new(&graph, 7).into_vec(), [7]);
}

#[test]
fn topological_order_of_a_cycle_omits_it() {
    let graph = Graph::<(), Directed>::from_edges(&[(0, 1), (1, 2), (2, 1), (0, 3)]);
    assert_eq!(Topological::new(&graph).into_vec(), [0, 3]);
}

#[test]
fn topological_order_of_empty_graph() {
    let graph = Graph::<(), Directed>::new();
    assert_eq!(Topological::new(&graph).into_vec(), Vec::<usize>::new());
}
