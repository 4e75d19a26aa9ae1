use edged::dominance::{frontiers, immediate_dominators};
use edged::graph::matrix::Graph;
use edged::graph::traits::Directed;

#[test]
fn test_dominators() {
    // from cooper et al paper
    let graph = Graph::<(), Directed>::from_edges(&[
        (6, 5),
        (6, 4),
        (5, 1),
        (4, 2),
        (4, 3),
        (1, 2),
        (2, 3),
        (2, 1),
        (3, 2),
    ]);

    let idoms = immediate_dominators(&graph, 6);
    assert_eq!(
        idoms,
        vec![None, Some(6), Some(6), Some(6), Some(6), Some(6), Some(6)]
    );

    // from wikipedia <https://en.wikipedia.org/wiki/Dominator_(graph_theory)>
    let graph =
        Graph::<(), Directed>::from_edges(&[(1, 2), (2, 3), (2, 4), (2, 6), (3, 5), (4, 5), (5, 2)]);
    let idoms = immediate_dominators(&graph, 1);
    assert_eq!(
        idoms,
        vec![None, Some(1), Some(1), Some(2), Some(2), Some(2), Some(2)]
    );

    let graph = Graph::<(), Directed>::from_edges(&[
        (1, 2),
        (2, 3),
        (2, 4),
        (3, 5),
        (4, 6),
        (5, 3),
        (5, 6),
        (6, 2),
        (6, 7),
    ]);
    let idoms = immediate_dominators(&graph, 1);
    assert_eq!(
        idoms,
        vec![
            None,
            Some(1),
            Some(1),
            Some(2),
            Some(2),
            Some(3),
            Some(2),
            Some(6)
        ]
    );

    let graph = Graph::<(), Directed>::from_edges(&[(1, 2), (1, 3), (2, 5), (3, 4), (4, 5)]);
    let idoms = immediate_dominators(&graph, 1);
    assert_eq!(
        idoms,
        vec![None, Some(1), Some(1), Some(1), Some(3), Some(1)]
    );
}

#[test]
fn test_frontiers() {
    // https://pages.cs.wisc.edu/~fischer/cs701.f05/lectures/Lecture22.pdf
    let graph =
        Graph::<(), Directed>::from_edges(&[(0, 1), (1, 2), (1, 3), (2, 4), (3, 4), (4, 5), (0, 5)]);
    let frontier = frontiers(&graph, 0);
    assert_eq!(
        frontier,
        vec![vec![], vec![5], vec![4], vec![4], vec![5], vec![],]
    );
}

#[test]
fn dominators_of_a_single_node() {
    let graph = Graph::<(), Directed>::with_capacity(1);
    assert_eq!(immediate_dominators(&graph, 0), vec![Some(0)]);
    assert_eq!(frontiers(&graph, 0), vec![Vec::<usize>::new()]);
}

#[test]
fn unreachable_nodes_have_no_dominator() {
    let graph = Graph::<(), Directed>::from_edges(&[(0, 1), (2, 1)]);
    assert_eq!(immediate_dominators(&graph, 0), vec![Some(0), Some(0), None]);
}

#[test]
fn frontier_of_a_loop_header() {
    let graph = Graph::<(), Directed>::from_edges(&[(0, 1), (1, 2), (2, 1), (1, 3)]);
    assert_eq!(immediate_dominators(&graph, 0), vec![Some(0), Some(0), Some(1), Some(1)]);
    let frontier = frontiers(&graph, 0);
    assert_eq!(frontier, vec![vec![], vec![1], vec![1], vec![]]);
}

/// Nodes reachable from `start` in the graph without `removed`.
fn reachable_without(n: usize, edges: &[(usize, usize)], start: usize, removed: Option<usize>) -> Vec<bool> {
    let mut seen = vec![false; n];
    if Some(start) == removed {
        return seen;
    }
    let mut stack = vec![start];
    seen[start] = true;
    while let Some(u) = stack.pop() {
        for &(a, b) in edges {
            if a == u && Some(b) != removed && !seen[b] {
                seen[b] = true;
                stack.push(b);
            }
        }
    }
    seen
}

/// Immediate dominators straight from the definition.
fn dominators_by_definition(n: usize, edges: &[(usize, usize)], start: usize) -> Vec<Option<usize>> {
    let reach = reachable_without(n, edges, start, None);
    // dominates[d][v]: every path from start to v passes d
    let mut dominates = vec![vec![false; n]; n];
    for d in 0..n {
        let without = reachable_without(n, edges, start, Some(d));
        for v in 0..n {
            dominates[d][v] = reach[v] && (d == v || !without[v]);
        }
    }
    let mut idoms = vec![None; n];
    for v in 0..n {
        if !reach[v] {
            continue;
        }
        if v == start {
            idoms[v] = Some(start);
            continue;
        }
        let strict: Vec<usize> = (0..n).filter(|&d| d != v && dominates[d][v]).collect();
        idoms[v] = strict
            .iter()
            .copied()
            .find(|&d| strict.iter().all(|&other| dominates[other][d]));
    }
    idoms
}

#[test]
fn dominators_agree_with_the_definition() {
    let mut seed: u64 = 0x2545_f491_4f6c_dd1d;
    let mut next = move || {
        seed = seed.wrapping_mul(6364136223846793005).wrapping_add(1442695040888963407);
        (seed >> 33) as usize
    };
    for round in 0..300 {
        let n = 2 + next() % 7;
        let count = next() % (3 * n);
        let mut edges = vec![];
        for _ in 0..count {
            let a = next() % n;
            let b = next() % n;
            if !edges.contains(&(a, b)) {
                edges.push((a, b));
            }
        }
        // every node index below n exists in the matrix
        edges.push((n - 1, n - 1));
        let graph = Graph::<(), Directed>::from_edges(&edges);
        let got = immediate_dominators(&graph, 0);
        let expected = dominators_by_definition(n, &edges, 0);
        assert_eq!(got, expected, "round {round}: edges {edges:?}");
    }
}

#[test]
fn frontiers_agree_with_the_definition() {
    let mut seed: u64 = 0x9e37_79b9_7f4a_7c15;
    let mut next = move || {
        seed = seed.wrapping_mul(6364136223846793005).wrapping_add(1442695040888963407);
        (seed >> 33) as usize
    };
    let mut checked = 0;
    while checked < 150 {
        let n = 2 + next() % 6;
        let count = next() % (3 * n);
        let mut edges = vec![];
        for _ in 0..count {
            let a = next() % n;
            let b = next() % n;
            if !edges.contains(&(a, b)) {
                edges.push((a, b));
            }
        }
        edges.push((n - 1, n - 1));
        if reachable_without(n, &edges, 0, None).iter().any(|&r| !r) {
            continue;
        }
        checked += 1;
        let graph = Graph::<(), Directed>::from_edges(&edges);
        let mut got = frontiers(&graph, 0);
        for f in got.iter_mut() {
            f.sort();
            f.dedup();
        }
        let reach = reachable_without(n, &edges, 0, None);
        let mut expected = vec![vec![]; n];
        for b in 0..n {
            let without = reachable_without(n, &edges, 0, Some(b));
            let dominates = |v: usize| reach[v] && (b == v || !without[v]);
            for y in 0..n {
                let strictly = b != y && dominates(y);
                let of_pred = edges.iter().any(|&(p, t)| t == y && dominates(p));
                // only nodes with two or more parents are joins; the start node is its own
                // immediate dominator, so no walk adds it to its own frontier
                let parents = edges.iter().filter(|&&(_, t)| t == y).count();
                let start_excluded = y == 0 && (b == 0 || parents < 2);
                if of_pred && !strictly && !start_excluded {
                    expected[b].push(y);
                }
            }
        }
        assert_eq!(got, expected, "edges {edges:?}");
    }
}
