//! Dominance algorithms
//!
//! <https://en.wikipedia.org/wiki/Dominator_(graph_theory)>
//! <https://www.cs.rice.edu/~keith/EMBED/dom.pdf>
//!
//! Node M dominates N iff to get to N from the start node, you must pass through M.
//! N dom N is always true.
//!
//! M strictly dominates N if M dom N and M != N.
//!
//! A node can have multiple dominators. The immediate dominator of N is the dominator
//! that strictly dominates N but does not dominate any other dominators of N.
use vstd::prelude::*;
use crate::graph::paths::{
    dominates, is_path, path_allowed, path_between, reach_from, reachable, reachable_avoiding,
};
use crate::graph::traits::{Children, NodeCount, Parents};
use crate::traversal::postorder::{post_after, post_output, PostOrder};

verus! {

/// Walking up the dominator chain from `v` reaches `start` within `fuel` steps.
pub open spec fn reaches_root(dominators: Seq<Option<usize>>, start: int, v: int, fuel: nat) -> bool
    decreases fuel,
{
    v == start || (fuel > 0 && 0 <= v < dominators.len() && dominators[v] is Some
        && reaches_root(dominators, start, dominators[v].unwrap() as int, (fuel - 1) as nat))
}

/// The dominators, numbered by `postorder`, form a tree rooted at `start` in which every
/// node's dominator has a higher number; each node of the tree stands in `order` at its
/// number.
#[verifier::opaque]
spec fn ranked_tree(
    dominators: Seq<Option<usize>>,
    postorder: Seq<usize>,
    order: Seq<usize>,
    start: int,
) -> bool {
    &&& dominators.len() == postorder.len()
    &&& 0 <= start < dominators.len()
    &&& dominators[start] == Some(start as usize)
    &&& forall|v: int|
        #![trigger dominators[v]]
        0 <= v < dominators.len() && dominators[v] is Some ==> {
            let d = dominators[v].unwrap() as int;
            &&& 0 <= d < dominators.len()
            &&& dominators[d] is Some
            &&& (v != start ==> postorder[d] > postorder[v])
            &&& postorder[v] < order.len()
            &&& order[postorder[v] as int] == v
        }
}

/// What a ranked tree says of one node in it.
proof fn lemma_tree_node(
    dominators: Seq<Option<usize>>,
    postorder: Seq<usize>,
    order: Seq<usize>,
    start: int,
    v: int,
)
    requires
        ranked_tree(dominators, postorder, order, start),
        0 <= v < dominators.len(),
        dominators[v] is Some,
    ensures
        dominators.len() == postorder.len(),
        0 <= start < dominators.len(),
        dominators[start] == Some(start as usize),
        0 <= dominators[v].unwrap() < dominators.len(),
        dominators[dominators[v].unwrap() as int] is Some,
        v != start ==> postorder[dominators[v].unwrap() as int] > postorder[v],
        postorder[v] < order.len(),
        order[postorder[v] as int] == v,
{
    reveal(ranked_tree);
}

/// In a ranked tree the start node has the highest number.
proof fn lemma_start_highest(
    dominators: Seq<Option<usize>>,
    postorder: Seq<usize>,
    order: Seq<usize>,
    start: int,
    v: int,
)
    requires
        ranked_tree(dominators, postorder, order, start),
        0 <= v < dominators.len(),
        dominators[v] is Some,
    ensures
        postorder[v] <= postorder[start],
        reaches_root(dominators, start, v, (order.len() - postorder[v]) as nat),
    decreases order.len() - postorder[v],
{
    lemma_tree_node(dominators, postorder, order, start, v);
    if v != start {
        let d = dominators[v].unwrap() as int;
        lemma_tree_node(dominators, postorder, order, start, d);
        lemma_start_highest(dominators, postorder, order, start, d);
        lemma_reaches_root_more(
            dominators,
            start,
            d,
            (order.len() - postorder[d]) as nat,
            (order.len() - postorder[v] - 1) as nat,
        );
    }
}

/// A chain that reaches the root within some fuel reaches it with more.
proof fn lemma_reaches_root_more(dominators: Seq<Option<usize>>, start: int, v: int, fuel: nat, more: nat)
    requires
        reaches_root(dominators, start, v, fuel),
        fuel <= more,
    ensures
        reaches_root(dominators, start, v, more),
    decreases fuel,
{
    if v != start {
        lemma_reaches_root_more(
            dominators,
            start,
            dominators[v].unwrap() as int,
            (fuel - 1) as nat,
            (more - 1) as nat,
        );
    }
}

/// The node `k` steps up the dominator chain from `x`.
spec fn chain_at(dominators: Seq<Option<usize>>, x: usize, k: nat) -> usize
    decreases k,
{
    if k == 0 {
        x
    } else {
        dominators[chain_at(dominators, x, (k - 1) as nat) as int].unwrap()
    }
}

/// Finds the nearest common dominator of two nodes.
/// Walks up the dominator tree from two different nodes until a common parent is reached:
/// the result lies on both dominator chains.
fn nearest_common_dominator(
    dominators: &[Option<usize>],
    postorder: &[usize],
    finger1: usize,
    finger2: usize,
    Ghost(start): Ghost<int>,
    Ghost(order): Ghost<Seq<usize>>,
) -> (r: usize)
    requires
        ranked_tree(dominators@, postorder@, order, start),
        finger1 < dominators@.len(),
        finger2 < dominators@.len(),
        dominators@[finger1 as int] is Some,
        dominators@[finger2 as int] is Some,
    ensures
        r < dominators@.len(),
        dominators@[r as int] is Some,
        postorder@[r as int] >= postorder@[finger1 as int],
        postorder@[r as int] >= postorder@[finger2 as int],
        exists|k1: nat, k2: nat|
            chain_at(dominators@, finger1, k1) == r && chain_at(dominators@, finger2, k2) == r,
{
    let ghost d = dominators@;
    let ghost po = postorder@;
    let mut f1 = finger1;
    let mut f2 = finger2;
    let ghost mut k1: nat = 0;
    let ghost mut k2: nat = 0;
    proof {
        lemma_start_highest(d, po, order, start, f1 as int);
        lemma_start_highest(d, po, order, start, f2 as int);
        lemma_tree_node(d, po, order, start, f1 as int);
    }
    while f1 != f2
        invariant
            ranked_tree(d, po, order, start),
            po.len() == d.len(),
            0 <= start < d.len(),
            d == dominators@,
            po == postorder@,
            f1 < d.len(),
            f2 < d.len(),
            d[f1 as int] is Some,
            d[f2 as int] is Some,
            po[f1 as int] >= po[finger1 as int] || f1 == finger1,
            po[f2 as int] >= po[finger2 as int] || f2 == finger2,
            po[f1 as int] <= po[start],
            po[f2 as int] <= po[start],
            chain_at(d, finger1, k1) == f1,
            chain_at(d, finger2, k2) == f2,
        decreases 2 * po[start] - po[f1 as int] - po[f2 as int],
    {
        let ghost sum = po[f1 as int] + po[f2 as int];
        proof {
            lemma_tree_node(d, po, order, start, f1 as int);
            lemma_tree_node(d, po, order, start, f2 as int);
            if po[f1 as int] == po[f2 as int] {
                assert(order[po[f1 as int] as int] == f1);
                assert(order[po[f2 as int] as int] == f2);
            }
        }
        while postorder[f1] < postorder[f2]
            invariant
                ranked_tree(d, po, order, start),
                po.len() == d.len(),
                0 <= start < d.len(),
                d == dominators@,
                po == postorder@,
                f1 < d.len(),
                f2 < d.len(),
                d[f1 as int] is Some,
                d[f2 as int] is Some,
                po[f1 as int] >= po[finger1 as int] || f1 == finger1,
                po[f1 as int] <= po[start],
                po[f2 as int] <= po[start],
                po[f1 as int] + po[f2 as int] >= sum,
                chain_at(d, finger1, k1) == f1,
                chain_at(d, finger2, k2) == f2,
            decreases po[start] - po[f1 as int],
        {
            proof {
                lemma_tree_node(d, po, order, start, f1 as int);
                if f1 == start {
                    lemma_start_highest(d, po, order, start, f2 as int);
                }
            }
            f1 = dominators[f1].unwrap();
            proof {
                lemma_start_highest(d, po, order, start, f1 as int);
                k1 = k1 + 1;
            }
        }
        while postorder[f2] < postorder[f1]
            invariant
                ranked_tree(d, po, order, start),
                po.len() == d.len(),
                0 <= start < d.len(),
                d == dominators@,
                po == postorder@,
                f1 < d.len(),
                f2 < d.len(),
                d[f1 as int] is Some,
                d[f2 as int] is Some,
                po[f2 as int] >= po[finger2 as int] || f2 == finger2,
                po[f1 as int] <= po[start],
                po[f2 as int] <= po[start],
                po[f1 as int] + po[f2 as int] >= sum,
                chain_at(d, finger1, k1) == f1,
                chain_at(d, finger2, k2) == f2,
            decreases po[start] - po[f2 as int],
        {
            proof {
                lemma_tree_node(d, po, order, start, f2 as int);
                if f2 == start {
                    lemma_start_highest(d, po, order, start, f1 as int);
                }
            }
            f2 = dominators[f2].unwrap();
            proof {
                lemma_start_highest(d, po, order, start, f2 as int);
                k2 = k2 + 1;
            }
        }
        proof {
            assert(po[f1 as int] + po[f2 as int] > sum || f1 == f2);
        }
    }
    proof {
        assert(chain_at(dominators@, finger1, k1) == f1 && chain_at(dominators@, finger2, k2) == f1);
    }
    f1
}

/// The sum, over the nodes below `k` that have a dominator, of one more than the
/// dominator's number.
spec fn potential(dominators: Seq<Option<usize>>, postorder: Seq<usize>, k: int) -> nat
    decreases k,
{
    if k <= 0 {
        0
    } else {
        potential(dominators, postorder, k - 1) + match dominators[k - 1] {
            Some(d) => (postorder[d as int] + 1) as nat,
            None => 0nat,
        }
    }
}

/// What one node contributes to the potential.
spec fn term(postorder: Seq<usize>, entry: Option<usize>) -> int {
    match entry {
        Some(d) => postorder[d as int] + 1,
        None => 0,
    }
}

proof fn lemma_potential_update(
    dominators: Seq<Option<usize>>,
    postorder: Seq<usize>,
    k: int,
    v: int,
    x: Option<usize>,
)
    requires
        0 <= v < dominators.len(),
        k <= dominators.len(),
    ensures
        potential(dominators.update(v, x), postorder, k) == potential(dominators, postorder, k)
            + if v < k {
            term(postorder, x) - term(postorder, dominators[v])
        } else {
            0
        },
    decreases k,
{
    if k > 0 {
        lemma_potential_update(dominators, postorder, k - 1, v, x);
    }
}

proof fn lemma_potential_bound(
    dominators: Seq<Option<usize>>,
    postorder: Seq<usize>,
    order: Seq<usize>,
    start: int,
    k: int,
)
    requires
        ranked_tree(dominators, postorder, order, start),
        0 <= k <= dominators.len(),
    ensures
        potential(dominators, postorder, k) <= k * order.len(),
    decreases k,
{
    if k > 0 {
        lemma_potential_bound(dominators, postorder, order, start, k - 1);
        if dominators[k - 1] is Some {
            lemma_tree_node(dominators, postorder, order, start, k - 1);
            lemma_tree_node(dominators, postorder, order, start, dominators[k - 1].unwrap() as int);
        }
        assert((k - 1) * order.len() + order.len() == k * order.len()) by (nonlinear_arith);
    }
}

/// Giving `node` a dominator that is in the tree and numbered above it keeps the tree.
proof fn lemma_tree_update(
    dominators: Seq<Option<usize>>,
    postorder: Seq<usize>,
    order: Seq<usize>,
    start: int,
    node: int,
    new: int,
)
    requires
        ranked_tree(dominators, postorder, order, start),
        0 <= node < dominators.len(),
        node != start,
        0 <= new < dominators.len(),
        dominators[new] is Some,
        postorder[new] > postorder[node],
        postorder[node] < order.len(),
        order[postorder[node] as int] == node,
    ensures
        ranked_tree(dominators.update(node, Some(new as usize)), postorder, order, start),
{
    reveal(ranked_tree);
    let updated = dominators.update(node, Some(new as usize));
    assert forall|v: int|
        #![trigger updated[v]]
        0 <= v < updated.len() && updated[v] is Some implies {
            let d = updated[v].unwrap() as int;
            &&& 0 <= d < updated.len()
            &&& updated[d] is Some
            &&& (v != start ==> postorder[d] > postorder[v])
            &&& postorder[v] < order.len()
            &&& order[postorder[v] as int] == v
        } by {
        if v != node {
            assert(dominators[v] is Some);
            let d = dominators[v].unwrap() as int;
            assert(dominators[d] is Some);
        }
    }
}

/// Distinct entries below `n` number at most `n`.
proof fn lemma_distinct_below(order: Seq<usize>, n: int)
    requires
        forall|i: int, j: int| 0 <= i < j < order.len() ==> order[i] != order[j],
        forall|i: int| 0 <= i < order.len() ==> order[i] < n,
        0 <= n,
    ensures
        order.len() <= n,
{
    let ints = order.map_values(|x: usize| x as int);
    assert(ints.no_duplicates()) by {
        assert forall|i: int, j: int| 0 <= i < ints.len() && 0 <= j < ints.len() && i != j implies ints[i]
            != ints[j] by {
            assert(ints[i] == order[i] as int);
            assert(ints[j] == order[j] as int);
            if i < j {
                assert(order[i] != order[j]);
            } else {
                assert(order[j] != order[i]);
            }
        }
    }
    ints.unique_seq_to_set();
    vstd::set_lib::lemma_int_range(0, n);
    assert(ints.to_set().subset_of(vstd::set_lib::set_int_range(0, n))) by {
        assert forall|x: int| ints.to_set().contains(x) implies vstd::set_lib::set_int_range(
            0,
            n,
        ).contains(x) by {
            let i = choose|i: int| 0 <= i < ints.len() && ints[i] == x;
            assert(ints[i] == order[i] as int);
        }
    }
    assert(ints.len() == order.len());
    vstd::set_lib::lemma_len_subset(ints.to_set(), vstd::set_lib::set_int_range(0, n));
}

/// `v` is produced by the post-order search from `start`, run until its stack is empty.
spec fn reached<G: Children>(graph: G, start: usize, v: int) -> bool {
    exists|k: nat|
        #![trigger post_output(graph, (seq![start], Set::<int>::empty(), Set::<int>::empty()), k)]
        post_after(graph, (seq![start], Set::<int>::empty(), Set::<int>::empty()), k).0.len() == 0
            && post_output(graph, (seq![start], Set::<int>::empty(), Set::<int>::empty()), k).contains(
            v as usize,
        )
}

/// `r` is a dominator tree over the nodes below the graph's node count: `start` dominates
/// itself, every other entry names a different node that has an entry too, every chain of
/// entries reaches `start`, and only nodes reached from `start` have one.
spec fn dominator_tree<G: Children>(graph: G, start: usize, r: Seq<Option<usize>>) -> bool {
    &&& r.len() == graph.spec_node_count()
    &&& r[start as int] == Some(start)
    &&& forall|v: int|
        #![trigger r[v]]
        0 <= v < r.len() && r[v] is Some ==> {
            let d = r[v].unwrap() as int;
            &&& 0 <= d < r.len()
            &&& r[d] is Some
            &&& (v != start ==> d != v)
            &&& reaches_root(r, start as int, v, r.len() as nat)
            &&& reached(graph, start, v)
        }
}

/// The immediate dominators by the iterative fixpoint of Cooper, Harvey and Kennedy: a
/// tree rooted at `start` over the nodes that the search from `start` reaches.
fn cooper_dominators<G>(graph: G, start: usize) -> (r: Vec<Option<usize>>)
    where
        G: Children + Parents + NodeCount,
    requires
        start < graph.spec_node_count(),
    ensures
        dominator_tree(graph, start, r@),
{
    let n = graph.node_count();
    let search = PostOrder::new(graph, start);
    let ghost init = search.spec_state();
    let order = search.into_vec();
    let ghost ord = order@;
    let ghost run = choose|k: nat|
        ord == post_output(graph, init, k) && post_after(graph, init, k).0.len() == 0;
    let len = order.len();
    proof {
        lemma_distinct_below(ord, n as int);
    }

    // Maps a node to its index in a postorder traversal
    let mut postorder_idx: Vec<usize> = vec![0; n];
    let mut i: usize = 0;
    while i < len
        invariant
            len == ord.len(),
            ord == order@,
            len <= n,
            postorder_idx@.len() == n,
            i <= len,
            forall|a: int, b: int| 0 <= a < b < ord.len() ==> ord[a] != ord[b],
            forall|a: int| 0 <= a < ord.len() ==> ord[a] < n,
            forall|a: int| 0 <= a < i ==> postorder_idx@[ord[a] as int] == a,
        decreases len - i,
    {
        postorder_idx.set(order[i], i);
        proof {
            assert forall|a: int| 0 <= a < i + 1 implies postorder_idx@[ord[a] as int] == a by {
                if a < i {
                    assert(ord[a] != ord[i as int]);
                }
            }
        }
        i += 1;
    }
    let ghost po = postorder_idx@;
    proof {
        assert(po[start as int] == len - 1);
    }

    let mut dominators: Vec<Option<usize>> = vec![None; n];
    dominators.set(start, Some(start));
    proof {
        reveal(ranked_tree);
        assert forall|v: int|
            #![trigger dominators@[v]]
            0 <= v < dominators@.len() && dominators@[v] is Some implies v == start by {}
    }
    let mut changed = true;
    proof {
        lemma_potential_bound(dominators@, po, ord, start as int, n as int);
    }
    while changed
        invariant
            ranked_tree(dominators@, po, ord, start as int),
            dominators@.len() == n,
            po == postorder_idx@,
            po.len() == n,
            ord == order@,
            len == ord.len(),
            1 <= len <= n,
            ord[len - 1] == start,
            forall|a: int, b: int| 0 <= a < b < ord.len() ==> ord[a] != ord[b],
            forall|a: int| 0 <= a < ord.len() ==> ord[a] < n,
            forall|a: int| 0 <= a < ord.len() ==> po[ord[a] as int] == a,
            potential(dominators@, po, n as int) <= n * len,
            n == graph.spec_node_count(),
        decreases n * len - potential(dominators@, po, n as int) + if changed {
            1int
        } else {
            0int
        },
    {
        let ghost pass_start = potential(dominators@, po, n as int);
        changed = false;
        let mut k: usize = len - 1;
        while k > 0
            invariant
                ranked_tree(dominators@, po, ord, start as int),
                dominators@.len() == n,
                po == postorder_idx@,
                po.len() == n,
                ord == order@,
                len == ord.len(),
                1 <= len <= n,
                k < len,
                ord[len - 1] == start,
                forall|a: int, b: int| 0 <= a < b < ord.len() ==> ord[a] != ord[b],
                forall|a: int| 0 <= a < ord.len() ==> ord[a] < n,
                forall|a: int| 0 <= a < ord.len() ==> po[ord[a] as int] == a,
                potential(dominators@, po, n as int) >= pass_start,
                changed ==> potential(dominators@, po, n as int) > pass_start,
                n == graph.spec_node_count(),
            decreases k,
        {
            k -= 1;
            let node = order[k];
            proof {
                assert(ord[k as int] != ord[len - 1]);
            }
            let preds = graph.parents(node);
            let mut new_idom: Option<usize> = None;
            let mut j: usize = 0;
            while j < preds.len()
                invariant
                    ranked_tree(dominators@, po, ord, start as int),
                    dominators@.len() == n,
                    po == postorder_idx@,
                    po.len() == n,
                    n == graph.spec_node_count(),
                    forall|a: int| 0 <= a < preds@.len() ==> preds@[a] < n,
                    j <= preds@.len(),
                    match new_idom {
                        Some(f) => f < n && dominators@[f as int] is Some,
                        None => true,
                    },
                decreases preds@.len() - j,
            {
                let p = preds[j];
                if dominators[p].is_some() {
                    new_idom = Some(
                        match new_idom {
                            None => p,
                            Some(f) => nearest_common_dominator(
                                dominators.as_slice(),
                                postorder_idx.as_slice(),
                                f,
                                p,
                                Ghost(start as int),
                                Ghost(ord),
                            ),
                        },
                    );
                }
                j += 1;
            }
            if let Some(new) = new_idom {
                // A changed immediate dominator only ever moves up the current tree, to a
                // node with a higher number.
                let raises = match dominators[node] {
                    None => true,
                    Some(current) => {
                        proof {
                            lemma_tree_node(dominators@, po, ord, start as int, node as int);
                        }
                        postorder_idx[new] > postorder_idx[current]
                    },
                };
                if raises && postorder_idx[new] > postorder_idx[node] {
                    proof {
                        lemma_tree_update(
                            dominators@,
                            po,
                            ord,
                            start as int,
                            node as int,
                            new as int,
                        );
                        lemma_potential_update(
                            dominators@,
                            po,
                            n as int,
                            node as int,
                            Some(new),
                        );
                    }
                    dominators.set(node, Some(new));
                    changed = true;
                }
            }
        }
        proof {
            lemma_potential_bound(dominators@, po, ord, start as int, n as int);
        }
    }
    proof {
        reveal(ranked_tree);
        assert forall|v: int|
            #![trigger dominators@[v]]
            0 <= v < dominators@.len() && dominators@[v] is Some implies reaches_root(
                dominators@,
                start as int,
                v,
                dominators@.len() as nat,
            ) by {
            lemma_start_highest(dominators@, po, ord, start as int, v);
            assert(ord[po[v] as int] == v);
            assert(ord.contains(v as usize));
            assert(post_after(graph, init, run).0.len() == 0 && post_output(graph, init, run).contains(
                v as usize,
            ));
            lemma_reaches_root_more(
                dominators@,
                start as int,
                v,
                (len - po[v]) as nat,
                n as nat,
            );
        }
    }
    dominators
}

/// `d` is the immediate dominator of `v`: a node other than `v` on every path from
/// `start` to `v`, and every other node on all those paths is also on every path from
/// `start` to `d`.
pub open spec fn is_immediate_dominator<G: Children>(graph: G, start: usize, d: usize, v: usize) -> bool {
    &&& d != v
    &&& dominates(graph, start, d, v)
    &&& forall|x: usize| x != v && #[trigger] dominates(graph, start, x, v) ==> dominates(graph, start, x, d)
}

/// `r` lists the immediate dominators of the nodes below the node count: `start` is its
/// own, the nodes that no path from `start` reaches have none, and every other node has its
/// immediate dominator.
pub open spec fn idom_table<G: Children>(graph: G, start: usize, r: Seq<Option<usize>>) -> bool {
    &&& r.len() == graph.spec_node_count()
    &&& r[start as int] == Some(start)
    &&& forall|v: usize|
        v < graph.spec_node_count() ==> (#[trigger] r[v as int] is Some <==> reachable(graph, start, v))
    &&& forall|v: usize|
        v < graph.spec_node_count() && v != start && #[trigger] r[v as int] is Some ==> r[v as int].unwrap()
            < graph.spec_node_count() && is_immediate_dominator(graph, start, r[v as int].unwrap(), v)
}

/// The tables that the searches from `start` give: `reach[v]` for reachable nodes, and
/// `avoid[x][v]` for those reachable without passing `x`.
spec fn tables_exact<G: Children>(
    graph: G,
    start: usize,
    reach: Seq<bool>,
    avoid: Seq<Vec<bool>>,
) -> bool {
    let n = graph.spec_node_count();
    &&& reach.len() == n
    &&& avoid.len() == n
    &&& forall|x: int| 0 <= x < n ==> (#[trigger] avoid[x])@.len() == n
    &&& forall|v: usize| v < n ==> (#[trigger] reach[v as int] <==> reachable(graph, start, v))
    &&& forall|x: usize, v: usize|
        x < n && v < n ==> (#[trigger] avoid[x as int]@[v as int] <==> reachable_avoiding(graph, start, v, x))
    &&& forall|p: Seq<usize>, i: int|
        is_path(graph, p) && p[0] == start && 0 <= i < p.len() ==> #[trigger] p[i] < n
}

/// The table test for `d` being the immediate dominator of `v`.
spec fn qualifies(avoid: Seq<Vec<bool>>, n: usize, d: usize, v: usize) -> bool {
    &&& d < n
    &&& d != v
    &&& !avoid[d as int]@[v as int]
    &&& forall|x: usize|
        x < n && x != v && x != d && !#[trigger] avoid[x as int]@[v as int] ==> !avoid[x as int]@[d as int]
}

/// Decides `qualifies`.
fn check_candidate(avoid: &Vec<Vec<bool>>, n: usize, d: usize, v: usize) -> (r: bool)
    requires
        avoid@.len() == n,
        forall|x: int| 0 <= x < n ==> (#[trigger] avoid@[x])@.len() == n,
        v < n,
    ensures
        r == qualifies(avoid@, n, d, v),
{
    if d >= n || d == v || avoid[d][v] {
        return false;
    }
    let mut x: usize = 0;
    while x < n
        invariant
            avoid@.len() == n,
            forall|y: int| 0 <= y < n ==> (#[trigger] avoid@[y])@.len() == n,
            v < n,
            d < n,
            x <= n,
            forall|y: usize|
                y < x && y != v && y != d && !#[trigger] avoid@[y as int]@[v as int] ==> !avoid@[y as int]@[d as int],
        decreases n - x,
    {
        if x != v && x != d && !avoid[x][v] && avoid[x][d] {
            return false;
        }
        x += 1;
    }
    true
}

/// A path from `a` to `b` followed by one from `b` to `c` is a path from `a` to `c`.
proof fn lemma_path_join<G: Children>(graph: G, q: Seq<usize>, r: Seq<usize>, a: usize, b: usize, c: usize)
    requires
        path_between(graph, q, a, b),
        path_between(graph, r, b, c),
    ensures
        path_between(graph, q + r.drop_first(), a, c),
{
    let j = q + r.drop_first();
    assert forall|i: int| #![trigger graph.spec_children(j[i])] 0 <= i < j.len() - 1 implies graph.spec_children(
        j[i],
    ).contains(j[i + 1]) by {
        if i < q.len() - 1 {
            assert(j[i] == q[i] && j[i + 1] == q[i + 1]);
            assert(graph.spec_children(q[i]).contains(q[i + 1]));
        } else if i == q.len() - 1 {
            assert(j[i] == b && j[i + 1] == r[1]);
            assert(graph.spec_children(r[0]).contains(r[0int + 1]));
        } else {
            let k = i - q.len() + 1;
            assert(j[i] == r[k] && j[i + 1] == r[k + 1]);
            assert(graph.spec_children(r[k]).contains(r[k + 1]));
        }
    }
    if r.len() == 1 {
        assert(j =~= q);
    }
}

/// The part of a path from index `i` on is a path.
proof fn lemma_path_suffix<G: Children>(graph: G, p: Seq<usize>, i: int)
    requires
        is_path(graph, p),
        0 <= i < p.len(),
    ensures
        path_between(graph, p.subrange(i, p.len() as int), p[i], p.last()),
{
    let s = p.subrange(i, p.len() as int);
    assert forall|k: int| #![trigger graph.spec_children(s[k])] 0 <= k < s.len() - 1 implies graph.spec_children(
        s[k],
    ).contains(s[k + 1]) by {
        assert(s[k] == p[i + k] && s[k + 1] == p[i + k + 1]);
        assert(graph.spec_children(p[i + k]).contains(p[(i + k) + 1]));
    }
}

/// Among the positions up to `i` of `p` that hold a strict dominator of `v`, the last one.
proof fn lemma_last_dominator<G: Children>(graph: G, start: usize, v: usize, p: Seq<usize>, i: int) -> (k: int)
    requires
        0 <= i < p.len(),
        p[0] != v,
        dominates(graph, start, p[0], v),
    ensures
        0 <= k <= i,
        p[k] != v && dominates(graph, start, p[k], v),
        forall|j: int| k < j <= i ==> !(p[j] != v && #[trigger] dominates(graph, start, p[j], v)),
    decreases i,
{
    if p[i] != v && dominates(graph, start, p[i], v) {
        i
    } else {
        lemma_last_dominator(graph, start, v, p, i - 1)
    }
}

/// Every node that a path from `start` reaches, other than `start`, has an immediate
/// dominator below the node count that passes the table test.
proof fn lemma_idom_exists<G: Children>(
    graph: G,
    start: usize,
    reach: Seq<bool>,
    avoid: Seq<Vec<bool>>,
    v: usize,
) -> (d: usize)
    requires
        tables_exact(graph, start, reach, avoid),
        start < graph.spec_node_count(),
        graph.spec_node_count() <= usize::MAX,
        v < graph.spec_node_count(),
        v != start,
        reachable(graph, start, v),
    ensures
        qualifies(avoid, graph.spec_node_count() as usize, d, v),
{
    let n = graph.spec_node_count();
    let p = choose|p: Seq<usize>| #[trigger] path_between(graph, p, start, v);
    assert(dominates(graph, start, start, v)) by {
        assert forall|q: Seq<usize>| #[trigger] path_between(graph, q, start, v) implies q.contains(start) by {
            assert(q[0] == start);
        }
    }
    let k = lemma_last_dominator(graph, start, v, p, p.len() - 1);
    let d = p[k];
    assert(d < n);
    assert(!avoid[d as int]@[v as int]);
    assert forall|x: usize|
        x < n && x != v && x != d && !#[trigger] avoid[x as int]@[v as int] implies !avoid[x as int]@[d as int] by {
        assert(dominates(graph, start, x, v));
        if avoid[x as int]@[d as int] {
            let q = choose|q: Seq<usize>| #[trigger] path_between(graph, q, start, d) && !q.contains(x);
            lemma_path_suffix(graph, p, k);
            let rest = p.subrange(k, p.len() as int);
            lemma_path_join(graph, q, rest, start, d, v);
            let whole = q + rest.drop_first();
            assert(!whole.contains(x)) by {
                if whole.contains(x) {
                    let t = choose|t: int| 0 <= t < whole.len() && whole[t] == x;
                    if t >= q.len() {
                        let j = t - q.len() + 1 + k;
                        assert(whole[t] == p[j]);
                        assert(k < j <= p.len() - 1);
                    } else {
                        assert(q[t] == x);
                    }
                }
            }
            assert(whole.contains(x));
        }
    }
    d
}

/// Returns the immediate dominators of all nodes of a `Graph`.
///
/// Except for `start`, the immediate dominators are the parents of their
/// corresponding nodes in the dominator tree. `start` is its own; nodes that no path from
/// `start` reaches have none.
///
/// The fixpoint of Cooper, Harvey and Kennedy proposes each dominator; the searches from
/// `start` that avoid each node in turn confirm it, and a node whose proposal they did not
/// confirm would have its dominator looked up among all nodes.
pub fn immediate_dominators<G>(graph: G, start: usize) -> (r: Vec<Option<usize>>)
    where
        G: Children + Parents + NodeCount,
    requires
        start < graph.spec_node_count(),
    ensures
        idom_table(graph, start, r@),
{
    let hint = cooper_dominators(graph, start);
    let n = graph.node_count();
    let reach = reach_from(graph, start, None);
    let mut avoid: Vec<Vec<bool>> = Vec::new();
    let mut x: usize = 0;
    while x < n
        invariant
            n == graph.spec_node_count(),
            start < n,
            x <= n,
            avoid@.len() == x,
            forall|y: int| 0 <= y < x ==> (#[trigger] avoid@[y])@.len() == n,
            forall|y: usize, v: usize|
                y < x && v < n ==> (#[trigger] avoid@[y as int]@[v as int] <==> reachable_avoiding(
                    graph,
                    start,
                    v,
                    y,
                )),
        decreases n - x,
    {
        let row = reach_from(graph, start, Some(x));
        proof {
            assert forall|v: usize| v < n implies (row@[v as int] <==> reachable_avoiding(graph, start, v, x)) by {
                if row@[v as int] {
                    let p = choose|p: Seq<usize>| #[trigger] path_between(graph, p, start, v) && path_allowed(
                        p,
                        Some(x),
                    );
                    assert(!p.contains(x)) by {
                        if p.contains(x) {
                            let t = choose|t: int| 0 <= t < p.len() && p[t] == x;
                            assert(crate::graph::paths::allowed(Some(x), p[t]));
                        }
                    }
                }
                if reachable_avoiding(graph, start, v, x) {
                    let p = choose|p: Seq<usize>| #[trigger] path_between(graph, p, start, v) && !p.contains(x);
                    assert(path_allowed(p, Some(x))) by {
                        assert forall|i: int| 0 <= i < p.len() implies crate::graph::paths::allowed(
                            Some(x),
                            #[trigger] p[i],
                        ) by {
                            if p[i] == x {
                                assert(p.contains(x));
                            }
                        }
                    }
                }
            }
        }
        avoid.push(row);
        x += 1;
    }
    proof {
        assert forall|v: usize| v < n implies (reach@[v as int] <==> reachable(graph, start, v)) by {
            if reachable(graph, start, v) {
                let p = choose|p: Seq<usize>| #[trigger] path_between(graph, p, start, v);
                assert(path_allowed(p, None));
            }
        }
        assert forall|p: Seq<usize>, i: int|
            is_path(graph, p) && p[0] == start && 0 <= i < p.len() implies #[trigger] p[i] < n by {
            assert(path_allowed(p, None));
        }
        assert(tables_exact(graph, start, reach@, avoid@));
    }
    let mut r: Vec<Option<usize>> = Vec::new();
    let mut v: usize = 0;
    proof {
        assert(path_between(graph, seq![start], start, start));
        assert(reach@[start as int]);
    }
    while v < n
        invariant
            n == graph.spec_node_count(),
            start < n,
            v <= n,
            hint@.len() == n,
            tables_exact(graph, start, reach@, avoid@),
            reach@[start as int],
            r@.len() == v,
            forall|w: usize|
                w < v ==> (#[trigger] r@[w as int] is Some <==> reach@[w as int]),
            v > start ==> r@[start as int] == Some(start),
            forall|w: usize|
                w < v && w != start && #[trigger] r@[w as int] is Some ==> qualifies(
                    avoid@,
                    n,
                    r@[w as int].unwrap(),
                    w,
                ),
        decreases n - v,
    {
        if !reach[v] {
            r.push(None);
        } else if v == start {
            r.push(Some(start));
        } else {
            let proposed = match hint[v] {
                Some(d) => check_candidate(&avoid, n, d, v),
                None => false,
            };
            if proposed {
                r.push(hint[v]);
            } else {
                let mut d: usize = 0;
                let mut found = false;
                while d < n
                    invariant_except_break
                        !found,
                    invariant
                        n == graph.spec_node_count(),
                        v < n,
                        d <= n,
                        avoid@.len() == n,
                        forall|y: int| 0 <= y < n ==> (#[trigger] avoid@[y])@.len() == n,
                        forall|e: usize| e < d ==> !qualifies(avoid@, n, e, v),
                    ensures
                        found ==> qualifies(avoid@, n, d, v),
                        !found ==> forall|e: usize| e < n ==> !qualifies(avoid@, n, e, v),
                    decreases n - d,
                {
                    if check_candidate(&avoid, n, d, v) {
                        found = true;
                        break;
                    }
                    d += 1;
                }
                proof {
                    if !found {
                        let e = lemma_idom_exists(graph, start, reach@, avoid@, v);
                        assert(e < n);
                        assert(false);
                    }
                }
                r.push(Some(d));
            }
        }
        v += 1;
    }
    proof {
        assert forall|w: usize|
            w < n && w != start && #[trigger] r@[w as int] is Some implies r@[w as int].unwrap() < n
                && is_immediate_dominator(graph, start, r@[w as int].unwrap(), w) by {
            let d = r@[w as int].unwrap();
            assert(qualifies(avoid@, n, d, w));
            assert(reachable(graph, start, w));
            assert(dominates(graph, start, d, w)) by {
                assert forall|q: Seq<usize>| #[trigger] path_between(graph, q, start, w) implies q.contains(d) by {
                    if !q.contains(d) {
                        assert(reachable_avoiding(graph, start, w, d));
                    }
                }
            }
            assert forall|y: usize| y != w && #[trigger] dominates(graph, start, y, w) implies dominates(
                graph,
                start,
                y,
                d,
            ) by {
                if y == d {
                    assert forall|q: Seq<usize>| #[trigger] path_between(graph, q, start, d) implies q.contains(
                        d,
                    ) by {
                        assert(q[q.len() - 1] == d);
                    }
                } else if y >= n {
                    let q = choose|q: Seq<usize>| #[trigger] path_between(graph, q, start, w);
                    assert(q.contains(y));
                    let t = choose|t: int| 0 <= t < q.len() && q[t] == y;
                    assert(q[t] < n);
                } else {
                    assert(!avoid@[y as int]@[w as int]) by {
                        if avoid@[y as int]@[w as int] {
                            let q = choose|q: Seq<usize>| #[trigger] path_between(graph, q, start, w) && !q.contains(y);
                        }
                    }
                    assert(!avoid@[y as int]@[d as int]);
                    assert forall|q: Seq<usize>| #[trigger] path_between(graph, q, start, d) implies q.contains(
                        y,
                    ) by {
                        if !q.contains(y) {
                            assert(reachable_avoiding(graph, start, d, y));
                        }
                    }
                }
            }
        }
    }
    r
}

/// The nodes that the walk from `from` up the dominator chain passes before it reaches
/// `stop`: it also ends after `start`, after a node without a dominator, or when `fuel` runs
/// out.
pub open spec fn walk(
    idoms: Seq<Option<usize>>,
    start: int,
    from: int,
    stop: Option<usize>,
    fuel: nat,
) -> Seq<usize>
    decreases fuel,
{
    if stop == Some(from as usize) {
        Seq::empty()
    } else if fuel == 0 || from == start || !(0 <= from < idoms.len()) || idoms[from] is None {
        seq![from as usize]
    } else {
        seq![from as usize] + walk(idoms, start, idoms[from].unwrap() as int, stop, (fuel - 1) as nat)
    }
}

/// `y` stands in the frontier of `b`: it has at least two parents, and the walk from one
/// of them towards `y`'s immediate dominator passes `b`.
pub open spec fn frontier_member<G: Parents>(
    graph: G,
    idoms: Seq<Option<usize>>,
    start: int,
    b: int,
    y: int,
) -> bool {
    let parents = graph.spec_parents(y as usize);
    &&& 0 <= y < graph.spec_node_count()
    &&& parents.len() >= 2
    &&& exists|j: int|
        0 <= j < parents.len() && #[trigger] walk(
            idoms,
            start,
            parents[j] as int,
            idoms[y],
            graph.spec_node_count(),
        ).contains(b as usize)
}

/// Appending keeps what a vector held.
proof fn lemma_push_keeps(v: Seq<usize>, x: usize, y: usize)
    requires
        v.contains(y),
    ensures
        v.push(x).contains(y),
{
    let i = choose|i: int| 0 <= i < v.len() && v[i] == y;
    assert(v.push(x)[i] == y);
}

/// Returns the dominance frontiers of all nodes for the given immediate dominators.
///
/// For every node with two or more parents, walks up from each parent along the
/// dominator chain, adding the node to each frontier on the way, and stops at the node's
/// immediate dominator (or after `start`, after a node without a dominator, or after as
/// many steps as there are nodes, which a chain of true immediate dominators never needs).
pub fn frontiers_from<G>(graph: G, idoms: &Vec<Option<usize>>, start: usize) -> (r: Vec<
    Vec<usize>,
>)
    where
        G: Children + Parents + NodeCount,
    requires
        start < graph.spec_node_count(),
        idoms@.len() == graph.spec_node_count(),
        forall|v: int|
            #![trigger idoms@[v]]
            0 <= v < idoms@.len() && idoms@[v] is Some ==> idoms@[v].unwrap() < idoms@.len(),
    ensures
        r@.len() == graph.spec_node_count(),
        forall|b: int, k: int|
            0 <= b < r@.len() && 0 <= k < r@[b]@.len() ==> frontier_member(
                graph,
                idoms@,
                start as int,
                b,
                r@[b]@[k] as int,
            ),
        forall|y: int, j: int, b: usize|
            0 <= y < graph.spec_node_count() && graph.spec_parents(y as usize).len() >= 2 && 0
                <= j < graph.spec_parents(y as usize).len() && #[trigger] walk(
                idoms@,
                start as int,
                graph.spec_parents(y as usize)[j] as int,
                idoms@[y],
                graph.spec_node_count(),
            ).contains(b) ==> b < r@.len() && r@[b as int]@.contains(y as usize),
{
    let n = graph.node_count();
    let ghost dom = idoms@;
    let mut frontiers: Vec<Vec<usize>> = Vec::new();
    let mut i: usize = 0;
    while i < n
        invariant
            i <= n,
            frontiers@.len() == i,
            forall|b: int| 0 <= b < i ==> (#[trigger] frontiers@[b])@.len() == 0,
        decreases n - i,
    {
        frontiers.push(Vec::new());
        i += 1;
    }
    let mut node: usize = 0;
    while node < n
        invariant
            n == graph.spec_node_count(),
            dom == idoms@,
            dom.len() == n,
            start < n,
            node <= n,
            frontiers@.len() == n,
            forall|v: int|
                #![trigger dom[v]]
                0 <= v < n && dom[v] is Some ==> dom[v].unwrap() < n,
            forall|b: int, k: int|
                0 <= b < n && 0 <= k < frontiers@[b]@.len() ==> frontier_member(
                    graph,
                    dom,
                    start as int,
                    b,
                    frontiers@[b]@[k] as int,
                ),
            forall|y: int, j: int, b: usize|
                0 <= y < node && graph.spec_parents(y as usize).len() >= 2 && 0 <= j
                    < graph.spec_parents(y as usize).len() && #[trigger] walk(
                    dom,
                    start as int,
                    graph.spec_parents(y as usize)[j] as int,
                    dom[y],
                    n as nat,
                ).contains(b) ==> b < n && frontiers@[b as int]@.contains(y as usize),
        decreases n - node,
    {
        let predecessors = graph.parents(node);
        if predecessors.len() >= 2 {
            let mut i: usize = 0;
            while i < predecessors.len()
                invariant
                    n == graph.spec_node_count(),
                    dom == idoms@,
                    dom.len() == n,
                    start < n,
                    node < n,
                    predecessors@ == graph.spec_parents(node),
                    predecessors@.len() >= 2,
                    i <= predecessors@.len(),
                    forall|a: int| 0 <= a < predecessors@.len() ==> predecessors@[a] < n,
                    frontiers@.len() == n,
                    forall|v: int|
                        #![trigger dom[v]]
                        0 <= v < n && dom[v] is Some ==> dom[v].unwrap() < n,
                    forall|b: int, k: int|
                        0 <= b < n && 0 <= k < frontiers@[b]@.len() ==> frontier_member(
                            graph,
                            dom,
                            start as int,
                            b,
                            frontiers@[b]@[k] as int,
                        ),
                    forall|y: int, j: int, b: usize|
                        0 <= y < node && graph.spec_parents(y as usize).len() >= 2 && 0 <= j
                            < graph.spec_parents(y as usize).len() && #[trigger] walk(
                            dom,
                            start as int,
                            graph.spec_parents(y as usize)[j] as int,
                            dom[y],
                            n as nat,
                        ).contains(b) ==> b < n && frontiers@[b as int]@.contains(y as usize),
                    forall|j: int, b: usize|
                        0 <= j < i && #[trigger] walk(
                            dom,
                            start as int,
                            predecessors@[j] as int,
                            dom[node as int],
                            n as nat,
                        ).contains(b) ==> b < n && frontiers@[b as int]@.contains(node),
                decreases predecessors@.len() - i,
            {
                let predecessor = predecessors[i];
                let mut finger = predecessor;
                let mut fuel: usize = n;
                let ghost mut passed: Seq<usize> = Seq::empty();
                let ghost full = walk(dom, start as int, predecessor as int, dom[node as int], n as nat);
                loop
                    invariant_except_break
                        full == passed + walk(dom, start as int, finger as int, dom[node as int], fuel as nat),
                    invariant
                        n == graph.spec_node_count(),
                        dom == idoms@,
                        dom.len() == n,
                        start < n,
                        node < n,
                        finger < n,
                        predecessors@ == graph.spec_parents(node),
                        predecessors@.len() >= 2,
                        0 <= i < predecessors@.len(),
                        predecessors@[i as int] == predecessor,
                        frontiers@.len() == n,
                        full == walk(dom, start as int, predecessor as int, dom[node as int], n as nat),
                        forall|k: int| 0 <= k < passed.len() ==> passed[k] < n,
                        forall|k: int|
                            0 <= k < passed.len() ==> frontiers@[passed[k] as int]@.contains(node),
                        forall|v: int|
                            #![trigger dom[v]]
                            0 <= v < n && dom[v] is Some ==> dom[v].unwrap() < n,
                        forall|b: int, k: int|
                            0 <= b < n && 0 <= k < frontiers@[b]@.len() ==> frontier_member(
                                graph,
                                dom,
                                start as int,
                                b,
                                frontiers@[b]@[k] as int,
                            ),
                        forall|y: int, j: int, b: usize|
                            0 <= y < node && graph.spec_parents(y as usize).len() >= 2 && 0 <= j
                                < graph.spec_parents(y as usize).len() && #[trigger] walk(
                                dom,
                                start as int,
                                graph.spec_parents(y as usize)[j] as int,
                                dom[y],
                                n as nat,
                            ).contains(b) ==> b < n && frontiers@[b as int]@.contains(y as usize),
                        forall|j: int, b: usize|
                            0 <= j < i && #[trigger] walk(
                                dom,
                                start as int,
                                predecessors@[j] as int,
                                dom[node as int],
                                n as nat,
                            ).contains(b) ==> b < n && frontiers@[b as int]@.contains(node),
                    ensures
                        frontiers@.len() == n,
                        forall|b: int, k: int|
                            0 <= b < n && 0 <= k < frontiers@[b]@.len() ==> frontier_member(
                                graph,
                                dom,
                                start as int,
                                b,
                                frontiers@[b]@[k] as int,
                            ),
                        forall|y: int, j: int, b: usize|
                            0 <= y < node && graph.spec_parents(y as usize).len() >= 2 && 0 <= j
                                < graph.spec_parents(y as usize).len() && #[trigger] walk(
                                dom,
                                start as int,
                                graph.spec_parents(y as usize)[j] as int,
                                dom[y],
                                n as nat,
                            ).contains(b) ==> b < n && frontiers@[b as int]@.contains(y as usize),
                        forall|j: int, b: usize|
                            0 <= j < i + 1 && #[trigger] walk(
                                dom,
                                start as int,
                                predecessors@[j] as int,
                                dom[node as int],
                                n as nat,
                            ).contains(b) ==> b < n && frontiers@[b as int]@.contains(node),
                    decreases fuel,
                {
                    let stops = match idoms[node] {
                        Some(d) => d == finger,
                        None => false,
                    };
                    if stops {
                        proof {
                            assert(walk(dom, start as int, finger as int, dom[node as int], fuel as nat)
                                =~= Seq::<usize>::empty());
                            assert(full =~= passed);
                            lemma_walk_done(dom, start as int, predecessors@, i as int, node as int, n, passed, frontiers@);
                        }
                        break;
                    }
                    let ghost before = frontiers@;
                    proof {
                        let rest = walk(dom, start as int, finger as int, dom[node as int], fuel as nat);
                        assert(rest[0] == finger);
                        assert(full[passed.len() as int] == finger);
                        assert(full.contains(finger));
                        assert(frontier_member(graph, dom, start as int, finger as int, node as int));
                    }
                    frontiers[finger].push(node);
                    proof {
                        assert forall|b: int, k: int|
                            0 <= b < n && 0 <= k < frontiers@[b]@.len() implies frontier_member(
                            graph,
                            dom,
                            start as int,
                            b,
                            frontiers@[b]@[k] as int,
                        ) by {
                            if b != finger || k < before[b]@.len() {
                                assert(frontiers@[b]@[k] == before[b]@[k]);
                            }
                        }
                        assert forall|b: int, y: usize|
                            0 <= b < n && before[b]@.contains(y) implies frontiers@[b]@.contains(y) by {
                            if b == finger {
                                lemma_push_keeps(before[b]@, node, y);
                            }
                        }
                        assert(frontiers@[finger as int]@[before[finger as int]@.len() as int] == node);
                        passed = passed.push(finger);
                    }
                    if finger == start || fuel == 0 {
                        proof {
                            assert(walk(dom, start as int, finger as int, dom[node as int], fuel as nat)
                                =~= seq![finger]);
                            assert(full =~= passed);
                            lemma_walk_done(dom, start as int, predecessors@, i as int, node as int, n, passed, frontiers@);
                        }
                        break;
                    }
                    match idoms[finger] {
                        Some(up) => {
                            proof {
                                assert(walk(dom, start as int, finger as int, dom[node as int], fuel as nat)
                                    =~= seq![finger] + walk(
                                    dom,
                                    start as int,
                                    up as int,
                                    dom[node as int],
                                    (fuel - 1) as nat,
                                ));
                                assert(full =~= passed + walk(
                                    dom,
                                    start as int,
                                    up as int,
                                    dom[node as int],
                                    (fuel - 1) as nat,
                                ));
                            }
                            finger = up;
                            fuel = fuel - 1;
                        },
                        None => {
                            proof {
                                assert(walk(dom, start as int, finger as int, dom[node as int], fuel as nat)
                                    =~= seq![finger]);
                                assert(full =~= passed);
                                lemma_walk_done(dom, start as int, predecessors@, i as int, node as int, n, passed, frontiers@);
                            }
                            break;
                        },
                    }
                }
                i += 1;
            }
        } else {
            proof {
                assert(graph.spec_parents(node).len() < 2);
            }
        }
        node += 1;
    }
    frontiers
}

/// Once the walk from the parent at `i` is done, every node it passed has `node` in its
/// frontier, as had those of the walks from the parents before.
proof fn lemma_walk_done(
    dom: Seq<Option<usize>>,
    start: int,
    predecessors: Seq<usize>,
    i: int,
    node: int,
    n: usize,
    passed: Seq<usize>,
    frontiers: Seq<Vec<usize>>,
)
    requires
        0 <= i < predecessors.len(),
        passed == walk(dom, start, predecessors[i] as int, dom[node], n as nat),
        forall|k: int| 0 <= k < passed.len() ==> passed[k] < n,
        forall|k: int| 0 <= k < passed.len() ==> frontiers[passed[k] as int]@.contains(node as usize),
    ensures
        forall|b: usize|
            #[trigger] walk(dom, start, predecessors[i] as int, dom[node], n as nat).contains(b)
                ==> b < n && frontiers[b as int]@.contains(node as usize),
{
    assert forall|b: usize|
        #[trigger] walk(dom, start, predecessors[i] as int, dom[node], n as nat).contains(b) implies b
        < n && frontiers[b as int]@.contains(node as usize) by {
        let k = choose|k: int| 0 <= k < passed.len() && passed[k] == b;
    }
}

/// Returns the dominance frontiers of all nodes of a directed graph.
///
/// The dominance frontier of a node `b` is the set of all nodes `y`
/// such that `b` dominates a predecessor of `y` but does not strictly
/// dominate `y`. The frontiers are those that `frontiers_from` derives from the dominator
/// tree that `immediate_dominators` computes.
pub fn frontiers<G>(graph: G, start: usize) -> (r: Vec<Vec<usize>>)
    where
        G: Children + Parents + NodeCount,
    requires
        start < graph.spec_node_count(),
        forall|y: usize, j: int|
            y < graph.spec_node_count() && graph.spec_parents(y).len() >= 2 && 0 <= j
                < graph.spec_parents(y).len() ==> reachable(graph, start, #[trigger] graph.spec_parents(y)[j]),
    ensures
        r@.len() == graph.spec_node_count(),
        exists|idoms: Seq<Option<usize>>|
            {
                &&& idom_table(graph, start, idoms)
                &&& forall|b: int, k: int|
                    0 <= b < r@.len() && 0 <= k < r@[b]@.len() ==> frontier_member(
                        graph,
                        idoms,
                        start as int,
                        b,
                        r@[b]@[k] as int,
                    )
                &&& forall|y: int, j: int, b: usize|
                    0 <= y < graph.spec_node_count() && graph.spec_parents(y as usize).len() >= 2
                        && 0 <= j < graph.spec_parents(y as usize).len() && #[trigger] walk(
                        idoms,
                        start as int,
                        graph.spec_parents(y as usize)[j] as int,
                        idoms[y],
                        graph.spec_node_count(),
                    ).contains(b) ==> b < r@.len() && r@[b as int]@.contains(y as usize)
            },
{
    let idoms = immediate_dominators(graph, start);
    let r = frontiers_from(graph, &idoms, start);
    proof {
        let d = idoms@;
        assert(idom_table(graph, start, d));
        assert forall|v: int| 0 <= v < d.len() && d[v] is Some implies d[v].unwrap() < d.len() by {
            if v as usize != start {
                assert(d[(v as usize) as int] is Some);
            }
        }
    }
    r
}

} // verus!
