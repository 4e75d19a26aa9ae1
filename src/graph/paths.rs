//! Paths through a graph, reachability and dominance, and a search that decides them.
use vstd::prelude::*;
use super::traits::Children;
use super::visit_map::{lemma_unseen_below, unseen_below};

verus! {

/// `p` is a nonempty sequence of nodes, each a child of the one before.
pub open spec fn is_path<G: Children>(graph: G, p: Seq<usize>) -> bool {
    &&& p.len() >= 1
    &&& forall|i: int|
        #![trigger graph.spec_children(p[i])]
        0 <= i < p.len() - 1 ==> graph.spec_children(p[i]).contains(p[i + 1])
}

/// `p` is a path from `from` to `to`.
pub open spec fn path_between<G: Children>(graph: G, p: Seq<usize>, from: usize, to: usize) -> bool {
    is_path(graph, p) && p[0] == from && p.last() == to
}

/// Some path leads from `start` to `v`.
pub open spec fn reachable<G: Children>(graph: G, start: usize, v: usize) -> bool {
    exists|p: Seq<usize>| #[trigger] path_between(graph, p, start, v)
}

/// Some path leads from `start` to `v` without passing `x`.
pub open spec fn reachable_avoiding<G: Children>(graph: G, start: usize, v: usize, x: usize) -> bool {
    exists|p: Seq<usize>| #[trigger] path_between(graph, p, start, v) && !p.contains(x)
}

/// `d` lies on every path from `start` to `v`.
pub open spec fn dominates<G: Children>(graph: G, start: usize, d: usize, v: usize) -> bool {
    forall|p: Seq<usize>| #[trigger] path_between(graph, p, start, v) ==> p.contains(d)
}

/// Whether the search may enter `v`: every node but the avoided one.
pub open spec fn allowed(avoid: Option<usize>, v: usize) -> bool {
    match avoid {
        Some(x) => v != x,
        None => true,
    }
}

/// A path that enters no node the search may not.
pub open spec fn path_allowed(p: Seq<usize>, avoid: Option<usize>) -> bool {
    forall|i: int| 0 <= i < p.len() ==> allowed(avoid, #[trigger] p[i])
}

/// Whether flag `i` of `v` is set.
spec fn seen_flag(v: Seq<bool>, i: int) -> bool {
    0 <= i < v.len() && v[i]
}

/// Extending a path by a child of its end.
proof fn lemma_path_push<G: Children>(graph: G, p: Seq<usize>, from: usize, to: usize, c: usize)
    requires
        path_between(graph, p, from, to),
        graph.spec_children(to).contains(c),
    ensures
        path_between(graph, p.push(c), from, c),
{
    let q = p.push(c);
    assert forall|i: int| #![trigger graph.spec_children(q[i])] 0 <= i < q.len() - 1 implies graph.spec_children(q[i]).contains(
        q[i + 1],
    ) by {
        if i < p.len() - 1 {
            assert(q[i] == p[i] && q[i + 1] == p[i + 1]);
        } else {
            assert(q[i] == to && q[i + 1] == c);
        }
    }
}

/// A set of marked nodes that holds `p[0]` and every allowed child of a marked node holds
/// every node of an allowed path.
proof fn lemma_closed_path<G: Children>(
    graph: G,
    p: Seq<usize>,
    marked: Seq<bool>,
    n: nat,
    avoid: Option<usize>,
    k: int,
)
    requires
        is_path(graph, p),
        path_allowed(p, avoid),
        p[0] < n,
        marked.len() == n,
        marked[p[0] as int],
        forall|u: usize, c: usize|
            u < n && marked[u as int] && #[trigger] graph.spec_children(u).contains(c) ==> c < n
                && (!allowed(avoid, c) || marked[c as int]),
        0 <= k < p.len(),
    ensures
        p[k] < n && marked[p[k] as int],
    decreases k,
{
    if k > 0 {
        lemma_closed_path(graph, p, marked, n, avoid, k - 1);
        assert(graph.spec_children(p[k - 1]).contains(p[(k - 1) + 1]));
        assert(allowed(avoid, p[k]));
    }
}

/// Marks the nodes below `n` that a path from `start` reaches without entering the avoided
/// node; the search never enters it.
pub fn reach_from<G: Children>(graph: G, start: usize, avoid: Option<usize>) -> (r: Vec<bool>)
    requires
        start < graph.spec_node_count(),
    ensures
        r@.len() == graph.spec_node_count(),
        forall|v: usize|
            v < graph.spec_node_count() ==> (r@[v as int] <==> exists|p: Seq<usize>|
                #[trigger] path_between(graph, p, start, v) && path_allowed(p, avoid)),
        forall|p: Seq<usize>, i: int|
            is_path(graph, p) && p[0] == start && path_allowed(p, avoid) && 0 <= i < p.len()
                ==> #[trigger] p[i] < graph.spec_node_count(),
{
    let n = graph.node_count();
    let mut marked: Vec<bool> = vec![false; n];
    let mut stack: Vec<usize> = Vec::new();
    let start_allowed = match avoid {
        Some(x) => x != start,
        None => true,
    };
    if start_allowed {
        marked.set(start, true);
        stack.push(start);
        proof {
            assert(path_between(graph, seq![start], start, start));
            assert(path_allowed(seq![start], avoid));
        }
    }
    loop
        invariant
            n == graph.spec_node_count(),
            start < n,
            start_allowed == allowed(avoid, start),
            marked@.len() == n,
            start_allowed ==> marked@[start as int],
            forall|k: int| 0 <= k < stack@.len() ==> stack@[k] < n && marked@[stack@[k] as int],
            forall|i: int, j: int| 0 <= i < j < stack@.len() ==> stack@[i] != stack@[j],
            forall|v: usize|
                v < n && #[trigger] marked@[v as int] ==> allowed(avoid, v) && exists|p: Seq<usize>|
                    #[trigger] path_between(graph, p, start, v) && path_allowed(p, avoid),
            forall|u: usize, c: usize|
                u < n && marked@[u as int] && !stack@.contains(u)
                    && #[trigger] graph.spec_children(u).contains(c) ==> c < n && (!allowed(
                    avoid,
                    c,
                ) || marked@[c as int]),
        ensures
            marked@.len() == n,
            start_allowed ==> marked@[start as int],
            stack@.len() == 0,
            forall|v: usize|
                v < n && #[trigger] marked@[v as int] ==> allowed(avoid, v) && exists|p: Seq<usize>|
                    #[trigger] path_between(graph, p, start, v) && path_allowed(p, avoid),
            forall|u: usize, c: usize|
                u < n && marked@[u as int] && !stack@.contains(u)
                    && #[trigger] graph.spec_children(u).contains(c) ==> c < n && (!allowed(
                    avoid,
                    c,
                ) || marked@[c as int]),
        decreases unseen_below(marked@, n as nat), stack@.len(),
    {
        let ghost whole = stack@;
        let u = match stack.pop() {
            Some(u) => u,
            None => break,
        };
        let ghost popped_from = marked@;
        proof {
            assert(whole =~= stack@.push(u));
            assert(!stack@.contains(u)) by {
                if stack@.contains(u) {
                    let k = choose|k: int| 0 <= k < stack@.len() && stack@[k] == u;
                    assert(whole[k] == whole[whole.len() - 1]);
                }
            }
            assert forall|w: usize| w != u && !stack@.contains(w) implies !whole.contains(w) by {
                if whole.contains(w) {
                    let k = choose|k: int| 0 <= k < whole.len() && whole[k] == w;
                    assert(stack@[k] == w);
                }
            }
        }
        let children = graph.children(u);
        let ghost pu = choose|p: Seq<usize>|
            #[trigger] path_between(graph, p, start, u) && path_allowed(p, avoid);
        let ghost base = stack@;
        let mut j: usize = 0;
        while j < children.len()
            invariant
                n == graph.spec_node_count(),
                start < n,
                start_allowed == allowed(avoid, start),
                marked@.len() == n,
                start_allowed ==> marked@[start as int],
                u < n,
                marked@[u as int],
                path_between(graph, pu, start, u) && path_allowed(pu, avoid),
                children@ == graph.spec_children(u),
                forall|k: int| 0 <= k < children@.len() ==> children@[k] < n,
                j <= children@.len(),
                forall|k: int| 0 <= k < j ==> !allowed(avoid, children@[k]) || marked@[children@[k] as int],
                forall|k: int| 0 <= k < stack@.len() ==> stack@[k] < n && marked@[stack@[k] as int],
                forall|k: int| 0 <= k < base.len() ==> stack@[k] == base[k],
                base.len() <= stack@.len(),
                !base.contains(u),
                forall|i: int, j: int| 0 <= i < j < stack@.len() ==> stack@[i] != stack@[j],
                forall|k: int| base.len() <= k < stack@.len() ==> stack@[k] != u,
                forall|v: usize|
                    v < n && #[trigger] marked@[v as int] ==> allowed(avoid, v) && exists|p: Seq<usize>|
                        #[trigger] path_between(graph, p, start, v) && path_allowed(p, avoid),
                forall|w: usize, c: usize|
                    w < n && w != u && marked@[w as int] && !stack@.contains(w)
                        && #[trigger] graph.spec_children(w).contains(c) ==> c < n && (!allowed(
                        avoid,
                        c,
                    ) || marked@[c as int]),
                forall|i: int| 0 <= i < n && seen_flag(popped_from, i) ==> seen_flag(marked@, i),
                popped_from.len() == n,
                unseen_below(marked@, n as nat) <= unseen_below(popped_from, n as nat),
                stack@.len() > base.len() ==> unseen_below(marked@, n as nat) < unseen_below(
                    popped_from,
                    n as nat,
                ),
            decreases children@.len() - j,
        {
            let c = children[j];
            let ok = match avoid {
                Some(x) => x != c,
                None => true,
            };
            if ok && !marked[c] {
                let ghost before = marked@;
                let ghost before_stack = stack@;
                marked.set(c, true);
                stack.push(c);
                proof {
                    lemma_path_push(graph, pu, start, u, c);
                    assert(children@[j as int] == c);
                    assert(path_allowed(pu.push(c), avoid)) by {
                        assert forall|i: int| 0 <= i < pu.push(c).len() implies allowed(
                            avoid,
                            #[trigger] pu.push(c)[i],
                        ) by {
                            if i < pu.len() {
                                assert(pu.push(c)[i] == pu[i]);
                            }
                        }
                    }
                    assert forall|i: int| 0 <= i < n && seen_flag(before, i) implies seen_flag(marked@, i) by {}
                    lemma_unseen_below(before, marked@, n as nat, c as int);
                    assert forall|i: int, k: int| 0 <= i < k < stack@.len() implies stack@[i] != stack@[k] by {
                        if k == stack@.len() - 1 {
                            assert(before[stack@[i] as int]);
                        }
                    }
                    assert forall|w: usize, d: usize|
                        w < n && w != u && marked@[w as int] && !stack@.contains(w)
                            && #[trigger] graph.spec_children(w).contains(d) implies d < n
                            && (!allowed(avoid, d) || marked@[d as int]) by {
                        if w != c {
                            if before_stack.contains(w) {
                                let k = choose|k: int| 0 <= k < before_stack.len() && before_stack[k] == w;
                                assert(stack@[k] == w);
                            }
                        } else {
                            assert(stack@[stack@.len() - 1] == c);
                        }
                    }
                    assert forall|v: usize|
                        v < n && #[trigger] marked@[v as int] implies allowed(avoid, v) && exists|p: Seq<
                            usize,
                        >| #[trigger] path_between(graph, p, start, v) && path_allowed(p, avoid) by {
                        if v == c {
                            assert(path_between(graph, pu.push(c), start, c));
                        } else {
                            assert(before[v as int]);
                        }
                    }
                }
            }
            j += 1;
        }
        proof {
            assert forall|w: usize, c: usize|
                w < n && marked@[w as int] && !stack@.contains(w)
                    && #[trigger] graph.spec_children(w).contains(c) implies c < n && (!allowed(
                    avoid,
                    c,
                ) || marked@[c as int]) by {
                if w == u {
                    let k = choose|k: int| 0 <= k < children@.len() && children@[k] == c;
                } else {
                    if stack@.contains(w) {
                        let k = choose|k: int| 0 <= k < stack@.len() && stack@[k] == w;
                        assert(k >= base.len());
                    }
                    if base.contains(w) {
                        let k = choose|k: int| 0 <= k < base.len() && base[k] == w;
                        assert(stack@[k] == w);
                    }
                }
            }
        }
    }
    proof {
        assert forall|u: usize, c: usize|
            u < n && marked@[u as int] && #[trigger] graph.spec_children(u).contains(c) implies c < n
                && (!allowed(avoid, c) || marked@[c as int]) by {
            assert(!stack@.contains(u));
        }
        assert forall|p: Seq<usize>, i: int|
            is_path(graph, p) && p[0] == start && path_allowed(p, avoid) && 0 <= i < p.len()
                implies #[trigger] p[i] < n by {
            assert(allowed(avoid, p[0]));
            lemma_closed_path(graph, p, marked@, n as nat, avoid, i);
        }
        assert forall|v: usize| v < n implies (marked@[v as int] <==> exists|p: Seq<usize>|
            #[trigger] path_between(graph, p, start, v) && path_allowed(p, avoid)) by {
            if exists|p: Seq<usize>| #[trigger] path_between(graph, p, start, v) && path_allowed(p, avoid) {
                let p = choose|p: Seq<usize>| #[trigger] path_between(graph, p, start, v) && path_allowed(
                    p,
                    avoid,
                );
                assert(allowed(avoid, p[0]));
                lemma_closed_path(graph, p, marked@, n as nat, avoid, p.len() - 1);
            }
        }
    }
    marked
}

} // verus!
