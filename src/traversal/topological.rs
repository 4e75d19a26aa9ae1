//! Topological traversal
//! <https://en.wikipedia.org/wiki/Topological_sorting>

use vstd::prelude::*;
use crate::graph::traits::Children;

verus! {

/// The number of times `v` occurs in `s`.
pub open spec fn occurrences(s: Seq<usize>, v: int) -> nat
    decreases s.len(),
{
    if s.len() == 0 {
        0
    } else {
        occurrences(s.drop_last(), v) + if s.last() as int == v {
            1nat
        } else {
            0nat
        }
    }
}

/// The number of edges into `v` from the nodes below `k`.
pub open spec fn in_count<G: Children>(graph: G, v: int, k: int) -> nat
    decreases k,
{
    if k <= 0 {
        0
    } else {
        in_count(graph, v, k - 1) + occurrences(graph.spec_children((k - 1) as usize), v)
    }
}

/// The positions below `k` whose entry in `deg` is zero, in increasing order.
pub open spec fn zero_positions(deg: Seq<usize>, k: int) -> Seq<usize>
    decreases k,
{
    if k <= 0 {
        Seq::empty()
    } else {
        zero_positions(deg, k - 1) + if deg[k - 1] == 0 {
            seq![(k - 1) as usize]
        } else {
            Seq::empty()
        }
    }
}

/// The sum of the entries of `s`.
pub open spec fn total(s: Seq<usize>) -> nat
    decreases s.len(),
{
    if s.len() == 0 {
        0
    } else {
        total(s.drop_last()) + s.last() as nat
    }
}

proof fn lemma_total_update(s: Seq<usize>, i: int, x: usize)
    requires
        0 <= i < s.len(),
    ensures
        total(s.update(i, x)) + s[i] == total(s) + x,
    decreases s.len(),
{
    if i < s.len() - 1 {
        assert(s.update(i, x).drop_last() =~= s.drop_last().update(i, x));
        lemma_total_update(s.drop_last(), i, x);
    } else {
        assert(s.update(i, x).drop_last() =~= s.drop_last());
    }
}

proof fn lemma_occurrences_push(s: Seq<usize>, x: usize, v: int)
    ensures
        occurrences(s.push(x), v) == occurrences(s, v) + if x as int == v {
            1nat
        } else {
            0nat
        },
{
    assert(s.push(x).drop_last() =~= s);
}

/// The smaller of two naturals.
pub open spec fn min_nat(a: nat, b: nat) -> nat {
    if a < b {
        a
    } else {
        b
    }
}

/// Takes the edges to `kids` away from the in-degrees `deg`, one at a time, left to right:
/// returns the new in-degrees and the nodes whose in-degree reached zero, in that order. An
/// in-degree that is already zero stays zero.
pub open spec fn release(kids: Seq<usize>, deg: Seq<usize>) -> (Seq<usize>, Seq<usize>)
    decreases kids.len(),
{
    if kids.len() == 0 {
        (deg, Seq::empty())
    } else {
        let (d1, p1) = release(kids.drop_last(), deg);
        let c = kids.last() as int;
        if c < d1.len() && d1[c] > 0 {
            (
                d1.update(c, (d1[c] - 1) as usize),
                if d1[c] == 1 {
                    p1.push(c as usize)
                } else {
                    p1
                },
            )
        } else {
            (d1, p1)
        }
    }
}

/// One step of Kahn's algorithm on (stack, in-degrees): the top of the stack leaves it, its
/// outgoing edges are taken away, and the children left without incoming edges are pushed.
pub open spec fn topo_step<G: Children>(graph: G, state: (Seq<usize>, Seq<usize>)) -> (
    Seq<usize>,
    Seq<usize>,
) {
    let (stack, deg) = state;
    if stack.len() == 0 {
        state
    } else {
        let (d, pushed) = release(graph.spec_children(stack.last()), deg);
        (stack.drop_last() + pushed, d)
    }
}

/// The state after `k` steps.
pub open spec fn topo_after<G: Children>(graph: G, state: (Seq<usize>, Seq<usize>), k: nat) -> (
    Seq<usize>,
    Seq<usize>,
)
    decreases k,
{
    if k == 0 {
        state
    } else {
        topo_step(graph, topo_after(graph, state, (k - 1) as nat))
    }
}

/// The nodes that the first `k` steps produce.
pub open spec fn topo_output<G: Children>(graph: G, state: (Seq<usize>, Seq<usize>), k: nat) -> Seq<
    usize,
>
    decreases k,
{
    if k == 0 {
        Seq::empty()
    } else {
        topo_output(graph, state, (k - 1) as nat) + seq![
            topo_after(graph, state, (k - 1) as nat).0.last(),
        ]
    }
}

/// Topological traversal.
/// Works for directed, acyclic graphs. Uses Kahn's algorithm.
/// Time complexity: O(|V| + |E|)
/// Space complexity: O(|V|)
pub struct Topological<G> {
    /// Reference to the graph
    graph: G,
    /// The in-degree of each node
    in_degree: Vec<usize>,
    /// The stack of nodes with no parents
    stack: Vec<usize>,
}

impl<G: Children> Topological<G> {
    /// The graph being traversed.
    pub closed spec fn spec_graph(&self) -> G {
        self.graph
    }

    /// The number of edges into each node from nodes not produced yet.
    pub closed spec fn spec_in_degree(&self) -> Seq<usize> {
        self.in_degree@
    }

    /// The nodes ready to be produced; the last one comes next.
    pub closed spec fn spec_stack(&self) -> Seq<usize> {
        self.stack@
    }

    /// Every stacked node has an in-degree entry.
    pub closed spec fn wf(&self) -> bool {
        forall|k: int| 0 <= k < self.stack@.len() ==> self.stack@[k] < self.in_degree@.len()
    }

    /// Create a new `Topological` iterator: it counts the edges into each node (an in-degree
    /// past `usize::MAX` stays there) and stacks the nodes without any, in increasing order.
    pub fn new(graph: G) -> (r: Self)
        ensures
            r.wf(),
            r.spec_graph() == graph,
            r.spec_in_degree().len() == graph.spec_node_count(),
            forall|v: int|
                0 <= v < graph.spec_node_count() ==> r.spec_in_degree()[v] as nat == min_nat(
                    in_count(graph, v, graph.spec_node_count() as int),
                    usize::MAX as nat,
                ),
            r.spec_stack() == zero_positions(r.spec_in_degree(), graph.spec_node_count() as int),
    {
        let n = graph.node_count();
        let mut in_degree: Vec<usize> = vec![0; n];
        let mut node: usize = 0;
        while node < n
            invariant
                n == graph.spec_node_count(),
                node <= n,
                in_degree@.len() == n,
                forall|v: int|
                    0 <= v < n ==> in_degree@[v] as nat == min_nat(
                        in_count(graph, v, node as int),
                        usize::MAX as nat,
                    ),
            decreases n - node,
        {
            let children = graph.children(node);
            let mut j: usize = 0;
            while j < children.len()
                invariant
                    n == graph.spec_node_count(),
                    node < n,
                    in_degree@.len() == n,
                    children@ == graph.spec_children(node),
                    forall|k: int| 0 <= k < children@.len() ==> children@[k] < n,
                    0 <= j <= children@.len(),
                    forall|v: int|
                        0 <= v < n ==> in_degree@[v] as nat == min_nat(
                            in_count(graph, v, node as int) + occurrences(
                                children@.subrange(0, j as int),
                                v,
                            ),
                            usize::MAX as nat,
                        ),
                decreases children@.len() - j,
            {
                let child = children[j];
                let bumped = in_degree[child].saturating_add(1);
                in_degree.set(child, bumped);
                proof {
                    assert(children@.subrange(0, j + 1) =~= children@.subrange(0, j as int).push(
                        child,
                    ));
                    assert forall|v: int| 0 <= v < n implies in_degree@[v] as nat == min_nat(
                        in_count(graph, v, node as int) + occurrences(
                            children@.subrange(0, j + 1),
                            v,
                        ),
                        usize::MAX as nat,
                    ) by {
                        lemma_occurrences_push(children@.subrange(0, j as int), child, v);
                    }
                }
                j += 1;
            }
            proof {
                assert(children@.subrange(0, j as int) =~= children@);
            }
            node += 1;
        }
        let mut stack: Vec<usize> = Vec::new();
        let mut i: usize = 0;
        while i < n
            invariant
                i <= n,
                in_degree@.len() == n,
                stack@ == zero_positions(in_degree@, i as int),
                forall|k: int| 0 <= k < stack@.len() ==> stack@[k] < i,
            decreases n - i,
        {
            if in_degree[i] == 0 {
                stack.push(i);
            }
            i += 1;
        }
        Self { graph, in_degree, stack }
    }

    /// Produces the top of the stack and takes its outgoing edges away from the in-degrees,
    /// stacking each child whose in-degree reaches zero.
    pub fn next(&mut self) -> (r: Option<usize>)
        requires
            old(self).wf(),
        ensures
            final(self).wf(),
            final(self).spec_graph() == old(self).spec_graph(),
            final(self).spec_in_degree().len() == old(self).spec_in_degree().len(),
            old(self).spec_stack().len() == 0 ==> r is None && final(self).spec_stack()
                == old(self).spec_stack() && final(self).spec_in_degree() == old(self).spec_in_degree(),
            old(self).spec_stack().len() > 0 ==> {
                let node = old(self).spec_stack().last();
                let kids = old(self).spec_graph().spec_children(node);
                &&& r == Some(node)
                &&& (final(self).spec_stack(), final(self).spec_in_degree()) == topo_step(
                    old(self).spec_graph(),
                    (old(self).spec_stack(), old(self).spec_in_degree()),
                )
                &&& forall|v: int|
                    0 <= v < old(self).spec_in_degree().len() ==> final(self).spec_in_degree()[v]
                        == old(self).spec_in_degree()[v] - min_nat(
                        old(self).spec_in_degree()[v] as nat,
                        occurrences(kids, v),
                    )
                &&& final(self).spec_stack().subrange(0, old(self).spec_stack().len() - 1)
                    == old(self).spec_stack().drop_last()
                &&& forall|k: int|
                    #![trigger final(self).spec_stack()[k]]
                    old(self).spec_stack().len() - 1 <= k < final(self).spec_stack().len() ==> {
                        let v = final(self).spec_stack()[k] as int;
                        final(self).spec_in_degree()[v] == 0 && old(self).spec_in_degree()[v] > 0
                    }
            },
            r is Some ==> total(final(self).spec_in_degree()) < total(old(self).spec_in_degree())
                || (total(final(self).spec_in_degree()) == total(old(self).spec_in_degree())
                && final(self).spec_stack().len() < old(self).spec_stack().len()),
    {
        let node = match self.stack.pop() {
            Some(node) => node,
            None => return None,
        };
        let children = self.graph.children(node);
        let ghost start_degree = self.in_degree@;
        let ghost base = self.stack@;
        let mut j: usize = 0;
        proof {
            assert(children@.subrange(0, 0) =~= Seq::<usize>::empty());
            assert(base + Seq::<usize>::empty() =~= base);
        }
        while j < children.len()
            invariant
                self.graph == old(self).graph,
                0 <= j <= children@.len(),
                children@ == old(self).graph.spec_children(node),
                self.in_degree@.len() == start_degree.len(),
                forall|v: int|
                    0 <= v < start_degree.len() ==> self.in_degree@[v] == start_degree[v] - min_nat(
                        start_degree[v] as nat,
                        occurrences(children@.subrange(0, j as int), v),
                    ),
                base.len() <= self.stack@.len(),
                self.stack@.subrange(0, base.len() as int) == base,
                forall|k: int| 0 <= k < base.len() ==> base[k] < start_degree.len(),
                forall|k: int|
                    #![trigger self.stack@[k]]
                    base.len() <= k < self.stack@.len() ==> {
                        let v = self.stack@[k] as int;
                        0 <= v < start_degree.len() && self.in_degree@[v] == 0 && start_degree[v] > 0
                    },
                total(self.in_degree@) + (self.stack@.len() - base.len()) <= total(start_degree),
                self.stack@.len() > base.len() ==> total(self.in_degree@) < total(start_degree),
                total(self.in_degree@) <= total(start_degree),
                self.in_degree@ == release(children@.subrange(0, j as int), start_degree).0,
                self.stack@ == base + release(children@.subrange(0, j as int), start_degree).1,
            decreases children@.len() - j,
        {
            let child = children[j];
            let ghost before_degree = self.in_degree@;
            let ghost before_stack = self.stack@;
            proof {
                assert(children@.subrange(0, j + 1) =~= children@.subrange(0, j as int).push(child));
                assert(children@.subrange(0, j + 1).drop_last() =~= children@.subrange(0, j as int));
                assert forall|v: int| 0 <= v < start_degree.len() implies 
                    occurrences(children@.subrange(0, j + 1), v) == occurrences(
                        children@.subrange(0, j as int),
                        v,
                    ) + if child as int == v { 1nat } else { 0nat } by {
                    lemma_occurrences_push(children@.subrange(0, j as int), child, v);
                }
            }
            if child < self.in_degree.len() && self.in_degree[child] > 0 {
                let lowered = self.in_degree[child] - 1;
                self.in_degree.set(child, lowered);
                proof {
                    lemma_total_update(before_degree, child as int, lowered);
                }
                if lowered == 0 {
                    self.stack.push(child);
                    proof {
                        assert(self.stack@.subrange(0, base.len() as int) =~= before_stack.subrange(
                            0,
                            base.len() as int,
                        ));
                        assert(self.stack@ =~= base + release(children@.subrange(0, j + 1), start_degree).1);
                    }
                }
            }
            j += 1;
        }
        proof {
            assert(children@.subrange(0, j as int) =~= children@);
            assert(old(self).stack@.drop_last() == base);
            assert forall|k: int| 0 <= k < self.stack@.len() implies self.stack@[k]
                < self.in_degree@.len() by {
                if k < base.len() {
                    assert(self.stack@.subrange(0, base.len() as int)[k] == self.stack@[k]);
                }
            }
        }
        Some(node)
    }

    /// Produces the remaining nodes in order, until no node is ready: the nodes of as many
    /// steps as it takes to empty the stack.
    pub fn into_vec(self) -> (r: Vec<usize>)
        requires
            self.wf(),
        ensures
            exists|k: nat|
                r@ == topo_output(self.spec_graph(), (self.spec_stack(), self.spec_in_degree()), k)
                    && topo_after(
                    self.spec_graph(),
                    (self.spec_stack(), self.spec_in_degree()),
                    k,
                ).0.len() == 0,
    {
        let ghost init = (self.stack@, self.in_degree@);
        let mut it = self;
        let mut out: Vec<usize> = Vec::new();
        loop
            invariant
                it.wf(),
                it.graph == self.graph,
                init == (self.stack@, self.in_degree@),
                out@ == topo_output(self.graph, init, out@.len() as nat),
                (it.stack@, it.in_degree@) == topo_after(self.graph, init, out@.len() as nat),
            decreases total(it.in_degree@), it.stack@.len(),
        {
            let ghost k = out@.len() as nat;
            let ghost before = it;
            match it.next() {
                Some(node) => {
                    out.push(node);
                    proof {
                        assert(out@ =~= topo_output(self.graph, init, k + 1));
                    }
                },
                None => {
                    proof {
                        assert(before.stack@.len() == 0);
                        assert(init == (self.spec_stack(), self.spec_in_degree()));
                        assert(out@ == topo_output(
                            self.spec_graph(),
                            (self.spec_stack(), self.spec_in_degree()),
                            k,
                        ) && topo_after(
                            self.spec_graph(),
                            (self.spec_stack(), self.spec_in_degree()),
                            k,
                        ).0.len() == 0);
                    }
                    return out;
                },
            }
        }
    }
}

} // verus!
