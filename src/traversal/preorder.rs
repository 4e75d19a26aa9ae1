//! Preorder traversal

use vstd::prelude::*;
use crate::graph::{traits::Children, visit_map::{lemma_unseen_below, seen, unseen_below, VisitMap}};
use super::{fresh, listed_in, mark_fresh, marks};

verus! {

/// One pre-order step on (stack, discovered nodes): the top of the stack leaves it, and its
/// children not discovered yet are pushed in order and discovered.
pub open spec fn pre_step<G: Children>(graph: G, state: (Seq<usize>, Set<int>)) -> (
    Seq<usize>,
    Set<int>,
) {
    let (stack, marked) = state;
    if stack.len() == 0 {
        state
    } else {
        let kids = graph.spec_children(stack.last());
        (
            stack.drop_last() + fresh(kids, marked),
            marked.union(Set::new(|i: int| listed_in(kids, i))),
        )
    }
}

/// The state after `k` pre-order steps.
pub open spec fn pre_after<G: Children>(graph: G, state: (Seq<usize>, Set<int>), k: nat) -> (
    Seq<usize>,
    Set<int>,
)
    decreases k,
{
    if k == 0 {
        state
    } else {
        pre_step(graph, pre_after(graph, state, (k - 1) as nat))
    }
}

/// The nodes that the first `k` pre-order steps produce.
pub open spec fn pre_output<G: Children>(graph: G, state: (Seq<usize>, Set<int>), k: nat) -> Seq<
    usize,
>
    decreases k,
{
    if k == 0 {
        Seq::empty()
    } else {
        pre_output(graph, state, (k - 1) as nat) + seq![
            pre_after(graph, state, (k - 1) as nat).0.last(),
        ]
    }
}

/// Preorder traversal.
pub struct PreOrder<G> {
    /// Reference to the graph
    graph: G,
    /// The stack of nodes to visit
    stack: Vec<usize>,
    /// The map of discovered nodes
    discovered: VisitMap,
}

impl<G: Children> PreOrder<G> {
    /// The graph being traversed.
    pub closed spec fn spec_graph(&self) -> G {
        self.graph
    }

    /// The nodes waiting to be produced; the last one comes next.
    pub closed spec fn spec_stack(&self) -> Seq<usize> {
        self.stack@
    }

    /// The discovered nodes, as flags.
    pub closed spec fn spec_discovered(&self) -> Seq<bool> {
        self.discovered@
    }

    /// Create a new `PreOrder` iterator.
    pub fn new(graph: G, start: usize) -> (r: Self)
        requires
            start < usize::MAX,
        ensures
            r.spec_graph() == graph,
            r.spec_stack() == seq![start],
            forall|i: int| seen(r.spec_discovered(), i) <==> i == start,
    {
        let mut discovered = VisitMap::default();
        let _ = discovered.visit(start);
        Self { graph, stack: vec![start], discovered }
    }

    /// Produces the top of the stack and pushes its children that were not discovered yet,
    /// in the order `children` lists them, so that the last of them comes next.
    pub fn next(&mut self) -> (r: Option<usize>)
        ensures
            final(self).spec_graph() == old(self).spec_graph(),
            old(self).spec_stack().len() == 0 ==> r is None && final(self).spec_stack()
                == old(self).spec_stack() && final(self).spec_discovered() == old(self).spec_discovered(),
            old(self).spec_stack().len() > 0 ==> {
                let node = old(self).spec_stack().last();
                let kids = old(self).spec_graph().spec_children(node);
                &&& r == Some(node)
                &&& final(self).spec_stack() == old(self).spec_stack().drop_last() + fresh(
                    kids,
                    marks(old(self).spec_discovered()),
                )
                &&& forall|i: int|
                    #![trigger seen(final(self).spec_discovered(), i)]
                    #![trigger seen(old(self).spec_discovered(), i)]
                    seen(final(self).spec_discovered(), i) <==> seen(
                        old(self).spec_discovered(),
                        i,
                    ) || listed_in(kids, i)
            },
            forall|i: int|
                seen(old(self).spec_discovered(), i) ==> seen(final(self).spec_discovered(), i),
            unseen_below(final(self).spec_discovered(), old(self).spec_graph().spec_node_count())
                <= unseen_below(old(self).spec_discovered(), old(self).spec_graph().spec_node_count()),
            r is Some ==> final(self).spec_stack().len() < old(self).spec_stack().len() || unseen_below(
                final(self).spec_discovered(),
                old(self).spec_graph().spec_node_count(),
            ) < unseen_below(old(self).spec_discovered(), old(self).spec_graph().spec_node_count()),
    {
        let node = match self.stack.pop() {
            Some(node) => node,
            None => return None,
        };
        let children = self.graph.children(node);
        let ghost before = self.discovered@;
        let pushed = mark_fresh(&mut self.discovered, &children);
        let mut k: usize = 0;
        let ghost base = self.stack@;
        let ghost after_marking = self.discovered;
        while k < pushed.len()
            invariant
                0 <= k <= pushed@.len(),
                self.stack@ == base + pushed@.subrange(0, k as int),
                self.graph == old(self).graph,
                self.discovered == after_marking,
            decreases pushed@.len() - k,
        {
            self.stack.push(pushed[k]);
            proof {
                assert(pushed@.subrange(0, k + 1) =~= pushed@.subrange(0, k as int).push(pushed@[k as int]));
            }
            k += 1;
        }
        proof {
            assert(pushed@.subrange(0, k as int) =~= pushed@);
            let n = self.graph.spec_node_count();
            if pushed@.len() > 0 {
                let x = pushed@[0];
                let w = choose|w: int| 0 <= w < children@.len() && #[trigger] children@[w] as int == x as int;
                assert(x < n);
                lemma_unseen_below(before, self.discovered@, n, x as int);
            } else {
                lemma_unseen_below(before, self.discovered@, n, 0);
            }
        }
        Some(node)
    }

    /// Produces the remaining nodes in order, until the traversal is exhausted: the nodes
    /// of as many pre-order steps as it takes to empty the stack.
    pub fn into_vec(self) -> (r: Vec<usize>)
        ensures
            exists|k: nat|
                r@ == pre_output(
                    self.spec_graph(),
                    (self.spec_stack(), marks(self.spec_discovered())),
                    k,
                ) && pre_after(
                    self.spec_graph(),
                    (self.spec_stack(), marks(self.spec_discovered())),
                    k,
                ).0.len() == 0,
    {
        let ghost init = (self.stack@, marks(self.discovered@));
        let mut it = self;
        let mut out: Vec<usize> = Vec::new();
        let ghost n = it.graph.spec_node_count();
        loop
            invariant
                n == it.graph.spec_node_count(),
                it.graph == self.graph,
                init == (self.stack@, marks(self.discovered@)),
                out@ == pre_output(self.graph, init, out@.len() as nat),
                (it.stack@, marks(it.discovered@)) == pre_after(
                    self.graph,
                    init,
                    out@.len() as nat,
                ),
            decreases unseen_below(it.discovered@, n), it.stack@.len(),
        {
            let ghost k = out@.len() as nat;
            let ghost before = it;
            match it.next() {
                Some(node) => {
                    proof {
                        let kids = self.graph.spec_children(node);
                        assert(marks(it.discovered@) =~= marks(before.discovered@).union(
                            Set::new(|i: int| listed_in(kids, i)),
                        ));
                    }
                    out.push(node);
                    proof {
                        assert(out@ =~= pre_output(self.graph, init, k + 1));
                    }
                },
                None => {
                    proof {
                        assert(before.stack@.len() == 0);
                        assert(pre_after(self.graph, init, k).0.len() == 0);
                        assert(out@ == pre_output(self.graph, init, k));
                        assert(init == (self.spec_stack(), marks(self.spec_discovered())));
                        assert(out@ == pre_output(
                            self.spec_graph(),
                            (self.spec_stack(), marks(self.spec_discovered())),
                            k,
                        ) && pre_after(
                            self.spec_graph(),
                            (self.spec_stack(), marks(self.spec_discovered())),
                            k,
                        ).0.len() == 0);
                    }
                    return out;
                },
            }
        }
    }
}

} // verus!
