//! Level-order traversal.

use std::collections::VecDeque;
use vstd::prelude::*;
use crate::graph::{traits::Children, visit_map::{lemma_unseen_below, seen, unseen_below, VisitMap}};
use super::{fresh, listed_in, mark_fresh, marks};

verus! {

/// One level-order step on (queue, discovered nodes): the front of the queue leaves it, and
/// its children not discovered yet are appended in order and discovered.
pub open spec fn level_step<G: Children>(graph: G, state: (Seq<usize>, Set<int>)) -> (
    Seq<usize>,
    Set<int>,
) {
    let (queue, marked) = state;
    if queue.len() == 0 {
        state
    } else {
        let kids = graph.spec_children(queue[0]);
        (
            queue.drop_first() + fresh(kids, marked),
            marked.union(Set::new(|i: int| listed_in(kids, i))),
        )
    }
}

/// The state after `k` level-order steps.
pub open spec fn level_after<G: Children>(graph: G, state: (Seq<usize>, Set<int>), k: nat) -> (
    Seq<usize>,
    Set<int>,
)
    decreases k,
{
    if k == 0 {
        state
    } else {
        level_step(graph, level_after(graph, state, (k - 1) as nat))
    }
}

/// The nodes that the first `k` level-order steps produce.
pub open spec fn level_output<G: Children>(graph: G, state: (Seq<usize>, Set<int>), k: nat) -> Seq<
    usize,
>
    decreases k,
{
    if k == 0 {
        Seq::empty()
    } else {
        level_output(graph, state, (k - 1) as nat) + seq![
            level_after(graph, state, (k - 1) as nat).0[0],
        ]
    }
}

/// Level order traversal, aka breadth-first-search.
pub struct LevelOrder<G> {
    /// Reference to the graph
    graph: G,
    /// The queue of nodes to visit
    queue: VecDeque<usize>,
    /// The map of discovered nodes
    discovered: VisitMap,
}

impl<G: Children> LevelOrder<G> {
    /// The graph being traversed.
    pub closed spec fn spec_graph(&self) -> G {
        self.graph
    }

    /// The nodes waiting to be produced; the first one comes next.
    pub closed spec fn spec_queue(&self) -> Seq<usize> {
        self.queue@
    }

    /// The discovered nodes, as flags.
    pub closed spec fn spec_discovered(&self) -> Seq<bool> {
        self.discovered@
    }

    /// Create a new `LevelOrder` iterator.
    pub fn new(graph: G, start: usize) -> (r: Self)
        requires
            start < usize::MAX,
        ensures
            r.spec_graph() == graph,
            r.spec_queue() == seq![start],
            forall|i: int| seen(r.spec_discovered(), i) <==> i == start,
    {
        let mut discovered = VisitMap::default();
        let _ = discovered.visit(start);
        let mut queue = VecDeque::new();
        queue.push_back(start);
        Self { graph, queue, discovered }
    }

    /// Produces the front of the queue and appends its children that were not discovered
    /// yet, in the order `children` lists them.
    pub fn next(&mut self) -> (r: Option<usize>)
        ensures
            final(self).spec_graph() == old(self).spec_graph(),
            old(self).spec_queue().len() == 0 ==> r is None && final(self).spec_queue()
                == old(self).spec_queue() && final(self).spec_discovered() == old(self).spec_discovered(),
            old(self).spec_queue().len() > 0 ==> {
                let node = old(self).spec_queue()[0];
                let kids = old(self).spec_graph().spec_children(node);
                &&& r == Some(node)
                &&& final(self).spec_queue() == old(self).spec_queue().drop_first() + fresh(
                    kids,
                    marks(old(self).spec_discovered()),
                )
                &&& forall|i: int|
                    #![trigger seen(final(self).spec_discovered(), i)]
                    #![trigger seen(old(self).spec_discovered(), i)]
                    seen(final(self).spec_discovered(), i) <==> seen(
                        old(self).spec_discovered(),
                        i,
                    ) || listed_in(kids, i)
            },
            unseen_below(final(self).spec_discovered(), old(self).spec_graph().spec_node_count())
                <= unseen_below(old(self).spec_discovered(), old(self).spec_graph().spec_node_count()),
            r is Some ==> final(self).spec_queue().len() < old(self).spec_queue().len() || unseen_below(
                final(self).spec_discovered(),
                old(self).spec_graph().spec_node_count(),
            ) < unseen_below(old(self).spec_discovered(), old(self).spec_graph().spec_node_count()),
    {
        let node = match self.queue.pop_front() {
            Some(node) => node,
            None => return None,
        };
        let children = self.graph.children(node);
        let ghost before = self.discovered@;
        let pushed = mark_fresh(&mut self.discovered, &children);
        let mut k: usize = 0;
        let ghost base = self.queue@;
        let ghost after_marking = self.discovered;
        proof {
            assert(base =~= old(self).queue@.drop_first());
        }
        while k < pushed.len()
            invariant
                0 <= k <= pushed@.len(),
                self.queue@ == base + pushed@.subrange(0, k as int),
                self.graph == old(self).graph,
                self.discovered == after_marking,
            decreases pushed@.len() - k,
        {
            self.queue.push_back(pushed[k]);
            proof {
                assert(pushed@.subrange(0, k + 1) =~= pushed@.subrange(0, k as int).push(pushed@[k as int]));
            }
            k += 1;
        }
        proof {
            assert(pushed@.subrange(0, k as int) =~= pushed@);
            let n = self.graph.spec_node_count();
            if pushed@.len() > 0 {
                let x = pushed@[0];
                let w = choose|w: int| 0 <= w < children@.len() && #[trigger] children@[w] as int == x as int;
                assert(x < n);
                lemma_unseen_below(before, self.discovered@, n, x as int);
            } else {
                lemma_unseen_below(before, self.discovered@, n, 0);
            }
        }
        Some(node)
    }

    /// Produces the remaining nodes in order, until the traversal is exhausted: the nodes
    /// of as many level-order steps as it takes to empty the queue.
    pub fn into_vec(self) -> (r: Vec<usize>)
        ensures
            exists|k: nat|
                r@ == level_output(
                    self.spec_graph(),
                    (self.spec_queue(), marks(self.spec_discovered())),
                    k,
                ) && level_after(
                    self.spec_graph(),
                    (self.spec_queue(), marks(self.spec_discovered())),
                    k,
                ).0.len() == 0,
    {
        let ghost init = (self.queue@, marks(self.discovered@));
        let mut it = self;
        let mut out: Vec<usize> = Vec::new();
        let ghost n = it.graph.spec_node_count();
        loop
            invariant
                n == it.graph.spec_node_count(),
                it.graph == self.graph,
                init == (self.queue@, marks(self.discovered@)),
                out@ == level_output(self.graph, init, out@.len() as nat),
                (it.queue@, marks(it.discovered@)) == level_after(
                    self.graph,
                    init,
                    out@.len() as nat,
                ),
            decreases unseen_below(it.discovered@, n), it.queue@.len(),
        {
            let ghost k = out@.len() as nat;
            let ghost before = it;
            match it.next() {
                Some(node) => {
                    proof {
                        let kids = self.graph.spec_children(node);
                        assert(marks(it.discovered@) =~= marks(before.discovered@).union(
                            Set::new(|i: int| listed_in(kids, i)),
                        ));
                    }
                    out.push(node);
                    proof {
                        assert(out@ =~= level_output(self.graph, init, k + 1));
                    }
                },
                None => {
                    proof {
                        assert(before.queue@.len() == 0);
                        assert(level_after(self.graph, init, k).0.len() == 0);
                        assert(init == (self.spec_queue(), marks(self.spec_discovered())));
                        assert(out@ == level_output(
                            self.spec_graph(),
                            (self.spec_queue(), marks(self.spec_discovered())),
                            k,
                        ) && level_after(
                            self.spec_graph(),
                            (self.spec_queue(), marks(self.spec_discovered())),
                            k,
                        ).0.len() == 0);
                    }
                    return out;
                },
            }
        }
    }
}

} // verus!
