//! Postorder traversal

use vstd::prelude::*;
use crate::graph::{traits::Children, visit_map::{lemma_unseen_below, seen, unseen_below, VisitMap}};

verus! {

/// `a` comes strictly before `b` in lexicographic order.
pub open spec fn lex_less(a: (nat, nat, nat), b: (nat, nat, nat)) -> bool {
    a.0 < b.0 || (a.0 == b.0 && (a.1 < b.1 || (a.1 == b.1 && a.2 < b.2)))
}

/// The entries of `kids` not in `marked`, in order, repeats kept.
pub open spec fn unmarked(kids: Seq<usize>, marked: Set<int>) -> Seq<usize>
    decreases kids.len(),
{
    if kids.len() == 0 {
        Seq::empty()
    } else {
        unmarked(kids.drop_last(), marked) + if marked.contains(kids.last() as int) {
            Seq::empty()
        } else {
            seq![kids.last()]
        }
    }
}

/// One turn of the depth-first search on (stack, discovered, finished): a top that is not
/// discovered yet is discovered and its undiscovered children are pushed; a discovered top
/// leaves the stack and, the first time, is finished and produced.
pub open spec fn post_turn<G: Children>(
    graph: G,
    state: (Seq<usize>, Set<int>, Set<int>),
) -> ((Seq<usize>, Set<int>, Set<int>), Option<usize>) {
    let (stack, discovered, finished) = state;
    if stack.len() == 0 {
        (state, None)
    } else {
        let node = stack.last();
        if !discovered.contains(node as int) {
            let now = discovered.insert(node as int);
            ((stack + unmarked(graph.spec_children(node), now), now, finished), None)
        } else if !finished.contains(node as int) {
            ((stack.drop_last(), discovered, finished.insert(node as int)), Some(node))
        } else {
            ((stack.drop_last(), discovered, finished), None)
        }
    }
}

/// The state after `k` turns.
pub open spec fn post_after<G: Children>(
    graph: G,
    state: (Seq<usize>, Set<int>, Set<int>),
    k: nat,
) -> (Seq<usize>, Set<int>, Set<int>)
    decreases k,
{
    if k == 0 {
        state
    } else {
        post_turn(graph, post_after(graph, state, (k - 1) as nat)).0
    }
}

/// The nodes that the first `k` turns produce.
pub open spec fn post_output<G: Children>(
    graph: G,
    state: (Seq<usize>, Set<int>, Set<int>),
    k: nat,
) -> Seq<usize>
    decreases k,
{
    if k == 0 {
        Seq::empty()
    } else {
        post_output(graph, state, (k - 1) as nat) + match post_turn(
            graph,
            post_after(graph, state, (k - 1) as nat),
        ).1 {
            Some(node) => seq![node],
            None => Seq::empty(),
        }
    }
}

/// Running `a` turns and then `b` more is running `a + b` turns.
proof fn lemma_post_compose<G: Children>(
    graph: G,
    state: (Seq<usize>, Set<int>, Set<int>),
    a: nat,
    b: nat,
)
    ensures
        post_after(graph, post_after(graph, state, a), b) == post_after(graph, state, a + b),
        post_output(graph, state, a) + post_output(graph, post_after(graph, state, a), b)
            == post_output(graph, state, a + b),
    decreases b,
{
    if b == 0 {
        assert(post_output(graph, state, a) + Seq::<usize>::empty() =~= post_output(
            graph,
            state,
            a,
        ));
    } else {
        lemma_post_compose(graph, state, a, (b - 1) as nat);
        assert((a + b - 1) as nat == a + (b - 1) as nat);
        assert(post_output(graph, state, a) + post_output(graph, post_after(graph, state, a), b)
            =~= post_output(graph, state, a + b));
    }
}

/// The state of the search as sets.
pub open spec fn flag_sets(stack: Seq<usize>, discovered: Seq<bool>, finished: Seq<bool>) -> (
    Seq<usize>,
    Set<int>,
    Set<int>,
) {
    (stack, Set::new(|i: int| seen(discovered, i)), Set::new(|i: int| seen(finished, i)))
}

/// Post order traversal.
pub struct PostOrder<G> {
    /// Reference to the graph
    graph: G,
    /// The stack of nodes to visit
    stack: Vec<usize>,
    /// The map of discovered nodes
    discovered: VisitMap,
    /// The map of finished nodes
    finished: VisitMap,
}

impl<G: Children> PostOrder<G> {
    /// The graph being traversed.
    pub closed spec fn spec_graph(&self) -> G {
        self.graph
    }

    /// The nodes on the stack; the last one is looked at next.
    pub closed spec fn spec_stack(&self) -> Seq<usize> {
        self.stack@
    }

    /// The discovered nodes, as flags.
    pub closed spec fn spec_discovered(&self) -> Seq<bool> {
        self.discovered@
    }

    /// The finished (already produced) nodes, as flags.
    pub closed spec fn spec_finished(&self) -> Seq<bool> {
        self.finished@
    }

    /// The stack, the discovered nodes and the finished nodes.
    pub closed spec fn spec_state(&self) -> (Seq<usize>, Set<int>, Set<int>) {
        flag_sets(self.stack@, self.discovered@, self.finished@)
    }

    /// Every node on the stack can be marked; above the bottom entry (the start node) only
    /// nodes of the graph stand, all different from it; the bottom is not finished, and it is
    /// discovered once anything stands above it.
    pub closed spec fn wf(&self) -> bool {
        &&& forall|k: int| 0 <= k < self.stack@.len() ==> self.stack@[k] < usize::MAX
        &&& forall|k: int|
            #![trigger self.stack@[k]]
            1 <= k < self.stack@.len() ==> self.stack@[k] < self.graph.spec_node_count()
                && self.stack@[k] != self.stack@[0]
        &&& self.stack@.len() >= 2 ==> seen(self.discovered@, self.stack@[0] as int)
        &&& self.stack@.len() >= 1 ==> !seen(self.finished@, self.stack@[0] as int)
    }

    /// How far the traversal still has to go: undiscovered nodes below the node count, the
    /// stack's height, and whether the top of the stack is still undiscovered.
    pub closed spec fn spec_progress(&self) -> (nat, nat, nat) {
        (
            unseen_below(self.discovered@, self.graph.spec_node_count()),
            self.stack@.len(),
            if self.stack@.len() > 0 && !seen(self.discovered@, self.stack@.last() as int) {
                1nat
            } else {
                0nat
            },
        )
    }

    /// Create a new `PostOrder` iterator.
    pub fn new(graph: G, start: usize) -> (r: Self)
        requires
            start < usize::MAX,
        ensures
            r.wf(),
            r.spec_graph() == graph,
            r.spec_stack() == seq![start],
            forall|i: int| !seen(r.spec_discovered(), i) && !seen(r.spec_finished(), i),
            r.spec_state() == (seq![start], Set::<int>::empty(), Set::<int>::empty()),
    {
        proof {
            assert(Set::new(|i: int| seen(Seq::<bool>::empty(), i)) =~= Set::<int>::empty());
        }
        Self {
            graph,
            stack: vec![start],
            discovered: VisitMap::default(),
            finished: VisitMap::default(),
        }
    }

    /// Depth-first search until a node is left for the second time with all of its children
    /// done; that node is produced, once.
    pub fn next(&mut self) -> (r: Option<usize>)
        requires
            old(self).wf(),
        ensures
            final(self).wf(),
            final(self).spec_graph() == old(self).spec_graph(),
            forall|i: int|
                seen(old(self).spec_discovered(), i) ==> seen(final(self).spec_discovered(), i),
            final(self).spec_stack().len() > 0 ==> old(self).spec_stack().len() > 0 && final(self).spec_stack()[0] == old(self).spec_stack()[0],
            exists|m: nat|
                final(self).spec_state() == post_after(old(self).spec_graph(), old(self).spec_state(), m)
                    && post_output(old(self).spec_graph(), old(self).spec_state(), m) == match r {
                    Some(node) => seq![node],
                    None => Seq::<usize>::empty(),
                },
            match r {
                Some(node) => {
                    &&& node < old(self).spec_graph().spec_node_count() || (old(self).spec_stack().len()
                        > 0 && node == old(self).spec_stack()[0])
                    &&& final(self).spec_stack().len() == 0 ==> old(self).spec_stack().len() > 0
                        && node == old(self).spec_stack()[0]
                    &&& !seen(old(self).spec_finished(), node as int)
                    &&& seen(final(self).spec_discovered(), node as int)
                    &&& forall|i: int|
                        #![trigger seen(final(self).spec_finished(), i)]
                        seen(final(self).spec_finished(), i) <==> seen(
                            old(self).spec_finished(),
                            i,
                        ) || i == node
                    &&& lex_less(final(self).spec_progress(), old(self).spec_progress())
                },
                None => {
                    &&& old(self).spec_stack().len() == 0
                    &&& final(self).spec_stack().len() == 0
                    &&& forall|i: int|
                        #![trigger seen(final(self).spec_finished(), i)]
                        seen(final(self).spec_finished(), i) == seen(old(self).spec_finished(), i)
                },
            },
    {
        let ghost n = self.graph.spec_node_count();
        let ghost mut m: nat = 0;
        loop
            invariant
                self.wf(),
                self.graph == old(self).graph,
                n == self.graph.spec_node_count(),
                self.spec_state() == post_after(old(self).graph, old(self).spec_state(), m),
                post_output(old(self).graph, old(self).spec_state(), m) == Seq::<usize>::empty(),
                forall|i: int| seen(old(self).discovered@, i) ==> seen(self.discovered@, i),
                forall|i: int|
                    #![trigger seen(self.finished@, i)]
                    seen(self.finished@, i) == seen(old(self).finished@, i),
                self.spec_progress() == old(self).spec_progress() || lex_less(
                    self.spec_progress(),
                    old(self).spec_progress(),
                ),
                old(self).stack@.len() > 0 <==> self.stack@.len() > 0,
                self.stack@.len() > 0 ==> self.stack@[0] == old(self).stack@[0],
            decreases self.spec_progress().0, self.spec_progress().1, self.spec_progress().2,
        {
            let ghost prior = *self;
            let ghost turn = post_turn(old(self).graph, prior.spec_state());
            proof {
                assert(post_after(old(self).graph, old(self).spec_state(), m + 1) == turn.0);
                assert(post_output(old(self).graph, old(self).spec_state(), m + 1) == post_output(
                    old(self).graph,
                    old(self).spec_state(),
                    m,
                ) + match turn.1 {
                    Some(x) => seq![x],
                    None => Seq::<usize>::empty(),
                });
            }
            let node = match self.stack.last() {
                Some(top) => *top,
                None => return None,
            };
            if self.discovered.visit(node) {
                let children = self.graph.children(node);
                let ghost base = self.stack@;
                let ghost marked = self.discovered;
                let ghost now = Set::new(|i: int| seen(marked@, i));
                proof {
                    assert(now =~= prior.spec_state().1.insert(node as int));
                    assert(children@.subrange(0, 0) =~= Seq::<usize>::empty());
                    assert(base + unmarked(Seq::<usize>::empty(), now) =~= base);
                }
                let mut j: usize = 0;
                while j < children.len()
                    invariant
                        0 <= j <= children@.len(),
                        self.graph == old(self).graph,
                        self.discovered == marked,
                        self.finished == prior.finished,
                        n == self.graph.spec_node_count(),
                        n <= usize::MAX,
                        forall|k: int| 0 <= k < children@.len() ==> children@[k] < n,
                        base.len() <= self.stack@.len() <= base.len() + j,
                        self.stack@.subrange(0, base.len() as int) == base,
                        forall|k: int| 0 <= k < self.stack@.len() ==> self.stack@[k] < usize::MAX,
                        node >= n ==> children@.len() == 0,
                        base.len() >= 1,
                        seen(self.discovered@, base[0] as int),
                        forall|k: int|
                            #![trigger self.stack@[k]]
                            1 <= k < self.stack@.len() ==> self.stack@[k] < n && self.stack@[k]
                                != self.stack@[0],
                        !seen(self.finished@, base[0] as int),
                        now == Set::new(|i: int| seen(self.discovered@, i)),
                        self.stack@ == base + unmarked(children@.subrange(0, j as int), now),
                    decreases children@.len() - j,
                {
                    let succ = children[j];
                    proof {
                        assert(children@.subrange(0, j + 1).drop_last() =~= children@.subrange(
                            0,
                            j as int,
                        ));
                        assert(children@.subrange(0, j + 1).last() == succ);
                    }
                    if !self.discovered.is_visited(succ) {
                        self.stack.push(succ);
                        proof {
                            assert(self.stack@.subrange(0, base.len() as int) =~= base);
                            assert(self.stack@[0] == base[0]) by {
                                assert(self.stack@.subrange(0, base.len() as int)[0] == self.stack@[0]);
                            }
                            assert(self.stack@ =~= base + unmarked(children@.subrange(0, j + 1), now));
                        }
                    } else {
                        proof {
                            assert(self.stack@ =~= base + unmarked(children@.subrange(0, j + 1), now));
                        }
                    }
                    j += 1;
                }
                proof {
                    assert(children@.subrange(0, j as int) =~= children@);
                    assert(self.spec_state() =~= turn.0);
                    m = m + 1;
                    let nn = n as nat;
                    if node < n {
                        lemma_unseen_below(prior.discovered@, self.discovered@, nn, node as int);
                    } else {
                        lemma_unseen_below(prior.discovered@, self.discovered@, nn, node as int);
                        assert(children@.len() == 0);
                        assert(self.stack@ =~= base);
                    }
                }
            } else {
                let _ = self.stack.pop();
                proof {
                    lemma_unseen_below(prior.discovered@, self.discovered@, n as nat, 0);
                    lemma_unseen_below(self.discovered@, prior.discovered@, n as nat, 0);
                }
                if self.finished.visit(node) {
                    proof {
                        assert(self.spec_state() =~= turn.0);
                        assert(post_output(old(self).graph, old(self).spec_state(), m + 1) =~= seq![
                            node,
                        ]);
                        assert(self.spec_state() == post_after(
                            old(self).spec_graph(),
                            old(self).spec_state(),
                            m + 1,
                        ) && post_output(old(self).spec_graph(), old(self).spec_state(), m + 1)
                            == seq![node]);
                    }
                    return Some(node);
                }
                proof {
                    assert(self.spec_state() =~= turn.0);
                    m = m + 1;
                    lemma_unseen_below(prior.discovered@, self.discovered@, n as nat, 0);
                    lemma_unseen_below(self.discovered@, prior.discovered@, n as nat, 0);
                }
            }
        }
    }

    /// Produces the remaining nodes in order, until the traversal is exhausted. No node
    /// comes twice, and none that was finished before.
    pub fn into_vec(self) -> (r: Vec<usize>)
        requires
            self.wf(),
        ensures
            forall|i: int, j: int| 0 <= i < j < r@.len() ==> r@[i] != r@[j],
            forall|i: int| 0 <= i < r@.len() ==> !seen(self.spec_finished(), r@[i] as int),
            forall|i: int|
                0 <= i < r@.len() ==> r@[i] < self.spec_graph().spec_node_count() || (
                self.spec_stack().len() > 0 && r@[i] == self.spec_stack()[0]),
            self.spec_stack().len() > 0 ==> r@.len() > 0 && r@.last() == self.spec_stack()[0],
            exists|k: nat|
                r@ == post_output(self.spec_graph(), self.spec_state(), k) && post_after(
                    self.spec_graph(),
                    self.spec_state(),
                    k,
                ).0.len() == 0,
    {
        let ghost mut turns: nat = 0;
        let mut it = self;
        let mut out: Vec<usize> = Vec::new();
        loop
            invariant
                it.wf(),
                it.spec_graph() == self.spec_graph(),
                forall|i: int, j: int| 0 <= i < j < out@.len() ==> out@[i] != out@[j],
                forall|i: int| 0 <= i < out@.len() ==> !seen(self.spec_finished(), out@[i] as int),
                forall|i: int| 0 <= i < out@.len() ==> seen(it.spec_finished(), out@[i] as int),
                forall|i: int|
                    #![trigger seen(self.spec_finished(), i)]
                    seen(self.spec_finished(), i) ==> seen(it.spec_finished(), i),
                forall|i: int|
                    0 <= i < out@.len() ==> out@[i] < self.spec_graph().spec_node_count() || (
                    self.spec_stack().len() > 0 && out@[i] == self.spec_stack()[0]),
                it.spec_stack().len() > 0 ==> self.spec_stack().len() > 0 && it.spec_stack()[0]
                    == self.spec_stack()[0],
                out@.len() == 0 ==> it.spec_stack() == self.spec_stack(),
                out@.len() > 0 && it.spec_stack().len() == 0 ==> self.spec_stack().len() > 0
                    && out@.last() == self.spec_stack()[0],
                out@ == post_output(self.spec_graph(), self.spec_state(), turns),
                it.spec_state() == post_after(self.spec_graph(), self.spec_state(), turns),
            decreases it.spec_progress().0, it.spec_progress().1, it.spec_progress().2,
        {
            let ghost before = it;
            let ghost before_out = out@;
            let r = it.next();
            let ghost m = choose|m: nat|
                it.spec_state() == post_after(before.spec_graph(), before.spec_state(), m)
                    && post_output(before.spec_graph(), before.spec_state(), m) == match r {
                    Some(node) => seq![node],
                    None => Seq::<usize>::empty(),
                };
            proof {
                lemma_post_compose(self.spec_graph(), self.spec_state(), turns, m);
            }
            match r {
                Some(node) => {
                    proof {
                        assert forall|i: int| 0 <= i < out@.len() implies out@[i] != node by {
                            assert(seen(before.spec_finished(), out@[i] as int));
                        }
                    }
                    out.push(node);
                    proof {
                        assert forall|i: int| 0 <= i < out@.len() implies seen(
                            it.spec_finished(),
                            out@[i] as int,
                        ) by {
                            if i < out@.len() - 1 {
                                assert(seen(before.spec_finished(), before_out[i] as int));
                            }
                        }
                        assert(out@ =~= before_out + seq![node]);
                        turns = turns + m;
                    }
                },
                None => {
                    proof {
                        assert(before_out + Seq::<usize>::empty() =~= before_out);
                        turns = turns + m;
                        assert(out@ == post_output(self.spec_graph(), self.spec_state(), turns)
                            && post_after(self.spec_graph(), self.spec_state(), turns).0.len() == 0);
                    }
                    return out;
                },
            }
        }
    }
}

} // verus!
