//! Different traversal algorithms for the graph.
//! <https://en.wikipedia.org/wiki/Graph_traversal>
use std::collections::VecDeque;
use vstd::prelude::*;
use crate::archive::adjlist;
use crate::graph::visit_map::{lemma_unseen_below, unseen_below};
use crate::traversal::postorder::lex_less;
use super::{Graph, NeighborIterator};

verus! {

/// Per-node cursors over the adjacency lists of one graph with `n` vertices.
pub open spec fn cursors_wf(neighbors: Seq<NeighborIterator>, n: nat) -> bool {
    &&& n >= 1
    &&& neighbors.len() == n
    &&& neighbors[0].spec_graph().spec_len() == n
    &&& forall|i: int|
        #![trigger neighbors[i]]
        0 <= i < n ==> neighbors[i].wf() && neighbors[i].spec_graph() == neighbors[0].spec_graph()
}

/// The graph that the cursors walk.
pub open spec fn cursors_graph<'graph>(neighbors: Seq<NeighborIterator<'graph>>) -> &'graph adjlist::Graph {
    neighbors[0].spec_graph()
}

/// Whether `node` is marked in `visited`.
pub open spec fn marked(visited: Seq<bool>, node: int) -> bool {
    0 <= node < visited.len() && visited[node]
}

impl Graph {
    /// One cursor per vertex, each at the start of its adjacency list.
    fn cursors(&self) -> (r: Vec<NeighborIterator<'_>>)
        requires
            self.wf(),
            self.spec_len() >= 1,
        ensures
            cursors_wf(r@, self.spec_len()),
            cursors_graph(r@) == self.spec_inner(),
            cursor_lists(r@) == Seq::new(self.spec_len(), |i: int| self.spec_neighbors(i)),
    {
        let n = self.len();
        let mut neighbors: Vec<NeighborIterator<'_>> = Vec::new();
        let mut node: usize = 0;
        while node < n
            invariant
                self.wf(),
                n == self.spec_len(),
                node <= n,
                neighbors@.len() == node,
                forall|i: int|
                    #![trigger neighbors@[i]]
                    0 <= i < node ==> neighbors@[i].wf() && neighbors@[i].spec_graph()
                        == self.spec_inner() && neighbors@[i].spec_remaining()
                        == self.spec_neighbors(i),
            decreases n - node,
        {
            neighbors.push(self.neighbors(node));
            node += 1;
        }
        proof {
            assert(cursor_lists(neighbors@) =~= Seq::new(
                self.spec_len(),
                |i: int| self.spec_neighbors(i),
            ));
        }
        neighbors
    }

    /// Flags for `n` vertices with only `start` marked.
    fn start_flags(&self, start: usize) -> (r: Vec<bool>)
        requires
            start < self.spec_len(),
        ensures
            r@.len() == self.spec_len(),
            forall|i: int| 0 <= i < r@.len() ==> r@[i] == (i == start),
    {
        let mut visited = vec![false; self.len()];
        visited.set(start, true);
        visited
    }

    /// Returns an iterator over the (node-edge) pairs in preorder.
    /// This is the same as [depth-first-search](https://en.wikipedia.org/wiki/Depth-first_search)
    /// Note: does not include the start node.
    pub fn pre_order(&self, start: usize) -> (r: PreOrderIterator<'_>)
        requires
            self.wf(),
            start < self.spec_len(),
        ensures
            r.wf(),
            r.spec_graph() == self.spec_inner(),
            r.spec_stack() == seq![start],
            forall|i: int| marked(r.spec_visited(), i) <==> i == start,
            r.spec_state().0 == seq![start],
            r.spec_state().2 == Seq::new(self.spec_len(), |i: int| self.spec_neighbors(i)),
    {
        let neighbors = self.cursors();
        let visited = self.start_flags(start);
        PreOrderIterator { stack: vec![start], visited, neighbors }
    }

    /// Returns an iterator over the (node-edge) pairs in level-order.
    /// This is equivalent to a [breadth first search](https://en.wikipedia.org/wiki/Breadth-first_search)
    /// Note: does not include the start node.
    pub fn level_order(&self, start: usize) -> (r: LevelOrderIterator<'_>)
        requires
            self.wf(),
            start < self.spec_len(),
        ensures
            r.wf(),
            forall|i: int| marked(r.spec_visited(), i) <==> i == start,
            r.spec_graph() == self,
            r.spec_state().0.len() == 0,
            r.spec_state().2 == self.spec_neighbors(start as int),
    {
        let visited = self.start_flags(start);
        let queue = VecDeque::new();
        let neighbors = self.neighbors(start);
        LevelOrderIterator { graph: self, queue, visited, neighbors }
    }

    /// Returns an iterator over the nodes in post-order.
    /// The vertices are listed in the order in which they are last visited by a DFS traversal.
    pub fn post_order(&self, start: usize) -> (r: PostOrderIterator<'_>)
        requires
            self.wf(),
            start < self.spec_len(),
        ensures
            r.wf(),
            forall|i: int| marked(r.spec_visited(), i) <==> i == start,
            r.spec_state().0 == seq![start],
            r.spec_state().2 == Seq::new(self.spec_len(), |i: int| self.spec_neighbors(i)),
    {
        let neighbors = self.cursors();
        let visited = self.start_flags(start);
        PostOrderIterator { stack: vec![start], visited, neighbors, tail: false }
    }
}

/// The (target, edge) pairs that each cursor still holds.
pub open spec fn cursor_lists(neighbors: Seq<NeighborIterator>) -> Seq<Seq<(usize, usize)>> {
    neighbors.map_values(|c: NeighborIterator| c.spec_remaining())
}

/// The state of a depth-first search over cursors: stack, visited flags, and the edges each
/// node has left.
pub type DfsState = (Seq<usize>, Seq<bool>, Seq<Seq<(usize, usize)>>);

/// One turn of the pre-order search: the top node's next edge is taken; when it leads to a
/// node not visited yet, that node is visited, pushed and produced with the edge. A top node
/// without edges left leaves the stack.
pub open spec fn pre_turn(state: DfsState) -> (DfsState, Option<(usize, usize)>) {
    let (stack, visited, lists) = state;
    if stack.len() == 0 {
        (state, None)
    } else {
        let node = stack.last() as int;
        let list = lists[node];
        if list.len() == 0 {
            ((stack.drop_last(), visited, lists), None)
        } else {
            let (t, e) = list[0];
            let rest = lists.update(node, list.drop_first());
            if visited[t as int] {
                ((stack, visited, rest), None)
            } else {
                ((stack.push(t), visited.update(t as int, true), rest), Some((t, e)))
            }
        }
    }
}

/// The state after `k` turns.
pub open spec fn pre_turns_after(state: DfsState, k: nat) -> DfsState
    decreases k,
{
    if k == 0 {
        state
    } else {
        pre_turn(pre_turns_after(state, (k - 1) as nat)).0
    }
}

/// What the first `k` turns produce.
pub open spec fn pre_turns_output(state: DfsState, k: nat) -> Seq<(usize, usize)>
    decreases k,
{
    if k == 0 {
        Seq::empty()
    } else {
        pre_turns_output(state, (k - 1) as nat) + match pre_turn(
            pre_turns_after(state, (k - 1) as nat),
        ).1 {
            Some(x) => seq![x],
            None => Seq::empty(),
        }
    }
}

/// Running `a` turns and then `b` more is running `a + b` turns.
proof fn lemma_pre_turns_compose(state: DfsState, a: nat, b: nat)
    ensures
        pre_turns_after(pre_turns_after(state, a), b) == pre_turns_after(state, a + b),
        pre_turns_output(state, a) + pre_turns_output(pre_turns_after(state, a), b)
            == pre_turns_output(state, a + b),
    decreases b,
{
    if b == 0 {
        assert(pre_turns_output(state, a) + Seq::<(usize, usize)>::empty() =~= pre_turns_output(
            state,
            a,
        ));
    } else {
        lemma_pre_turns_compose(state, a, (b - 1) as nat);
        assert((a + b - 1) as nat == a + (b - 1) as nat);
        assert(pre_turns_output(state, a) + pre_turns_output(pre_turns_after(state, a), b)
            =~= pre_turns_output(state, a + b));
    }
}

/// Iterator over the (node-edge) pairs of a graph in pre-order.
pub struct PreOrderIterator<'graph> {
    /// The stack of nodes to be visited
    stack: Vec<usize>,
    /// `true` if the node has been visited
    visited: Vec<bool>,
    /// Neighbors left to iterate for each node
    neighbors: Vec<NeighborIterator<'graph>>,
}

impl<'graph> PreOrderIterator<'graph> {
    /// The cursors walk one graph, with a flag per vertex, and the stack holds vertices.
    pub closed spec fn wf(&self) -> bool {
        &&& cursors_wf(self.neighbors@, self.visited@.len() as nat)
        &&& forall|k: int| 0 <= k < self.stack@.len() ==> self.stack@[k] < self.visited@.len()
    }

    /// The graph being traversed.
    pub closed spec fn spec_graph(&self) -> &'graph adjlist::Graph {
        cursors_graph(self.neighbors@)
    }

    /// The nodes whose remaining edges are still to be looked at; the last one first.
    pub closed spec fn spec_stack(&self) -> Seq<usize> {
        self.stack@
    }

    /// The visited flags.
    pub closed spec fn spec_visited(&self) -> Seq<bool> {
        self.visited@
    }

    /// The stack, the visited flags and the edges each node has left.
    pub closed spec fn spec_state(&self) -> DfsState {
        (self.stack@, self.visited@, cursor_lists(self.neighbors@))
    }

    /// Produces the next edge that leads to a node not visited yet, as (node, edge).
    pub fn next(&mut self) -> (r: Option<(usize, usize)>)
        requires
            old(self).wf(),
        ensures
            final(self).wf(),
            final(self).spec_graph() == old(self).spec_graph(),
            final(self).spec_visited().len() == old(self).spec_visited().len(),
            match r {
                Some((v, e)) => {
                    &&& !marked(old(self).spec_visited(), v as int)
                    &&& final(self).spec_visited() == old(self).spec_visited().update(v as int, true)
                    &&& e < old(self).spec_graph().spec_edges().len()
                    &&& unseen_below(final(self).spec_visited(), final(self).spec_visited().len())
                        < unseen_below(old(self).spec_visited(), old(self).spec_visited().len())
                },
                None => final(self).spec_stack().len() == 0,
            },
            exists|m: nat|
                final(self).spec_state() == pre_turns_after(old(self).spec_state(), m)
                    && pre_turns_output(old(self).spec_state(), m) == match r {
                    Some(x) => seq![x],
                    None => Seq::<(usize, usize)>::empty(),
                },
    {
        let ghost n = self.visited@.len();
        let ghost mut m: nat = 0;
        loop
            invariant
                self.wf(),
                self.visited@ == old(self).visited@,
                n == self.visited@.len(),
                cursors_graph(self.neighbors@) == cursors_graph(old(self).neighbors@),
                self.spec_state() == pre_turns_after(old(self).spec_state(), m),
                pre_turns_output(old(self).spec_state(), m) == Seq::<(usize, usize)>::empty(),
            decreases self.stack@.len(),
        {
            let node = match self.stack.last() {
                Some(top) => *top,
                None => return None,
            };
            let ghost stack_before = self.stack@;
            loop
                invariant
                    self.stack@ == stack_before,
                    self.wf(),
                    self.visited@ == old(self).visited@,
                    n == self.visited@.len(),
                    cursors_graph(self.neighbors@) == cursors_graph(old(self).neighbors@),
                    node < n,
                    self.stack@.len() > 0,
                    self.stack@.last() == node,
                    self.spec_state() == pre_turns_after(old(self).spec_state(), m),
                    pre_turns_output(old(self).spec_state(), m) == Seq::<(usize, usize)>::empty(),
                ensures
                    self.wf(),
                    self.visited@ == old(self).visited@,
                    cursors_graph(self.neighbors@) == cursors_graph(old(self).neighbors@),
                    self.stack@ == stack_before,
                    self.stack@.len() > 0,
                    self.stack@.last() == node,
                    node < n,
                    self.neighbors@[node as int].spec_remaining().len() == 0,
                    self.spec_state() == pre_turns_after(old(self).spec_state(), m),
                    pre_turns_output(old(self).spec_state(), m) == Seq::<(usize, usize)>::empty(),
                decreases self.neighbors@[node as int].spec_remaining().len(),
            {
                let ghost before = self.neighbors@;
                let ghost state = self.spec_state();
                let ghost turn = pre_turn(state);
                proof {
                    assert(pre_turns_after(old(self).spec_state(), m + 1) == turn.0);
                    assert(cursor_lists(before)[node as int] == before[node as int].spec_remaining());
                }
                match self.neighbors[node].next() {
                    Some((neighbor, edge)) => {
                        proof {
                            assert(self.neighbors@ == before.update(node as int, self.neighbors@[node as int]));
                            assert(cursors_wf(self.neighbors@, n));
                            assert(cursor_lists(self.neighbors@) =~= state.2.update(
                                node as int,
                                state.2[node as int].drop_first(),
                            ));
                        }
                        if !self.visited[neighbor] {
                            let ghost seen_before = self.visited@;
                            self.visited.set(neighbor, true);
                            self.stack.push(neighbor);
                            proof {
                                lemma_flags_mark(seen_before, neighbor as int);
                                assert(self.spec_state() == turn.0);
                                assert(pre_turns_output(old(self).spec_state(), m + 1) =~= seq![
                                    (neighbor, edge),
                                ]);
                                assert(self.spec_state() == pre_turns_after(
                                    old(self).spec_state(),
                                    m + 1,
                                ) && pre_turns_output(old(self).spec_state(), m + 1) == seq![
                                    (neighbor, edge),
                                ]);
                            }
                            return Some((neighbor, edge));
                        }
                        proof {
                            assert(self.spec_state() == turn.0);
                            assert(pre_turns_output(old(self).spec_state(), m + 1) =~= Seq::<
                                (usize, usize),
                            >::empty());
                            m = m + 1;
                        }
                    },
                    None => {
                        proof {
                            assert(cursors_wf(self.neighbors@, n));
                            assert(cursor_lists(self.neighbors@) =~= state.2) by {
                                assert forall|i: int| 0 <= i < n implies cursor_lists(
                                    self.neighbors@,
                                )[i] == state.2[i] by {
                                    if i == node {
                                        assert(self.neighbors@[i].spec_remaining() =~= Seq::<
                                            (usize, usize),
                                        >::empty());
                                    }
                                }
                            }
                        }
                        break;
                    },
                }
            }
            let ghost state = self.spec_state();
            proof {
                assert(pre_turns_after(old(self).spec_state(), m + 1) == pre_turn(state).0);
                assert(state.2[node as int].len() == 0);
            }
            self.stack.pop();
            proof {
                assert(self.spec_state() == pre_turn(state).0);
                assert(pre_turns_output(old(self).spec_state(), m + 1) =~= Seq::<
                    (usize, usize),
                >::empty());
                m = m + 1;
            }
        }
    }

    /// Produces the remaining (node, edge) pairs: what the turns produce until the stack is
    /// empty.
    pub fn into_vec(self) -> (r: Vec<(usize, usize)>)
        requires
            self.wf(),
        ensures
            forall|i: int|
                0 <= i < r@.len() ==> r@[i].1 < self.spec_graph().spec_edges().len(),
            exists|k: nat|
                r@ == pre_turns_output(self.spec_state(), k) && pre_turns_after(
                    self.spec_state(),
                    k,
                ).0.len() == 0,
    {
        let mut it = self;
        let mut out: Vec<(usize, usize)> = Vec::new();
        let ghost n = it.visited@.len();
        let ghost mut turns: nat = 0;
        loop
            invariant
                it.wf(),
                n == it.visited@.len(),
                it.spec_graph() == self.spec_graph(),
                forall|i: int| 0 <= i < out@.len() ==> out@[i].1 < self.spec_graph().spec_edges().len(),
                out@ == pre_turns_output(self.spec_state(), turns),
                it.spec_state() == pre_turns_after(self.spec_state(), turns),
            decreases unseen_below(it.visited@, n),
        {
            let ghost before = it;
            let ghost before_out = out@;
            let r = it.next();
            let ghost m = choose|m: nat|
                it.spec_state() == pre_turns_after(before.spec_state(), m)
                    && pre_turns_output(before.spec_state(), m) == match r {
                    Some(x) => seq![x],
                    None => Seq::<(usize, usize)>::empty(),
                };
            proof {
                lemma_pre_turns_compose(self.spec_state(), turns, m);
                turns = turns + m;
            }
            match r {
                Some(x) => {
                    out.push(x);
                    proof {
                        assert(out@ =~= before_out + seq![x]);
                    }
                },
                None => {
                    proof {
                        assert(before_out + Seq::<(usize, usize)>::empty() =~= before_out);
                        assert(out@ == pre_turns_output(self.spec_state(), turns) && pre_turns_after(
                            self.spec_state(),
                            turns,
                        ).0.len() == 0);
                    }
                    return out;
                },
            }
        }
    }
}

/// Marking an unmarked flag lowers the count of unmarked ones.
proof fn lemma_flags_mark(v: Seq<bool>, node: int)
    requires
        0 <= node < v.len(),
        !v[node],
    ensures
        unseen_below(v.update(node, true), v.len()) < unseen_below(v, v.len()),
{
    lemma_unseen_below(v, v.update(node, true), v.len(), node);
}

/// The state of a breadth-first search: queue, visited flags, and the edges left out of the
/// current node.
pub type BfsState = (Seq<usize>, Seq<bool>, Seq<(usize, usize)>);

/// One turn of the level-order search: the current node's next edge is produced, and its
/// target is visited and queued if it was not visited yet; when the current node has no
/// edges left, the next queued node becomes current.
pub open spec fn level_turn(graph: &Graph, state: BfsState) -> (BfsState, Option<(usize, usize)>) {
    let (queue, visited, current) = state;
    if current.len() > 0 {
        let (t, e) = current[0];
        if visited[t as int] {
            ((queue, visited, current.drop_first()), Some((t, e)))
        } else {
            ((queue.push(t), visited.update(t as int, true), current.drop_first()), Some((t, e)))
        }
    } else if queue.len() == 0 {
        (state, None)
    } else {
        ((queue.drop_first(), visited, graph.spec_neighbors(queue[0] as int)), None)
    }
}

/// The state after `k` turns.
pub open spec fn level_turns_after(graph: &Graph, state: BfsState, k: nat) -> BfsState
    decreases k,
{
    if k == 0 {
        state
    } else {
        level_turn(graph, level_turns_after(graph, state, (k - 1) as nat)).0
    }
}

/// What the first `k` turns produce.
pub open spec fn level_turns_output(graph: &Graph, state: BfsState, k: nat) -> Seq<(usize, usize)>
    decreases k,
{
    if k == 0 {
        Seq::empty()
    } else {
        level_turns_output(graph, state, (k - 1) as nat) + match level_turn(
            graph,
            level_turns_after(graph, state, (k - 1) as nat),
        ).1 {
            Some(x) => seq![x],
            None => Seq::empty(),
        }
    }
}

/// Running `a` turns and then `b` more is running `a + b` turns.
proof fn lemma_level_turns_compose(graph: &Graph, state: BfsState, a: nat, b: nat)
    ensures
        level_turns_after(graph, level_turns_after(graph, state, a), b) == level_turns_after(
            graph,
            state,
            a + b,
        ),
        level_turns_output(graph, state, a) + level_turns_output(
            graph,
            level_turns_after(graph, state, a),
            b,
        ) == level_turns_output(graph, state, a + b),
    decreases b,
{
    if b == 0 {
        assert(level_turns_output(graph, state, a) + Seq::<(usize, usize)>::empty()
            =~= level_turns_output(graph, state, a));
    } else {
        lemma_level_turns_compose(graph, state, a, (b - 1) as nat);
        assert((a + b - 1) as nat == a + (b - 1) as nat);
        assert(level_turns_output(graph, state, a) + level_turns_output(
            graph,
            level_turns_after(graph, state, a),
            b,
        ) =~= level_turns_output(graph, state, a + b));
    }
}

/// Iterator over the (node-edge) pairs of a graph in level-order.
pub struct LevelOrderIterator<'graph> {
    /// The graph that this iterator is iterating over.
    graph: &'graph Graph,
    /// Queue of nodes to visit
    queue: VecDeque<usize>,
    /// `true` if the node has been visited
    visited: Vec<bool>,
    /// Neighbors of the current node being visited
    neighbors: NeighborIterator<'graph>,
}

impl<'graph> LevelOrderIterator<'graph> {
    /// The cursor walks the graph, with a flag per vertex, and the queue holds vertices.
    pub closed spec fn wf(&self) -> bool {
        &&& self.graph.wf()
        &&& self.neighbors.wf()
        &&& self.neighbors.spec_graph() == self.graph.spec_inner()
        &&& self.visited@.len() == self.graph.spec_len()
        &&& forall|k: int| 0 <= k < self.queue@.len() ==> self.queue@[k] < self.visited@.len()
    }

    /// The graph being traversed.
    pub closed spec fn spec_graph(&self) -> &'graph Graph {
        self.graph
    }

    /// The visited flags.
    pub closed spec fn spec_visited(&self) -> Seq<bool> {
        self.visited@
    }

    /// The queue, the visited flags and the edges left out of the current node.
    pub closed spec fn spec_state(&self) -> BfsState {
        (self.queue@, self.visited@, self.neighbors.spec_remaining())
    }

    /// How far the traversal still has to go.
    pub closed spec fn spec_progress(&self) -> (nat, nat, nat) {
        (
            unseen_below(self.visited@, self.visited@.len()),
            self.queue@.len(),
            self.neighbors.spec_remaining().len(),
        )
    }

    /// Produces the next edge out of the current node as (node, edge), queueing its target
    /// if it was not visited yet; moves on to the next queued node when the current one has
    /// no edges left.
    pub fn next(&mut self) -> (r: Option<(usize, usize)>)
        requires
            old(self).wf(),
        ensures
            final(self).wf(),
            final(self).spec_graph() == old(self).spec_graph(),
            final(self).spec_visited().len() == old(self).spec_visited().len(),
            r is Some ==> lex_less(final(self).spec_progress(), old(self).spec_progress()),
            r is None ==> final(self).spec_state().0.len() == 0 && final(self).spec_state().2.len()
                == 0,
            exists|m: nat|
                final(self).spec_state() == level_turns_after(old(self).spec_graph(), old(self).spec_state(), m)
                    && level_turns_output(old(self).spec_graph(), old(self).spec_state(), m) == match r {
                    Some(x) => seq![x],
                    None => Seq::<(usize, usize)>::empty(),
                },
    {
        let ghost n = self.visited@.len();
        let ghost mut m: nat = 0;
        loop
            invariant
                self.wf(),
                self.graph == old(self).graph,
                n == self.visited@.len(),
                self.visited@ == old(self).visited@,
                self.queue@.len() < old(self).queue@.len() || self == old(self),
                self.spec_state() == level_turns_after(self.graph, old(self).spec_state(), m),
                level_turns_output(self.graph, old(self).spec_state(), m) == Seq::<(usize, usize)>::empty(),
            decreases self.queue@.len(),
        {
            let ghost state = self.spec_state();
            let ghost turn = level_turn(self.graph, state);
            proof {
                assert(level_turns_after(self.graph, old(self).spec_state(), m + 1) == turn.0);
            }
            match self.neighbors.next() {
                Some((neighbor, edge)) => {
                    if !self.visited[neighbor] {
                        let ghost seen_before = self.visited@;
                        self.visited.set(neighbor, true);
                        self.queue.push_back(neighbor);
                        proof {
                            lemma_flags_mark(seen_before, neighbor as int);
                        }
                    }
                    proof {
                        assert(self.spec_state() == turn.0);
                        assert(level_turns_output(self.graph, old(self).spec_state(), m + 1) =~= seq![
                            (neighbor, edge),
                        ]);
                        assert(self.spec_state() == level_turns_after(
                            old(self).spec_graph(),
                            old(self).spec_state(),
                            m + 1,
                        ) && level_turns_output(old(self).spec_graph(), old(self).spec_state(), m + 1)
                            == seq![(neighbor, edge)]);
                    }
                    return Some((neighbor, edge));
                },
                None => {
                    let node = match self.queue.pop_front() {
                        Some(node) => node,
                        None => {
                            proof {
                                assert(self.spec_state() == level_turns_after(
                                    old(self).spec_graph(),
                                    old(self).spec_state(),
                                    m,
                                ) && level_turns_output(old(self).spec_graph(), old(self).spec_state(), m)
                                    == Seq::<(usize, usize)>::empty());
                            }
                            return None;
                        },
                    };
                    self.neighbors = self.graph.neighbors(node);
                    proof {
                        assert(self.queue@ =~= state.0.drop_first());
                        assert(self.spec_state() == turn.0);
                        assert(level_turns_output(self.graph, old(self).spec_state(), m + 1) =~= Seq::<
                            (usize, usize),
                        >::empty());
                        m = m + 1;
                    }
                },
            }
        }
    }

    /// Produces the remaining (node, edge) pairs: what the turns produce until the queue and
    /// the current node's edges are used up.
    pub fn into_vec(self) -> (r: Vec<(usize, usize)>)
        requires
            self.wf(),
        ensures
            exists|k: nat|
                r@ == level_turns_output(self.spec_graph(), self.spec_state(), k) && level_turns_after(
                    self.spec_graph(),
                    self.spec_state(),
                    k,
                ).0.len() == 0 && level_turns_after(self.spec_graph(), self.spec_state(), k).2.len()
                    == 0,
    {
        let mut it = self;
        let mut out: Vec<(usize, usize)> = Vec::new();
        let ghost mut turns: nat = 0;
        loop
            invariant
                it.wf(),
                it.spec_graph() == self.spec_graph(),
                out@ == level_turns_output(self.spec_graph(), self.spec_state(), turns),
                it.spec_state() == level_turns_after(self.spec_graph(), self.spec_state(), turns),
            decreases it.spec_progress().0, it.spec_progress().1, it.spec_progress().2,
        {
            let ghost before = it;
            let ghost before_out = out@;
            let r = it.next();
            let ghost m = choose|m: nat|
                it.spec_state() == level_turns_after(before.spec_graph(), before.spec_state(), m)
                    && level_turns_output(before.spec_graph(), before.spec_state(), m) == match r {
                    Some(x) => seq![x],
                    None => Seq::<(usize, usize)>::empty(),
                };
            proof {
                lemma_level_turns_compose(self.spec_graph(), self.spec_state(), turns, m);
                turns = turns + m;
            }
            match r {
                Some(x) => {
                    out.push(x);
                    proof {
                        assert(out@ =~= before_out + seq![x]);
                    }
                },
                None => {
                    proof {
                        assert(before_out + Seq::<(usize, usize)>::empty() =~= before_out);
                    }
                    return out;
                },
            }
        }
    }
}

/// One turn of the post-order search: the top node's next edge is taken, and when it leads
/// to a node not visited yet that node is visited and pushed; a top node without edges left
/// leaves the stack and is produced.
pub open spec fn post_cursor_turn(state: DfsState) -> (DfsState, Option<usize>) {
    let (stack, visited, lists) = state;
    if stack.len() == 0 {
        (state, None)
    } else {
        let node = stack.last() as int;
        let list = lists[node];
        if list.len() == 0 {
            ((stack.drop_last(), visited, lists), Some(node as usize))
        } else {
            let t = list[0].0;
            let rest = lists.update(node, list.drop_first());
            if visited[t as int] {
                ((stack, visited, rest), None)
            } else {
                ((stack.push(t), visited.update(t as int, true), rest), None)
            }
        }
    }
}

/// The state after `k` turns.
pub open spec fn post_turns_after(state: DfsState, k: nat) -> DfsState
    decreases k,
{
    if k == 0 {
        state
    } else {
        post_cursor_turn(post_turns_after(state, (k - 1) as nat)).0
    }
}

/// What the first `k` turns produce.
pub open spec fn post_turns_output(state: DfsState, k: nat) -> Seq<usize>
    decreases k,
{
    if k == 0 {
        Seq::empty()
    } else {
        post_turns_output(state, (k - 1) as nat) + match post_cursor_turn(
            post_turns_after(state, (k - 1) as nat),
        ).1 {
            Some(x) => seq![x],
            None => Seq::empty(),
        }
    }
}

/// Running `a` turns and then `b` more is running `a + b` turns.
proof fn lemma_post_turns_compose(state: DfsState, a: nat, b: nat)
    ensures
        post_turns_after(post_turns_after(state, a), b) == post_turns_after(state, a + b),
        post_turns_output(state, a) + post_turns_output(post_turns_after(state, a), b)
            == post_turns_output(state, a + b),
    decreases b,
{
    if b == 0 {
        assert(post_turns_output(state, a) + Seq::<usize>::empty() =~= post_turns_output(
            state,
            a,
        ));
    } else {
        lemma_post_turns_compose(state, a, (b - 1) as nat);
        assert((a + b - 1) as nat == a + (b - 1) as nat);
        assert(post_turns_output(state, a) + post_turns_output(post_turns_after(state, a), b)
            =~= post_turns_output(state, a + b));
    }
}

/// Iterator over the nodes of a graph in postorder traversal order.
pub struct PostOrderIterator<'graph> {
    /// Stack of nodes to visit
    stack: Vec<usize>,
    /// `true` if the node has been visited
    visited: Vec<bool>,
    /// Neighbors left to iterate for each node
    neighbors: Vec<NeighborIterator<'graph>>,
    /// `true` if the last node popped from the stack was a tail node
    tail: bool,
}

impl<'graph> PostOrderIterator<'graph> {
    /// The cursors walk one graph, with a flag per vertex, and the stack holds vertices.
    pub closed spec fn wf(&self) -> bool {
        &&& cursors_wf(self.neighbors@, self.visited@.len() as nat)
        &&& forall|k: int| 0 <= k < self.stack@.len() ==> self.stack@[k] < self.visited@.len()
    }

    /// The visited flags.
    pub closed spec fn spec_visited(&self) -> Seq<bool> {
        self.visited@
    }

    /// The stack, the visited flags and the edges each node has left.
    pub closed spec fn spec_state(&self) -> DfsState {
        (self.stack@, self.visited@, cursor_lists(self.neighbors@))
    }

    /// How far the traversal still has to go.
    pub closed spec fn spec_progress(&self) -> (nat, nat, nat) {
        (unseen_below(self.visited@, self.visited@.len()), self.stack@.len(), 0)
    }

    /// Produces the node on top of the stack once none of its children is left unvisited.
    pub fn next(&mut self) -> (r: Option<usize>)
        requires
            old(self).wf(),
        ensures
            final(self).wf(),
            final(self).spec_visited().len() == old(self).spec_visited().len(),
            r is Some ==> lex_less(final(self).spec_progress(), old(self).spec_progress()),
            r is None ==> final(self).spec_state().0.len() == 0,
            exists|m: nat|
                final(self).spec_state() == post_turns_after(old(self).spec_state(), m)
                    && post_turns_output(old(self).spec_state(), m) == match r {
                    Some(x) => seq![x],
                    None => Seq::<usize>::empty(),
                },
    {
        let ghost n = self.visited@.len();
        let ghost mut m: nat = 0;
        loop
            invariant
                self.wf(),
                n == self.visited@.len(),
                n == old(self).visited@.len(),
                self.spec_progress() == old(self).spec_progress() || self.spec_progress().0
                    < old(self).spec_progress().0,
                self.spec_state() == post_turns_after(old(self).spec_state(), m),
                post_turns_output(old(self).spec_state(), m) == Seq::<usize>::empty(),
            decreases unseen_below(self.visited@, n),
        {
            let u = match self.stack.last() {
                Some(top) => *top,
                None => return None,
            };
            self.tail = true;
            let ghost entry = *self;
            loop
                invariant
                    self.wf(),
                    n == self.visited@.len(),
                    n == old(self).visited@.len(),
                    u < n,
                    self.stack@.len() > 0,
                    self.tail ==> self.visited@ == entry.visited@ && self.stack@ == entry.stack@,
                    !self.tail ==> unseen_below(self.visited@, n) < unseen_below(entry.visited@, n),
                    self.spec_progress() == entry.spec_progress() || self.spec_progress().0
                        < entry.spec_progress().0,
                    self.spec_state() == post_turns_after(old(self).spec_state(), m),
                    post_turns_output(old(self).spec_state(), m) == Seq::<usize>::empty(),
                    entry.stack@.len() > 0,
                    entry.stack@.last() == u,
                ensures
                    self.wf(),
                    n == self.visited@.len(),
                    u < n,
                    self.stack@.len() > 0,
                    self.tail ==> self.visited@ == entry.visited@ && self.stack@ == entry.stack@
                        && self.neighbors@[u as int].spec_remaining().len() == 0,
                    !self.tail ==> unseen_below(self.visited@, n) < unseen_below(entry.visited@, n),
                    self.spec_progress() == entry.spec_progress() || self.spec_progress().0
                        < entry.spec_progress().0,
                    self.spec_state() == post_turns_after(old(self).spec_state(), m),
                    post_turns_output(old(self).spec_state(), m) == Seq::<usize>::empty(),
                decreases self.neighbors@[u as int].spec_remaining().len(), if self.tail {
                    1int
                } else {
                    0int
                },
            {
                if !self.tail {
                    break;
                }
                let ghost before = self.neighbors@;
                let ghost state = self.spec_state();
                let ghost turn = post_cursor_turn(state);
                proof {
                    assert(post_turns_after(old(self).spec_state(), m + 1) == turn.0);
                    assert(state.0.last() == u);
                }
                match self.neighbors[u].next() {
                    Some((v, _)) => {
                        proof {
                            assert(cursors_wf(self.neighbors@, n));
                            assert(cursor_lists(self.neighbors@) =~= state.2.update(
                                u as int,
                                state.2[u as int].drop_first(),
                            ));
                        }
                        if !self.visited[v] {
                            let ghost seen_before = self.visited@;
                            self.visited.set(v, true);
                            self.stack.push(v);
                            self.tail = false;
                            proof {
                                lemma_flags_mark(seen_before, v as int);
                            }
                        }
                        proof {
                            assert(self.spec_state() == turn.0);
                            assert(post_turns_output(old(self).spec_state(), m + 1) =~= Seq::<
                                usize,
                            >::empty());
                            m = m + 1;
                        }
                    },
                    None => {
                        proof {
                            assert(cursors_wf(self.neighbors@, n));
                            assert(cursor_lists(self.neighbors@) =~= state.2) by {
                                assert forall|i: int| 0 <= i < n implies cursor_lists(
                                    self.neighbors@,
                                )[i] == state.2[i] by {
                                    if i == u {
                                        assert(self.neighbors@[i].spec_remaining() =~= Seq::<
                                            (usize, usize),
                                        >::empty());
                                    }
                                }
                            }
                        }
                        break;
                    },
                }
            }
            if self.tail {
                let ghost state = self.spec_state();
                proof {
                    assert(post_turns_after(old(self).spec_state(), m + 1) == post_cursor_turn(
                        state,
                    ).0);
                    assert(state.0.last() == u);
                    assert(state.2[u as int].len() == 0);
                }
                let r = self.stack.pop();
                proof {
                    assert(self.spec_state() == post_cursor_turn(state).0);
                    assert(post_turns_output(old(self).spec_state(), m + 1) =~= seq![u]);
                    assert(self.spec_state() == post_turns_after(old(self).spec_state(), m + 1)
                        && post_turns_output(old(self).spec_state(), m + 1) == seq![u]);
                }
                return r;
            }
        }
    }

    /// Produces the remaining nodes: what the turns produce until the stack is empty.
    pub fn into_vec(self) -> (r: Vec<usize>)
        requires
            self.wf(),
        ensures
            exists|k: nat|
                r@ == post_turns_output(self.spec_state(), k) && post_turns_after(
                    self.spec_state(),
                    k,
                ).0.len() == 0,
    {
        let mut it = self;
        let mut out: Vec<usize> = Vec::new();
        let ghost mut turns: nat = 0;
        loop
            invariant
                it.wf(),
                out@ == post_turns_output(self.spec_state(), turns),
                it.spec_state() == post_turns_after(self.spec_state(), turns),
            decreases it.spec_progress().0, it.spec_progress().1, it.spec_progress().2,
        {
            let ghost before = it;
            let ghost before_out = out@;
            let r = it.next();
            let ghost m = choose|m: nat|
                it.spec_state() == post_turns_after(before.spec_state(), m)
                    && post_turns_output(before.spec_state(), m) == match r {
                    Some(x) => seq![x],
                    None => Seq::<usize>::empty(),
                };
            proof {
                lemma_post_turns_compose(self.spec_state(), turns, m);
                turns = turns + m;
            }
            match r {
                Some(x) => {
                    out.push(x);
                    proof {
                        assert(out@ =~= before_out + seq![x]);
                    }
                },
                None => {
                    proof {
                        assert(before_out + Seq::<usize>::empty() =~= before_out);
                        assert(out@ == post_turns_output(self.spec_state(), turns)
                            && post_turns_after(self.spec_state(), turns).0.len() == 0);
                    }
                    return out;
                },
            }
        }
    }
}

} // verus!
