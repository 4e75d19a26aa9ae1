//! A graph data structure using an adjacency list representation over a fixed set of
//! vertices.
//!
//! The graph uses O(|V| + |E|) space, and supports O(1) edge insert.
//! It does not support node/edge deletions. It supports parallel edges.
//!
//! The data structure is not parameterized over the vertex type and just uses `usize`.
//! This leads to simpler usage, implementation, and better performance.
//!
//! Edges are numbered in order of insertion.
pub mod dijkstra;
pub mod traversal;

use vstd::prelude::*;
use crate::archive::adjlist::{self, neighbor_list, swap_ends};
use crate::graph::matrix::edges_extent;

verus! {

/// A compact directed-graph representation.
pub struct Graph {
    /// The adjacency lists.
    inner: adjlist::Graph,
}

impl Graph {
    /// The adjacency lists are well formed.
    pub closed spec fn wf(&self) -> bool {
        self.inner.wf()
    }

    /// The number of vertices.
    pub closed spec fn spec_len(&self) -> nat {
        self.inner.spec_len()
    }

    /// The edges as (from, to) pairs, in insertion order.
    pub closed spec fn spec_edges(&self) -> Seq<(usize, usize)> {
        self.inner.spec_edges()
    }

    /// The edges out of `node`, newest first, as (target, edge index) pairs.
    pub closed spec fn spec_neighbors(&self, node: int) -> Seq<(usize, usize)> {
        self.inner.spec_neighbors(node)
    }

    /// Every edge, listed vertex by vertex and newest first within a vertex.
    pub closed spec fn spec_edge_list(&self) -> Seq<(usize, usize)> {
        self.inner.spec_edge_list()
    }

    /// The underlying adjacency lists.
    pub closed spec fn spec_inner(&self) -> &adjlist::Graph {
        &self.inner
    }

    /// The edges out of `node` are those of `neighbor_list`: newest first, as (target,
    /// edge index) pairs.
    pub proof fn lemma_neighbor_order(&self, node: int)
        ensures
            self.spec_neighbors(node) == neighbor_list(
                self.spec_edges(),
                node,
                self.spec_edges().len() as int,
            ),
    {
    }

    /// The edges out of `node` are listed newest first, each as its target and index, and
    /// every edge out of `node` is listed.
    pub proof fn lemma_neighbors(&self, node: int)
        requires
            self.wf(),
        ensures
            forall|i: int|
                #![trigger self.spec_neighbors(node)[i]]
                0 <= i < self.spec_neighbors(node).len() ==> {
                    let (t, e) = self.spec_neighbors(node)[i];
                    &&& t < self.spec_len()
                    &&& e < self.spec_edges().len()
                    &&& self.spec_edges()[e as int] == (node as usize, t)
                },
            forall|e: int|
                0 <= e < self.spec_edges().len() && self.spec_edges()[e].0 == node ==> exists|
                    i: int,
                |
                    0 <= i < self.spec_neighbors(node).len() && self.spec_neighbors(node)[i].1
                        == e,
            forall|e: int|
                0 <= e < self.spec_edges().len() ==> #[trigger] self.spec_edges()[e].0
                    < self.spec_len() && self.spec_edges()[e].1 < self.spec_len(),
    {
        self.inner.lemma_neighbors_reverse_insertion(node);
        self.inner.lemma_wf_edges();
        assert forall|i: int|
            #![trigger self.spec_neighbors(node)[i]]
            0 <= i < self.spec_neighbors(node).len() implies {
                let (t, e) = self.spec_neighbors(node)[i];
                &&& t < self.spec_len()
                &&& e < self.spec_edges().len()
                &&& self.spec_edges()[e as int] == (node as usize, t)
            } by {
            let (t, e) = self.spec_neighbors(node)[i];
            assert(self.inner.spec_neighbors(node)[i] == (t, e));
            assert(self.inner.spec_edges()[e as int].1 < self.inner.spec_len());
        }
    }

    /// Constructs a graph with `max_vertices` vertices and no edges.
    /// To reduce unnecessary allocations, `edge_hint` can be set close
    /// to the number of edges that will be inserted.
    pub fn new(max_vertices: usize, edge_hint: usize) -> (r: Self)
        ensures
            r.wf(),
            r.spec_len() == max_vertices,
            r.spec_edges().len() == 0,
    {
        Self { inner: adjlist::Graph::with_vertices(max_vertices, edge_hint) }
    }

    /// Returns the max number of vertices for the graph.
    pub fn len(&self) -> (r: usize)
        ensures
            r == self.spec_len(),
    {
        self.inner.len()
    }

    /// Returns true if the graph has no edges.
    pub fn is_empty(&self) -> (r: bool)
        requires
            self.wf(),
        ensures
            r == (self.spec_edges().len() == 0),
    {
        self.inner.is_empty()
    }

    /// Returns the number of edges in the graph.
    pub fn edge_count(&self) -> (r: usize)
        requires
            self.wf(),
        ensures
            r == self.spec_edges().len(),
    {
        self.inner.edge_count()
    }

    /// Adds a directed edge to the graph from `from` to `to`. Returns the edge index.
    pub fn add_edge(&mut self, from: usize, to: usize) -> (r: usize)
        requires
            old(self).wf(),
            from < old(self).spec_len(),
            to < old(self).spec_len(),
        ensures
            final(self).wf(),
            r == old(self).spec_edges().len(),
            final(self).spec_edges() == old(self).spec_edges().push((from, to)),
            final(self).spec_len() == old(self).spec_len(),
            final(self).spec_neighbors(from as int) == seq![(to, r)] + old(self).spec_neighbors(
                from as int,
            ),
            forall|v: int|
                v != from ==> #[trigger] final(self).spec_neighbors(v) == old(self).spec_neighbors(v),
    {
        proof {
            self.inner.lemma_wf_edges();
        }
        let r = self.inner.push(from, to);
        proof {
            let e0 = old(self).spec_edges();
            let k = e0.len() as int;
            assert(self.spec_edges()[k] == (from, to));
            adjlist::lemma_prefix(e0, (from, to), from as int, k);
            assert forall|v: int| v != from implies #[trigger] self.spec_neighbors(v) == old(
                self,
            ).spec_neighbors(v) by {
                adjlist::lemma_prefix(e0, (from, to), v, k);
            }
        }
        r
    }

    /// Returns an iterator of all node-edge tuples with an edge starting from `node`,
    /// newest edge first. A node outside the graph has none.
    pub fn neighbors(&self, node: usize) -> (r: NeighborIterator<'_>)
        requires
            self.wf(),
        ensures
            r.wf(),
            r.spec_graph() == self.spec_inner(),
            r.spec_remaining() == self.spec_neighbors(node as int),
    {
        NeighborIterator { inner: self.inner.neighbors(node) }
    }

    /// Returns a transposed version of the graph.
    /// <https://en.wikipedia.org/wiki/Transpose_graph>
    pub fn transpose(&self) -> (r: Self)
        requires
            self.wf(),
        ensures
            r.wf(),
            r.spec_len() == self.spec_len(),
            r.spec_edges() == self.spec_edge_list().map_values(|e: (usize, usize)| swap_ends(e)),
    {
        Self { inner: self.inner.transpose() }
    }

    /// Constructs a graph from a slice of edges, with one more vertex than the largest
    /// endpoint (one vertex when there are no edges).
    pub fn from_edges(edges: &[(usize, usize)]) -> (r: Self)
        requires
            forall|i: int| 0 <= i < edges@.len() ==> edges@[i].0 < usize::MAX && edges@[i].1 < usize::MAX,
        ensures
            r.wf(),
            r.spec_edges() == edges@,
            r.spec_len() == if edges@.len() == 0 {
                1
            } else {
                edges_extent(edges@)
            },
            forall|i: int| 0 <= i < edges@.len() ==> edges@[i].0 < r.spec_len() && edges@[i].1 < r.spec_len(),
    {
        let mut vmax: usize = 0;
        let mut i: usize = 0;
        while i < edges.len()
            invariant
                i <= edges@.len(),
                forall|j: int| 0 <= j < edges@.len() ==> edges@[j].0 < usize::MAX && edges@[j].1 < usize::MAX,
                forall|j: int| 0 <= j < i ==> edges@[j].0 <= vmax && edges@[j].1 <= vmax,
                vmax < usize::MAX,
                i > 0 ==> vmax + 1 == edges_extent(edges@.subrange(0, i as int)),
                i == 0 ==> vmax == 0,
            decreases edges@.len() - i,
        {
            let (u, v) = edges[i];
            proof {
                assert(edges@.subrange(0, i + 1).drop_last() =~= edges@.subrange(0, i as int));
                if i == 0 {
                    assert(edges_extent(edges@.subrange(0, 0)) == 0);
                }
            }
            if u > vmax {
                vmax = u;
            }
            if v > vmax {
                vmax = v;
            }
            i += 1;
        }
        let mut graph = Self::new(vmax + 1, edges.len());
        let mut i: usize = 0;
        while i < edges.len()
            invariant
                i <= edges@.len(),
                graph.wf(),
                graph.spec_len() == vmax + 1,
                graph.spec_edges() == edges@.subrange(0, i as int),
                forall|j: int| 0 <= j < edges@.len() ==> edges@[j].0 <= vmax && edges@[j].1 <= vmax,
            decreases edges@.len() - i,
        {
            let (from, to) = edges[i];
            graph.add_edge(from, to);
            proof {
                assert(edges@.subrange(0, i + 1) =~= edges@.subrange(0, i as int).push((from, to)));
            }
            i += 1;
        }
        proof {
            assert(edges@.subrange(0, i as int) =~= edges@);
        }
        graph
    }
}

/// An iterator for convenient adjacency list traversal.
pub struct NeighborIterator<'graph> {
    /// The walk over one adjacency list.
    inner: adjlist::NeighborIterator<'graph>,
}

impl<'graph> NeighborIterator<'graph> {
    /// The walk is over a well-formed graph.
    pub closed spec fn wf(&self) -> bool {
        self.inner.wf()
    }

    /// The adjacency lists being walked.
    pub closed spec fn spec_graph(&self) -> &'graph adjlist::Graph {
        self.inner.spec_graph()
    }

    /// The (target, edge index) pairs still to come.
    pub closed spec fn spec_remaining(&self) -> Seq<(usize, usize)> {
        self.inner.spec_remaining()
    }

    /// Produces an outgoing edge and vertex.
    pub fn next(&mut self) -> (r: Option<(usize, usize)>)
        requires
            old(self).wf(),
        ensures
            final(self).wf(),
            final(self).spec_graph() == old(self).spec_graph(),
            match r {
                Some((t, e)) => t < old(self).spec_graph().spec_len() && e < old(self).spec_graph().spec_edges().len()
                    && old(self).spec_graph().spec_edges()[e as int].1 == t,
                None => true,
            },
            old(self).spec_remaining().len() == 0 ==> r is None && final(self).spec_remaining().len()
                == 0,
            old(self).spec_remaining().len() > 0 ==> r == Some(old(self).spec_remaining()[0])
                && final(self).spec_remaining() == old(self).spec_remaining().drop_first(),
    {
        self.inner.next()
    }

    /// Produces the rest of the list.
    pub fn into_vec(self) -> (r: Vec<(usize, usize)>)
        requires
            self.wf(),
        ensures
            r@ == self.spec_remaining(),
    {
        self.inner.into_vec()
    }
}

} // verus!
