//! Capability traits that decouple algorithms from storage layout.
use vstd::prelude::*;

verus! {

/// Marker type for a directed graph.
#[derive(Copy, Clone, Debug)]
pub struct Directed;

/// Marker type for an undirected graph.
#[derive(Copy, Clone, Debug)]
pub struct Undirected;

/// A graph's edge type determines whether it has directed edges or not.
pub trait Direction {
    /// Whether graphs of this kind are directed.
    spec fn spec_is_directed() -> bool;

    /// Returns `true` if the graph is directed.
    fn is_directed() -> (r: bool)
        ensures
            r == Self::spec_is_directed(),
    ;
}

impl Direction for Directed {
    open spec fn spec_is_directed() -> bool {
        true
    }

    fn is_directed() -> (r: bool) {
        true
    }
}

impl Direction for Undirected {
    open spec fn spec_is_directed() -> bool {
        false
    }

    fn is_directed() -> (r: bool) {
        false
    }
}

/// A copyable reference to a graph.
pub trait GraphRef: Copy {}

impl<'graph, G> GraphRef for &'graph G {}

/// A trait for graphs that have a known number of nodes.
pub trait NodeCount: GraphRef {
    /// The vertex-index upper bound.
    spec fn spec_node_count(self) -> nat;

    /// Returns the number of nodes in the graph.
    fn node_count(self) -> (r: usize)
        ensures
            r == self.spec_node_count(),
    ;
}

/// A trait for graphs where a node's children can be listed.
///
/// Every child is below the node count; a node beyond it has no children.
pub trait Children: NodeCount {
    /// The children of `node`, in the order `children` yields them.
    spec fn spec_children(self, node: usize) -> Seq<usize>;

    /// Returns the children of a node, one entry per outgoing edge.
    fn children(self, node: usize) -> (r: Vec<usize>)
        ensures
            r@ == self.spec_children(node),
            forall|i: int| 0 <= i < r@.len() ==> r@[i] < self.spec_node_count(),
            node >= self.spec_node_count() ==> r@.len() == 0,
            self.spec_node_count() <= usize::MAX,
    ;
}

/// A trait for graphs where a node's parents can be listed.
///
/// Every parent is below the node count; a node beyond it has no parents.
pub trait Parents: NodeCount {
    /// The parents of `node`, in the order `parents` yields them.
    spec fn spec_parents(self, node: usize) -> Seq<usize>;

    /// Returns the parents of a node, one entry per incoming edge.
    fn parents(self, node: usize) -> (r: Vec<usize>)
        ensures
            r@ == self.spec_parents(node),
            forall|i: int| 0 <= i < r@.len() ==> r@[i] < self.spec_node_count(),
            node >= self.spec_node_count() ==> r@.len() == 0,
            self.spec_node_count() <= usize::MAX,
    ;
}

/// A trait for graphs where a node's outgoing edges can be listed with their weights.
pub trait Outgoing<E>: NodeCount {
    /// The outgoing edges of `node` as (child, weight) pairs.
    spec fn spec_outgoing(self, node: usize) -> Seq<(usize, E)>;

    /// Returns the outgoing edges of a node.
    fn outgoing(self, node: usize) -> (r: Vec<(usize, E)>)
        ensures
            r@ == self.spec_outgoing(node),
            forall|i: int| 0 <= i < r@.len() ==> r@[i].0 < self.spec_node_count(),
    ;
}

/// A trait for graphs where a node's incoming edges can be listed with their weights.
pub trait Incoming<E>: NodeCount {
    /// The incoming edges of `node` as (parent, weight) pairs.
    spec fn spec_incoming(self, node: usize) -> Seq<(usize, E)>;

    /// Returns the incoming edges of a node.
    fn incoming(self, node: usize) -> (r: Vec<(usize, E)>)
        ensures
            r@ == self.spec_incoming(node),
            forall|i: int| 0 <= i < r@.len() ==> r@[i].0 < self.spec_node_count(),
    ;
}

} // verus!
