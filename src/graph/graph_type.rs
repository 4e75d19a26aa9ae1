//! Whether a graph's edges are directed, as a property of its marker type.
use vstd::prelude::*;
use super::traits::{Directed, Undirected};

verus! {

/// A graph's edge type determines whether it has directed edges or not.
pub trait GraphType {
    /// Whether graphs of this kind are directed.
    spec fn spec_is_directed() -> bool;

    /// Returns `true` if the graph is directed.
    fn is_directed() -> (r: bool)
        ensures
            r == Self::spec_is_directed(),
    ;
}

impl GraphType for Directed {
    open spec fn spec_is_directed() -> bool {
        true
    }

    fn is_directed() -> (r: bool) {
        true
    }
}

impl GraphType for Undirected {
    open spec fn spec_is_directed() -> bool {
        false
    }

    fn is_directed() -> (r: bool) {
        false
    }
}

} // verus!
