//! A simple data structure to keep track of visited nodes.
use vstd::prelude::*;

verus! {

/// Whether `node` is marked in the flag vector `v`; nodes past its end are not.
pub open spec fn seen(v: Seq<bool>, node: int) -> bool {
    0 <= node < v.len() && v[node]
}

/// The number of nodes below `n` that `v` does not mark.
pub open spec fn unseen_below(v: Seq<bool>, n: nat) -> nat
    decreases n,
{
    if n == 0 {
        0
    } else {
        unseen_below(v, (n - 1) as nat) + if seen(v, n - 1) {
            0nat
        } else {
            1nat
        }
    }
}

/// Marking more nodes never raises the count of unmarked ones below `n`, and newly
/// marking a node below `n` lowers it.
pub proof fn lemma_unseen_below(v: Seq<bool>, w: Seq<bool>, n: nat, node: int)
    requires
        forall|i: int| seen(v, i) ==> seen(w, i),
    ensures
        unseen_below(w, n) <= unseen_below(v, n),
        0 <= node < n && !seen(v, node) && seen(w, node) ==> unseen_below(w, n) < unseen_below(
            v,
            n,
        ),
    decreases n,
{
    if n > 0 {
        lemma_unseen_below(v, w, (n - 1) as nat, node);
    }
}

/// A map of visited nodes.
pub struct VisitMap {
    /// The map of discovered nodes
    discovered: Vec<bool>,
}

impl View for VisitMap {
    type V = Seq<bool>;

    closed spec fn view(&self) -> Seq<bool> {
        self.discovered@
    }
}

impl Default for VisitMap {
    fn default() -> (r: Self)
        ensures
            forall|i: int| !seen(r@, i),
    {
        VisitMap { discovered: Vec::new() }
    }
}

impl VisitMap {
    /// Creates a new `VisitMap` with the given capacity.
    pub fn with_capacity(capacity: usize) -> (r: Self)
        ensures
            forall|i: int| !seen(r@, i),
    {
        VisitMap { discovered: Vec::with_capacity(capacity) }
    }

    /// Returns `true` if this is the first visit to this node and
    /// marks it as visited.
    pub fn visit(&mut self, node: usize) -> (r: bool)
        requires
            node < usize::MAX,
        ensures
            r == !seen(old(self)@, node as int),
            seen(final(self)@, node as int),
            forall|i: int| i != node ==> seen(final(self)@, i) == seen(old(self)@, i),
    {
        let size = node + 1;
        let ghost start = self.discovered@;
        while self.discovered.len() < size
            invariant
                start.len() <= self.discovered@.len() <= if start.len() < size {
                    size as int
                } else {
                    start.len() as int
                },
                forall|i: int| 0 <= i < start.len() ==> self.discovered@[i] == start[i],
                forall|i: int| start.len() <= i < self.discovered@.len() ==> !self.discovered@[i],
            decreases size - self.discovered@.len(),
        {
            self.discovered.push(false);
        }
        if self.discovered[node] {
            false
        } else {
            self.discovered.set(node, true);
            true
        }
    }

    /// Returns `true` if this node has been visited.
    /// Returns `false` even for invalid nodes.
    pub fn is_visited(&self, node: usize) -> (r: bool)
        ensures
            r == seen(self@, node as int),
    {
        node < self.discovered.len() && self.discovered[node]
    }
}

} // verus!
