//! Adjacency matrix graph implementation.
use core::marker::PhantomData;
use vstd::prelude::*;

use super::traits::{Children, Directed, Direction, NodeCount, Outgoing, Parents, Undirected};
use super::util::{
    capacity_fits, count_some, extend_linearized_matrix, lemma_count_some_bound,
    lemma_count_some_update, lemma_position_bounds, linear_len, linear_position, same_slot,
    to_linear_matrix_position,
};

verus! {

/// The direction of the iterator.
#[derive(Debug, Clone, Copy, PartialEq, Eq, Structural)]
pub enum IterDirection {
    /// Iterate over rows i.e. parents.
    Rows,
    /// Iterate over columns i.e. children.
    Columns,
}

/// The slot that line `fixed` of `adj` holds at index `k`: row `fixed` when iterating over
/// columns, column `fixed` when iterating over rows. Empty outside the matrix.
pub open spec fn line_entry<E, Ty: Direction>(
    adj: Seq<Option<E>>,
    n: int,
    dir: IterDirection,
    fixed: int,
    k: int,
) -> Option<E> {
    if 0 <= fixed < n && 0 <= k < n {
        match dir {
            IterDirection::Columns => adj[linear_position::<Ty>(fixed, k, n)],
            IterDirection::Rows => adj[linear_position::<Ty>(k, fixed, n)],
        }
    } else {
        None
    }
}

/// The indices below `k` at which line `fixed` holds an edge, in increasing order.
pub open spec fn line_listed<E, Ty: Direction>(
    adj: Seq<Option<E>>,
    n: int,
    dir: IterDirection,
    fixed: int,
    k: int,
) -> Seq<usize>
    decreases k,
{
    if k <= 0 {
        Seq::empty()
    } else {
        line_listed::<E, Ty>(adj, n, dir, fixed, k - 1) + if line_entry::<E, Ty>(
            adj,
            n,
            dir,
            fixed,
            k - 1,
        ) is Some {
            seq![(k - 1) as usize]
        } else {
            Seq::empty()
        }
    }
}

/// The edges below index `k` on line `fixed`, with their weights, in increasing order.
pub open spec fn line_weighted<E, Ty: Direction>(
    adj: Seq<Option<E>>,
    n: int,
    dir: IterDirection,
    fixed: int,
    k: int,
) -> Seq<(usize, E)>
    decreases k,
{
    if k <= 0 {
        Seq::empty()
    } else {
        line_weighted::<E, Ty>(adj, n, dir, fixed, k - 1) + match line_entry::<E, Ty>(
            adj,
            n,
            dir,
            fixed,
            k - 1,
        ) {
            Some(w) => seq![((k - 1) as usize, w)],
            None => Seq::empty(),
        }
    }
}

/// A stretch of empty slots adds nothing to either listing.
proof fn lemma_line_skip<E, Ty: Direction>(
    adj: Seq<Option<E>>,
    n: int,
    dir: IterDirection,
    fixed: int,
    lo: int,
    hi: int,
)
    requires
        0 <= lo <= hi,
        forall|k: int| lo <= k < hi ==> line_entry::<E, Ty>(adj, n, dir, fixed, k) is None,
    ensures
        line_listed::<E, Ty>(adj, n, dir, fixed, hi) == line_listed::<E, Ty>(
            adj,
            n,
            dir,
            fixed,
            lo,
        ),
        line_weighted::<E, Ty>(adj, n, dir, fixed, hi) == line_weighted::<E, Ty>(
            adj,
            n,
            dir,
            fixed,
            lo,
        ),
    decreases hi - lo,
{
    if lo < hi {
        lemma_line_skip::<E, Ty>(adj, n, dir, fixed, lo, hi - 1);
        assert(line_listed::<E, Ty>(adj, n, dir, fixed, hi) =~= line_listed::<E, Ty>(
            adj,
            n,
            dir,
            fixed,
            hi - 1,
        ));
        assert(line_weighted::<E, Ty>(adj, n, dir, fixed, hi) =~= line_weighted::<E, Ty>(
            adj,
            n,
            dir,
            fixed,
            hi - 1,
        ));
    }
}

/// An index is listed exactly when its slot holds an edge; the listing is strictly increasing.
pub proof fn lemma_line_listed_members<E, Ty: Direction>(
    adj: Seq<Option<E>>,
    n: int,
    dir: IterDirection,
    fixed: int,
    k: int,
)
    requires
        0 <= k <= usize::MAX + 1,
    ensures
        forall|x: int|
            0 <= x < k ==> (line_listed::<E, Ty>(adj, n, dir, fixed, k).contains(x as usize)
                <==> line_entry::<E, Ty>(adj, n, dir, fixed, x) is Some),
        forall|i: int|
            0 <= i < line_listed::<E, Ty>(adj, n, dir, fixed, k).len() ==> line_listed::<E, Ty>(
                adj,
                n,
                dir,
                fixed,
                k,
            )[i] < k,
        forall|i: int, j: int|
            0 <= i < j < line_listed::<E, Ty>(adj, n, dir, fixed, k).len() ==> line_listed::<
                E,
                Ty,
            >(adj, n, dir, fixed, k)[i] < line_listed::<E, Ty>(adj, n, dir, fixed, k)[j],
    decreases k,
{
    if k > 0 {
        lemma_line_listed_members::<E, Ty>(adj, n, dir, fixed, k - 1);
        let prev = line_listed::<E, Ty>(adj, n, dir, fixed, k - 1);
        let cur = line_listed::<E, Ty>(adj, n, dir, fixed, k);
        assert forall|x: int| 0 <= x < k implies (cur.contains(x as usize) <==> line_entry::<
            E,
            Ty,
        >(adj, n, dir, fixed, x) is Some) by {
            if x < k - 1 {
                if cur.contains(x as usize) {
                    let i = choose|i: int| 0 <= i < cur.len() && cur[i] == x as usize;
                    if i >= prev.len() {
                        assert(cur[i] == (k - 1) as usize);
                    } else {
                        assert(prev[i] == x as usize);
                    }
                }
                if prev.contains(x as usize) {
                    let i = choose|i: int| 0 <= i < prev.len() && prev[i] == x as usize;
                    assert(cur[i] == x as usize);
                }
            } else {
                if line_entry::<E, Ty>(adj, n, dir, fixed, x) is Some {
                    assert(cur[prev.len() as int] == x as usize);
                } else {
                    assert(cur =~= prev);
                    if prev.contains(x as usize) {
                        let i = choose|i: int| 0 <= i < prev.len() && prev[i] == x as usize;
                    }
                }
            }
        }
    }
}

/// Every weighted entry below `k` names a node below `k`.
proof fn lemma_line_weighted_bound<E, Ty: Direction>(
    adj: Seq<Option<E>>,
    n: int,
    dir: IterDirection,
    fixed: int,
    k: int,
)
    requires
        0 <= k <= usize::MAX + 1,
    ensures
        forall|i: int|
            0 <= i < line_weighted::<E, Ty>(adj, n, dir, fixed, k).len() ==> line_weighted::<
                E,
                Ty,
            >(adj, n, dir, fixed, k)[i].0 < k,
    decreases k,
{
    if k > 0 {
        lemma_line_weighted_bound::<E, Ty>(adj, n, dir, fixed, k - 1);
        let prev = line_weighted::<E, Ty>(adj, n, dir, fixed, k - 1);
        let cur = line_weighted::<E, Ty>(adj, n, dir, fixed, k);
        assert forall|i: int| 0 <= i < cur.len() implies cur[i].0 < k by {
            if i < prev.len() {
                assert(cur[i] == prev[i]);
            }
        }
    }
}

/// A graph represented using an adjacency matrix.
pub struct Graph<E, Ty: Direction = Directed> {
    /// The node adjacencies.
    adjacencies: Vec<Option<E>>,
    /// The number of nodes that can be stored in the graph without reallocating.
    n_nodes: usize,
    /// The number of edges in the graph.
    n_edges: usize,
    /// Whether the graph is directed or undirected.
    ty: PhantomData<Ty>,
}

impl<E, Ty: Direction> Graph<E, Ty> {
    /// The matrix has one slot per node pair of its layout, and the edge counter counts
    /// the occupied slots.
    #[verifier::type_invariant]
    spec fn inv(self) -> bool {
        &&& capacity_fits(self.n_nodes as int)
        &&& self.adjacencies@.len() == linear_len::<Ty>(self.n_nodes as int)
        &&& self.n_edges == count_some(self.adjacencies@)
    }

    /// The number of nodes the matrix has room for.
    pub closed spec fn spec_node_capacity(&self) -> nat {
        self.n_nodes as nat
    }

    /// The number of edges in the graph.
    pub closed spec fn spec_edge_count(&self) -> nat {
        self.n_edges as nat
    }

    /// The weight stored for the pair `(a, b)`, if any.
    pub closed spec fn spec_edge(&self, a: int, b: int) -> Option<E> {
        line_entry::<E, Ty>(
            self.adjacencies@,
            self.n_nodes as int,
            IterDirection::Columns,
            a,
            b,
        )
    }

    /// The nodes on row or column `fixed` of the matrix whose slot holds an edge.
    pub closed spec fn spec_listed(&self, dir: IterDirection, fixed: int) -> Seq<usize> {
        line_listed::<E, Ty>(
            self.adjacencies@,
            self.n_nodes as int,
            dir,
            fixed,
            self.n_nodes as int,
        )
    }

    /// Node `fixed`'s line of the matrix as (index, weight) pairs.
    pub closed spec fn spec_weighted(&self, dir: IterDirection, fixed: int) -> Seq<(usize, E)> {
        line_weighted::<E, Ty>(
            self.adjacencies@,
            self.n_nodes as int,
            dir,
            fixed,
            self.n_nodes as int,
        )
    }

    /// `next` is `self` with the slot of `(a, b)` set to `value`: the capacity grows to hold
    /// `a` and `b` when an edge is written, every other slot is kept, and the edge count
    /// follows the slot's occupancy.
    pub open spec fn spec_rewritten(&self, next: Self, a: int, b: int, value: Option<E>) -> bool {
        &&& next.spec_node_capacity() == if value is Some {
            vstd::math::max(
                self.spec_node_capacity() as int,
                vstd::math::max(a + 1, b + 1),
            )
        } else {
            self.spec_node_capacity() as int
        }
        &&& forall|x: int, y: int|
            #[trigger] next.spec_edge(x, y) == if same_slot::<Ty>(x, y, a, b) {
                value
            } else {
                self.spec_edge(x, y)
            }
        &&& next.spec_edge_count() + (if self.spec_edge(a, b) is Some {
            1int
        } else {
            0int
        }) == self.spec_edge_count() + (if value is Some {
            1int
        } else {
            0int
        })
    }

    /// Constructs a new graph.
    pub fn new() -> (r: Self)
        ensures
            r.spec_node_capacity() == 0,
            r.spec_edge_count() == 0,
            forall|a: int, b: int| #[trigger] r.spec_edge(a, b) is None,
    {
        Self { adjacencies: Vec::new(), n_edges: 0, n_nodes: 0, ty: PhantomData }
    }

    /// Creates a new graph with the specified capacity.
    pub fn with_capacity(capacity: usize) -> (r: Self)
        requires
            capacity_fits(capacity as int),
        ensures
            r.spec_node_capacity() == capacity,
            r.spec_edge_count() == 0,
            forall|a: int, b: int| #[trigger] r.spec_edge(a, b) is None,
    {
        let mut adjacencies: Vec<Option<E>> = Vec::new();
        extend_linearized_matrix::<Ty, E>(&mut adjacencies, 0, capacity);
        let r = Self { adjacencies, n_edges: 0, n_nodes: capacity, ty: PhantomData };
        proof {
            assert forall|a: int, b: int| #[trigger] r.spec_edge(a, b) is None by {
                if 0 <= a < capacity && 0 <= b < capacity {
                    assert(adjacencies@[linear_position::<Ty>(a, b, capacity as int)] is None);
                }
            }
        }
        r
    }

    /// Returns `true` if the graph contains no edges.
    pub fn is_empty(&self) -> (r: bool)
        ensures
            r == (self.spec_edge_count() == 0),
    {
        self.n_edges == 0
    }

    /// Returns the number of edges in the graph.
    pub fn edge_count(&self) -> (r: usize)
        ensures
            r == self.spec_edge_count(),
    {
        self.n_edges
    }

    /// Grows the matrix so that it holds at least `needed` nodes; every edge is kept.
    fn reserve_nodes(&mut self, needed: usize)
        requires
            capacity_fits(needed as int),
        ensures
            final(self).spec_node_capacity() == vstd::math::max(
                old(self).spec_node_capacity() as int,
                needed as int,
            ),
            final(self).spec_edge_count() == old(self).spec_edge_count(),
            forall|x: int, y: int| #[trigger]
                final(self).spec_edge(x, y) == old(self).spec_edge(x, y),
    {
        proof {
            use_type_invariant(&*self);
        }
        if needed > self.n_nodes {
            let mut taken = Self::new();
            core::mem::swap(self, &mut taken);
            proof {
                use_type_invariant(&taken);
            }
            let ghost before = taken;
            let Graph { mut adjacencies, n_nodes, n_edges, ty } = taken;
            extend_linearized_matrix::<Ty, E>(&mut adjacencies, n_nodes, needed);
            *self = Graph { adjacencies, n_nodes: needed, n_edges, ty };
            proof {
                assert forall|x: int, y: int| #[trigger]
                    self.spec_edge(x, y) == before.spec_edge(x, y) by {
                    if 0 <= x < needed && 0 <= y < needed {
                        assert(self.adjacencies@[linear_position::<Ty>(x, y, needed as int)]
                            == if x < n_nodes && y < n_nodes {
                            before.adjacencies@[linear_position::<Ty>(x, y, n_nodes as int)]
                        } else {
                            None
                        });
                    }
                }
            }
        }
    }

    /// Writes `value` into the slot at `index` and returns what it held.
    fn replace_slot(&mut self, index: usize, value: Option<E>) -> (r: Option<E>)
        requires
            index < old(self).adjacencies@.len(),
        ensures
            r == old(self).adjacencies@[index as int],
            final(self).adjacencies@ == old(self).adjacencies@.update(index as int, value),
            final(self).n_nodes == old(self).n_nodes,
            final(self).n_edges + (if r is Some {
                1int
            } else {
                0int
            }) == old(self).n_edges + (if value is Some {
                1int
            } else {
                0int
            }),
    {
        proof {
            use_type_invariant(&*self);
        }
        let mut taken = Self::new();
        core::mem::swap(self, &mut taken);
        proof {
            use_type_invariant(&taken);
        }
        let Graph { mut adjacencies, n_nodes, n_edges, ty } = taken;
        let ghost before = adjacencies@;
        let total = adjacencies.len();
        let adds = value.is_some();
        let mut held = value;
        core::mem::swap(&mut adjacencies[index], &mut held);
        proof {
            lemma_count_some_update(before, index as int, value);
            lemma_count_some_bound(before);
            if adds && held is None {
                assert(before[index as int] is None);
                assert(n_edges < total);
            }
        }
        let count = if held.is_some() && !adds {
            n_edges - 1
        } else if held.is_none() && adds {
            n_edges + 1
        } else {
            n_edges
        };
        *self = Graph { adjacencies, n_nodes, n_edges: count, ty };
        held
    }

    /// Adds an edge from `a` to `b` with the given weight, growing the matrix to hold both.
    ///
    /// The slot must be empty: this inserts, it does not replace.
    pub fn add_edge(&mut self, a: usize, b: usize, weight: E)
        requires
            capacity_fits(vstd::math::max(a as int, b as int) + 1),
            old(self).spec_edge(a as int, b as int) is None,
        ensures
            old(self).spec_rewritten(*final(self), a as int, b as int, Some(weight)),
            final(self).spec_edge_count() == old(self).spec_edge_count() + 1,
    {
        let _ = self.update_edge(a, b, weight);
    }

    /// Writes the weight of the edge from `a` to `b`, growing the matrix to hold both, and
    /// returns the weight it replaced.
    pub fn update_edge(&mut self, a: usize, b: usize, weight: E) -> (r: Option<E>)
        requires
            capacity_fits(vstd::math::max(a as int, b as int) + 1),
        ensures
            r == old(self).spec_edge(a as int, b as int),
            old(self).spec_rewritten(*final(self), a as int, b as int, Some(weight)),
    {
        proof {
            let m = vstd::math::max(a as int, b as int);
            assert(m + 1 <= (m + 1) * (m + 2)) by (nonlinear_arith)
                requires
                    m >= 0,
            ;
        }
        let max_node = if a > b {
            a + 1
        } else {
            b + 1
        };
        self.reserve_nodes(max_node);
        let ghost grown = *self;
        proof {
            use_type_invariant(&*self);
        }
        let index = to_linear_matrix_position::<Ty>(a, b, self.n_nodes);
        proof {
            lemma_position_bounds::<Ty>(a as int, b as int, a as int, b as int, self.n_nodes as int);
        }
        let r = self.replace_slot(index, Some(weight));
        proof {
            self.lemma_rewritten(grown, a as int, b as int, Some(weight));
            assert(r == grown.spec_edge(a as int, b as int));
            assert(self.spec_node_capacity() == grown.spec_node_capacity());
            assert forall|x: int, y: int| #[trigger]
                self.spec_edge(x, y) == if same_slot::<Ty>(x, y, a as int, b as int) {
                    Some(weight)
                } else {
                    old(self).spec_edge(x, y)
                } by {
                assert(grown.spec_edge(x, y) == old(self).spec_edge(x, y));
            }
        }
        r
    }

    /// Removes the edge from `a` to `b` and returns its weight, or `None` if there was none.
    pub fn remove_edge(&mut self, a: usize, b: usize) -> (r: Option<E>)
        ensures
            r == old(self).spec_edge(a as int, b as int),
            old(self).spec_rewritten(*final(self), a as int, b as int, None),
    {
        proof {
            use_type_invariant(&*self);
        }
        if a >= self.n_nodes || b >= self.n_nodes {
            return None;
        }
        let ghost before = *self;
        let index = to_linear_matrix_position::<Ty>(a, b, self.n_nodes);
        proof {
            lemma_position_bounds::<Ty>(a as int, b as int, a as int, b as int, self.n_nodes as int);
        }
        let r = self.replace_slot(index, None);
        proof {
            self.lemma_rewritten(before, a as int, b as int, None);
        }
        r
    }

    /// After one slot write, the other pairs keep their slots' values.
    proof fn lemma_rewritten(&self, before: Self, a: int, b: int, value: Option<E>)
        requires
            0 <= a < before.n_nodes,
            0 <= b < before.n_nodes,
            self.n_nodes == before.n_nodes,
            self.adjacencies@.len() == before.adjacencies@.len(),
            before.adjacencies@.len() == linear_len::<Ty>(before.n_nodes as int),
            self.adjacencies@ == before.adjacencies@.update(
                linear_position::<Ty>(a, b, before.n_nodes as int),
                value,
            ),
        ensures
            forall|x: int, y: int|
                #[trigger] self.spec_edge(x, y) == if same_slot::<Ty>(x, y, a, b) {
                    value
                } else {
                    before.spec_edge(x, y)
                },
    {
        let n = before.n_nodes as int;
        let p = linear_position::<Ty>(a, b, n);
        lemma_position_bounds::<Ty>(a, b, a, b, n);
        assert forall|x: int, y: int|
            #[trigger] self.spec_edge(x, y) == if same_slot::<Ty>(x, y, a, b) {
                value
            } else {
                before.spec_edge(x, y)
            } by {
            if 0 <= x < n && 0 <= y < n {
                lemma_position_bounds::<Ty>(x, y, a, b, n);
                let q = linear_position::<Ty>(x, y, n);
                assert(self.spec_edge(x, y) == self.adjacencies@[q]);
                assert(before.spec_edge(x, y) == before.adjacencies@[q]);
                if q == p {
                    assert(self.adjacencies@[q] == value);
                } else {
                    assert(self.adjacencies@[q] == before.adjacencies@[q]);
                }
            } else {
                assert(self.spec_edge(x, y) is None);
                assert(before.spec_edge(x, y) is None);
                if Ty::spec_is_directed() {
                    assert(!same_slot::<Ty>(x, y, a, b));
                } else {
                    assert(!same_slot::<Ty>(x, y, a, b));
                }
            }
        }
    }
}

/// Iterator over the edges of from or to a node
pub struct Edges<'graph, Ty: Direction, E: 'graph> {
    /// The direction of the iterator.
    iter_direction: IterDirection,
    /// The node adjacencies.
    adjacencies: &'graph [Option<E>],
    /// The number of nodes that can be stored in the graph without reallocating.
    node_capacity: usize,
    /// The row of the next edge to be returned.
    row: usize,
    /// The column of the next edge to be returned.
    column: usize,
    /// The type of the graph.
    ty: PhantomData<Ty>,
}

impl<'graph, Ty: Direction, E: 'graph> Edges<'graph, Ty, E> {
    /// The cursor belongs to a well-formed matrix and has not run past its end.
    pub closed spec fn wf(&self) -> bool {
        &&& capacity_fits(self.node_capacity as int)
        &&& self.adjacencies@.len() == linear_len::<Ty>(self.node_capacity as int)
        &&& self.spec_cursor() <= self.node_capacity
    }

    /// The matrix line that the cursor walks: direction, fixed node, slots and capacity.
    pub closed spec fn spec_line(&self) -> (IterDirection, int, Seq<Option<E>>, int) {
        (self.iter_direction, self.spec_fixed(), self.adjacencies@, self.node_capacity as int)
    }

    /// The node whose row or column is walked.
    pub closed spec fn spec_fixed(&self) -> int {
        match self.iter_direction {
            IterDirection::Columns => self.row as int,
            IterDirection::Rows => self.column as int,
        }
    }

    /// The index of the next slot to look at.
    pub closed spec fn spec_cursor(&self) -> int {
        match self.iter_direction {
            IterDirection::Columns => self.column as int,
            IterDirection::Rows => self.row as int,
        }
    }

    /// The slot at index `k` of the walked line.
    pub closed spec fn spec_entry(&self, k: int) -> Option<E> {
        line_entry::<E, Ty>(
            self.adjacencies@,
            self.node_capacity as int,
            self.iter_direction,
            self.spec_fixed(),
            k,
        )
    }

    /// Produces the next occupied slot of the line as (node, weight), skipping empty ones.
    pub fn next(&mut self) -> (r: Option<(usize, &'graph E)>)
        requires
            old(self).wf(),
        ensures
            final(self).wf(),
            final(self).spec_line() == old(self).spec_line(),
            old(self).spec_cursor() <= final(self).spec_cursor(),
            forall|k: int|
                old(self).spec_cursor() <= k < final(self).spec_cursor() - (if r is Some {
                    1int
                } else {
                    0int
                }) ==> old(self).spec_entry(k) is None,
            match r {
                Some((x, w)) => old(self).spec_cursor() <= x == final(self).spec_cursor() - 1
                    && old(self).spec_entry(x as int) == Some(*w),
                None => forall|k: int|
                    final(self).spec_cursor() <= k ==> old(self).spec_entry(k) is None,
            },
    {
        loop
            invariant
                self.wf(),
                self.spec_line() == old(self).spec_line(),
                old(self).spec_cursor() <= self.spec_cursor(),
                forall|k: int|
                    old(self).spec_cursor() <= k < self.spec_cursor() ==> old(self).spec_entry(k)
                        is None,
            decreases self.node_capacity - self.spec_cursor(),
        {
            if self.row >= self.node_capacity || self.column >= self.node_capacity {
                return None;
            }
            let (row, column) = (self.row, self.column);

            match self.iter_direction {
                IterDirection::Rows => self.row += 1,
                IterDirection::Columns => self.column += 1,
            }

            let p = to_linear_matrix_position::<Ty>(row, column, self.node_capacity);
            proof {
                lemma_position_bounds::<Ty>(
                    row as int,
                    column as int,
                    row as int,
                    column as int,
                    self.node_capacity as int,
                );
            }
            let adjacencies = self.adjacencies;
            if let Some(e) = adjacencies[p].as_ref() {
                let b = match self.iter_direction {
                    IterDirection::Rows => row,
                    IterDirection::Columns => column,
                };
                return Some((b, e));
            }
        }
    }
}

/// Iterator over the neighbors of a node
pub struct Neighbors<'graph, Ty: Direction, E: 'graph> {
    /// The direction of the iterator.
    iter_direction: IterDirection,
    /// The node adjacencies.
    adjacencies: &'graph [Option<E>],
    /// The number of nodes that can be stored in the graph without reallocating.
    node_capacity: usize,
    /// The row of the next edge to be returned.
    row: usize,
    /// The column of the next edge to be returned.
    column: usize,
    /// The type of the graph.
    ty: PhantomData<Ty>,
}

impl<'graph, Ty: Direction, E: 'graph> Neighbors<'graph, Ty, E> {
    /// The cursor belongs to a well-formed matrix and has not run past its end.
    pub closed spec fn wf(&self) -> bool {
        &&& capacity_fits(self.node_capacity as int)
        &&& self.adjacencies@.len() == linear_len::<Ty>(self.node_capacity as int)
        &&& self.spec_cursor() <= self.node_capacity
    }

    /// The matrix line that the cursor walks: direction, fixed node, slots and capacity.
    pub closed spec fn spec_line(&self) -> (IterDirection, int, Seq<Option<E>>, int) {
        (self.iter_direction, self.spec_fixed(), self.adjacencies@, self.node_capacity as int)
    }

    /// The node whose row or column is walked.
    pub closed spec fn spec_fixed(&self) -> int {
        match self.iter_direction {
            IterDirection::Columns => self.row as int,
            IterDirection::Rows => self.column as int,
        }
    }

    /// The index of the next slot to look at.
    pub closed spec fn spec_cursor(&self) -> int {
        match self.iter_direction {
            IterDirection::Columns => self.column as int,
            IterDirection::Rows => self.row as int,
        }
    }

    /// The slot at index `k` of the walked line.
    pub closed spec fn spec_entry(&self, k: int) -> Option<E> {
        line_entry::<E, Ty>(
            self.adjacencies@,
            self.node_capacity as int,
            self.iter_direction,
            self.spec_fixed(),
            k,
        )
    }

    /// Produces the next node whose slot on the line is occupied, skipping empty ones.
    pub fn next(&mut self) -> (r: Option<usize>)
        requires
            old(self).wf(),
        ensures
            final(self).wf(),
            final(self).spec_line() == old(self).spec_line(),
            old(self).spec_cursor() <= final(self).spec_cursor(),
            forall|k: int|
                old(self).spec_cursor() <= k < final(self).spec_cursor() - (if r is Some {
                    1int
                } else {
                    0int
                }) ==> old(self).spec_entry(k) is None,
            match r {
                Some(x) => old(self).spec_cursor() <= x == final(self).spec_cursor() - 1 && old(self).spec_entry(x as int) is Some,
                None => forall|k: int|
                    final(self).spec_cursor() <= k ==> old(self).spec_entry(k) is None,
            },
    {
        loop
            invariant
                self.wf(),
                self.spec_line() == old(self).spec_line(),
                old(self).spec_cursor() <= self.spec_cursor(),
                forall|k: int|
                    old(self).spec_cursor() <= k < self.spec_cursor() ==> old(self).spec_entry(k)
                        is None,
            decreases self.node_capacity - self.spec_cursor(),
        {
            if self.row >= self.node_capacity || self.column >= self.node_capacity {
                return None;
            }
            let (row, column) = (self.row, self.column);

            match self.iter_direction {
                IterDirection::Rows => self.row += 1,
                IterDirection::Columns => self.column += 1,
            }

            let p = to_linear_matrix_position::<Ty>(row, column, self.node_capacity);
            proof {
                lemma_position_bounds::<Ty>(
                    row as int,
                    column as int,
                    row as int,
                    column as int,
                    self.node_capacity as int,
                );
            }
            if self.adjacencies[p].is_some() {
                let neighbor = match self.iter_direction {
                    IterDirection::Rows => row,
                    IterDirection::Columns => column,
                };
                return Some(neighbor);
            }
        }
    }

    /// Collects the rest of the line.
    fn drain(cursor: Self) -> (r: Vec<usize>)
        requires
            cursor.wf(),
            cursor.spec_cursor() == 0,
        ensures
            r@ == line_listed::<E, Ty>(
                cursor.adjacencies@,
                cursor.node_capacity as int,
                cursor.iter_direction,
                cursor.spec_fixed(),
                cursor.node_capacity as int,
            ),
            forall|i: int| 0 <= i < r@.len() ==> r@[i] < cursor.node_capacity,
    {
        let mut it = cursor;
        let ghost start = it;
        let ghost (dir, fixed, adj, n) = it.spec_line();
        let mut out: Vec<usize> = Vec::new();
        loop
            invariant
                it.wf(),
                it.spec_line() == start.spec_line(),
                it.spec_line() == (dir, fixed, adj, n),
                cursor.spec_line() == (dir, fixed, adj, n),
                out@ == line_listed::<E, Ty>(adj, n, dir, fixed, it.spec_cursor()),
            decreases n - it.spec_cursor(),
        {
            let ghost before = it;
            match it.next() {
                Some(x) => {
                    proof {
                        assert forall|k: int| before.spec_cursor() <= k < x implies line_entry::<
                            E,
                            Ty,
                        >(adj, n, dir, fixed, k) is None by {
                            assert(before.spec_entry(k) is None);
                        }
                        lemma_line_skip::<E, Ty>(adj, n, dir, fixed, before.spec_cursor(), x as int);
                        assert(before.spec_entry(x as int) is Some);
                        assert(line_listed::<E, Ty>(adj, n, dir, fixed, x + 1) =~= line_listed::<
                            E,
                            Ty,
                        >(adj, n, dir, fixed, x as int).push(x));
                    }
                    out.push(x);
                },
                None => {
                    proof {
                        assert forall|k: int| before.spec_cursor() <= k < n implies line_entry::<
                            E,
                            Ty,
                        >(adj, n, dir, fixed, k) is None by {
                            assert(before.spec_entry(k) is None);
                        }
                        lemma_line_skip::<E, Ty>(adj, n, dir, fixed, before.spec_cursor(), n);
                        lemma_line_listed_members::<E, Ty>(adj, n, dir, fixed, n);
                        assert(out@ == line_listed::<E, Ty>(adj, n, dir, fixed, before.spec_cursor()));
                        assert(out@ == line_listed::<E, Ty>(adj, n, dir, fixed, n));
                    }
                    return out;
                },
            }
        }
    }
}

impl<E, Ty: Direction> Graph<E, Ty> {
    /// A cursor over row or column `node` of the matrix.
    fn line(&self, iter_direction: IterDirection, node: usize) -> (r: Neighbors<'_, Ty, E>)
        ensures
            r.wf(),
            r.spec_cursor() == 0,
            r.spec_line() == (iter_direction, node as int, self.adjacencies@, self.n_nodes as int),
    {
        proof {
            use_type_invariant(self);
        }
        let (row, column) = match iter_direction {
            IterDirection::Columns => (node, 0),
            IterDirection::Rows => (0, node),
        };
        Neighbors {
            iter_direction,
            adjacencies: self.adjacencies.as_slice(),
            node_capacity: self.n_nodes,
            row,
            column,
            ty: PhantomData,
        }
    }
}

impl<'graph, E, Ty: Direction> NodeCount for &'graph Graph<E, Ty> {
    open spec fn spec_node_count(self) -> nat {
        self.spec_node_capacity()
    }

    fn node_count(self) -> (r: usize) {
        self.n_nodes
    }
}

impl<'graph, E, Ty: Direction> Children for &'graph Graph<E, Ty> {
    open spec fn spec_children(self, node: usize) -> Seq<usize> {
        self.spec_listed(IterDirection::Columns, node as int)
    }

    fn children(self, node: usize) -> (r: Vec<usize>) {
        let r = Neighbors::drain(self.line(IterDirection::Columns, node));
        proof {
            let n = self.n_nodes as int;
            if node >= n {
                lemma_line_skip::<E, Ty>(self.adjacencies@, n, IterDirection::Columns, node as int, 0, n);
            }
        }
        r
    }
}

impl<'graph, E, Ty: Direction> Parents for &'graph Graph<E, Ty> {
    open spec fn spec_parents(self, node: usize) -> Seq<usize> {
        self.spec_listed(IterDirection::Rows, node as int)
    }

    fn parents(self, node: usize) -> (r: Vec<usize>) {
        let r = Neighbors::drain(self.line(IterDirection::Rows, node));
        proof {
            let n = self.n_nodes as int;
            if node >= n {
                lemma_line_skip::<E, Ty>(self.adjacencies@, n, IterDirection::Rows, node as int, 0, n);
            }
        }
        r
    }
}

impl<'graph, Ty: Direction, E: 'graph> Edges<'graph, Ty, E> {
    /// Collects the rest of the line.
    fn drain(cursor: Self) -> (r: Vec<(usize, &'graph E)>)
        requires
            cursor.wf(),
            cursor.spec_cursor() == 0,
        ensures
            r@.len() == line_weighted::<E, Ty>(
                cursor.adjacencies@,
                cursor.node_capacity as int,
                cursor.iter_direction,
                cursor.spec_fixed(),
                cursor.node_capacity as int,
            ).len(),
            forall|i: int|
                0 <= i < r@.len() ==> r@[i].0 == line_weighted::<E, Ty>(
                    cursor.adjacencies@,
                    cursor.node_capacity as int,
                    cursor.iter_direction,
                    cursor.spec_fixed(),
                    cursor.node_capacity as int,
                )[i].0 && *r@[i].1 == line_weighted::<E, Ty>(
                    cursor.adjacencies@,
                    cursor.node_capacity as int,
                    cursor.iter_direction,
                    cursor.spec_fixed(),
                    cursor.node_capacity as int,
                )[i].1,
    {
        let mut it = cursor;
        let ghost (dir, fixed, adj, n) = it.spec_line();
        let mut out: Vec<(usize, &'graph E)> = Vec::new();
        loop
            invariant
                it.wf(),
                it.spec_line() == (dir, fixed, adj, n),
                cursor.spec_line() == (dir, fixed, adj, n),
                out@.len() == line_weighted::<E, Ty>(adj, n, dir, fixed, it.spec_cursor()).len(),
                forall|i: int|
                    0 <= i < out@.len() ==> out@[i].0 == line_weighted::<E, Ty>(
                        adj,
                        n,
                        dir,
                        fixed,
                        it.spec_cursor(),
                    )[i].0 && *out@[i].1 == line_weighted::<E, Ty>(
                        adj,
                        n,
                        dir,
                        fixed,
                        it.spec_cursor(),
                    )[i].1,
            decreases n - it.spec_cursor(),
        {
            let ghost before = it;
            match it.next() {
                Some((x, w)) => {
                    proof {
                        assert forall|k: int| before.spec_cursor() <= k < x implies line_entry::<
                            E,
                            Ty,
                        >(adj, n, dir, fixed, k) is None by {
                            assert(before.spec_entry(k) is None);
                        }
                        lemma_line_skip::<E, Ty>(adj, n, dir, fixed, before.spec_cursor(), x as int);
                        assert(before.spec_entry(x as int) == Some(*w));
                        assert(line_weighted::<E, Ty>(adj, n, dir, fixed, x + 1) =~= line_weighted::<
                            E,
                            Ty,
                        >(adj, n, dir, fixed, x as int).push((x, *w)));
                    }
                    out.push((x, w));
                },
                None => {
                    proof {
                        assert forall|k: int| before.spec_cursor() <= k < n implies line_entry::<
                            E,
                            Ty,
                        >(adj, n, dir, fixed, k) is None by {
                            assert(before.spec_entry(k) is None);
                        }
                        lemma_line_skip::<E, Ty>(adj, n, dir, fixed, before.spec_cursor(), n);
                    }
                    return out;
                },
            }
        }
    }
}

impl<E, Ty: Direction> Graph<E, Ty> {
    /// A weighted cursor over row `node` of the matrix.
    fn weighted_row(&self, node: usize) -> (r: Edges<'_, Ty, E>)
        ensures
            r.wf(),
            r.spec_cursor() == 0,
            r.spec_line() == (IterDirection::Columns, node as int, self.adjacencies@, self.n_nodes as int),
    {
        proof {
            use_type_invariant(self);
        }
        Edges {
            iter_direction: IterDirection::Columns,
            adjacencies: self.adjacencies.as_slice(),
            node_capacity: self.n_nodes,
            row: node,
            column: 0,
            ty: PhantomData,
        }
    }
}

impl<'graph, E, Ty: Direction> Outgoing<&'graph E> for &'graph Graph<E, Ty> {
    open spec fn spec_outgoing(self, node: usize) -> Seq<(usize, &'graph E)> {
        self.spec_weighted(IterDirection::Columns, node as int).map_values(
            |p: (usize, E)| (p.0, &p.1),
        )
    }

    fn outgoing(self, node: usize) -> (r: Vec<(usize, &'graph E)>) {
        let r = Edges::drain(self.weighted_row(node));
        proof {
            let w = self.spec_weighted(IterDirection::Columns, node as int);
            assert(r@ =~= w.map_values(|p: (usize, E)| (p.0, &p.1)));
            lemma_line_weighted_bound::<E, Ty>(
                self.adjacencies@,
                self.n_nodes as int,
                IterDirection::Columns,
                node as int,
                self.n_nodes as int,
            );
        }
        r
    }
}

/// One more than the largest node named by `edges`, or zero when there are none.
pub open spec fn edges_extent(edges: Seq<(usize, usize)>) -> int
    decreases edges.len(),
{
    if edges.len() == 0 {
        0
    } else {
        vstd::math::max(
            edges_extent(edges.drop_last()),
            vstd::math::max(edges.last().0 + 1, edges.last().1 + 1),
        )
    }
}

impl<Ty: Direction> Graph<(), Ty> {
    /// Constructs an unweighted graph from a list of edges. A pair listed twice, or under
    /// both orientations in an undirected graph, occupies one slot.
    pub fn from_edges(edges: &[(usize, usize)]) -> (r: Self)
        requires
            forall|i: int|
                0 <= i < edges@.len() ==> capacity_fits(
                    vstd::math::max(edges@[i].0 as int, edges@[i].1 as int) + 1,
                ),
        ensures
            r.spec_node_capacity() == edges_extent(edges@),
            forall|x: int, y: int|
                #[trigger] r.spec_edge(x, y) is Some <==> exists|i: int|
                    0 <= i < edges@.len() && same_slot::<Ty>(
                        x,
                        y,
                        edges@[i].0 as int,
                        edges@[i].1 as int,
                    ),
    {
        let mut graph = Self::new();
        let mut i: usize = 0;
        while i < edges.len()
            invariant
                0 <= i <= edges@.len(),
                forall|j: int|
                    0 <= j < edges@.len() ==> capacity_fits(
                        vstd::math::max(edges@[j].0 as int, edges@[j].1 as int) + 1,
                    ),
                graph.spec_node_capacity() == edges_extent(edges@.subrange(0, i as int)),
                forall|x: int, y: int|
                    #[trigger] graph.spec_edge(x, y) is Some <==> exists|j: int|
                        0 <= j < i && same_slot::<Ty>(
                            x,
                            y,
                            edges@[j].0 as int,
                            edges@[j].1 as int,
                        ),
            decreases edges@.len() - i,
        {
            let (from, to) = edges[i];
            let ghost before = graph;
            let previous = graph.update_edge(from, to, ());
            proof {
                assert(edges@.subrange(0, i + 1).drop_last() =~= edges@.subrange(0, i as int));
                assert forall|x: int, y: int| #[trigger]
                    graph.spec_edge(x, y) is Some <==> exists|j: int|
                        0 <= j < i + 1 && same_slot::<Ty>(
                            x,
                            y,
                            edges@[j].0 as int,
                            edges@[j].1 as int,
                        ) by {
                    if same_slot::<Ty>(x, y, from as int, to as int) {
                        assert(same_slot::<Ty>(x, y, edges@[i as int].0 as int, edges@[i as int].1 as int));
                    } else if before.spec_edge(x, y) is Some {
                        let j = choose|j: int|
                            0 <= j < i && same_slot::<Ty>(
                                x,
                                y,
                                edges@[j].0 as int,
                                edges@[j].1 as int,
                            );
                        assert(0 <= j < i + 1);
                    } else {
                        if exists|j: int|
                            0 <= j < i + 1 && same_slot::<Ty>(
                                x,
                                y,
                                edges@[j].0 as int,
                                edges@[j].1 as int,
                            ) {
                            let j = choose|j: int|
                                0 <= j < i + 1 && same_slot::<Ty>(
                                    x,
                                    y,
                                    edges@[j].0 as int,
                                    edges@[j].1 as int,
                                );
                            assert(j != i);
                        }
                    }
                }
            }
            i += 1;
        }
        proof {
            assert(edges@.subrange(0, i as int) =~= edges@);
        }
        graph
    }
}

/// Inserting, replacing and then removing one edge: the replacement hands back the inserted
/// weight, the removal hands back the replacing one, and the edge count rises by one and
/// falls back to where it started.
pub proof fn lemma_edit_round_trip<E, Ty: Direction>(
    g0: Graph<E, Ty>,
    g1: Graph<E, Ty>,
    g2: Graph<E, Ty>,
    g3: Graph<E, Ty>,
    a: int,
    b: int,
    w: E,
    w2: E,
)
    requires
        g0.spec_edge(a, b) is None,
        g0.spec_rewritten(g1, a, b, Some(w)),
        g1.spec_rewritten(g2, a, b, Some(w2)),
        g2.spec_rewritten(g3, a, b, None),
    ensures
        g1.spec_edge(a, b) == Some(w),
        g2.spec_edge(a, b) == Some(w2),
        g1.spec_edge_count() == g0.spec_edge_count() + 1,
        g2.spec_edge_count() == g1.spec_edge_count(),
        g3.spec_edge_count() == g0.spec_edge_count(),
        forall|x: int, y: int| #[trigger] g3.spec_edge(x, y) == g0.spec_edge(x, y),
{
    assert(same_slot::<Ty>(a, b, a, b));
    assert(g1.spec_edge(a, b) == Some(w));
    assert(g2.spec_edge(a, b) == Some(w2));
    assert(g3.spec_edge(a, b) is None);
    assert forall|x: int, y: int| #[trigger] g3.spec_edge(x, y) == g0.spec_edge(x, y) by {
        assert(g3.spec_edge(x, y) == if same_slot::<Ty>(x, y, a, b) {
            None
        } else {
            g2.spec_edge(x, y)
        });
        assert(g2.spec_edge(x, y) == if same_slot::<Ty>(x, y, a, b) {
            Some(w2)
        } else {
            g1.spec_edge(x, y)
        });
        assert(g1.spec_edge(x, y) == if same_slot::<Ty>(x, y, a, b) {
            Some(w)
        } else {
            g0.spec_edge(x, y)
        });
        if same_slot::<Ty>(x, y, a, b) {
            assert(g0.spec_edge(x, y) == g0.spec_edge(a, b)) by {
                g0.lemma_same_slot_same_edge(x, y, a, b);
            }
        }
    }
}

impl<E, Ty: Direction> Graph<E, Ty> {
    /// Pairs that share a slot read the same edge.
    pub proof fn lemma_same_slot_same_edge(&self, x: int, y: int, a: int, b: int)
        requires
            same_slot::<Ty>(x, y, a, b),
        ensures
            self.spec_edge(x, y) == self.spec_edge(a, b),
    {
        let n = self.n_nodes as int;
        if 0 <= x < n && 0 <= y < n && 0 <= a < n && 0 <= b < n {
            lemma_position_bounds::<Ty>(x, y, a, b, n);
        }
    }

    /// A node is listed among the children of `node` exactly when the slot of
    /// `(node, child)` holds an edge, and among its parents exactly when the slot of
    /// `(parent, node)` does.
    pub proof fn lemma_listed_members(&self, node: usize, other: usize)
        ensures
            (&self).spec_children(node).contains(other) <==> self.spec_edge(
                node as int,
                other as int,
            ) is Some,
            (&self).spec_parents(node).contains(other) <==> self.spec_edge(
                other as int,
                node as int,
            ) is Some,
    {
        let n = self.n_nodes as int;
        lemma_line_listed_members::<E, Ty>(self.adjacencies@, n, IterDirection::Columns, node as int, n);
        lemma_line_listed_members::<E, Ty>(self.adjacencies@, n, IterDirection::Rows, node as int, n);
        let c = (&self).spec_children(node);
        let p = (&self).spec_parents(node);
        assert(line_entry::<E, Ty>(self.adjacencies@, n, IterDirection::Rows, node as int, other as int)
            == self.spec_edge(other as int, node as int));
        if other < n {
            assert(p.contains(other) <==> line_entry::<E, Ty>(
                self.adjacencies@,
                n,
                IterDirection::Rows,
                node as int,
                other as int,
            ) is Some);
        }
        if other >= n {
            if c.contains(other) {
                let i = choose|i: int| 0 <= i < c.len() && c[i] == other;
            }
            if p.contains(other) {
                let i = choose|i: int| 0 <= i < p.len() && p[i] == other;
            }
        }
    }
}

impl<E, Ty: Direction> Graph<E, Ty> {
    /// Children and parents come in strictly increasing order, so each at most once, and all
    /// below the capacity; a pair outside the capacity has no edge.
    pub proof fn lemma_listed_order(&self, node: usize)
        ensures
            forall|i: int, j: int|
                0 <= i < j < (&self).spec_children(node).len() ==> (&self).spec_children(node)[i]
                    < (&self).spec_children(node)[j],
            forall|i: int, j: int|
                0 <= i < j < (&self).spec_parents(node).len() ==> (&self).spec_parents(node)[i]
                    < (&self).spec_parents(node)[j],
            forall|i: int|
                0 <= i < (&self).spec_children(node).len() ==> (&self).spec_children(node)[i]
                    < self.spec_node_capacity(),
            forall|i: int|
                0 <= i < (&self).spec_parents(node).len() ==> (&self).spec_parents(node)[i]
                    < self.spec_node_capacity(),
            forall|a: int, b: int|
                !(0 <= a < self.spec_node_capacity() && 0 <= b < self.spec_node_capacity())
                    ==> #[trigger] self.spec_edge(a, b) is None,
    {
        let n = self.n_nodes as int;
        lemma_line_listed_members::<E, Ty>(self.adjacencies@, n, IterDirection::Columns, node as int, n);
        lemma_line_listed_members::<E, Ty>(self.adjacencies@, n, IterDirection::Rows, node as int, n);
    }
}

/// Rows and columns of an undirected matrix list the same nodes.
proof fn lemma_undirected_lines<E>(adj: Seq<Option<E>>, n: int, fixed: int, k: int)
    ensures
        line_listed::<E, Undirected>(adj, n, IterDirection::Rows, fixed, k) == line_listed::<
            E,
            Undirected,
        >(adj, n, IterDirection::Columns, fixed, k),
    decreases k,
{
    if k > 0 {
        lemma_undirected_lines(adj, n, fixed, k - 1);
    }
}

/// In an undirected graph the parents of a node are its children.
pub proof fn lemma_undirected_parents_are_children<E>(g: &Graph<E, Undirected>, node: usize)
    ensures
        g.spec_parents(node) == g.spec_children(node),
{
    lemma_undirected_lines(g.adjacencies@, g.n_nodes as int, node as int, g.n_nodes as int);
}

/// In an undirected graph an edge between `a` and `b` makes each a child of the other.
pub proof fn lemma_undirected_symmetry<E>(g: &Graph<E, Undirected>, a: usize, b: usize)
    requires
        g.spec_edge(a as int, b as int) is Some,
    ensures
        g.spec_children(b).contains(a),
        g.spec_children(a).contains(b),
{
    g.lemma_same_slot_same_edge(b as int, a as int, a as int, b as int);
    g.lemma_listed_members(a, b);
    g.lemma_listed_members(b, a);
}

/// The weight that the last of `edges` on the slot of `(x, y)` carries, if any does.
pub open spec fn last_weight<E, Ty: Direction>(edges: Seq<(usize, usize, E)>, x: int, y: int) -> Option<E>
    decreases edges.len(),
{
    if edges.len() == 0 {
        None
    } else {
        match last_weight::<E, Ty>(edges.drop_first(), x, y) {
            Some(w) => Some(w),
            None => if same_slot::<Ty>(x, y, edges[0].0 as int, edges[0].1 as int) {
                Some(edges[0].2)
            } else {
                None
            },
        }
    }
}

impl<E, Ty: Direction> Graph<E, Ty> {
    /// Constructs a weighted graph from a list of edges. A pair listed twice, or under both
    /// orientations in an undirected graph, keeps the weight listed last.
    pub fn from_weighted_edges(edges: Vec<(usize, usize, E)>) -> (r: Self)
        requires
            forall|i: int|
                0 <= i < edges@.len() ==> capacity_fits(
                    vstd::math::max(edges@[i].0 as int, edges@[i].1 as int) + 1,
                ),
        ensures
            forall|x: int, y: int| #[trigger] r.spec_edge(x, y) == last_weight::<E, Ty>(edges@, x, y),
    {
        let ghost all = edges@;
        let mut rest = edges;
        let mut graph = Self::new();
        loop
            invariant
                all == edges@,
                all.len() >= rest@.len(),
                rest@ == all.subrange(0, rest@.len() as int),
                forall|i: int|
                    0 <= i < all.len() ==> capacity_fits(
                        vstd::math::max(all[i].0 as int, all[i].1 as int) + 1,
                    ),
                forall|x: int, y: int|
                    #[trigger] graph.spec_edge(x, y) == last_weight::<E, Ty>(
                        all.subrange(rest@.len() as int, all.len() as int),
                        x,
                        y,
                    ),
            decreases rest@.len(),
        {
            let ghost k = rest@.len() as int;
            let (a, b, w) = match rest.pop() {
                Some(edge) => edge,
                None => {
                    proof {
                        assert(all.subrange(0, all.len() as int) =~= all);
                    }
                    return graph;
                },
            };
            proof {
                assert(all[k - 1] == (a, b, w));
                assert(all.subrange(k - 1, all.len() as int).drop_first() =~= all.subrange(
                    k,
                    all.len() as int,
                ));
                assert(rest@ =~= all.subrange(0, k - 1));
            }
            let ghost before = graph;
            let previous = graph.update_edge(a, b, w);
            if let Some(later) = previous {
                graph.update_edge(a, b, later);
            }
            proof {
                assert forall|x: int, y: int| #[trigger] graph.spec_edge(x, y) == last_weight::<E, Ty>(
                    all.subrange(k - 1, all.len() as int),
                    x,
                    y,
                ) by {
                    if same_slot::<Ty>(x, y, a as int, b as int) {
                        before.lemma_same_slot_same_edge(x, y, a as int, b as int);
                    }
                }
            }
        }
    }
}

} // verus!
