//! A graph data structure using an adjacency list representation.
use vstd::prelude::*;
use crate::graph::matrix::edges_extent;

verus! {

/// The newest edge out of `v` among the first `k` edges.
pub open spec fn latest(edges: Seq<(usize, usize)>, v: int, k: int) -> Option<usize>
    decreases k,
{
    if k <= 0 {
        None
    } else if edges[k - 1].0 as int == v {
        Some((k - 1) as usize)
    } else {
        latest(edges, v, k - 1)
    }
}

/// The edges out of `v` among the first `k`, newest first, as (target, edge index) pairs.
pub open spec fn neighbor_list(edges: Seq<(usize, usize)>, v: int, k: int) -> Seq<(usize, usize)>
    decreases k,
{
    if k <= 0 {
        Seq::empty()
    } else if edges[k - 1].0 as int == v {
        seq![(edges[k - 1].1, (k - 1) as usize)] + neighbor_list(edges, v, k - 1)
    } else {
        neighbor_list(edges, v, k - 1)
    }
}

/// The edges out of `v` as (from, to) pairs, newest first.
pub open spec fn vertex_pairs(edges: Seq<(usize, usize)>, v: int) -> Seq<(usize, usize)> {
    neighbor_list(edges, v, edges.len() as int).map_values(|p: (usize, usize)| (v as usize, p.0))
}

/// The edges out of the vertices below `n`, vertex by vertex, each newest first.
pub open spec fn edges_below(edges: Seq<(usize, usize)>, n: int) -> Seq<(usize, usize)>
    decreases n,
{
    if n <= 0 {
        Seq::empty()
    } else {
        edges_below(edges, n - 1) + vertex_pairs(edges, n - 1)
    }
}

/// The edges out of the vertices from `p` up to `n`, vertex by vertex, each newest first.
pub open spec fn edges_from(edges: Seq<(usize, usize)>, p: int, n: int) -> Seq<(usize, usize)>
    decreases n - p,
{
    if p >= n {
        Seq::empty()
    } else {
        vertex_pairs(edges, p) + edges_from(edges, p + 1, n)
    }
}

/// Reverses an edge.
pub open spec fn swap_ends(e: (usize, usize)) -> (usize, usize) {
    (e.1, e.0)
}

/// Adding an edge leaves the view of the earlier ones unchanged.
pub proof fn lemma_prefix(edges: Seq<(usize, usize)>, x: (usize, usize), v: int, k: int)
    requires
        k <= edges.len(),
    ensures
        latest(edges.push(x), v, k) == latest(edges, v, k),
        neighbor_list(edges.push(x), v, k) == neighbor_list(edges, v, k),
    decreases k,
{
    if k > 0 {
        lemma_prefix(edges, x, v, k - 1);
    }
}

/// The list from `k` equals the list from just past the newest edge out of `v` below `k`.
proof fn lemma_latest_list(edges: Seq<(usize, usize)>, v: int, k: int)
    requires
        0 <= k <= edges.len(),
        k <= usize::MAX + 1,
    ensures
        match latest(edges, v, k) {
            Some(e) => e < k && edges[e as int].0 == v && neighbor_list(edges, v, k)
                == neighbor_list(edges, v, e + 1),
            None => neighbor_list(edges, v, k) == Seq::<(usize, usize)>::empty(),
        },
    decreases k,
{
    if k > 0 {
        lemma_latest_list(edges, v, k - 1);
    }
}

/// A graph data structure using an adjacency list representation.
///
/// Allows parallel edges and self-loops.
///
/// This data structure is append-only, so indices returned at some point for a given
/// graph will stay valid with this same graph until it is dropped.
pub struct Graph {
    /// Maps a node id to the first edge in its adjacency list.
    first: Vec<Option<usize>>,
    /// Maps an edge id to the next edge in the same adjacency list.
    next_edge: Vec<Option<usize>>,
    /// Maps an edge id to the node that it points to.
    end_vertex: Vec<usize>,
    /// Every edge as (from, to), in insertion order.
    edges: Ghost<Seq<(usize, usize)>>,
}

impl Default for Graph {
    fn default() -> (r: Self)
        ensures
            r.wf(),
            r.spec_len() == 0,
            r.spec_edges().len() == 0,
    {
        Self::new()
    }
}

impl Graph {
    /// The edges as (from, to) pairs, in insertion order.
    pub closed spec fn spec_edges(&self) -> Seq<(usize, usize)> {
        self.edges@
    }

    /// The number of vertices.
    pub closed spec fn spec_len(&self) -> nat {
        self.first@.len()
    }

    /// The edges out of `node`, newest first, as (target, edge index) pairs.
    pub open spec fn spec_neighbors(&self, node: int) -> Seq<(usize, usize)> {
        neighbor_list(self.spec_edges(), node, self.spec_edges().len() as int)
    }

    /// Every edge, listed vertex by vertex and newest first within a vertex.
    pub open spec fn spec_edge_list(&self) -> Seq<(usize, usize)> {
        edges_below(self.spec_edges(), self.spec_len() as int)
    }

    /// The linked lists match the edges: each vertex starts at its newest edge, each edge
    /// leads to the next older one out of the same vertex, and every endpoint is a vertex.
    pub closed spec fn wf(&self) -> bool {
        let edges = self.edges@;
        &&& self.first@.len() <= usize::MAX
        &&& edges.len() <= usize::MAX
        &&& self.next_edge@.len() == edges.len()
        &&& self.end_vertex@.len() == edges.len()
        &&& forall|e: int|
            #![trigger edges[e]]
            0 <= e < edges.len() ==> edges[e].1 == self.end_vertex@[e] && edges[e].0
                < self.first@.len() && edges[e].1 < self.first@.len()
        &&& forall|v: int|
            #![trigger self.first@[v]]
            0 <= v < self.first@.len() ==> self.first@[v] == latest(edges, v, edges.len() as int)
        &&& forall|e: int|
            #![trigger self.next_edge@[e]]
            0 <= e < edges.len() ==> self.next_edge@[e] == latest(edges, edges[e].0 as int, e)
    }

    /// Constructs an empty graph.
    pub fn new() -> (r: Self)
        ensures
            r.wf(),
            r.spec_len() == 0,
            r.spec_edges().len() == 0,
    {
        Self {
            first: Vec::new(),
            next_edge: Vec::new(),
            end_vertex: Vec::new(),
            edges: Ghost(Seq::empty()),
        }
    }

    /// Constructs an empty graph with hints for number of vertices and edges
    /// to reduce unnecessary allocations.
    pub fn with_capacity(vertices: usize, edges: usize) -> (r: Self)
        ensures
            r.wf(),
            r.spec_len() == 0,
            r.spec_edges().len() == 0,
    {
        Self {
            first: Vec::with_capacity(vertices),
            next_edge: Vec::with_capacity(edges),
            end_vertex: Vec::with_capacity(edges),
            edges: Ghost(Seq::empty()),
        }
    }

    /// Constructs a graph with `vertices` vertices and no edges.
    pub(crate) fn with_vertices(vertices: usize, edges: usize) -> (r: Self)
        ensures
            r.wf(),
            r.spec_len() == vertices,
            r.spec_edges().len() == 0,
    {
        let mut first: Vec<Option<usize>> = Vec::with_capacity(vertices);
        let mut i: usize = 0;
        while i < vertices
            invariant
                i <= vertices,
                first@.len() == i,
                forall|v: int| 0 <= v < i ==> first@[v] is None,
            decreases vertices - i,
        {
            first.push(None);
            i += 1;
        }
        Self {
            first,
            next_edge: Vec::with_capacity(edges),
            end_vertex: Vec::with_capacity(edges),
            edges: Ghost(Seq::empty()),
        }
    }

    /// Returns the max number of vertices for the graph.
    pub fn len(&self) -> (r: usize)
        ensures
            r == self.spec_len(),
    {
        self.first.len()
    }

    /// Returns true if the graph has no edges.
    pub fn is_empty(&self) -> (r: bool)
        requires
            self.wf(),
        ensures
            r == (self.spec_edges().len() == 0),
    {
        self.edge_count() == 0
    }

    /// Returns the number of edges in the graph.
    /// Includes parallel edges.
    pub fn edge_count(&self) -> (r: usize)
        requires
            self.wf(),
        ensures
            r == self.spec_edges().len(),
    {
        self.end_vertex.len()
    }

    /// Adds a directed edge to the graph from `from` to `to`, growing the vertices to hold
    /// both. Returns the edge index: the number of edges added before it.
    pub fn push(&mut self, from: usize, to: usize) -> (r: usize)
        requires
            old(self).wf(),
            from < usize::MAX,
            to < usize::MAX,
        ensures
            final(self).wf(),
            r == old(self).spec_edges().len(),
            final(self).spec_edges() == old(self).spec_edges().push((from, to)),
            final(self).spec_len() == vstd::math::max(
                old(self).spec_len() as int,
                vstd::math::max(from + 1, to + 1),
            ),
    {
        // update length of first if necessary
        let mut len = self.first.len();
        if from + 1 > len {
            len = from + 1;
        }
        if to + 1 > len {
            len = to + 1;
        }
        let ghost edges = self.edges@;
        let ghost old_len = self.first@.len();
        while self.first.len() < len
            invariant
                old_len <= self.first@.len() <= len,
                len == vstd::math::max(old_len as int, vstd::math::max(from + 1, to + 1)),
                self.edges@ == edges,
                self.next_edge@ == old(self).next_edge@,
                self.end_vertex@ == old(self).end_vertex@,
                forall|v: int| 0 <= v < old_len ==> self.first@[v] == old(self).first@[v],
                forall|v: int| old_len <= v < self.first@.len() ==> self.first@[v] is None,
            decreases len - self.first@.len(),
        {
            self.first.push(None);
        }

        // add the edge
        let head = self.first[from];
        self.next_edge.push(head);
        let edge_index = self.end_vertex.len();
        self.first.set(from, Some(edge_index));
        self.end_vertex.push(to);
        // the edge count is a vector length, hence a `usize`
        let _count = self.end_vertex.len();
        self.edges = Ghost(edges.push((from, to)));
        proof {
            let new_edges = edges.push((from, to));
            let k = edges.len() as int;
            assert forall|v: int| 0 <= v < self.first@.len() implies #[trigger] self.first@[v]
                == latest(new_edges, v, new_edges.len() as int) by {
                lemma_prefix(edges, (from, to), v, k);
                if v >= old_len && v != from {
                    lemma_no_edges_from(edges, old(self).first@.len() as int, v, k, old(self));
                }
            }
            assert forall|e: int| 0 <= e < new_edges.len() implies #[trigger] self.next_edge@[e]
                == latest(new_edges, new_edges[e].0 as int, e) by {
                if e < k {
                    lemma_prefix(edges, (from, to), new_edges[e].0 as int, e);
                } else {
                    lemma_prefix(edges, (from, to), from as int, k);
                    if from >= old_len {
                        lemma_no_edges_from(edges, old_len as int, from as int, k, old(self));
                    }
                }
            }
        }
        edge_index
    }
}

/// A vertex past every endpoint has no edges.
pub proof fn lemma_no_edges_from(edges: Seq<(usize, usize)>, n: int, v: int, k: int, g: &Graph)
    requires
        g.wf(),
        edges == g.spec_edges(),
        n == g.spec_len(),
        v >= n,
        0 <= k <= edges.len(),
    ensures
        latest(edges, v, k) is None,
        neighbor_list(edges, v, k) == Seq::<(usize, usize)>::empty(),
    decreases k,
{
    if k > 0 {
        assert(edges[k - 1].0 < n);
        lemma_no_edges_from(edges, n, v, k - 1, g);
    }
}

/// Each entry of the list from `k` is an edge out of `v` below `k`, given as its target and
/// index; indices fall strictly along the list, and every edge out of `v` below `k` is
/// listed.
proof fn lemma_neighbor_list_entries(edges: Seq<(usize, usize)>, v: int, k: int)
    requires
        0 <= k <= edges.len(),
        k <= usize::MAX + 1,
    ensures
        forall|i: int|
            #![trigger neighbor_list(edges, v, k)[i]]
            0 <= i < neighbor_list(edges, v, k).len() ==> {
                let (t, e) = neighbor_list(edges, v, k)[i];
                &&& e < k
                &&& edges[e as int].0 == v
                &&& edges[e as int].1 == t
            },
        forall|i: int, j: int|
            0 <= i < j < neighbor_list(edges, v, k).len() ==> neighbor_list(edges, v, k)[i].1
                > neighbor_list(edges, v, k)[j].1,
        forall|e: int|
            0 <= e < k && edges[e].0 == v ==> exists|i: int|
                0 <= i < neighbor_list(edges, v, k).len() && neighbor_list(edges, v, k)[i].1 == e,
    decreases k,
{
    if k > 0 {
        lemma_neighbor_list_entries(edges, v, k - 1);
        let prev = neighbor_list(edges, v, k - 1);
        let cur = neighbor_list(edges, v, k);
        if edges[k - 1].0 as int == v {
            assert forall|i: int| 0 < i < cur.len() implies cur[i] == prev[i - 1] by {}
            assert forall|e: int| 0 <= e < k && edges[e].0 == v implies exists|i: int|
                0 <= i < cur.len() && cur[i].1 == e by {
                if e == k - 1 {
                    assert(cur[0].1 == e);
                } else {
                    let i = choose|i: int| 0 <= i < prev.len() && prev[i].1 == e;
                    assert(cur[i + 1].1 == e);
                }
            }
        }
    }
}

/// Adding one edge adds it to the list of its source vertex, in front.
proof fn lemma_vertex_pairs_push(edges: Seq<(usize, usize)>, x: (usize, usize), v: int)
    requires
        edges.len() < usize::MAX,
    ensures
        vertex_pairs(edges.push(x), v) == if x.0 as int == v {
            seq![(v as usize, x.1)] + vertex_pairs(edges, v)
        } else {
            vertex_pairs(edges, v)
        },
{
    let s = edges.push(x);
    lemma_prefix(edges, x, v, edges.len() as int);
    assert(s[edges.len() as int] == x);
    assert(vertex_pairs(s, v) =~= if x.0 as int == v {
        seq![(v as usize, x.1)] + vertex_pairs(edges, v)
    } else {
        vertex_pairs(edges, v)
    });
}

/// Listing vertex by vertex below `m` counts a new edge exactly when its source is below `m`.
proof fn lemma_edges_below_push(edges: Seq<(usize, usize)>, x: (usize, usize), m: int)
    requires
        edges.len() < usize::MAX,
    ensures
        edges_below(edges.push(x), m).to_multiset() == if 0 <= x.0 < m {
            edges_below(edges, m).to_multiset().insert(x)
        } else {
            edges_below(edges, m).to_multiset()
        },
    decreases m,
{
    if m > 0 {
        lemma_edges_below_push(edges, x, m - 1);
        lemma_vertex_pairs_push(edges, x, m - 1);
        let s = edges.push(x);
        vstd::seq_lib::lemma_multiset_commutative(edges_below(s, m - 1), vertex_pairs(s, m - 1));
        vstd::seq_lib::lemma_multiset_commutative(
            edges_below(edges, m - 1),
            vertex_pairs(edges, m - 1),
        );
        let a = edges_below(s, m - 1).to_multiset();
        let a0 = edges_below(edges, m - 1).to_multiset();
        let b = vertex_pairs(s, m - 1).to_multiset();
        let b0 = vertex_pairs(edges, m - 1).to_multiset();
        if x.0 as int == m - 1 {
            vstd::seq_lib::lemma_multiset_commutative(
                seq![((m - 1) as usize, x.1)],
                vertex_pairs(edges, m - 1),
            );
            assert(seq![((m - 1) as usize, x.1)] =~= Seq::<(usize, usize)>::empty().push(x));
            vstd::seq_lib::to_multiset_build(Seq::<(usize, usize)>::empty(), x);
            vstd::seq_lib::to_multiset_len(Seq::<(usize, usize)>::empty());
            assert(Seq::<(usize, usize)>::empty().to_multiset() =~= vstd::multiset::Multiset::empty());
            assert(b =~= b0.insert(x));
            assert(a =~= a0);
            assert(a.add(b) =~= a0.add(b0).insert(x));
        } else if 0 <= x.0 < m - 1 {
            assert(b == b0);
            assert(a =~= a0.insert(x));
            assert(a.add(b) =~= a0.add(b0).insert(x));
        } else {
            assert(b == b0);
            assert(a == a0);
        }
    }
}

/// Listing the edges vertex by vertex keeps each edge as often as it was added.
pub proof fn lemma_edge_list_permutes(edges: Seq<(usize, usize)>, n: int)
    requires
        edges.len() <= usize::MAX,
        forall|e: int| 0 <= e < edges.len() ==> #[trigger] edges[e].0 < n,
    ensures
        edges_below(edges, n).to_multiset() == edges.to_multiset(),
    decreases edges.len(),
{
    if edges.len() == 0 {
        lemma_edges_below_empty(edges, n);
    } else {
        let s = edges.drop_last();
        let x = edges.last();
        assert(s.push(x) =~= edges);
        lemma_edge_list_permutes(s, n);
        lemma_edges_below_push(s, x, n);
        vstd::seq_lib::to_multiset_build(s, x);
    }
}

proof fn lemma_edges_below_empty(edges: Seq<(usize, usize)>, n: int)
    requires
        edges.len() == 0,
    ensures
        edges_below(edges, n).to_multiset() == edges.to_multiset(),
    decreases n,
{
    if n > 0 {
        lemma_edges_below_empty(edges, n - 1);
        assert(vertex_pairs(edges, n - 1) =~= Seq::<(usize, usize)>::empty());
        assert(edges_below(edges, n) =~= edges_below(edges, n - 1));
    }
    assert(edges.to_multiset() =~= vstd::multiset::Multiset::empty()) by {
        vstd::seq_lib::to_multiset_len(edges);
    }
    assert(edges_below(edges, n) =~= Seq::<(usize, usize)>::empty()) by {
        lemma_edges_below_nothing(edges, n);
    }
    vstd::seq_lib::to_multiset_len(edges_below(edges, n));
}

proof fn lemma_edges_below_nothing(edges: Seq<(usize, usize)>, n: int)
    requires
        edges.len() == 0,
    ensures
        edges_below(edges, n) == Seq::<(usize, usize)>::empty(),
    decreases n,
{
    if n > 0 {
        lemma_edges_below_nothing(edges, n - 1);
        assert(vertex_pairs(edges, n - 1) =~= Seq::<(usize, usize)>::empty());
        assert(edges_below(edges, n) =~= Seq::<(usize, usize)>::empty());
    }
}

/// Reversing every edge of a list reverses every edge of its multiset.
proof fn lemma_swap_count(s: Seq<(usize, usize)>, x: (usize, usize))
    ensures
        s.map_values(|e: (usize, usize)| swap_ends(e)).to_multiset().count(x) == s.to_multiset().count(
            swap_ends(x),
        ),
    decreases s.len(),
{
    let f = |e: (usize, usize)| swap_ends(e);
    if s.len() == 0 {
        vstd::seq_lib::to_multiset_len(s);
        vstd::seq_lib::to_multiset_len(s.map_values(f));
        assert(s.map_values(f).to_multiset() =~= vstd::multiset::Multiset::empty());
        assert(s.to_multiset() =~= vstd::multiset::Multiset::empty());
    } else {
        let t = s.drop_last();
        assert(t.push(s.last()) =~= s);
        assert(t.map_values(f).push(swap_ends(s.last())) =~= s.map_values(f));
        lemma_swap_count(t, x);
        vstd::seq_lib::to_multiset_build(t, s.last());
        vstd::seq_lib::to_multiset_build(t.map_values(f), swap_ends(s.last()));
    }
}

/// Transposing twice gives back every edge, as often as it was there.
pub proof fn lemma_transpose_twice(g: &Graph, t: &Graph, tt: &Graph)
    requires
        g.wf(),
        t.wf(),
        t.spec_edges() == g.spec_edge_list().map_values(|e: (usize, usize)| swap_ends(e)),
        tt.spec_edges() == t.spec_edge_list().map_values(|e: (usize, usize)| swap_ends(e)),
    ensures
        tt.spec_edges().to_multiset() == g.spec_edges().to_multiset(),
{
    g.lemma_wf_edges();
    t.lemma_wf_edges();
    lemma_edge_list_permutes(g.spec_edges(), g.spec_len() as int);
    lemma_edge_list_permutes(t.spec_edges(), t.spec_len() as int);
    assert forall|x: (usize, usize)| #[trigger] tt.spec_edges().to_multiset().count(x)
        == g.spec_edges().to_multiset().count(x) by {
        lemma_swap_count(t.spec_edge_list(), x);
        lemma_swap_count(g.spec_edge_list(), swap_ends(x));
        assert(swap_ends(swap_ends(x)) == x);
    }
    assert(tt.spec_edges().to_multiset() =~= g.spec_edges().to_multiset());
}

impl Graph {
    /// What a well-formed graph says of its edges.
    pub proof fn lemma_wf_edges(&self)
        requires
            self.wf(),
        ensures
            self.spec_edges().len() <= usize::MAX,
            self.spec_len() <= usize::MAX,
            forall|e: int|
                0 <= e < self.spec_edges().len() ==> #[trigger] self.spec_edges()[e].0
                    < self.spec_len() && self.spec_edges()[e].1 < self.spec_len(),
    {
    }

    /// `neighbors` lists the edges out of `node` in reverse insertion order: each entry is
    /// an edge out of `node` given as its target and index, the indices fall strictly, and
    /// every edge out of `node` is listed.
    pub proof fn lemma_neighbors_reverse_insertion(&self, node: int)
        requires
            self.wf(),
        ensures
            forall|i: int|
                #![trigger self.spec_neighbors(node)[i]]
                0 <= i < self.spec_neighbors(node).len() ==> {
                    let (t, e) = self.spec_neighbors(node)[i];
                    &&& e < self.spec_edges().len()
                    &&& self.spec_edges()[e as int] == (node as usize, t)
                },
            forall|i: int, j: int|
                0 <= i < j < self.spec_neighbors(node).len() ==> self.spec_neighbors(node)[i].1
                    > self.spec_neighbors(node)[j].1,
            forall|e: int|
                0 <= e < self.spec_edges().len() && self.spec_edges()[e].0 == node ==> exists|
                    i: int,
                |
                    0 <= i < self.spec_neighbors(node).len() && self.spec_neighbors(node)[i].1
                        == e,
    {
        let edges = self.spec_edges();
        lemma_neighbor_list_entries(edges, node, edges.len() as int);
        assert forall|i: int|
            #![trigger self.spec_neighbors(node)[i]]
            0 <= i < self.spec_neighbors(node).len() implies {
                let (t, e) = self.spec_neighbors(node)[i];
                &&& e < self.spec_edges().len()
                &&& self.spec_edges()[e as int] == (node as usize, t)
            } by {
            let (t, e) = self.spec_neighbors(node)[i];
            assert(edges[e as int].0 == node);
            assert(edges[e as int].0 < self.spec_len());
        }
        assert forall|e: int|
            0 <= e < self.spec_edges().len() && self.spec_edges()[e].0 == node implies exists|
                i: int,
            |
                0 <= i < self.spec_neighbors(node).len() && self.spec_neighbors(node)[i].1 == e by {
            assert(edges[e].0 == node);
            let list = neighbor_list(edges, node, edges.len() as int);
            assert(exists|i: int| 0 <= i < list.len() && list[i].1 == e);
            let i = choose|i: int| 0 <= i < list.len() && list[i].1 == e;
            assert(self.spec_neighbors(node)[i].1 == e);
        }
    }
}

/// The next edges and vertices are walked from `edges_from(p)` up to `n`; from the start
/// that is the whole listing.
proof fn lemma_edges_from_below(edges: Seq<(usize, usize)>, p: int, n: int)
    requires
        0 <= p <= n,
    ensures
        edges_below(edges, p) + edges_from(edges, p, n) == edges_below(edges, n),
    decreases n - p,
{
    if p < n {
        lemma_edges_from_below(edges, p + 1, n);
        assert(edges_below(edges, p + 1) == edges_below(edges, p) + vertex_pairs(edges, p));
        assert(edges_below(edges, p) + edges_from(edges, p, n) =~= edges_below(edges, p + 1)
            + edges_from(edges, p + 1, n));
    } else {
        assert(edges_below(edges, p) + edges_from(edges, p, n) =~= edges_below(edges, n));
    }
}

/// An iterator for convenient adjacency list traversal.
pub struct NeighborIterator<'graph> {
    /// The graph that this iterator is iterating over.
    graph: &'graph Graph,
    /// The next edge in the adjacency list.
    next_edge: Option<usize>,
}

impl<'graph> NeighborIterator<'graph> {
    /// The graph being walked.
    pub closed spec fn spec_graph(&self) -> &'graph Graph {
        self.graph
    }

    /// The cursor is an edge of a well-formed graph.
    pub closed spec fn wf(&self) -> bool {
        &&& self.graph.wf()
        &&& match self.next_edge {
            Some(e) => e < self.graph.spec_edges().len(),
            None => true,
        }
    }

    /// The vertex whose edges remain, if any do.
    pub closed spec fn spec_source(&self) -> Option<int> {
        match self.next_edge {
            Some(e) => Some(self.graph.spec_edges()[e as int].0 as int),
            None => None,
        }
    }

    /// The (target, edge index) pairs still to come.
    pub closed spec fn spec_remaining(&self) -> Seq<(usize, usize)> {
        match self.next_edge {
            Some(e) => neighbor_list(
                self.graph.spec_edges(),
                self.graph.spec_edges()[e as int].0 as int,
                e + 1,
            ),
            None => Seq::empty(),
        }
    }

    /// Produces an outgoing edge and vertex.
    pub fn next(&mut self) -> (r: Option<(usize, usize)>)
        requires
            old(self).wf(),
        ensures
            final(self).wf(),
            final(self).spec_graph() == old(self).spec_graph(),
            final(self).spec_source() is None || final(self).spec_source() == old(self).spec_source(),
            match r {
                Some((t, e)) => t < old(self).spec_graph().spec_len() && e < old(self).spec_graph().spec_edges().len() && old(self).spec_graph().spec_edges()[e as int].1
                    == t,
                None => true,
            },
            old(self).spec_remaining().len() == 0 ==> r is None && final(self).spec_remaining().len()
                == 0,
            old(self).spec_remaining().len() > 0 ==> r == Some(old(self).spec_remaining()[0])
                && final(self).spec_remaining() == old(self).spec_remaining().drop_first(),
    {
        let next_edge = match self.next_edge {
            Some(e) => e,
            None => return None,
        };
        let ghost edges = self.graph.spec_edges();
        let ghost v = edges[next_edge as int].0 as int;
        let target = self.graph.end_vertex[next_edge];
        self.next_edge = self.graph.next_edge[next_edge];
        proof {
            lemma_latest_list(edges, v, next_edge as int);
            assert(neighbor_list(edges, v, next_edge + 1).drop_first() =~= neighbor_list(
                edges,
                v,
                next_edge as int,
            ));
        }
        Some((target, next_edge))
    }

    /// Produces the rest of the list.
    pub fn into_vec(self) -> (r: Vec<(usize, usize)>)
        requires
            self.wf(),
        ensures
            r@ == self.spec_remaining(),
    {
        let mut it = self;
        let mut out: Vec<(usize, usize)> = Vec::new();
        loop
            invariant
                it.wf(),
                out@ + it.spec_remaining() == self.spec_remaining(),
            decreases it.spec_remaining().len(),
        {
            let ghost before = it.spec_remaining();
            match it.next() {
                Some(x) => {
                    out.push(x);
                    proof {
                        assert(out@ + it.spec_remaining() =~= out@.drop_last() + before);
                    }
                },
                None => {
                    proof {
                        assert(out@ + it.spec_remaining() =~= out@);
                    }
                    return out;
                },
            }
        }
    }
}

/// An iterator for all edges in the graph.
pub struct EdgesIterator<'graph> {
    /// The graph that this iterator is iterating over.
    graph: &'graph Graph,
    /// The current parent vertex.
    parent: usize,
    /// The current neighbor iterator.
    neighbors: NeighborIterator<'graph>,
}

impl<'graph> EdgesIterator<'graph> {
    /// The graph being walked.
    pub closed spec fn spec_graph(&self) -> &'graph Graph {
        self.graph
    }

    /// The cursor walks the edges of a well-formed graph, vertex by vertex.
    pub closed spec fn wf(&self) -> bool {
        &&& self.graph.wf()
        &&& self.neighbors.wf()
        &&& self.neighbors.graph == self.graph
        &&& (self.neighbors.spec_source() is None || self.neighbors.spec_source() == Some(
            self.parent as int,
        ))
    }

    /// The (from, to) pairs still to come.
    pub closed spec fn spec_remaining(&self) -> Seq<(usize, usize)> {
        self.neighbors.spec_remaining().map_values(|p: (usize, usize)| (self.parent, p.0))
            + edges_from(self.graph.spec_edges(), self.parent + 1, self.graph.spec_len() as int)
    }

    /// Produces the next edge as (from, to).
    pub fn next(&mut self) -> (r: Option<(usize, usize)>)
        requires
            old(self).wf(),
        ensures
            final(self).wf(),
            final(self).spec_graph() == old(self).spec_graph(),
            old(self).spec_remaining().len() == 0 ==> r is None && final(self).spec_remaining().len()
                == 0,
            old(self).spec_remaining().len() > 0 ==> r == Some(old(self).spec_remaining()[0])
                && final(self).spec_remaining() == old(self).spec_remaining().drop_first(),
    {
        let ghost edges = self.graph.spec_edges();
        let ghost n = self.graph.spec_len() as int;
        loop
            invariant
                self.wf(),
                self.graph == old(self).graph,
                edges == self.graph.spec_edges(),
                n == self.graph.spec_len(),
                self.spec_remaining() == old(self).spec_remaining(),
            decreases n - self.parent,
        {
            let ghost before = self.neighbors.spec_remaining();
            if let Some((neighbor, _)) = self.neighbors.next() {
                proof {
                    assert(self.spec_remaining() =~= old(self).spec_remaining().drop_first());
                }
                return Some((self.parent, neighbor));
            }
            let len = self.graph.len();
            proof {
                assert(self.spec_remaining() =~= edges_from(edges, self.parent + 1, n));
            }
            self.parent = self.parent.saturating_add(1);
            if self.parent < len {
                self.neighbors = self.graph.neighbors(self.parent);
                proof {
                    assert(self.spec_remaining() =~= old(self).spec_remaining());
                }
            } else {
                proof {
                    assert(old(self).spec_remaining() =~= Seq::<(usize, usize)>::empty());
                }
                return None;
            }
        }
    }

    /// Produces the remaining edges.
    pub fn into_vec(self) -> (r: Vec<(usize, usize)>)
        requires
            self.wf(),
        ensures
            r@ == self.spec_remaining(),
    {
        let mut it = self;
        let mut out: Vec<(usize, usize)> = Vec::new();
        loop
            invariant
                it.wf(),
                out@ + it.spec_remaining() == self.spec_remaining(),
            decreases it.spec_remaining().len(),
        {
            let ghost before = it.spec_remaining();
            match it.next() {
                Some(x) => {
                    out.push(x);
                    proof {
                        assert(out@ + it.spec_remaining() =~= out@.drop_last() + before);
                    }
                },
                None => {
                    proof {
                        assert(out@ + it.spec_remaining() =~= out@);
                    }
                    return out;
                },
            }
        }
    }
}

impl Graph {
    /// Returns an iterator of all node-edge tuples with an edge starting from `node`,
    /// newest edge first. Produces an empty iterator if `node` doesn't exist.
    pub fn neighbors(&self, node: usize) -> (r: NeighborIterator<'_>)
        requires
            self.wf(),
        ensures
            r.wf(),
            r.spec_graph() == self,
            r.spec_source() is None || r.spec_source() == Some(node as int),
            r.spec_remaining() == self.spec_neighbors(node as int),
    {
        let next_edge = if node < self.first.len() {
            self.first[node]
        } else {
            None
        };
        proof {
            let edges = self.spec_edges();
            lemma_latest_list(edges, node as int, edges.len() as int);
            if node >= self.first@.len() {
                lemma_no_edges_from(edges, self.spec_len() as int, node as int, edges.len() as int, self);
            }
        }
        NeighborIterator { graph: self, next_edge }
    }

    /// Returns an iterator over all edges in the graph, vertex by vertex and newest first
    /// within a vertex. Does not return them in insertion order.
    pub fn edges(&self) -> (r: EdgesIterator<'_>)
        requires
            self.wf(),
        ensures
            r.wf(),
            r.spec_remaining() == self.spec_edge_list(),
    {
        let neighbors = self.neighbors(0);
        proof {
            let edges = self.spec_edges();
            let n = self.spec_len() as int;
            lemma_edges_from_below(edges, 0, n);
            assert(edges_below(edges, 0) =~= Seq::<(usize, usize)>::empty());
            if n == 0 {
                lemma_no_edges_from(edges, n, 0, edges.len() as int, self);
                assert(edges_from(edges, 1, n) =~= Seq::<(usize, usize)>::empty());
                assert(edges_from(edges, 0, n) =~= Seq::<(usize, usize)>::empty());
            }
        }
        let r = EdgesIterator { graph: self, parent: 0, neighbors };
        proof {
            let edges = self.spec_edges();
            let n = self.spec_len() as int;
            lemma_latest_list(edges, 0, edges.len() as int);
            assert(r.spec_remaining() =~= edges_from(edges, 0, n));
        }
        r
    }

    /// Returns a transposed version of the graph: every edge reversed, listed in the order
    /// `edges` yields them, over the same vertices.
    /// <https://en.wikipedia.org/wiki/Transpose_graph>
    pub fn transpose(&self) -> (r: Self)
        requires
            self.wf(),
        ensures
            r.wf(),
            r.spec_len() == self.spec_len(),
            r.spec_edges() == self.spec_edge_list().map_values(|e: (usize, usize)| swap_ends(e)),
    {
        let mut graph = Self::with_vertices(self.len(), self.edge_count());
        let mut it = self.edges();
        let ghost all = self.spec_edge_list();
        let ghost n = self.spec_len();
        proof {
            self.lemma_edge_list_bounds();
        }
        loop
            invariant
                it.wf(),
                graph.wf(),
                graph.spec_len() == n,
                n == self.spec_len(),
                n <= usize::MAX,
                all == self.spec_edge_list(),
                forall|i: int| 0 <= i < all.len() ==> #[trigger] all[i].0 < n && all[i].1 < n,
                graph.spec_edges().len() + it.spec_remaining().len() == all.len(),
                it.spec_remaining() == all.subrange(graph.spec_edges().len() as int, all.len() as int),
                graph.spec_edges() == all.subrange(0, graph.spec_edges().len() as int).map_values(
                    |e: (usize, usize)| swap_ends(e),
                ),
            decreases it.spec_remaining().len(),
        {
            let ghost k = graph.spec_edges().len() as int;
            match it.next() {
                Some((to, from)) => {
                    proof {
                        assert(all[k] == (to, from));
                    }
                    graph.push(from, to);
                    proof {
                        assert(graph.spec_edges() =~= all.subrange(0, k + 1).map_values(
                            |e: (usize, usize)| swap_ends(e),
                        ));
                        assert(it.spec_remaining() =~= all.subrange(k + 1, all.len() as int));
                    }
                },
                None => {
                    proof {
                        assert(all.subrange(0, k) =~= all);
                    }
                    return graph;
                },
            }
        }
    }

    /// Every listed edge joins two vertices of the graph.
    proof fn lemma_edge_list_bounds(&self)
        requires
            self.wf(),
        ensures
            self.spec_len() <= usize::MAX,
            forall|i: int|
                0 <= i < self.spec_edge_list().len() ==> #[trigger] self.spec_edge_list()[i].0
                    < self.spec_len() && self.spec_edge_list()[i].1 < self.spec_len(),
    {
        let edges = self.spec_edges();
        let n = self.spec_len() as int;
        lemma_edges_below_bounds(self, n);
    }

    /// Adds the edges of a slice, in order.
    pub fn extend(&mut self, edges: &[(usize, usize)])
        requires
            old(self).wf(),
            forall|i: int| 0 <= i < edges@.len() ==> edges@[i].0 < usize::MAX && edges@[i].1 < usize::MAX,
        ensures
            final(self).wf(),
            final(self).spec_edges() == old(self).spec_edges() + edges@,
            final(self).spec_len() == vstd::math::max(old(self).spec_len() as int, edges_extent(edges@)),
            old(self).spec_len() <= final(self).spec_len(),
            forall|i: int|
                0 <= i < edges@.len() ==> edges@[i].0 < final(self).spec_len() && edges@[i].1
                    < final(self).spec_len(),
    {
        let mut i: usize = 0;
        proof {
            assert(edges_extent(edges@.subrange(0, 0)) == 0);
        }
        while i < edges.len()
            invariant
                i <= edges@.len(),
                self.wf(),
                self.spec_edges() == old(self).spec_edges() + edges@.subrange(0, i as int),
                self.spec_len() == vstd::math::max(
                    old(self).spec_len() as int,
                    edges_extent(edges@.subrange(0, i as int)),
                ),
                old(self).spec_len() <= self.spec_len(),
                forall|j: int| 0 <= j < i ==> edges@[j].0 < self.spec_len() && edges@[j].1 < self.spec_len(),
                forall|j: int| 0 <= j < edges@.len() ==> edges@[j].0 < usize::MAX && edges@[j].1 < usize::MAX,
            decreases edges@.len() - i,
        {
            let (from, to) = edges[i];
            self.push(from, to);
            proof {
                assert(edges@.subrange(0, i + 1) =~= edges@.subrange(0, i as int).push((from, to)));
                assert(edges@.subrange(0, i + 1).drop_last() =~= edges@.subrange(0, i as int));
                assert(old(self).spec_edges() + edges@.subrange(0, i + 1) =~= (old(self).spec_edges()
                    + edges@.subrange(0, i as int)).push((from, to)));
            }
            i += 1;
        }
        proof {
            assert(edges@.subrange(0, i as int) =~= edges@);
        }
    }

    /// Constructs a graph from a slice of edges, added in order.
    pub fn from_edges(edges: &[(usize, usize)]) -> (r: Self)
        requires
            forall|i: int| 0 <= i < edges@.len() ==> edges@[i].0 < usize::MAX && edges@[i].1 < usize::MAX,
        ensures
            r.wf(),
            r.spec_edges() == edges@,
            r.spec_len() == edges_extent(edges@),
    {
        let mut graph = Self::new();
        graph.extend(edges);
        proof {
            assert(Seq::<(usize, usize)>::empty() + edges@ =~= edges@);
        }
        graph
    }
}

/// The edges listed for the vertices below `m` join vertices of the graph.
proof fn lemma_edges_below_bounds(g: &Graph, m: int)
    requires
        g.wf(),
        m <= g.spec_len(),
    ensures
        g.spec_len() <= usize::MAX,
        forall|i: int|
            0 <= i < edges_below(g.spec_edges(), m).len() ==> #[trigger] edges_below(
                g.spec_edges(),
                m,
            )[i].0 < g.spec_len() && edges_below(g.spec_edges(), m)[i].1 < g.spec_len(),
    decreases m,
{
    let edges = g.spec_edges();
    if m > 0 {
        lemma_edges_below_bounds(g, m - 1);
        lemma_neighbor_list_entries(edges, m - 1, edges.len() as int);
        let prev = edges_below(edges, m - 1);
        let cur = edges_below(edges, m);
        let pairs = vertex_pairs(edges, m - 1);
        assert forall|i: int| 0 <= i < cur.len() implies #[trigger] cur[i].0 < g.spec_len()
            && cur[i].1 < g.spec_len() by {
            if i < prev.len() {
                assert(cur[i] == prev[i]);
            } else {
                let j = i - prev.len();
                assert(cur[i] == pairs[j]);
                let (t, e) = neighbor_list(edges, m - 1, edges.len() as int)[j];
                assert(edges[e as int].1 == t);
            }
        }
    }
}

} // verus!
