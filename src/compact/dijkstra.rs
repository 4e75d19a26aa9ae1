//! Dijkstra's algorithm
use vstd::prelude::*;
use super::Graph;

verus! {

/// `a + b`, or `u64::MAX` when that does not fit.
pub open spec fn sat_add(a: u64, b: u64) -> u64 {
    if a + b > u64::MAX {
        u64::MAX
    } else {
        (a + b) as u64
    }
}

/// The sum of the entries of `s`.
pub open spec fn sum(s: Seq<u64>) -> nat
    decreases s.len(),
{
    if s.len() == 0 {
        0
    } else {
        sum(s.drop_last()) + s.last() as nat
    }
}

proof fn lemma_sum_update(s: Seq<u64>, i: int, x: u64)
    requires
        0 <= i < s.len(),
    ensures
        sum(s.update(i, x)) + s[i] == sum(s) + x,
    decreases s.len(),
{
    if i < s.len() - 1 {
        assert(s.update(i, x).drop_last() =~= s.drop_last().update(i, x));
        lemma_sum_update(s.drop_last(), i, x);
    } else {
        assert(s.update(i, x).drop_last() =~= s.drop_last());
    }
}

/// `es` lists edge indices that form a walk from `start` to `v`.
pub open spec fn is_walk(edges: Seq<(usize, usize)>, start: int, es: Seq<usize>, v: int) -> bool {
    if es.len() == 0 {
        v == start
    } else {
        &&& forall|i: int| 0 <= i < es.len() ==> #[trigger] es[i] < edges.len()
        &&& edges[es[0] as int].0 == start
        &&& forall|i: int|
            0 <= i < es.len() - 1 ==> #[trigger] edges[es[i] as int].1 == edges[es[i + 1] as int].0
        &&& edges[es.last() as int].1 == v
    }
}

/// The total weight of the edges in `es`.
pub open spec fn walk_weight(weights: Seq<u64>, es: Seq<usize>) -> nat
    decreases es.len(),
{
    if es.len() == 0 {
        0
    } else {
        walk_weight(weights, es.drop_last()) + weights[es.last() as int] as nat
    }
}

/// A distance that is not `u64::MAX` is the weight of a walk from `start`.
pub open spec fn realized(edges: Seq<(usize, usize)>, weights: Seq<u64>, start: int, d: u64, v: int) -> bool {
    d == u64::MAX || exists|es: Seq<usize>|
        #[trigger] is_walk(edges, start, es, v) && walk_weight(weights, es) == d
}

/// A walk extended by one more edge out of its end.
proof fn lemma_walk_push(
    edges: Seq<(usize, usize)>,
    weights: Seq<u64>,
    start: int,
    es: Seq<usize>,
    u: int,
    e: usize,
)
    requires
        is_walk(edges, start, es, u),
        e < edges.len(),
        edges[e as int].0 == u,
    ensures
        is_walk(edges, start, es.push(e), edges[e as int].1 as int),
        walk_weight(weights, es.push(e)) == walk_weight(weights, es) + weights[e as int],
{
    let f = es.push(e);
    assert(f.drop_last() =~= es);
    if es.len() > 0 {
        assert forall|i: int| 0 <= i < f.len() - 1 implies #[trigger] edges[f[i] as int].1 == edges[f[i
            + 1] as int].0 by {
            if i < es.len() - 1 {
                assert(f[i] == es[i] && f[i + 1] == es[i + 1]);
            } else {
                assert(f[i] == es.last());
            }
        }
        assert forall|i: int| 0 <= i < f.len() implies #[trigger] f[i] < edges.len() by {
            if i < es.len() {
                assert(f[i] == es[i]);
            }
        }
    }
}

/// No edge listed out of `u` can lower a distance.
pub open spec fn relaxed(list: Seq<(usize, usize)>, weights: Seq<u64>, dist: Seq<u64>, u: int) -> bool {
    forall|i: int|
        #![trigger list[i]]
        0 <= i < list.len() ==> dist[list[i].0 as int] <= sat_add(dist[u], weights[list[i].1 as int])
}

/// Removing the entry at `k` keeps every other entry.
proof fn lemma_swap_remove_keeps(heap: Seq<(u64, usize)>, k: int, y: (u64, usize))
    requires
        0 <= k < heap.len(),
        heap.contains(y),
        heap[k] != y,
    ensures
        heap.update(k, heap.last()).drop_last().contains(y),
{
    let j = choose|j: int| 0 <= j < heap.len() && heap[j] == y;
    let rest = heap.update(k, heap.last()).drop_last();
    if j == heap.len() - 1 {
        assert(rest[k] == y);
    } else {
        assert(rest[j] == y);
    }
}

impl Graph {
    /// Dijkstra's algorithm: the distance of every vertex from `start`, summing `weights`
    /// (indexed by edge) with saturation; `u64::MAX` marks a vertex that cannot be reached.
    ///
    /// On return `start` is at distance zero, no edge can lower any distance, and every
    /// distance other than `u64::MAX` is the weight of a walk from `start`: each distance is
    /// the least weight of a walk to its vertex.
    pub fn dijkstra(&self, weights: &[u64], start: usize) -> (r: Vec<u64>)
        requires
            self.wf(),
            weights@.len() == self.spec_edges().len(),
            start < self.spec_len(),
        ensures
            r@.len() == self.spec_len(),
            r@[start as int] == 0,
            forall|e: int|
                0 <= e < self.spec_edges().len() ==> #[trigger] r@[self.spec_edges()[e].1 as int]
                    <= sat_add(r@[self.spec_edges()[e].0 as int], weights@[e]),
            forall|v: int|
                0 <= v < r@.len() ==> realized(self.spec_edges(), weights@, start as int, r@[v], v),
    {
        let n = self.len();
        let mut dist: Vec<u64> = vec![u64::MAX; n];
        let mut heap: Vec<(u64, usize)> = Vec::new();
        let ghost lists = Seq::new(n as nat, |u: int| self.spec_neighbors(u));

        dist.set(start, 0);
        heap.push((0, start));
        proof {
            assert forall|v: int| 0 <= v < n implies realized(
                self.spec_edges(),
                weights@,
                start as int,
                dist@[v],
                v,
            ) by {
                if v == start {
                    assert(is_walk(self.spec_edges(), start as int, Seq::<usize>::empty(), v));
                    assert(walk_weight(weights@, Seq::<usize>::empty()) == 0);
                }
            }
            assert forall|u: int|
                0 <= u < n implies relaxed(lists[u], weights@, dist@, u) || heap@.contains(
                    (dist@[u], u as usize),
                ) by {
                if u == start {
                    assert(heap@[0] == (dist@[u], u as usize));
                } else {
                    assert(dist@[u] == u64::MAX);
                    assert forall|i: int|
                        #![trigger lists[u][i]]
                        0 <= i < lists[u].len() implies dist@[lists[u][i].0 as int] <= sat_add(
                            dist@[u],
                            weights@[lists[u][i].1 as int],
                        ) by {}
                }
            }
        }
        loop
            invariant
                self.wf(),
                n == self.spec_len(),
                lists == Seq::new(n as nat, |u: int| self.spec_neighbors(u)),
                weights@.len() == self.spec_edges().len(),
                dist@.len() == n,
                start < n,
                dist@[start as int] == 0,
                forall|k: int| 0 <= k < heap@.len() ==> heap@[k].1 < n,
                forall|u: int|
                    0 <= u < n ==> relaxed(lists[u], weights@, dist@, u) || heap@.contains(
                        (dist@[u], u as usize),
                    ),
                forall|v: int|
                    0 <= v < n ==> realized(self.spec_edges(), weights@, start as int, dist@[v], v),
            ensures
                forall|v: int|
                    0 <= v < n ==> realized(self.spec_edges(), weights@, start as int, dist@[v], v),
                heap@.len() == 0,
                dist@.len() == n,
                dist@[start as int] == 0,
                forall|u: int|
                    0 <= u < n ==> relaxed(lists[u], weights@, dist@, u) || heap@.contains(
                        (dist@[u], u as usize),
                    ),
            decreases sum(dist@), heap@.len(),
        {
            if heap.len() == 0 {
                break;
            }
            // pick the entry with the smallest distance; among equal ones, the largest node
            let mut best: usize = 0;
            let mut k: usize = 1;
            while k < heap.len()
                invariant
                    1 <= k <= heap@.len(),
                    best < heap@.len(),
                decreases heap@.len() - k,
            {
                let (d, u) = heap[k];
                let (bd, bu) = heap[best];
                if d < bd || (d == bd && u > bu) {
                    best = k;
                }
                k += 1;
            }
            let ghost before_heap = heap@;
            let ghost old_dist = dist@;
            let ghost old_heap_len = heap@.len();
            let (dist_u, u) = heap.swap_remove(best);
            proof {
                assert forall|x: int|
                    0 <= x < n && !relaxed(lists[x], weights@, dist@, x) && (x != u || dist@[x]
                        != dist_u) implies heap@.contains((dist@[x], x as usize)) by {
                    lemma_swap_remove_keeps(before_heap, best as int, (dist@[x], x as usize));
                }
                assert forall|k: int| 0 <= k < heap@.len() implies heap@[k].1 < n by {
                    if k == best {
                        assert(heap@[k] == before_heap.last());
                    } else {
                        assert(heap@[k] == before_heap[k]);
                    }
                }
            }
            if dist[u] == dist_u {
                let ghost list = lists[u as int];
                let mut it = self.neighbors(u);
                let ghost mut done: int = 0;
                proof {
                    self.lemma_neighbors(u as int);
                    assert forall|i: int| 0 <= i < list.len() implies list[i].0 < n && list[i].1
                        < weights@.len() by {
                        assert(list[i] == self.spec_neighbors(u as int)[i]);
                    }
                }
                loop
                    invariant
                        self.wf(),
                        n == self.spec_len(),
                        lists == Seq::new(n as nat, |u: int| self.spec_neighbors(u)),
                        list == lists[u as int],
                        list == self.spec_neighbors(u as int),
                        u < n,
                        it.wf(),
                        0 <= done <= list.len(),
                        it.spec_remaining() == list.subrange(done, list.len() as int),
                        forall|i: int|
                            0 <= i < list.len() ==> list[i].0 < n && list[i].1
                                < weights@.len(),
                        weights@.len() == self.spec_edges().len(),
                        dist@.len() == n,
                        start < n,
                        dist@[start as int] == 0,
                        dist@[u as int] == dist_u,
                        forall|k: int| 0 <= k < heap@.len() ==> heap@[k].1 < n,
                        forall|i: int|
                            #![trigger list[i]]
                            0 <= i < done ==> dist@[list[i].0 as int] <= sat_add(
                                dist_u,
                                weights@[list[i].1 as int],
                            ),
                        forall|x: int|
                            0 <= x < n && x != u ==> relaxed(lists[x], weights@, dist@, x)
                                || heap@.contains((dist@[x], x as usize)),
                        sum(dist@) < sum(old_dist) || (sum(dist@) == sum(old_dist) && heap@.len()
                            < old_heap_len),
                        forall|v: int|
                            0 <= v < n ==> realized(self.spec_edges(), weights@, start as int, dist@[v], v),
                    ensures
                        forall|v: int|
                            0 <= v < n ==> realized(self.spec_edges(), weights@, start as int, dist@[v], v),
                        done == list.len(),
                        dist@.len() == n,
                        dist@[start as int] == 0,
                        dist@[u as int] == dist_u,
                        forall|k: int| 0 <= k < heap@.len() ==> heap@[k].1 < n,
                        forall|i: int|
                            #![trigger list[i]]
                            0 <= i < done ==> dist@[list[i].0 as int] <= sat_add(
                                dist_u,
                                weights@[list[i].1 as int],
                            ),
                        forall|x: int|
                            0 <= x < n && x != u ==> relaxed(lists[x], weights@, dist@, x)
                                || heap@.contains((dist@[x], x as usize)),
                        sum(dist@) < sum(old_dist) || (sum(dist@) == sum(old_dist) && heap@.len()
                            < old_heap_len),
                    decreases list.len() - done,
                {
                    let ghost rem = it.spec_remaining();
                    match it.next() {
                        Some((v, e)) => {
                            proof {
                                assert(rem[0] == list[done]);
                            }
                            let alt_cost = dist_u.saturating_add(weights[e]);
                            if alt_cost < dist[v] {
                                let ghost d0 = dist@;
                                let ghost h0 = heap@;
                                dist.set(v, alt_cost);
                                heap.push((alt_cost, v));
                                proof {
                                    lemma_sum_update(d0, v as int, alt_cost);
                                    assert(list[done] == (v, e));
                                    assert(self.spec_edges()[e as int] == (u, v)) by {
                                        self.lemma_neighbors(u as int);
                                        assert(list[done] == self.spec_neighbors(u as int)[done]);
                                    }
                                    assert(dist_u < u64::MAX);
                                    assert(alt_cost == dist_u + weights@[e as int]);
                                    let es_u = choose|es: Seq<usize>|
                                        #[trigger] is_walk(self.spec_edges(), start as int, es, u as int)
                                            && walk_weight(weights@, es) == dist_u;
                                    lemma_walk_push(
                                        self.spec_edges(),
                                        weights@,
                                        start as int,
                                        es_u,
                                        u as int,
                                        e,
                                    );
                                    assert forall|x: int| 0 <= x < n implies realized(
                                        self.spec_edges(),
                                        weights@,
                                        start as int,
                                        dist@[x],
                                        x,
                                    ) by {
                                        if x == v {
                                            assert(is_walk(self.spec_edges(), start as int, es_u.push(e), x));
                                        } else {
                                            assert(dist@[x] == d0[x]);
                                        }
                                    }
                                    assert forall|x: int|
                                        0 <= x < n && x != u && !relaxed(
                                            lists[x],
                                            weights@,
                                            dist@,
                                            x,
                                        ) implies heap@.contains((dist@[x], x as usize)) by {
                                        if x == v {
                                            assert(heap@[heap@.len() - 1] == (dist@[x], x as usize));
                                        } else if relaxed(lists[x], weights@, d0, x) {
                                            self.lemma_neighbors(x);
                                            assert forall|i: int|
                                                #![trigger lists[x][i]]
                                                0 <= i < lists[x].len() implies dist@[lists[x][i].0 as int]
                                                <= sat_add(dist@[x], weights@[lists[x][i].1 as int]) by {
                                                assert(lists[x][i] == self.spec_neighbors(x)[i]);
                                                assert(d0[lists[x][i].0 as int] <= sat_add(
                                                    d0[x],
                                                    weights@[lists[x][i].1 as int],
                                                ));
                                            }
                                        } else {
                                            assert(h0.contains((d0[x], x as usize)));
                                            let j = choose|j: int|
                                                0 <= j < h0.len() && h0[j] == (d0[x], x as usize);
                                            assert(heap@[j] == (dist@[x], x as usize));
                                        }
                                    }
                                }
                            }
                            proof {
                                done = done + 1;
                                assert(it.spec_remaining() =~= list.subrange(
                                    done,
                                    list.len() as int,
                                ));
                            }
                        },
                        None => {
                            proof {
                                assert(done == list.len());
                            }
                            break;
                        },
                    }
                }
                proof {
                    assert(relaxed(lists[u as int], weights@, dist@, u as int));
                }
            }
        }
        proof {
            assert forall|e: int|
                0 <= e < self.spec_edges().len() implies #[trigger] dist@[self.spec_edges()[e].1 as int]
                <= sat_add(dist@[self.spec_edges()[e].0 as int], weights@[e]) by {
                let u = self.spec_edges()[e].0 as int;
                self.lemma_neighbors(u);
                assert(0 <= u < n);
                assert(relaxed(lists[u], weights@, dist@, u) || heap@.contains((dist@[u], u as usize)));
                assert(relaxed(lists[u], weights@, dist@, u));
                let i = choose|i: int|
                    0 <= i < self.spec_neighbors(u).len() && self.spec_neighbors(u)[i].1 == e;
                assert(lists[u][i] == self.spec_neighbors(u)[i]);
            }
        }
        dist
    }
}

} // verus!
