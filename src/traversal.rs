//! Traversal algorithms.
pub mod levelorder;
pub mod postorder;
pub mod preorder;
pub mod topological;

use vstd::prelude::*;
use crate::graph::visit_map::{seen, VisitMap};

verus! {

/// The nodes that a flag vector marks.
pub open spec fn marks(v: Seq<bool>) -> Set<int> {
    Set::new(|i: int| seen(v, i))
}

/// The entries of `c` that are not in `marked` and have not occurred earlier in `c`, in order.
pub open spec fn fresh(c: Seq<usize>, marked: Set<int>) -> Seq<usize>
    decreases c.len(),
{
    if c.len() == 0 {
        Seq::empty()
    } else if marked.contains(c[0] as int) {
        fresh(c.drop_first(), marked)
    } else {
        seq![c[0]] + fresh(c.drop_first(), marked.insert(c[0] as int))
    }
}

/// Whether `i` occurs in `c`.
pub open spec fn listed_in(c: Seq<usize>, i: int) -> bool {
    exists|k: int| 0 <= k < c.len() && #[trigger] c[k] as int == i
}

/// Marks every node of `candidates` as discovered and returns, in order, those that were
/// not discovered before (each once).
pub(crate) fn mark_fresh(discovered: &mut VisitMap, candidates: &Vec<usize>) -> (r: Vec<usize>)
    requires
        forall|k: int| 0 <= k < candidates@.len() ==> candidates@[k] < usize::MAX,
    ensures
        r@ == fresh(candidates@, marks(old(discovered)@)),
        forall|i: int|
            #![trigger seen(final(discovered)@, i)]
            #![trigger seen(old(discovered)@, i)]
            seen(final(discovered)@, i) <==> seen(old(discovered)@, i) || listed_in(
                candidates@,
                i,
            ),
        forall|k: int|
            0 <= k < r@.len() ==> !seen(old(discovered)@, r@[k] as int) && listed_in(
                candidates@,
                r@[k] as int,
            ),
{
    let ghost start = discovered@;
    let mut out: Vec<usize> = Vec::new();
    let mut j: usize = 0;
    proof {
        assert(candidates@.subrange(0, candidates@.len() as int) =~= candidates@);
        assert(out@ + fresh(candidates@, marks(start)) =~= fresh(candidates@, marks(start)));
    }
    while j < candidates.len()
        invariant
            0 <= j <= candidates@.len(),
            out@ + fresh(candidates@.subrange(j as int, candidates@.len() as int), marks(discovered@))
                == fresh(candidates@, marks(start)),
            forall|k: int| 0 <= k < candidates@.len() ==> candidates@[k] < usize::MAX,
            forall|i: int|
                seen(discovered@, i) <==> seen(start, i) || listed_in(
                    candidates@.subrange(0, j as int),
                    i,
                ),
            forall|k: int|
                0 <= k < out@.len() ==> !seen(start, out@[k] as int) && listed_in(
                    candidates@,
                    out@[k] as int,
                ),
        decreases candidates@.len() - j,
    {
        let node = candidates[j];
        let ghost before = discovered@;
        let ghost pre = candidates@.subrange(0, j as int);
        let ghost post = candidates@.subrange(0, j + 1);
        let ghost rest = candidates@.subrange(j as int, candidates@.len() as int);
        proof {
            assert(rest[0] == node);
            assert(rest.drop_first() =~= candidates@.subrange(j + 1, candidates@.len() as int));
            assert(candidates@.subrange(0, j + 1) =~= candidates@.subrange(0, j as int).push(node));
        }
        if discovered.visit(node) {
            proof {
                assert(marks(discovered@) =~= marks(before).insert(node as int));
                assert(!seen(start, node as int));
                assert(candidates@[j as int] == node);
            }
            out.push(node);
            proof {
                assert(out@ + fresh(candidates@.subrange(j + 1, candidates@.len() as int), marks(discovered@))
                    =~= out@.drop_last() + fresh(rest, marks(before)));
            }
        } else {
            proof {
                assert(marks(discovered@) =~= marks(before));
            }
        }
        proof {
            assert forall|i: int| listed_in(post, i) <==> listed_in(pre, i) || i == node as int by {
                if listed_in(post, i) {
                    let k = choose|k: int| 0 <= k < post.len() && #[trigger] post[k] as int == i;
                    if k < j {
                        assert(pre[k] == post[k]);
                    }
                }
                if listed_in(pre, i) {
                    let k = choose|k: int| 0 <= k < pre.len() && #[trigger] pre[k] as int == i;
                    assert(post[k] == pre[k]);
                }
                if i == node as int {
                    assert(post[j as int] == node);
                }
            }
            assert forall|i: int| seen(discovered@, i) <==> seen(start, i) || listed_in(post, i) by {
                if i != node as int {
                    assert(seen(discovered@, i) == seen(before, i));
                }
            }
        }
        j += 1;
        proof {
            assert(post == candidates@.subrange(0, j as int));
        }
    }
    proof {
        assert(candidates@.subrange(j as int, candidates@.len() as int) =~= Seq::<usize>::empty());
        assert(candidates@.subrange(0, j as int) =~= candidates@);
        assert(out@ + Seq::<usize>::empty() =~= out@);
    }
    out
}

} // verus!
