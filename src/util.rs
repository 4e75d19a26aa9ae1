//! Utility functions.
use vstd::prelude::*;

verus! {

/// Grows `v` with empty entries until it holds `size` of them; a longer vector is kept as it is.
pub(crate) fn ensure_len<T>(v: &mut Vec<Option<T>>, size: usize)
    ensures
        final(v)@.len() == if old(v)@.len() < size {
            size as int
        } else {
            old(v)@.len() as int
        },
        forall|i: int| 0 <= i < old(v)@.len() ==> final(v)@[i] == old(v)@[i],
        forall|i: int| old(v)@.len() <= i < final(v)@.len() ==> final(v)@[i] is None,
{
    let ghost start = v@;
    while v.len() < size
        invariant
            start.len() <= v@.len(),
            v@.len() <= if start.len() < size {
                size as int
            } else {
                start.len() as int
            },
            forall|i: int| 0 <= i < start.len() ==> v@[i] == start[i],
            forall|i: int| start.len() <= i < v@.len() ==> v@[i] is None,
        decreases size - v@.len(),
    {
        v.push(None);
    }
}

} // verus!
