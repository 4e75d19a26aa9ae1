//! Index arithmetic and growth for linearized adjacency matrices.
use vstd::prelude::*;
use vstd::arithmetic::div_mod::{lemma_fundamental_div_mod, lemma_fundamental_div_mod_converse};
use crate::util::ensure_len;
use super::traits::Direction;

verus! {

/// Position of `(row, column)` in a flat square matrix of the given width.
pub open spec fn flat_position(row: int, column: int, width: int) -> int {
    row * width + column
}

/// The number of slots of rows `0..n` in a lower triangular matrix: `n * (n + 1) / 2`.
pub open spec fn triangle(n: int) -> int {
    n * (n + 1) / 2
}

/// Position of the unordered pair `{row, column}` in a packed lower triangular matrix.
pub open spec fn triangular_position(row: int, column: int) -> int {
    if row > column {
        triangle(row) + column
    } else {
        triangle(column) + row
    }
}

/// Position of `(row, column)` under the layout of graphs of kind `Ty`.
pub open spec fn linear_position<Ty: Direction>(row: int, column: int, width: int) -> int {
    if Ty::spec_is_directed() {
        flat_position(row, column, width)
    } else {
        triangular_position(row, column)
    }
}

/// The number of slots that a matrix for `n` nodes holds under the layout of `Ty`.
pub open spec fn linear_len<Ty: Direction>(n: int) -> int {
    if Ty::spec_is_directed() {
        n * n
    } else {
        triangle(n)
    }
}

/// Whether `(x, y)` and `(a, b)` name the same slot under the layout of `Ty`.
pub open spec fn same_slot<Ty: Direction>(x: int, y: int, a: int, b: int) -> bool {
    if Ty::spec_is_directed() {
        x == a && y == b
    } else {
        (x == a && y == b) || (x == b && y == a)
    }
}

/// The number of occupied slots in `s`.
pub open spec fn count_some<T>(s: Seq<Option<T>>) -> nat
    decreases s.len(),
{
    if s.len() == 0 {
        0
    } else {
        count_some(s.drop_last()) + if s.last() is Some {
            1nat
        } else {
            0nat
        }
    }
}

/// Writing `x` at position `i` changes the count by the occupancy of `x` less that of `s[i]`.
pub proof fn lemma_count_some_update<T>(s: Seq<Option<T>>, i: int, x: Option<T>)
    requires
        0 <= i < s.len(),
    ensures
        count_some(s.update(i, x)) + (if s[i] is Some {
            1int
        } else {
            0int
        }) == count_some(s) + (if x is Some {
            1int
        } else {
            0int
        }),
        count_some(s) <= s.len(),
    decreases s.len(),
{
    let t = s.update(i, x);
    if i == s.len() - 1 {
        assert(t.drop_last() =~= s.drop_last());
        lemma_count_some_bound(s.drop_last());
    } else {
        assert(t.drop_last() =~= s.drop_last().update(i, x));
        lemma_count_some_update(s.drop_last(), i, x);
    }
}

/// At most every slot is occupied, and an empty slot leaves the count below the length.
pub proof fn lemma_count_some_bound<T>(s: Seq<Option<T>>)
    ensures
        count_some(s) <= s.len(),
        (exists|i: int| 0 <= i < s.len() && s[i] is None) ==> count_some(s) < s.len(),
    decreases s.len(),
{
    if s.len() > 0 {
        lemma_count_some_bound(s.drop_last());
        if exists|i: int| 0 <= i < s.len() && s[i] is None {
            let i = choose|i: int| 0 <= i < s.len() && s[i] is None;
            if i < s.len() - 1 {
                assert(s.drop_last()[i] is None);
            }
        }
    }
}

/// Appending empty slots keeps the count.
pub proof fn lemma_count_some_extend<T>(s: Seq<Option<T>>, t: Seq<Option<T>>)
    requires
        s.len() <= t.len(),
        forall|i: int| 0 <= i < s.len() ==> t[i] == s[i],
        forall|i: int| s.len() <= i < t.len() ==> t[i] is None,
    ensures
        count_some(t) == count_some(s),
    decreases t.len(),
{
    if t.len() == s.len() {
        assert(t =~= s);
    } else {
        lemma_count_some_extend(s, t.drop_last());
    }
}

/// A capacity whose matrix, of either layout, can be indexed without overflow.
pub open spec fn capacity_fits(n: int) -> bool {
    0 <= n && n * (n + 1) <= usize::MAX
}

proof fn lemma_triangle_step(n: int)
    requires
        0 <= n,
    ensures
        triangle(n + 1) == triangle(n) + n + 1,
        0 <= triangle(n),
        2 * triangle(n) == n * (n + 1),
{
    assert((n + 1) * (n + 2) == n * (n + 1) + 2 * (n + 1)) by (nonlinear_arith);
    assert(n * (n + 1) >= 0) by (nonlinear_arith)
        requires
            0 <= n,
    ;
    assert(n * (n + 1) % 2 == 0) by {
        if n % 2 == 0 {
            assert(n * (n + 1) == (n / 2) * 2 * (n + 1)) by (nonlinear_arith)
                requires
                    n % 2 == 0,
            ;
            assert((n / 2) * 2 * (n + 1) == ((n / 2) * (n + 1)) * 2) by (nonlinear_arith);
        } else {
            assert(n * (n + 1) == n * ((n + 1) / 2) * 2) by (nonlinear_arith)
                requires
                    n % 2 == 1,
            ;
        }
    }
}

/// Rows below `n` occupy the first `triangle(n)` slots, and row `l` starts where rows below it end.
pub proof fn lemma_triangle_monotone(l: int, n: int)
    requires
        0 <= l < n,
    ensures
        triangle(l) + l < triangle(n),
        0 <= triangle(l),
    decreases n - l,
{
    lemma_triangle_step(l);
    if l + 1 < n {
        lemma_triangle_monotone(l + 1, n);
        lemma_triangle_step(l + 1);
    }
}

/// Every pair of nodes below `n` has a slot below `linear_len(n)`, and distinct slots
/// belong to distinct pairs.
pub proof fn lemma_position_bounds<Ty: Direction>(x: int, y: int, a: int, b: int, n: int)
    requires
        0 <= x < n,
        0 <= y < n,
        0 <= a < n,
        0 <= b < n,
    ensures
        0 <= linear_position::<Ty>(x, y, n) < linear_len::<Ty>(n),
        linear_position::<Ty>(x, y, n) == linear_position::<Ty>(a, b, n) <==> same_slot::<Ty>(
            x,
            y,
            a,
            b,
        ),
{
    if Ty::spec_is_directed() {
        assert(0 <= x * n + y < n * n) by (nonlinear_arith)
            requires
                0 <= x < n,
                0 <= y < n,
        ;
        if x * n + y == a * n + b {
            lemma_fundamental_div_mod_converse(x * n + y, n, x, y);
            lemma_fundamental_div_mod_converse(a * n + b, n, a, b);
        }
    } else {
        let lx = if x > y { x } else { y };
        let la = if a > b { a } else { b };
        lemma_triangle_monotone(lx, n);
        lemma_triangle_monotone(la, n);
        if lx < la {
            lemma_triangle_monotone(lx, la);
        } else if la < lx {
            lemma_triangle_monotone(la, lx);
        }
    }
}

/// Converts a row and column index to a position in a flat square matrix.
fn to_flat_square_matrix_position(row: usize, column: usize, width: usize) -> (r: usize)
    requires
        row < width,
        column < width,
        capacity_fits(width as int),
    ensures
        r == flat_position(row as int, column as int, width as int),
{
    assert(row * width + column < width * (width + 1)) by (nonlinear_arith)
        requires
            row < width,
            column < width,
    ;
    row * width + column
}

/// Converts a row and column index to a position in a lower triangular matrix.
fn to_lower_triangular_matrix_position(row: usize, column: usize, width: usize) -> (r: usize)
    requires
        row < width,
        column < width,
        capacity_fits(width as int),
    ensures
        r == triangular_position(row as int, column as int),
{
    let (long, short) = if row > column {
        (row, column)
    } else {
        (column, row)
    };
    proof {
        lemma_triangle_step(long as int);
        lemma_triangle_step(width as int);
        lemma_triangle_monotone(long as int, width as int);
        assert(long * (long + 1) <= width * (width + 1)) by (nonlinear_arith)
            requires
                long < width,
        ;
    }
    (long * (long + 1)) / 2 + short
}

/// Converts a row and column index to a position in a matrix.
pub fn to_linear_matrix_position<Ty: Direction>(row: usize, column: usize, width: usize) -> (r:
    usize)
    requires
        row < width,
        column < width,
        capacity_fits(width as int),
    ensures
        r == linear_position::<Ty>(row as int, column as int, width as int),
{
    if Ty::is_directed() {
        to_flat_square_matrix_position(row, column, width)
    } else {
        to_lower_triangular_matrix_position(row, column, width)
    }
}

/// What a flat square matrix, grown from width `n0` to `n1` inside `extended` (its old
/// contents followed by empty slots), holds at position `r` once every old position above
/// `k` has been moved to its new place.
spec fn relocated<T>(extended: Seq<Option<T>>, n0: int, n1: int, k: int, r: int) -> Option<T> {
    if r <= k {
        extended[r]
    } else if r / n1 < n0 && r % n1 < n0 && (r / n1) * n0 + r % n1 > k {
        extended[(r / n1) * n0 + r % n1]
    } else {
        None
    }
}

/// Extends a vector representing a square matrix to support holding `new_capacity` nodes.
/// `old_node_capacity` is the number of nodes the matrix currently supports.
/// Every stored entry keeps its row and column; the new slots are empty.
pub fn extend_linearized_matrix<Ty: Direction, T>(
    node_adjacencies: &mut Vec<Option<T>>,
    old_node_capacity: usize,
    new_capacity: usize,
)
    requires
        old(node_adjacencies)@.len() == linear_len::<Ty>(old_node_capacity as int),
        old_node_capacity <= new_capacity,
        capacity_fits(new_capacity as int),
    ensures
        final(node_adjacencies)@.len() == linear_len::<Ty>(new_capacity as int),
        count_some(final(node_adjacencies)@) == count_some(old(node_adjacencies)@),
        forall|a: int, b: int|
            0 <= a < new_capacity && 0 <= b < new_capacity ==> #[trigger] final(node_adjacencies)@[linear_position::<Ty>(a, b, new_capacity as int)] == if a < old_node_capacity
                && b < old_node_capacity {
                old(node_adjacencies)@[linear_position::<Ty>(a, b, old_node_capacity as int)]
            } else {
                None
            },
{
    if Ty::is_directed() {
        extend_flat_square_matrix(node_adjacencies, old_node_capacity, new_capacity);
    } else {
        extend_lower_triangular_matrix(node_adjacencies, old_node_capacity, new_capacity);
        proof {
            assert forall|a: int, b: int|
                0 <= a < new_capacity && 0 <= b < new_capacity implies #[trigger] node_adjacencies@[linear_position::<
                    Ty,
                >(a, b, new_capacity as int)] == if a < old_node_capacity && b
                    < old_node_capacity {
                    old(node_adjacencies)@[linear_position::<Ty>(
                        a,
                        b,
                        old_node_capacity as int,
                    )]
                } else {
                    None
                } by {
                lemma_position_bounds::<Ty>(a, b, a, b, new_capacity as int);
                if a < old_node_capacity && b < old_node_capacity {
                    lemma_position_bounds::<Ty>(a, b, a, b, old_node_capacity as int);
                } else {
                    let l = if a > b { a } else { b };
                    lemma_triangle_step(l);
                    if (old_node_capacity as int) < l {
                        lemma_triangle_monotone(old_node_capacity as int, l);
                    }
                }
            }
        }
    }
}

/// One step of the relocation: moving old position `kk = c * n0 + i` to `c * n1 + i`.
proof fn lemma_relocate_step<T>(
    before: Seq<Option<T>>,
    after: Seq<Option<T>>,
    extended: Seq<Option<T>>,
    n0: int,
    n1: int,
    c: int,
    i: int,
)
    requires
        1 <= c < n0,
        0 <= i < n0,
        n0 <= n1,
        before.len() == n1 * n1,
        c * n0 + i < c * n1 + i + 1,
        c * n1 + i < n1 * n1,
        after == before.update(c * n0 + i, before[c * n1 + i]).update(
            c * n1 + i,
            before[c * n0 + i],
        ),
        forall|r: int|
            0 <= r < n1 * n1 ==> #[trigger] before[r] == relocated(
                extended,
                n0,
                n1,
                c * n0 + i,
                r,
            ),
    ensures
        forall|r: int|
            0 <= r < n1 * n1 ==> #[trigger] after[r] == relocated(
                extended,
                n0,
                n1,
                c * n0 + i - 1,
                r,
            ),
{
    let kk = c * n0 + i;
    let p = kk;
    let q = c * n1 + i;
    assert(n0 <= c * n0) by (nonlinear_arith)
        requires
            1 <= c,
            0 <= n0,
    ;
    assert(c * n0 <= c * n1) by (nonlinear_arith)
        requires
            1 <= c,
            n0 <= n1,
    ;
    lemma_fundamental_div_mod_converse(q, n1, c, i);
    lemma_fundamental_div_mod_converse(kk, n0, c, i);
    if n0 == n1 {
        assert(p == q);
    }
    assert(p <= q);
    assert forall|r: int| 0 <= r < n1 * n1 implies #[trigger] after[r] == relocated(
        extended,
        n0,
        n1,
        kk - 1,
        r,
    ) by {
        if r == q {
            assert(after[r] == before[p]);
            assert(before[p] == relocated(extended, n0, n1, kk, p));
            assert(q / n1 == c && q % n1 == i);
            assert(relocated(extended, n0, n1, kk - 1, q) == extended[kk]);
            assert(after[r] == relocated(extended, n0, n1, kk - 1, r));
        } else if r == p {
            assert(after[r] == before[q]);
            assert(before[q] == relocated(extended, n0, n1, kk, q));
            let a = r / n1;
            let b = r % n1;
            lemma_fundamental_div_mod(r, n1);
            assert(r == a * n1 + b) by (nonlinear_arith)
                requires
                    r == n1 * (r / n1) + r % n1,
                    a == r / n1,
                    b == r % n1,
            ;
            if a < n0 && b < n0 && a * n0 + b > kk - 1 {
                assert(a * n0 + b >= a * n1 + b);
                assert(n0 != n1);
                assert(0 <= a) by {
                    vstd::arithmetic::div_mod::lemma_div_pos_is_pos(r, n1);
                }
                assert(a == 0) by (nonlinear_arith)
                    requires
                        a * n0 + b >= a * n1 + b,
                        n0 < n1,
                        0 <= a,
                ;
                assert(a * n1 == 0) by (nonlinear_arith)
                    requires
                        a == 0,
                ;
                assert(r == b);
                assert(r < n0);
                assert(r >= n0);
                assert(false);
            }
            assert(after[r] == relocated(extended, n0, n1, kk - 1, r));
        } else {
            assert(after[r] == before[r]);
            assert(before[r] == relocated(extended, n0, n1, kk, r));
            if r > kk && r / n1 < n0 && r % n1 < n0 {
                let a = r / n1;
                let b = r % n1;
                if a * n0 + b == kk {
                    lemma_fundamental_div_mod_converse(kk, n0, a, b);
                    lemma_fundamental_div_mod(r, n1);
                    assert(r == a * n1 + b) by (nonlinear_arith)
                        requires
                            r == n1 * (r / n1) + r % n1,
                            a == r / n1,
                            b == r % n1,
                    ;
                    assert(false);
                }
            }
        }
    }
}

/// Exchanges the entries at positions `p` and `q`.
fn swap_entries<T>(v: &mut Vec<Option<T>>, p: usize, q: usize)
    requires
        p < old(v)@.len(),
        q < old(v)@.len(),
    ensures
        final(v)@ == old(v)@.update(p as int, old(v)@[q as int]).update(q as int, old(v)@[p as int]),
        count_some(final(v)@) == count_some(old(v)@),
{
    if p != q {
        let mut held = None;
        core::mem::swap(&mut v[p], &mut held);
        core::mem::swap(&mut v[q], &mut held);
        core::mem::swap(&mut v[p], &mut held);
    }
    proof {
        let s0 = old(v)@;
        let s1 = s0.update(p as int, s0[q as int]);
        assert(v@ =~= s1.update(q as int, s0[p as int]));
        lemma_count_some_update(s0, p as int, s0[q as int]);
        lemma_count_some_update(s1, q as int, s0[p as int]);
    }
}

/// Extends a vector representing a flat square matrix to support holding `new_node_capacity` nodes.
///
/// Rows move from stride `old_node_capacity` to stride `new_node_capacity`, the highest row
/// first: a row's new place then never holds a row that has not moved yet.
fn extend_flat_square_matrix<T>(
    node_adjacencies: &mut Vec<Option<T>>,
    old_node_capacity: usize,
    new_node_capacity: usize,
)
    requires
        old(node_adjacencies)@.len() == old_node_capacity * old_node_capacity,
        old_node_capacity <= new_node_capacity,
        capacity_fits(new_node_capacity as int),
    ensures
        final(node_adjacencies)@.len() == new_node_capacity * new_node_capacity,
        count_some(final(node_adjacencies)@) == count_some(old(node_adjacencies)@),
        forall|a: int, b: int|
            0 <= a < new_node_capacity && 0 <= b < new_node_capacity ==> #[trigger] final(node_adjacencies)@[flat_position(a, b, new_node_capacity as int)] == if a < old_node_capacity && b
                < old_node_capacity {
                old(node_adjacencies)@[flat_position(a, b, old_node_capacity as int)]
            } else {
                None
            },
{
    let n0 = old_node_capacity;
    let n1 = new_node_capacity;
    proof {
        assert(n0 * n0 <= n1 * n1 && n1 * n1 <= n1 * (n1 + 1)) by (nonlinear_arith)
            requires
                n0 <= n1,
        ;
    }
    let ghost initial = node_adjacencies@;
    ensure_len(node_adjacencies, n1 * n1);
    let ghost extended = node_adjacencies@;
    proof {
        lemma_count_some_extend(initial, extended);
        lemma_relocation_start(extended, n0 as int, n1 as int);
    }
    let ghost mut k: int = n0 * n0 - 1;
    let mut c: usize = n0;
    while c > 1
        invariant
            c <= n0 <= n1,
            n0 >= 1 ==> c >= 1,
            count_some(node_adjacencies@) == count_some(initial),
            n1 * n1 <= n1 * (n1 + 1) <= usize::MAX,
            extended.len() == n1 * n1,
            initial.len() == n0 * n0,
            forall|i: int| 0 <= i < n0 * n0 ==> extended[i] == initial[i],
            forall|i: int| n0 * n0 <= i < n1 * n1 ==> extended[i] is None,
            node_adjacencies@.len() == n1 * n1,
            k == c * n0 - 1,
            forall|r: int|
                0 <= r < n1 * n1 ==> #[trigger] node_adjacencies@[r] == relocated(
                    extended,
                    n0 as int,
                    n1 as int,
                    k,
                    r,
                ),
        decreases c,
    {
        c -= 1;
        proof {
            assert(c * n0 <= c * n1 <= n1 * n1 && (c + 1) * n0 == c * n0 + n0) by (nonlinear_arith)
                requires
                    c < n0,
                    n0 <= n1,
            ;
        }
        let pos = c * n0;
        let new_pos = c * n1;
        let mut i: usize = n0;
        while i > 0
            invariant
                1 <= c < n0,
                n0 <= n1,
                n1 * n1 <= n1 * (n1 + 1) <= usize::MAX,
                pos == c * n0,
                new_pos == c * n1,
                i <= n0,
                extended.len() == n1 * n1,
                node_adjacencies@.len() == n1 * n1,
                k == c * n0 + i - 1,
                count_some(node_adjacencies@) == count_some(initial),
                forall|r: int|
                    0 <= r < n1 * n1 ==> #[trigger] node_adjacencies@[r] == relocated(
                        extended,
                        n0 as int,
                        n1 as int,
                        k,
                        r,
                    ),
            decreases i,
        {
            i -= 1;
            proof {
                assert(c * n0 + i < n0 * n0 && c * n1 + i < n1 * n1 && c * n0 <= c * n1)
                    by (nonlinear_arith)
                    requires
                        c < n0,
                        i < n0,
                        n0 <= n1,
                ;
            }
            let ghost before = node_adjacencies@;
            swap_entries(node_adjacencies, pos + i, new_pos + i);
            proof {
                lemma_relocate_step(
                    before,
                    node_adjacencies@,
                    extended,
                    n0 as int,
                    n1 as int,
                    c as int,
                    i as int,
                );
                k = k - 1;
            }
        }
    }
    proof {
        if n0 >= 1 {
            assert(c == 1);
            assert(k == n0 - 1);
        }
        lemma_relocation_end(initial, extended, node_adjacencies@, n0 as int, n1 as int, k);
    }
}

/// Before any move, `relocated` describes the extended vector itself.
proof fn lemma_relocation_start<T>(extended: Seq<Option<T>>, n0: int, n1: int)
    requires
        0 <= n0 <= n1,
        extended.len() == n1 * n1,
        forall|i: int| n0 * n0 <= i < n1 * n1 ==> extended[i] is None,
    ensures
        forall|r: int|
            0 <= r < n1 * n1 ==> #[trigger] extended[r] == relocated(
                extended,
                n0,
                n1,
                n0 * n0 - 1,
                r,
            ),
{
    assert forall|r: int| 0 <= r < n1 * n1 implies #[trigger] extended[r] == relocated(
        extended,
        n0,
        n1,
        n0 * n0 - 1,
        r,
    ) by {
        if r > n0 * n0 - 1 && r / n1 < n0 && r % n1 < n0 {
            let a = r / n1;
            let b = r % n1;
            assert(a * n0 + b <= n0 * n0 - 1) by (nonlinear_arith)
                requires
                    0 <= a < n0,
                    0 <= b < n0,
            ;
        }
    }
}

/// Once every row but the first has moved, each entry stands at its new row and column.
proof fn lemma_relocation_end<T>(
    initial: Seq<Option<T>>,
    extended: Seq<Option<T>>,
    moved: Seq<Option<T>>,
    n0: int,
    n1: int,
    k: int,
)
    requires
        0 <= n0 <= n1,
        initial.len() == n0 * n0,
        extended.len() == n1 * n1,
        moved.len() == n1 * n1,
        forall|i: int| 0 <= i < n0 * n0 ==> extended[i] == initial[i],
        forall|i: int| n0 * n0 <= i < n1 * n1 ==> extended[i] is None,
        k == n0 - 1 || (n0 == 0 && k == -1),
        forall|r: int|
            0 <= r < n1 * n1 ==> #[trigger] moved[r] == relocated(extended, n0, n1, k, r),
    ensures
        forall|a: int, b: int|
            0 <= a < n1 && 0 <= b < n1 ==> #[trigger] moved[flat_position(a, b, n1)] == if a
                < n0 && b < n0 {
                initial[flat_position(a, b, n0)]
            } else {
                None
            },
{
    assert forall|a: int, b: int| 0 <= a < n1 && 0 <= b < n1 implies #[trigger] moved[flat_position(
        a,
        b,
        n1,
    )] == if a < n0 && b < n0 {
        initial[flat_position(a, b, n0)]
    } else {
        None
    } by {
        let r = a * n1 + b;
        assert(0 <= r < n1 * n1) by (nonlinear_arith)
            requires
                0 <= a < n1,
                0 <= b < n1,
                r == a * n1 + b,
        ;
        assert(moved[r] == relocated(extended, n0, n1, k, r));
        lemma_fundamental_div_mod_converse(r, n1, a, b);
        assert(flat_position(a, b, n1) == r);
        if a == 0 {
            assert(a * n1 == 0 && a * n0 == 0) by (nonlinear_arith)
                requires
                    a == 0,
            ;
            assert(r == b);
            assert(flat_position(a, b, n0) == b);
            if b < n0 {
                assert(b <= k);
                assert(moved[r] == extended[b]);
                assert(b < n0 * n0) by (nonlinear_arith)
                    requires
                        0 <= b < n0,
                ;
            } else {
                assert(r > k);
            }
        } else {
            assert(r >= n1) by (nonlinear_arith)
                requires
                    a >= 1,
                    r == a * n1 + b,
                    b >= 0,
                    n1 >= 0,
            ;
            assert(r > k);
            if a < n0 && b < n0 {
                assert(a * n0 + b >= n0 && a * n0 + b < n0 * n0) by (nonlinear_arith)
                    requires
                        1 <= a < n0,
                        0 <= b < n0,
                ;
                assert(moved[r] == extended[a * n0 + b]);
            }
        }
    }
}

/// Extends a vector representing a lower triangular matrix to support holding `new_capacity` nodes.
fn extend_lower_triangular_matrix<T>(
    node_adjacencies: &mut Vec<Option<T>>,
    old_capacity: usize,
    new_capacity: usize,
)
    requires
        old(node_adjacencies)@.len() == triangle(old_capacity as int),
        old_capacity <= new_capacity,
        capacity_fits(new_capacity as int),
    ensures
        final(node_adjacencies)@.len() == triangle(new_capacity as int),
        count_some(final(node_adjacencies)@) == count_some(old(node_adjacencies)@),
        forall|i: int|
            0 <= i < old(node_adjacencies)@.len() ==> final(node_adjacencies)@[i] == old(node_adjacencies)@[i],
        forall|i: int|
            old(node_adjacencies)@.len() <= i < final(node_adjacencies)@.len() ==> final(node_adjacencies)@[i] is None,
{
    proof {
        lemma_triangle_step(new_capacity as int);
        lemma_triangle_step(old_capacity as int);
        if old_capacity < new_capacity {
            lemma_triangle_monotone(old_capacity as int, new_capacity as int);
        }
        assert(new_capacity + 1 <= new_capacity * (new_capacity + 1) || new_capacity == 0)
            by (nonlinear_arith);
    }
    ensure_len(node_adjacencies, new_capacity * (new_capacity + 1) / 2);
    proof {
        lemma_count_some_extend(old(node_adjacencies)@, node_adjacencies@);
    }
}

} // verus!
