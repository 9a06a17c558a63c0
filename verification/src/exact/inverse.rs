//! The Gauss–Jordan inverse is an inverse.
//!
//! Elimination does the same row operations to the matrix and to a companion that starts as the
//! identity. Two products are kept all along: the companion times the first matrix is the matrix as
//! it stands, and undoing the operations gives the first matrix and the identity back.

use vstd::prelude::*;

use crate::exact::{absolute, exact, lemma_constants};
use crate::exact::matrices::{
    agree, delta, flipped, lemma_row_through, lemma_times_agree, numbers, row_times, times, RealMat,
    RealVec,
};
use crate::exact::sums::{
    lemma_add, lemma_scale, lemma_scale_right, lemma_single, lemma_terms, lemma_zero, rsum,
};
use crate::linalg::gauss::{
    column_step, eliminated, has_pivot, inverse_grid, least_pivot, lemma_pivot_row_bounds,
    magnitudes, pivot_row, row_divided, row_reduced, rows_cleared, rows_swapped, stands_out,
};
use crate::linalg::{identity_grid, shaped, Grid};
use crate::scalar::{lit, magnitude, same, Real};

verus! {

/// `i` with `p` and `q` exchanged.
pub open spec fn exchanged(i: int, p: int, q: int) -> int {
    if i == p {
        q
    } else if i == q {
        p
    } else {
        i
    }
}

/// `x` with rows `p` and `q` exchanged.
pub open spec fn swapped(x: RealMat, p: int, q: int) -> RealMat {
    |i: int, j: int| x(exchanged(i, p, q), j)
}

/// `x` with row `row` divided by `d`.
pub open spec fn divided(x: RealMat, row: int, d: real) -> RealMat {
    |i: int, j: int|
        if i == row {
            x(i, j) / d
        } else {
            x(i, j)
        }
}

/// `x` with `f(i)` times row `col` taken off every row `i`.
pub open spec fn reduced(x: RealMat, f: RealVec, col: int) -> RealMat {
    |i: int, j: int| x(i, j) - f(i) * x(col, j)
}

/// Exchanging two terms leaves a sum as it is.
proof fn lemma_exchange(n: nat, g: RealVec, p: int, q: int)
    requires
        0 <= p < n,
        0 <= q < n,
    ensures
        rsum(n, |k: int| g(exchanged(k, p, q))) == rsum(n, g),
{
    let h = |k: int| g(exchanged(k, p, q));
    if p == q {
        lemma_terms(n, h, g);
    } else {
        let at_p = |k: int|
            if k == p {
                g(q) - g(p)
            } else {
                0real
            };
        let at_q = |k: int|
            if k == q {
                g(p) - g(q)
            } else {
                0real
            };
        let change = |k: int| at_p(k) + at_q(k);
        let both = |k: int| g(k) + change(k);
        lemma_single(n, p, at_p);
        lemma_single(n, q, at_q);
        lemma_add(n, at_p, at_q);
        lemma_add(n, g, change);
        lemma_terms(n, h, both);
    }
}

/// Undoing an exchange.
proof fn lemma_undo_swap(f: RealMat, x: RealMat, y: RealMat, p: int, q: int, n: nat)
    requires
        0 <= p < n,
        0 <= q < n,
        agree(y, times(f, x, n), n, n),
    ensures
        agree(
            y,
            times(|i: int, k: int| f(i, exchanged(k, p, q)), swapped(x, p, q), n),
            n,
            n,
        ),
{
    let f2 = |i: int, k: int| f(i, exchanged(k, p, q));
    let x2 = swapped(x, p, q);
    assert forall|i: int, j: int| 0 <= i < n && 0 <= j < n implies #[trigger] y(i, j) == times(
        f2,
        x2,
        n,
    )(i, j) by {
        let g = |k: int| f(i, k) * x(k, j);
        lemma_exchange(n, g, p, q);
        let h = |k: int| g(exchanged(k, p, q));
        let t = |k: int| f2(i, k) * x2(k, j);
        lemma_terms(n, h, t);
        assert(times(f, x, n)(i, j) == rsum(n, g));
    }
}

/// Undoing a division.
proof fn lemma_undo_divide(f: RealMat, x: RealMat, y: RealMat, row: int, d: real, n: nat)
    requires
        0 <= row < n,
        d != 0real,
        agree(y, times(f, x, n), n, n),
    ensures
        agree(
            y,
            times(
                |i: int, k: int|
                    if k == row {
                        f(i, k) * d
                    } else {
                        f(i, k)
                    },
                divided(x, row, d),
                n,
            ),
            n,
            n,
        ),
{
    let f2 = |i: int, k: int|
        if k == row {
            f(i, k) * d
        } else {
            f(i, k)
        };
    let x2 = divided(x, row, d);
    assert forall|i: int, j: int| 0 <= i < n && 0 <= j < n implies #[trigger] y(i, j) == times(
        f2,
        x2,
        n,
    )(i, j) by {
        let g = |k: int| f(i, k) * x(k, j);
        let t = |k: int| f2(i, k) * x2(k, j);
        assert forall|k: int| 0 <= k < n implies #[trigger] g(k) == t(k) by {
            if k == row {
                let (a, b) = (f(i, k), x(k, j));
                assert(a * b == (a * d) * (b / d)) by (nonlinear_arith)
                    requires
                        d != 0real,
                ;
            }
        }
        lemma_terms(n, g, t);
        assert(times(f, x, n)(i, j) == rsum(n, g));
    }
}

/// Undoing a reduction.
proof fn lemma_undo_reduce(f: RealMat, x: RealMat, y: RealMat, c: RealVec, col: int, n: nat)
    requires
        0 <= col < n,
        c(col) == 0real,
        agree(y, times(f, x, n), n, n),
    ensures
        agree(
            y,
            times(
                |i: int, k: int|
                    if k == col {
                        f(i, k) + rsum(n, |r: int| f(i, r) * c(r))
                    } else {
                        f(i, k)
                    },
                reduced(x, c, col),
                n,
            ),
            n,
            n,
        ),
{
    let f2 = |i: int, k: int|
        if k == col {
            f(i, k) + rsum(n, |r: int| f(i, r) * c(r))
        } else {
            f(i, k)
        };
    let x2 = reduced(x, c, col);
    assert forall|i: int, j: int| 0 <= i < n && 0 <= j < n implies #[trigger] y(i, j) == times(
        f2,
        x2,
        n,
    )(i, j) by {
        let fc = |r: int| f(i, r) * c(r);
        let s = rsum(n, fc);
        let w = x(col, j);
        let g = |k: int| f(i, k) * x(k, j);
        let lost = |k: int| fc(k) * (-w);
        let kept = |k: int| g(k) + lost(k);
        let gained = |k: int|
            if k == col {
                s * w
            } else {
                0real
            };
        let all = |k: int| kept(k) + gained(k);
        let t = |k: int| f2(i, k) * x2(k, j);
        assert forall|k: int| 0 <= k < n implies #[trigger] t(k) == all(k) by {
            let (a, b, e) = (f(i, k), x(k, j), c(k));
            if k == col {
                assert((a + s) * (w - 0real * w) == (a * w + (a * 0real) * (-w)) + s * w)
                    by (nonlinear_arith);
            } else {
                assert(a * (b - e * w) == (a * b + (a * e) * (-w)) + 0real) by (nonlinear_arith);
            }
        }
        lemma_terms(n, t, all);
        lemma_add(n, kept, gained);
        lemma_add(n, g, lost);
        lemma_scale_right(n, fc, -w);
        lemma_single(n, col, gained);
        assert(s * (-w) + s * w == 0real) by (nonlinear_arith);
        assert(times(f, x, n)(i, j) == rsum(n, g));
    }
}

/// The companion follows a reduction.
proof fn lemma_follow_reduce(a: RealMat, e: RealMat, first: RealMat, c: RealVec, col: int, n: nat)
    requires
        0 <= col < n,
        agree(a, times(e, first, n), n, n),
    ensures
        agree(reduced(a, c, col), times(reduced(e, c, col), first, n), n, n),
{
    assert forall|i: int, j: int| 0 <= i < n && 0 <= j < n implies #[trigger] reduced(a, c, col)(
        i,
        j,
    ) == times(reduced(e, c, col), first, n)(i, j) by {
        let g = |k: int| e(i, k) * first(k, j);
        let h = |k: int| e(col, k) * first(k, j);
        let ch = |k: int| (-c(i)) * h(k);
        let both = |k: int| g(k) + ch(k);
        let t = |k: int| reduced(e, c, col)(i, k) * first(k, j);
        assert forall|k: int| 0 <= k < n implies #[trigger] t(k) == both(k) by {
            let (p, q, r, s) = (e(i, k), e(col, k), first(k, j), c(i));
            assert((p - s * q) * r == p * r + (-s) * (q * r)) by (nonlinear_arith);
        }
        lemma_terms(n, t, both);
        lemma_add(n, g, ch);
        lemma_scale(n, -c(i), h);
        assert(a(i, j) == times(e, first, n)(i, j));
        assert(a(col, j) == times(e, first, n)(col, j));
        let (s, z) = (c(i), rsum(n, h));
        assert((-s) * z == -(s * z)) by (nonlinear_arith);
    }
}

/// The companion follows a division.
proof fn lemma_follow_divide(a: RealMat, e: RealMat, first: RealMat, row: int, d: real, n: nat)
    requires
        d != 0real,
        agree(a, times(e, first, n), n, n),
    ensures
        agree(divided(a, row, d), times(divided(e, row, d), first, n), n, n),
{
    assert forall|i: int, j: int| 0 <= i < n && 0 <= j < n implies #[trigger] divided(a, row, d)(
        i,
        j,
    ) == times(divided(e, row, d), first, n)(i, j) by {
        let g = |k: int| e(i, k) * first(k, j);
        let t = |k: int| divided(e, row, d)(i, k) * first(k, j);
        assert(a(i, j) == times(e, first, n)(i, j));
        if i == row {
            let inv = 1real / d;
            let scaled = |k: int| inv * g(k);
            assert forall|k: int| 0 <= k < n implies #[trigger] t(k) == scaled(k) by {
                let (p, q) = (e(i, k), first(k, j));
                assert((p / d) * q == (1real / d) * (p * q)) by (nonlinear_arith)
                    requires
                        d != 0real,
                ;
            }
            lemma_terms(n, t, scaled);
            lemma_scale(n, inv, g);
            let z = rsum(n, g);
            assert(z / d == (1real / d) * z) by (nonlinear_arith)
                requires
                    d != 0real,
            ;
        } else {
            lemma_terms(n, t, g);
        }
    }
}

/// The state of an elimination: the first matrix, the matrix as it stands, and the companion.
pub open spec fn on_course(first: RealMat, a: RealMat, e: RealMat, f: RealMat, n: nat) -> bool {
    &&& agree(a, times(e, first, n), n, n)
    &&& agree(first, times(f, a, n), n, n)
    &&& agree(delta(), times(f, e, n), n, n)
}

/// The columns before `col` are those of the identity.
pub open spec fn cleared(a: RealMat, col: int, n: nat) -> bool {
    forall|i: int, j: int| 0 <= i < n && 0 <= j < col ==> #[trigger] a(i, j) == delta()(i, j)
}

/// The columns of `f` from `col` on are orthonormal.
pub open spec fn upright(f: RealMat, col: int, n: nat) -> bool {
    forall|j: int, k: int|
        col <= j < n && col <= k < n ==> #[trigger] times(flipped(f), f, n)(j, k) == delta()(j, k)
}

/// One column of the elimination, on the numbers.
proof fn lemma_column(first: RealMat, a: RealMat, e: RealMat, f: RealMat, col: int, p: int, n: nat) -> (g:
    RealMat)
    requires
        on_course(first, a, e, f, n),
        cleared(a, col, n),
        0 <= col <= p < n,
        a(p, col) != 0real,
    ensures
        ({
            let d = a(p, col);
            let a2 = divided(swapped(a, col, p), col, d);
            let e2 = divided(swapped(e, col, p), col, d);
            let c = |r: int|
                if r == col {
                    0real
                } else {
                    a2(r, col)
                };
            &&& on_course(first, reduced(a2, c, col), reduced(e2, c, col), g, n)
            &&& cleared(reduced(a2, c, col), col + 1, n)
            &&& upright(f, col, n) ==> upright(g, col + 1, n)
        }),
{
    let d = a(p, col);
    let a1 = swapped(a, col, p);
    let e1 = swapped(e, col, p);
    let a2 = divided(a1, col, d);
    let e2 = divided(e1, col, d);
    let c = |r: int|
        if r == col {
            0real
        } else {
            a2(r, col)
        };
    let a3 = reduced(a2, c, col);
    let e3 = reduced(e2, c, col);
    let f1 = |i: int, k: int| f(i, exchanged(k, col, p));
    let f2 = |i: int, k: int|
        if k == col {
            f1(i, k) * d
        } else {
            f1(i, k)
        };
    let f3 = |i: int, k: int|
        if k == col {
            f2(i, k) + rsum(n, |r: int| f2(i, r) * c(r))
        } else {
            f2(i, k)
        };
    lemma_undo_swap(f, a, first, col, p, n);
    lemma_undo_swap(f, e, delta(), col, p, n);
    lemma_undo_divide(f1, a1, first, col, d, n);
    lemma_undo_divide(f1, e1, delta(), col, d, n);
    lemma_undo_reduce(f2, a2, first, c, col, n);
    lemma_undo_reduce(f2, e2, delta(), c, col, n);
    assert(agree(a1, times(e1, first, n), n, n)) by {
        assert forall|i: int, j: int| 0 <= i < n && 0 <= j < n implies #[trigger] a1(i, j) == times(
            e1,
            first,
            n,
        )(i, j) by {
            let k = exchanged(i, col, p);
            assert(a(k, j) == times(e, first, n)(k, j));
            lemma_terms(n, |t: int| e(k, t) * first(t, j), |t: int| e1(i, t) * first(t, j));
        }
    }
    lemma_follow_divide(a1, e1, first, col, d, n);
    lemma_follow_reduce(a2, e2, first, c, col, n);
    assert forall|i: int, j: int| 0 <= i < n && 0 <= j < col + 1 implies #[trigger] a3(i, j)
        == delta()(i, j) by {
        let s = c(i);
        if j < col {
            assert(a(exchanged(i, col, p), j) == delta()(exchanged(i, col, p), j));
            assert(a(p, j) == delta()(p, j));
            assert(a2(col, j) == 0real / d);
            assert(0real / d == 0real) by (nonlinear_arith)
                requires
                    d != 0real,
            ;
            assert(s * 0real == 0real) by (nonlinear_arith);
            if i == col {
                assert(a2(i, j) == 0real);
            }
        } else {
            assert(a2(col, col) == d / d);
            assert(d / d == 1real) by (nonlinear_arith)
                requires
                    d != 0real,
            ;
            assert(s * 1real == s) by (nonlinear_arith);
        }
    }
    if upright(f, col, n) {
        assert forall|j: int, k: int| col + 1 <= j < n && col + 1 <= k < n implies #[trigger] times(
            flipped(f3),
            f3,
            n,
        )(j, k) == delta()(j, k) by {
            let (x, y) = (exchanged(j, col, p), exchanged(k, col, p));
            assert(times(flipped(f), f, n)(x, y) == delta()(x, y));
            lemma_terms(
                n,
                |r: int| flipped(f3)(j, r) * f3(r, k),
                |r: int| flipped(f)(x, r) * f(r, y),
            );
        }
    }
    f3
}

/// The pivot has the largest magnitude of its column.
pub proof fn lemma_pivot_is_largest<T: Real>(
    val: spec_fn(T) -> real,
    a: Grid<T>,
    col: int,
    end: int,
    r: int,
)
    requires
        exact(val),
        col <= r < end,
    ensures
        absolute(val(a[r][col])) <= absolute(val(a[pivot_row(a, col, end)][col])),
    decreases end - col,
{
    if end > col + 1 && r < end - 1 {
        lemma_pivot_is_largest(val, a, col, end - 1, r);
    }
    let p = pivot_row(a, col, end - 1);
    assert(val(magnitude(a[p][col])) == absolute(val(a[p][col])));
    assert(val(magnitude(a[end - 1][col])) == absolute(val(a[end - 1][col])));
}

/// The pivot of a column that holds one is not zero.
pub proof fn lemma_pivot_is_not_zero<T: Real>(
    val: spec_fn(T) -> real,
    a: Grid<T>,
    scale: Grid<T>,
    col: int,
    end: int,
)
    requires
        exact(val),
        has_pivot(a, scale, col, end),
    ensures
        val(a[pivot_row(a, col, end)][col]) != 0real,
{
    let r = choose|r: int| col <= r < end && #[trigger] stands_out(a[r][col], scale[r][col]);
    let tiny = lit::<T>(1, 1_000_000_000_000_000_000);
    assert(val(tiny) == 1real / 1_000_000_000_000_000_000real);
    assert(val(least_pivot(scale[r][col])) >= val(tiny));
    assert(val(magnitude(a[r][col])) == absolute(val(a[r][col])));
    lemma_pivot_is_largest(val, a, col, end, r);
}

/// One column of the elimination, on grids.
pub proof fn lemma_column_step<T: Real>(
    val: spec_fn(T) -> real,
    first: RealMat,
    a: Grid<T>,
    e: Grid<T>,
    scale: Grid<T>,
    f: RealMat,
    col: int,
    n: nat,
) -> (g: RealMat)
    requires
        exact(val),
        shaped(a, n, n),
        shaped(e, n, n),
        0 <= col < n,
        on_course(first, numbers(val, a), numbers(val, e), f, n),
        cleared(numbers(val, a), col, n),
        column_step(a, e, scale, col, n) is Some,
    ensures
        ({
            let next = column_step(a, e, scale, col, n)->0;
            &&& shaped(next.0, n, n)
            &&& shaped(next.1, n, n)
            &&& on_course(first, numbers(val, next.0), numbers(val, next.1), g, n)
            &&& cleared(numbers(val, next.0), col + 1, n)
            &&& upright(f, col, n) ==> upright(g, col + 1, n)
        }),
{
    lemma_constants(val);
    let p = pivot_row(a, col, n as int);
    lemma_pivot_row_bounds(a, col, n as int);
    let ra = numbers(val, a);
    let re = numbers(val, e);
    let d = val(a[p][col]);
    assert(d != 0real) by {
        lemma_pivot_is_not_zero(val, a, scale, col, n as int);
    }
    assert(ra(p, col) == d);
    let g = lemma_column(first, ra, re, f, col, p, n);
    let a1 = rows_swapped(a, col, p);
    let e1 = rows_swapped(e, col, p);
    let pivot = a1[col][col];
    let a2 = row_divided(a1, col, pivot);
    let e2 = row_divided(e1, col, pivot);
    let next = column_step(a, e, scale, col, n)->0;
    assert(next.0 == rows_cleared(a2, a2, col, n as int));
    assert(next.1 == rows_cleared(e2, a2, col, n as int));
    let b2 = divided(swapped(ra, col, p), col, d);
    let c2 = divided(swapped(re, col, p), col, d);
    let c = |r: int|
        if r == col {
            0real
        } else {
            b2(r, col)
        };
    assert(pivot == a[p][col]);
    assert forall|i: int, j: int| 0 <= i < n && 0 <= j < n implies #[trigger] val(a2[i][j]) == b2(i, j)
        && val(e2[i][j]) == c2(i, j) by {
        assert(a1[i] == a[exchanged(i, col, p)]);
        assert(e1[i] == e[exchanged(i, col, p)]);
    }
    assert forall|i: int, j: int| 0 <= i < n && 0 <= j < n implies #[trigger] numbers(val, next.0)(
        i,
        j,
    ) == reduced(b2, c, col)(i, j) by {
        assert(a2[i].len() == n);
        let (s, z) = (c(i), val(a2[col][j]));
        if i == col || same(a2[i][col], lit::<T>(0, 1)) {
            assert(next.0[i] == a2[i]);
            assert(s == 0real);
            assert(0real * z == 0real) by (nonlinear_arith);
        } else {
            assert(next.0[i] == row_reduced(a2, i, a2[i][col], col)[i]);
        }
    }
    assert forall|i: int, j: int| 0 <= i < n && 0 <= j < n implies #[trigger] numbers(val, next.1)(
        i,
        j,
    ) == reduced(c2, c, col)(i, j) by {
        assert(e2[i].len() == n);
        let (s, z) = (c(i), val(e2[col][j]));
        if i == col || same(a2[i][col], lit::<T>(0, 1)) {
            assert(next.1[i] == e2[i]);
            assert(val(a2[i][col]) == b2(i, col));
            assert(s == 0real);
            assert(0real * z == 0real) by (nonlinear_arith);
        } else {
            assert(next.1[i] == row_reduced(e2, i, a2[i][col], col)[i]);
            assert(val(a2[i][col]) == b2(i, col));
        }
    }
    let a3 = numbers(val, next.0);
    let e3 = numbers(val, next.1);
    lemma_times_agree(e3, reduced(c2, c, col), first, first, n, n, n);
    lemma_times_agree(g, g, a3, reduced(b2, c, col), n, n, n);
    lemma_times_agree(g, g, e3, reduced(c2, c, col), n, n, n);
    assert(agree(a3, times(e3, first, n), n, n));
    assert(agree(first, times(g, a3, n), n, n));
    assert(agree(delta(), times(g, e3, n), n, n));
    assert forall|i: int, j: int| 0 <= i < n && 0 <= j < col + 1 implies #[trigger] a3(i, j)
        == delta()(i, j) by {
        assert(a3(i, j) == reduced(b2, c, col)(i, j));
    }
    g
}

/// A product with the identity.
pub proof fn lemma_times_delta(f: RealMat, n: nat)
    ensures
        agree(times(f, delta(), n), f, n, n),
        agree(times(delta(), f, n), f, n, n),
{
    assert forall|i: int, j: int| 0 <= i < n && 0 <= j < n implies #[trigger] times(f, delta(), n)(
        i,
        j,
    ) == f(i, j) by {
        let g = |k: int| f(i, k) * delta()(k, j);
        assert forall|k: int| 0 <= k < n && k != j implies #[trigger] g(k) == 0real by {
            let x = f(i, k);
            assert(x * 0real == 0real) by (nonlinear_arith);
        }
        lemma_single(n, j, g);
        let x = f(i, j);
        assert(x * 1real == x) by (nonlinear_arith);
    }
    assert forall|i: int, j: int| 0 <= i < n && 0 <= j < n implies #[trigger] times(delta(), f, n)(
        i,
        j,
    ) == f(i, j) by {
        let g = |k: int| delta()(i, k) * f(k, j);
        assert forall|k: int| 0 <= k < n && k != i implies #[trigger] g(k) == 0real by {
            let x = f(k, j);
            assert(0real * x == 0real) by (nonlinear_arith);
        }
        lemma_single(n, i, g);
        let x = f(i, j);
        assert(1real * x == x) by (nonlinear_arith);
    }
}

/// The elimination from column `col` on, if it comes to its end.
proof fn lemma_eliminated<T: Real>(
    val: spec_fn(T) -> real,
    first: RealMat,
    a: Grid<T>,
    e: Grid<T>,
    scale: Grid<T>,
    f: RealMat,
    col: nat,
    n: nat,
)
    requires
        exact(val),
        shaped(a, n, n),
        shaped(e, n, n),
        col <= n,
        on_course(first, numbers(val, a), numbers(val, e), f, n),
        cleared(numbers(val, a), col as int, n),
        eliminated(a, e, scale, col, n) is Some,
    ensures
        ({
            let inv = numbers(val, eliminated(a, e, scale, col, n)->0);
            &&& shaped(eliminated(a, e, scale, col, n)->0, n, n)
            &&& agree(times(inv, first, n), delta(), n, n)
            &&& agree(times(first, inv, n), delta(), n, n)
        }),
    decreases n - col,
{
    if col == n {
        let ra = numbers(val, a);
        let re = numbers(val, e);
        assert(agree(ra, delta(), n, n));
        lemma_times_agree(f, f, ra, delta(), n, n, n);
        lemma_times_delta(f, n);
        assert(agree(first, f, n, n)) by {
            assert forall|i: int, j: int| 0 <= i < n && 0 <= j < n implies #[trigger] first(i, j)
                == f(i, j) by {
                assert(first(i, j) == times(f, ra, n)(i, j));
                assert(times(f, ra, n)(i, j) == times(f, delta(), n)(i, j));
                assert(times(f, delta(), n)(i, j) == f(i, j));
            }
        }
        lemma_times_agree(first, f, re, re, n, n, n);
        assert forall|i: int, j: int| 0 <= i < n && 0 <= j < n implies #[trigger] times(first, re, n)(
            i,
            j,
        ) == delta()(i, j) by {
            assert(times(first, re, n)(i, j) == times(f, re, n)(i, j));
            assert(delta()(i, j) == times(f, re, n)(i, j));
        }
        assert forall|i: int, j: int| 0 <= i < n && 0 <= j < n implies #[trigger] times(re, first, n)(
            i,
            j,
        ) == delta()(i, j) by {
            assert(ra(i, j) == times(re, first, n)(i, j));
        }
    } else {
        let g = lemma_column_step(val, first, a, e, scale, f, col as int, n);
        let next = column_step(a, e, scale, col as int, n)->0;
        lemma_eliminated(val, first, next.0, next.1, next.2, g, col + 1, n);
    }
}

/// The elimination at its start.
pub proof fn lemma_start<T: Real>(val: spec_fn(T) -> real, a: Grid<T>, n: nat)
    requires
        exact(val),
    ensures
        on_course(
            numbers(val, a),
            numbers(val, a),
            numbers(val, identity_grid::<T>(n)),
            delta(),
            n,
        ),
        upright(delta(), 0, n),
{
    let ra = numbers(val, a);
    let eye = identity_grid::<T>(n);
    let re = numbers(val, eye);
    lemma_constants(val);
    assert(agree(re, delta(), n, n));
    lemma_times_delta(ra, n);
    lemma_times_delta(delta(), n);
    lemma_times_agree(re, delta(), ra, ra, n, n, n);
    lemma_times_agree(delta(), delta(), ra, ra, n, n, n);
    lemma_times_agree(delta(), delta(), re, delta(), n, n, n);
    assert(agree(ra, times(re, ra, n), n, n)) by {
        assert forall|i: int, j: int| 0 <= i < n && 0 <= j < n implies #[trigger] ra(i, j) == times(
            re,
            ra,
            n,
        )(i, j) by {
            assert(times(re, ra, n)(i, j) == times(delta(), ra, n)(i, j));
            assert(times(delta(), ra, n)(i, j) == ra(i, j));
        }
    }
    assert(agree(ra, times(delta(), ra, n), n, n)) by {
        assert forall|i: int, j: int| 0 <= i < n && 0 <= j < n implies #[trigger] ra(i, j) == times(
            delta(),
            ra,
            n,
        )(i, j) by {
            assert(times(delta(), ra, n)(i, j) == ra(i, j));
        }
    }
    assert(agree(delta(), times(delta(), re, n), n, n)) by {
        assert forall|i: int, j: int| 0 <= i < n && 0 <= j < n implies #[trigger] delta()(i, j)
            == times(delta(), re, n)(i, j) by {
            assert(times(delta(), re, n)(i, j) == times(delta(), delta(), n)(i, j));
            assert(times(delta(), delta(), n)(i, j) == delta()(i, j));
        }
    }
    assert forall|j: int, k: int| 0 <= j < n && 0 <= k < n implies #[trigger] times(
        flipped(delta()),
        delta(),
        n,
    )(j, k) == delta()(j, k) by {
        lemma_terms(
            n,
            |r: int| flipped(delta())(j, r) * delta()(r, k),
            |r: int| delta()(j, r) * delta()(r, k),
        );
        assert(times(delta(), delta(), n)(j, k) == delta()(j, k));
    }
}

/// Where the inverse is found, it is one: `A·A⁻¹ = A⁻¹·A = I`.
pub proof fn inverse_inverts<T: Real>(val: spec_fn(T) -> real, a: Grid<T>, n: nat)
    requires
        exact(val),
        shaped(a, n, n),
        inverse_grid(a, n) is Some,
    ensures
        ({
            let inv = numbers(val, inverse_grid(a, n)->0);
            &&& shaped(inverse_grid(a, n)->0, n, n)
            &&& agree(times(numbers(val, a), inv, n), delta(), n, n)
            &&& agree(times(inv, numbers(val, a), n), delta(), n, n)
        }),
{
    reveal(inverse_grid);
    let ra = numbers(val, a);
    let eye = identity_grid::<T>(n);
    lemma_start(val, a, n);
    lemma_eliminated(val, ra, a, eye, magnitudes(a), delta(), 0, n);
}

/// A matrix that sends some row other than zero to zero has no inverse.
pub proof fn singular_has_no_inverse<T: Real>(
    val: spec_fn(T) -> real,
    a: Grid<T>,
    n: nat,
    x: RealVec,
    k: int,
)
    requires
        exact(val),
        shaped(a, n, n),
        0 <= k < n,
        x(k) != 0real,
        forall|j: int| 0 <= j < n ==> #[trigger] row_times(x, numbers(val, a), n)(j) == 0real,
    ensures
        inverse_grid(a, n) is None,
{
    if inverse_grid(a, n) is Some {
        inverse_inverts(val, a, n);
        let ra = numbers(val, a);
        let inv = numbers(val, inverse_grid(a, n)->0);
        lemma_row_through(x, ra, inv, n, n, k);
        let xa = row_times(x, ra, n);
        let t = |j: int| xa(j) * inv(j, k);
        assert forall|j: int| 0 <= j < n implies #[trigger] t(j) == 0real by {
            let y = inv(j, k);
            assert(xa(j) == 0real);
            assert(0real * y == 0real) by (nonlinear_arith);
        }
        lemma_zero(n, t);
        let s = |i: int| x(i) * times(ra, inv, n)(i, k);
        assert forall|i: int| 0 <= i < n && i != k implies #[trigger] s(i) == 0real by {
            let y = x(i);
            assert(times(ra, inv, n)(i, k) == delta()(i, k));
            assert(y * 0real == 0real) by (nonlinear_arith);
        }
        lemma_single(n, k, s);
        assert(times(ra, inv, n)(k, k) == delta()(k, k));
        let y = x(k);
        assert(y * 1real == y) by (nonlinear_arith);
        assert(false);
    }
}

} // verus!
