//! When an inverse is found: a matrix that shrinks no column too much has one, and a correction with
//! enough noise is applied.

use vstd::prelude::*;

use crate::exact::algebra::{
    assoc, comm, dist, dist_right, dist_sub, dist_sub_right, times_one, times_zero,
};
use crate::exact::covariance::sound;
use crate::exact::inverse::{
    cleared, lemma_column_step, lemma_pivot_is_largest, lemma_pivot_is_not_zero, lemma_start,
    on_course, upright,
};
use crate::exact::matrices::{
    agree, delta, dot, flipped, form, lemma_congruence_positive, lemma_dot_across, lemma_form_agree,
    lemma_form_of_sum, lemma_row_through, numbers, row_times, times, RealMat, RealVec,
};
use crate::exact::measurements::{
    lemma_dot_agree, lemma_dot_comm, lemma_dot_minus, lemma_innovation,
};
use crate::exact::residuals::{lemma_col_agree, lemma_col_through, times_col};
use crate::exact::small::{lemma_absolute, lemma_scaled_bound, lemma_times_quotient};
use crate::exact::sums::{
    lemma_add, lemma_not_negative, lemma_scale, lemma_single, lemma_terms, lemma_two, rsum,
};
use crate::exact::{absolute, exact, lemma_reciprocal, lemma_square};
use crate::filter::{gain, innovation, reported, FilterState, Reading, N};
use crate::linalg::gauss::{
    column_step, eliminated, has_pivot, inverse_grid, lemma_pivot_row_bounds, magnitudes, pivot_row,
    row_divided, rows_swapped, scale_divided, scale_raised, scales_raised, stands_out,
};
use crate::linalg::{identity_grid, shaped, Grid};
use crate::scalar::{lit, magnitude, prod, quot, same, Real};

verus! {

/// The matrix makes no column shorter than `rho` times what it was: its smallest singular value is
/// at least `rho`.
pub open spec fn stretches(a: RealMat, rho: real, n: nat) -> bool {
    forall|x: RealVec|
        (rho * rho) * dot(x, x, n) <= #[trigger] dot(times_col(a, x, n), times_col(a, x, n), n)
}

/// What an entry must reach to be told from zero, where no magnitude in its column exceeds `top`.
pub open spec fn least(top: real) -> real {
    if top / 1_000_000_000_000_000real < 1real / 1_000_000_000_000_000_000real {
        1real / 1_000_000_000_000_000_000real
    } else {
        top / 1_000_000_000_000_000real
    }
}

/// No magnitude in column `j` exceeds `top(j)`.
pub open spec fn topped(a: RealMat, top: RealVec, n: nat) -> bool {
    forall|i: int, j: int| 0 <= i < n && 0 <= j < n ==> absolute(#[trigger] a(i, j)) <= top(j)
}

/// The last entry that is not zero is entry `j`, and it is one.
pub open spec fn leads(x: RealVec, j: int, n: nat) -> bool {
    &&& x(j) == 1real
    &&& forall|k: int| j < k < n ==> #[trigger] x(k) == 0real
}

/// Column `j` is farther than the root of `far` from every combination of the columns before it.
pub open spec fn stands_apart(a: RealMat, j: int, far: real, n: nat) -> bool {
    forall|x: RealVec|
        leads(x, j, n) ==> far < #[trigger] dot(
            times_col(a, x, n),
            times_col(a, x, n),
            n,
        )
}

/// Every column is farther from those before it than what an entry of it must reach to be told from
/// zero, times the root of the dimension.
pub open spec fn columns_apart(a: RealMat, top: RealVec, n: nat) -> bool {
    forall|j: int|
        0 <= j < n ==> stands_apart(a, j, n as real * (least(#[trigger] top(j)) * least(top(j))), n)
}

/// From row `col` on the scales are no larger than the columns were at first.
spec fn within<T>(val: spec_fn(T) -> real, scale: Grid<T>, top: RealVec, col: int, n: nat) -> bool {
    forall|r: int, c: int|
        col <= r < n && 0 <= c < n ==> 0real <= val(#[trigger] scale[r][c]) <= top(c)
}

/// A column of the elimination does not raise the scales below it: a row is taken off with a factor
/// of at most one.
proof fn lemma_scales_stay<T: Real>(
    val: spec_fn(T) -> real,
    a: Grid<T>,
    e: Grid<T>,
    scale: Grid<T>,
    top: RealVec,
    col: int,
    n: nat,
)
    requires
        exact(val),
        shaped(a, n, n),
        shaped(scale, n, n),
        0 <= col < n,
        within(val, scale, top, col, n),
        column_step(a, e, scale, col, n) is Some,
    ensures
        ({
            let next = (column_step(a, e, scale, col, n)->0).2;
            &&& shaped(next, n, n)
            &&& within(val, next, top, col + 1, n)
        }),
{
    let p = pivot_row(a, col, n as int);
    lemma_pivot_row_bounds(a, col, n as int);
    lemma_pivot_is_not_zero(val, a, scale, col, n as int);
    let d = a[p][col];
    let a1 = rows_swapped(a, col, p);
    let s1 = rows_swapped(scale, col, p);
    let a2 = row_divided(a1, col, a1[col][col]);
    let s2 = scale_divided(s1, col, a1[col][col]);
    let next = (column_step(a, e, scale, col, n)->0).2;
    assert(next == scales_raised(s2, a2, col, n as int));
    assert(a1[col][col] == d);
    assert forall|r: int, c: int| col + 1 <= r < n && 0 <= c < n implies 0real <= val(
        #[trigger] next[r][c],
    ) <= top(c) by {
        let from = if r == p {
            col
        } else {
            r
        };
        assert(s1[r] == scale[from] && s2[r] == s1[r]);
        assert(a1[r] == a[from] && a2[r] == a1[r]);
        assert(0real <= val(scale[from][c]) <= top(c));
        if same(a2[r][col], lit::<T>(0, 1)) {
            assert(next[r] == s2[r]);
        } else {
            assert(next[r] == scale_raised(s2, r, a2[r][col], col)[r]);
            let f = a2[r][col];
            lemma_pivot_is_largest(val, a, col, n as int, from);
            let s = val(scale[p][c]);
            assert(0real <= s <= top(c));
            assert(s2[col][c] == magnitude(quot(scale[p][c], d)));
            let q = absolute(s / val(d));
            assert(val(s2[col][c]) == q);
            let (af, ad) = (absolute(val(f)), absolute(val(d)));
            assert(ad * q == s) by {
                lemma_times_quotient(val(d), s);
                lemma_absolute(val(d), s / val(d));
            }
            lemma_absolute(val(f), q);
            assert(q >= 0real);
            assert(absolute(q) == q);
            lemma_scaled_bound(q, af, ad);
            comm(q, af);
            comm(q, ad);
            assert(val(magnitude(prod(f, s2[col][c]))) <= s);
        }
    }
}

/// A number between `-c` and `c` has a square below that of `c`.
proof fn lemma_square_below(y: real, c: real)
    requires
        absolute(y) < c,
    ensures
        y * y <= c * c,
{
    let (p, q) = (c - y, c + y);
    assert(p * q >= 0real) by (nonlinear_arith)
        requires
            p >= 0real,
            q >= 0real,
    ;
    dist(c - y, c, y);
    dist_sub_right(c, y, c);
    dist_sub_right(c, y, y);
    comm(c, y);
}

/// A sum of `n` terms of at most `c` each.
proof fn lemma_sum_below(n: nat, f: RealVec, c: real)
    requires
        forall|i: int| 0 <= i < n ==> #[trigger] f(i) <= c,
    ensures
        rsum(n, f) <= n as real * c,
    decreases n,
{
    if n > 0 {
        lemma_sum_below((n - 1) as nat, f, c);
        let m = (n - 1) as real;
        assert(n as real == m + 1real);
        dist_right(m, 1real, c);
        times_one(c, 1real);
        comm(c, 1real);
    } else {
        times_zero(c, 0real);
        comm(c, 0real);
    }
}

/// A matrix with orthonormal columns from `col` on keeps the length of a column that starts there.
proof fn lemma_upright_keeps_length(f: RealMat, y: RealVec, col: int, n: nat)
    requires
        0 <= col,
        upright(f, col, n),
        forall|i: int| 0 <= i < n && i < col ==> #[trigger] y(i) == 0real,
    ensures
        dot(times_col(f, y, n), times_col(f, y, n), n) == dot(y, y, n),
{
    let v = times_col(f, y, n);
    let w = row_times(y, flipped(f), n);
    assert forall|r: int| 0 <= r < n implies #[trigger] w(r) == v(r) by {
        let g = |k: int| y(k) * flipped(f)(k, r);
        let h = |k: int| f(r, k) * y(k);
        assert forall|k: int| 0 <= k < n implies #[trigger] g(k) == h(k) by {
            comm(y(k), f(r, k));
        }
        lemma_terms(n, g, h);
    }
    lemma_dot_agree(w, v, v, v, n);
    lemma_dot_across(y, f, v, n, n);
    let vf = row_times(v, f, n);
    let wf = row_times(w, f, n);
    let a = |k: int| y(k) * vf(k);
    let b = |k: int| y(k) * y(k);
    assert forall|k: int| 0 <= k < n implies #[trigger] a(k) == b(k) by {
        if k < col {
            assert(y(k) == 0real);
            times_zero(vf(k), y(k));
            comm(vf(k), y(k));
            times_zero(y(k), y(k));
        } else {
            lemma_terms(n, |r: int| v(r) * f(r, k), |r: int| w(r) * f(r, k));
            lemma_row_through(y, flipped(f), f, n, n, k);
            let ftf = times(flipped(f), f, n);
            let t = |l: int| y(l) * ftf(l, k);
            assert forall|l: int| 0 <= l < n && l != k implies #[trigger] t(l) == 0real by {
                if l < col {
                    assert(y(l) == 0real);
                    times_zero(ftf(l, k), y(l));
                    comm(ftf(l, k), y(l));
                } else {
                    assert(ftf(l, k) == delta()(l, k));
                    times_zero(y(l), ftf(l, k));
                }
            }
            lemma_single(n, k, t);
            assert(ftf(k, k) == delta()(k, k));
            times_one(y(k), ftf(k, k));
        }
    }
    lemma_terms(n, a, b);
}

/// An entry that cannot be told from zero is small.
proof fn lemma_below_least<T: Real>(val: spec_fn(T) -> real, x: T, scale: T, top: real)
    requires
        exact(val),
        val(scale) <= top,
        !stands_out(x, scale),
    ensures
        absolute(val(x)) < least(top),
{
    let (tiny, part) = (lit::<T>(1, 1_000_000_000_000_000_000), lit::<T>(1, 1_000_000_000_000_000));
    assert(val(tiny) == 1real / 1_000_000_000_000_000_000real);
    assert(val(part) == 1real / 1_000_000_000_000_000real);
    assert(val(magnitude(x)) == absolute(val(x)));
    lemma_reciprocal(val(scale), 1_000_000_000_000_000real);
}

/// The elimination finds a pivot in column `col`.
proof fn lemma_pivot_clears<T: Real>(
    val: spec_fn(T) -> real,
    first: RealMat,
    a: Grid<T>,
    e: Grid<T>,
    scale: Grid<T>,
    f: RealMat,
    col: int,
    n: nat,
    top: RealVec,
)
    requires
        exact(val),
        0 <= col < n,
        on_course(first, numbers(val, a), numbers(val, e), f, n),
        cleared(numbers(val, a), col, n),
        upright(f, col, n),
        columns_apart(first, top, n),
        within(val, scale, top, col as int, n),
    ensures
        column_step(a, e, scale, col, n) is Some,
{
    let p = pivot_row(a, col, n as int);
    lemma_pivot_row_bounds(a, col, n as int);
    let c = least(top(col));
    if !has_pivot(a, scale, col, n as int) {
        let m = numbers(val, a);
        // A column that the first matrix sends to the rest of the column of the pivot.
        let x = |j: int|
            if j < col {
                -m(j, col)
            } else if j == col {
                1real
            } else {
                0real
            };
        let y = |i: int|
            if i < col {
                0real
            } else {
                m(i, col)
            };
        let mx = times_col(m, x, n);
        assert forall|i: int| 0 <= i < n implies #[trigger] mx(i) == y(i) by {
            let g = |j: int| m(i, j) * x(j);
            assert forall|j: int| 0 <= j < n && j != col && j != i implies #[trigger] g(j) == 0real by {
                if j < col {
                    assert(m(i, j) == delta()(i, j));
                    times_zero(x(j), m(i, j));
                    comm(x(j), m(i, j));
                } else {
                    times_zero(m(i, j), x(j));
                }
            }
            times_one(m(i, col), x(col));
            if i < col {
                lemma_two(n, i, col, g);
                assert(m(i, i) == delta()(i, i));
                times_one(x(i), m(i, i));
                comm(x(i), m(i, i));
            } else {
                if i > col {
                    times_zero(m(i, i), x(i));
                }
                lemma_single(n, col, g);
            }
        }
        let ax = times_col(first, x, n);
        let fy = times_col(f, y, n);
        assert forall|i: int| 0 <= i < n implies #[trigger] ax(i) == fy(i) by {
            lemma_col_agree(first, times(f, m, n), x, x, n, n, i);
            lemma_col_through(f, m, x, n, n, i);
            lemma_col_agree(f, f, mx, y, n, n, i);
        }
        lemma_dot_agree(ax, fy, ax, fy, n);
        lemma_upright_keeps_length(f, y, col, n);
        let yy = |i: int| y(i) * y(i);
        assert forall|i: int| 0 <= i < n implies #[trigger] yy(i) <= c * c by {
            if i >= col {
                lemma_below_least(val, a[i][col], scale[i][col], top(col));
            }
            lemma_square_below(y(i), c);
        }
        lemma_sum_below(n, yy, c * c);
        assert(leads(x, col, n));
        assert(stands_apart(first, col, n as real * (c * c), n));
    }
}

/// The elimination comes to its end.
proof fn lemma_all_pivots_clear<T: Real>(
    val: spec_fn(T) -> real,
    first: RealMat,
    a: Grid<T>,
    e: Grid<T>,
    scale: Grid<T>,
    f: RealMat,
    col: nat,
    n: nat,
    top: RealVec,
)
    requires
        exact(val),
        shaped(a, n, n),
        shaped(e, n, n),
        shaped(scale, n, n),
        col <= n,
        on_course(first, numbers(val, a), numbers(val, e), f, n),
        cleared(numbers(val, a), col as int, n),
        upright(f, col as int, n),
        columns_apart(first, top, n),
        within(val, scale, top, col as int, n),
    ensures
        eliminated(a, e, scale, col, n) is Some,
    decreases n - col,
{
    if col < n {
        lemma_pivot_clears(val, first, a, e, scale, f, col as int, n, top);
        lemma_scales_stay(val, a, e, scale, top, col as int, n);
        let g = lemma_column_step(val, first, a, e, scale, f, col as int, n);
        let next = column_step(a, e, scale, col as int, n)->0;
        lemma_all_pivots_clear(val, first, next.0, next.1, next.2, g, col + 1, n, top);
    }
}

/// A matrix whose columns stand apart has an inverse, however they are scaled against each other:
/// every column is farther from those before it than an entry of it must be from zero, times the root
/// of the dimension.
pub proof fn columns_apart_have_an_inverse<T: Real>(
    val: spec_fn(T) -> real,
    a: Grid<T>,
    n: nat,
    top: RealVec,
)
    requires
        exact(val),
        shaped(a, n, n),
        topped(numbers(val, a), top, n),
        columns_apart(numbers(val, a), top, n),
    ensures
        inverse_grid(a, n) is Some,
{
    reveal(inverse_grid);
    lemma_start(val, a, n);
    let scale = magnitudes(a);
    assert forall|r: int, c: int| 0 <= r < n && 0 <= c < n implies 0real <= val(
        #[trigger] scale[r][c],
    ) <= top(c) by {
        assert(absolute(numbers(val, a)(r, c)) <= top(c));
        assert(scale[r][c] == magnitude(a[r][c]));
    }
    lemma_all_pivots_clear(
        val,
        numbers(val, a),
        a,
        identity_grid::<T>(n),
        scale,
        delta(),
        0,
        n,
        top,
    );
}

/// A well-conditioned matrix has an inverse: one whose smallest singular value exceeds what an entry
/// must reach to be told from zero by more than the root of its dimension.
pub proof fn well_conditioned_has_an_inverse<T: Real>(
    val: spec_fn(T) -> real,
    a: Grid<T>,
    n: nat,
    top: RealVec,
    rho: real,
)
    requires
        exact(val),
        shaped(a, n, n),
        topped(numbers(val, a), top, n),
        stretches(numbers(val, a), rho, n),
        forall|j: int|
            0 <= j < n ==> rho * rho > n as real * (least(#[trigger] top(j)) * least(top(j))),
    ensures
        inverse_grid(a, n) is Some,
{
    let m = numbers(val, a);
    assert forall|j: int| 0 <= j < n implies stands_apart(
        m,
        j,
        n as real * (least(#[trigger] top(j)) * least(top(j))),
        n,
    ) by {
        let far = n as real * (least(top(j)) * least(top(j)));
        assert forall|x: RealVec|
            leads(x, j, n) implies far
            < #[trigger] dot(times_col(m, x, n), times_col(m, x, n), n) by {
            lemma_at_least_one(x, j, n);
            let (r2, len) = (rho * rho, dot(x, x, n));
            lemma_square(rho);
            assert(r2 * len >= r2) by (nonlinear_arith)
                requires
                    r2 >= 0real,
                    len >= 1real,
            ;
        }
    }
    columns_apart_have_an_inverse(val, a, n, top);
}

/// A column with an entry one is at least one long.
proof fn lemma_at_least_one(x: RealVec, j: int, n: nat)
    requires
        0 <= j < n,
        x(j) == 1real,
    ensures
        dot(x, x, n) >= 1real,
{
    let xx = |k: int| x(k) * x(k);
    let only = |k: int|
        if k == j {
            1real
        } else {
            0real
        };
    let rest = |k: int| xx(k) - only(k);
    assert forall|k: int| 0 <= k < n implies #[trigger] rest(k) >= 0real by {
        lemma_square(x(k));
        times_one(1real, 1real);
    }
    lemma_not_negative(n, rest);
    lemma_single(n, j, only);
    lemma_add(n, only, rest);
    let both = |k: int| only(k) + rest(k);
    lemma_terms(n, xx, both);
}

/// A form that is at least `rho` times the squared length makes the matrix stretch by `rho`.
proof fn lemma_form_stretches(s: RealMat, rho: real, n: nat)
    requires
        rho >= 0real,
        forall|x: RealVec| rho * dot(x, x, n) <= #[trigger] form(s, x, n),
    ensures
        stretches(s, rho, n),
{
    assert forall|x: RealVec|
        (rho * rho) * dot(x, x, n) <= #[trigger] dot(times_col(s, x, n), times_col(s, x, n), n) by {
        let y = times_col(s, x, n);
        let k = |i: int| rho * x(i);
        let d = |i: int| y(i) - k(i);
        // y·x is the form.
        let w = row_times(x, flipped(s), n);
        assert forall|r: int| 0 <= r < n implies #[trigger] w(r) == y(r) by {
            let g = |j: int| x(j) * flipped(s)(j, r);
            let h = |j: int| s(r, j) * x(j);
            assert forall|j: int| 0 <= j < n implies #[trigger] g(j) == h(j) by {
                comm(x(j), s(r, j));
            }
            lemma_terms(n, g, h);
        }
        lemma_dot_agree(w, y, x, x, n);
        lemma_dot_across(x, s, x, n, n);
        lemma_dot_comm(x, row_times(x, s, n), n);
        let (xx, yx, yy) = (dot(x, x, n), dot(y, x, n), dot(y, y, n));
        assert(yx == form(s, x, n));
        // |y − rho x|² = y·y − 2 rho y·x + rho² x·x.
        lemma_dot_minus(y, k, d, n);
        lemma_dot_comm(y, d, n);
        lemma_dot_minus(y, k, y, n);
        lemma_dot_comm(k, d, n);
        lemma_dot_minus(y, k, k, n);
        lemma_scaled_dot(x, y, rho, n);
        lemma_scaled_dot(x, k, rho, n);
        lemma_scaled_dot(x, x, rho, n);
        lemma_dot_comm(k, y, n);
        lemma_dot_comm(k, x, n);
        lemma_dot_comm(y, x, n);
        let dd = |i: int| d(i) * d(i);
        assert forall|i: int| 0 <= i < n implies #[trigger] dd(i) >= 0real by {
            lemma_square(d(i));
        }
        lemma_not_negative(n, dd);
        assert(dot(d, d, n) >= 0real);
        assoc(rho, rho, xx);
        assert(yy >= 2real * (rho * yx) - rho * (rho * xx));
        let gap = yx - rho * xx;
        assert(rho * gap >= 0real) by (nonlinear_arith)
            requires
                rho >= 0real,
                gap >= 0real,
        ;
        dist_sub(rho, yx, rho * xx);
    }
}

/// A factor taken out of a dot product.
proof fn lemma_scaled_dot(x: RealVec, y: RealVec, c: real, n: nat)
    ensures
        dot(|i: int| c * x(i), y, n) == c * dot(x, y, n),
{
    let f = |i: int| x(i) * y(i);
    lemma_scale(n, c, f);
    let k = |i: int| c * x(i);
    let g = |i: int| k(i) * y(i);
    let h = |i: int| c * f(i);
    assert forall|i: int| 0 <= i < n implies #[trigger] g(i) == h(i) by {
        assoc(c, x(i), y(i));
    }
    lemma_terms(n, g, h);
}

/// The form of `rho` times the identity.
pub proof fn lemma_form_of_identity(r: RealMat, rho: real, x: RealVec, n: nat)
    requires
        agree(r, |i: int, j: int| rho * delta()(i, j), n, n),
    ensures
        form(r, x, n) == rho * dot(x, x, n),
{
    let scaled = |i: int| rho * x(i);
    let xr = row_times(x, r, n);
    assert forall|j: int| 0 <= j < n implies #[trigger] xr(j) == scaled(j) by {
        let g = |i: int| x(i) * r(i, j);
        assert forall|i: int| 0 <= i < n && i != j implies #[trigger] g(i) == 0real by {
            assert(r(i, j) == rho * delta()(i, j));
            times_zero(rho, 0real);
            times_zero(x(i), r(i, j));
        }
        lemma_single(n, j, g);
        assert(r(j, j) == rho * delta()(j, j));
        times_one(rho, 1real);
        comm(x(j), rho);
    }
    lemma_dot_agree(xr, scaled, x, x, n);
    lemma_scaled_dot(x, x, rho, n);
}

/// A correction with enough noise is applied: where the components of a measurement have independent
/// noise of one variance `rho`, and that variance exceeds what an entry of the innovation covariance
/// must reach to be told from zero, the gain is found and the correction counts as accepted.
pub proof fn noisy_correction_is_applied<T: Real>(
    val: spec_fn(T) -> real,
    s: FilterState<T>,
    x: Reading<T>,
    top: RealVec,
    rho: real,
)
    requires
        exact(val),
        sound(val, s),
        rho >= 0real,
        agree(numbers(val, x.r), |i: int, j: int| rho * delta()(i, j), x.m, x.m),
        topped(numbers(val, innovation(s.p, x.h, x.r, x.m)), top, x.m),
        forall|j: int|
            0 <= j < x.m ==> rho * rho > x.m as real * (least(#[trigger] top(j)) * least(top(j))),
    ensures
        gain(s.p, x.h, x.r, x.m) is Some,
        reported(s, x).accepted,
{
    let m = x.m;
    let n = N as nat;
    let inn = innovation(s.p, x.h, x.r, m);
    let (rp, rh, rr) = (numbers(val, s.p), numbers(val, x.h), numbers(val, x.r));
    let hph = times(times(rh, rp, n), flipped(rh), n);
    let both = |a: int, b: int| hph(a, b) + rr(a, b);
    let si = numbers(val, inn);
    lemma_innovation(val, s.p, x.h, x.r, m);
    lemma_congruence_positive(rh, rp, m, n);
    assert forall|y: RealVec| rho * dot(y, y, m) <= #[trigger] form(si, y, m) by {
        lemma_form_agree(si, both, y, m);
        lemma_form_of_sum(hph, rr, y, m);
        lemma_form_of_identity(rr, rho, y, m);
        assert(form(hph, y, m) >= 0real);
    }
    lemma_form_stretches(si, rho, m);
    well_conditioned_has_an_inverse(val, inn, m, top, rho);
}

} // verus!
