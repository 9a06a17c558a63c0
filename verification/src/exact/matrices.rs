//! Matrices of real numbers, and the laws of the matrix operations.

use vstd::prelude::*;

use crate::exact::exact;
use crate::exact::sums::{
    lemma_add, lemma_not_negative, lemma_scale, lemma_scale_right, lemma_single, lemma_swap,
    lemma_terms, rsum,
};
use crate::linalg::{column, product, row_by_col, shaped, skew_grid, transposed, v3, Grid, V3};
use crate::scalar::{lit, Real};

verus! {

/// A matrix of real numbers.
pub type RealMat = spec_fn(int, int) -> real;

/// A vector of real numbers.
pub type RealVec = spec_fn(int) -> real;

/// The numbers in a grid.
pub open spec fn numbers<T>(val: spec_fn(T) -> real, g: Grid<T>) -> RealMat {
    |i: int, j: int| val(g[i][j])
}

/// `a` and `b` agree on their first `r` rows and `c` columns.
pub open spec fn agree(a: RealMat, b: RealMat, r: nat, c: nat) -> bool {
    forall|i: int, j: int| 0 <= i < r && 0 <= j < c ==> #[trigger] a(i, j) == b(i, j)
}

/// The matrix product over `n` terms.
pub open spec fn times(a: RealMat, b: RealMat, n: nat) -> RealMat {
    |i: int, j: int| rsum(n, |k: int| a(i, k) * b(k, j))
}

/// The transpose.
pub open spec fn flipped(a: RealMat) -> RealMat {
    |i: int, j: int| a(j, i)
}

/// The identity.
pub open spec fn delta() -> RealMat {
    |i: int, j: int|
        if i == j {
            1real
        } else {
            0real
        }
}

/// The row `x` times the matrix `a`, over `n` terms.
pub open spec fn row_times(x: RealVec, a: RealMat, n: nat) -> RealVec {
    |j: int| rsum(n, |i: int| x(i) * a(i, j))
}

/// The inner product over `n` terms.
pub open spec fn dot(x: RealVec, y: RealVec, n: nat) -> real {
    rsum(n, |i: int| x(i) * y(i))
}

/// The quadratic form `xᵀ m x` of dimension `n`.
pub open spec fn form(m: RealMat, x: RealVec, n: nat) -> real {
    dot(row_times(x, m, n), x, n)
}

/// `xᵀ m x` is never negative.
pub open spec fn positive(m: RealMat, n: nat) -> bool {
    forall|x: RealVec| #[trigger] form(m, x, n) >= 0real
}

/// In exact arithmetic an entry of a product is the sum of the products along its row and column.
pub proof fn lemma_row_by_col<T: Real>(
    val: spec_fn(T) -> real,
    a: Grid<T>,
    b: Grid<T>,
    i: int,
    k: int,
    n: nat,
)
    requires
        exact(val),
    ensures
        val(row_by_col(a, b, i, k, n)) == rsum(n, |t: int| val(a[i][t]) * val(b[t][k])),
    decreases n,
{
    if n > 0 {
        lemma_row_by_col(val, a, b, i, k, (n - 1) as nat);
    } else {
        assert(val(lit::<T>(0, 1)) == 0real);
    }
}

/// The product of grids is the matrix product of their numbers.
pub proof fn product_is_exact<T: Real>(
    val: spec_fn(T) -> real,
    a: Grid<T>,
    b: Grid<T>,
    r: nat,
    n: nat,
    k: nat,
)
    requires
        exact(val),
    ensures
        agree(numbers(val, product(a, b, r, n, k)), times(numbers(val, a), numbers(val, b), n), r, k),
{
    assert forall|i: int, j: int| 0 <= i < r && 0 <= j < k implies #[trigger] numbers(
        val,
        product(a, b, r, n, k),
    )(i, j) == times(numbers(val, a), numbers(val, b), n)(i, j) by {
        lemma_row_by_col(val, a, b, i, j, n);
        lemma_terms(
            n,
            |t: int| val(a[i][t]) * val(b[t][j]),
            |t: int| numbers(val, a)(i, t) * numbers(val, b)(t, j),
        );
    }
}

/// Products of matrices that agree, agree.
pub proof fn lemma_times_agree(
    a: RealMat,
    a2: RealMat,
    b: RealMat,
    b2: RealMat,
    r: nat,
    n: nat,
    c: nat,
)
    requires
        agree(a, a2, r, n),
        agree(b, b2, n, c),
    ensures
        agree(times(a, b, n), times(a2, b2, n), r, c),
{
    assert forall|i: int, j: int| 0 <= i < r && 0 <= j < c implies #[trigger] times(a, b, n)(i, j)
        == times(a2, b2, n)(i, j) by {
        lemma_terms(n, |k: int| a(i, k) * b(k, j), |k: int| a2(i, k) * b2(k, j));
    }
}

/// Transposing twice gives the matrix back.
pub proof fn transposing_twice<T>(m: Grid<T>, r: nat, c: nat)
    requires
        shaped(m, r, c),
    ensures
        transposed(transposed(m, r, c), c, r) == m,
{
    assert(transposed(transposed(m, r, c), c, r) =~~= m);
}

/// The transpose of a product is the product of the transposes the other way round.
pub proof fn transposed_product<T: Real>(
    val: spec_fn(T) -> real,
    a: Grid<T>,
    b: Grid<T>,
    r: nat,
    n: nat,
    k: nat,
)
    requires
        exact(val),
    ensures
        agree(
            numbers(val, transposed(product(a, b, r, n, k), r, k)),
            numbers(val, product(transposed(b, n, k), transposed(a, r, n), k, n, r)),
            k,
            r,
        ),
{
    let bt = transposed(b, n, k);
    let at = transposed(a, r, n);
    assert forall|i: int, j: int| 0 <= i < k && 0 <= j < r implies #[trigger] numbers(
        val,
        transposed(product(a, b, r, n, k), r, k),
    )(i, j) == numbers(val, product(bt, at, k, n, r))(i, j) by {
        lemma_row_by_col(val, a, b, j, i, n);
        lemma_row_by_col(val, bt, at, i, j, n);
        let f = |t: int| val(a[j][t]) * val(b[t][i]);
        let g = |t: int| val(bt[i][t]) * val(at[t][j]);
        assert forall|t: int| 0 <= t < n implies #[trigger] f(t) == g(t) by {
            let x = val(a[j][t]);
            let y = val(b[t][i]);
            assert(x * y == y * x) by (nonlinear_arith);
        }
        lemma_terms(n, f, g);
    }
}

/// `[v]× w = v × w`: the skew matrix times a column is the cross product.
pub proof fn skew_is_cross<T: Real>(val: spec_fn(T) -> real, v: V3<T>, w: V3<T>, i: int)
    requires
        exact(val),
        0 <= i < 3,
    ensures
        val(product(skew_grid(v), column(w), 3, 3, 1)[i][0]) == val(v3::crossed(v, w)[i]),
{
    let s = skew_grid(v);
    let c = column(w);
    assert(val(lit::<T>(0, 1)) == 0real);
    reveal_with_fuel(row_by_col, 4);
    let (v0, v1, v2) = (val(v[0]), val(v[1]), val(v[2]));
    let (w0, w1, w2) = (val(w[0]), val(w[1]), val(w[2]));
    assert(0real + 0real * w0 + (-v2) * w1 + v1 * w2 == v1 * w2 - v2 * w1) by (nonlinear_arith);
    assert(0real + v2 * w0 + 0real * w1 + (-v0) * w2 == v2 * w0 - v0 * w2) by (nonlinear_arith);
    assert(0real + (-v1) * w0 + v0 * w1 + 0real * w2 == v0 * w1 - v1 * w0) by (nonlinear_arith);
}

/// `(x a) b = x (a b)`.
pub proof fn lemma_row_through(x: RealVec, a: RealMat, b: RealMat, r: nat, n: nat, j: int)
    ensures
        row_times(x, times(a, b, n), r)(j) == row_times(row_times(x, a, r), b, n)(j),
{
    let f = |i: int, k: int| (x(i) * a(i, k)) * b(k, j);
    let inner = |i: int| rsum(n, |k: int| f(i, k));
    let left = |i: int| x(i) * times(a, b, n)(i, j);
    assert forall|i: int| 0 <= i < r implies #[trigger] left(i) == inner(i) by {
        let g = |k: int| a(i, k) * b(k, j);
        let xg = |k: int| x(i) * g(k);
        let fi = |k: int| f(i, k);
        lemma_scale(n, x(i), g);
        assert forall|k: int| 0 <= k < n implies #[trigger] xg(k) == fi(k) by {
            let (p, q, s) = (x(i), a(i, k), b(k, j));
            assert(p * (q * s) == (p * q) * s) by (nonlinear_arith);
        }
        lemma_terms(n, xg, fi);
    }
    lemma_terms(r, left, inner);
    lemma_swap(r, n, f);
    let xa = row_times(x, a, r);
    let outer = |k: int| rsum(r, |i: int| f(i, k));
    let right = |k: int| xa(k) * b(k, j);
    assert forall|k: int| 0 <= k < n implies #[trigger] outer(k) == right(k) by {
        let h = |i: int| x(i) * a(i, k);
        lemma_scale_right(r, h, b(k, j));
        lemma_terms(r, |i: int| f(i, k), |i: int| h(i) * b(k, j));
    }
    lemma_terms(n, outer, right);
}

/// `(x aᵀ) · y = x · (y a)`.
pub proof fn lemma_dot_across(x: RealVec, a: RealMat, y: RealVec, n: nat, r: nat)
    ensures
        dot(row_times(x, flipped(a), n), y, r) == dot(x, row_times(y, a, r), n),
{
    let f = |j: int, i: int| (x(i) * a(j, i)) * y(j);
    let left = |j: int| row_times(x, flipped(a), n)(j) * y(j);
    let inner = |j: int| rsum(n, |i: int| f(j, i));
    assert forall|j: int| 0 <= j < r implies #[trigger] left(j) == inner(j) by {
        let h = |i: int| x(i) * a(j, i);
        lemma_scale_right(n, h, y(j));
        lemma_terms(n, |i: int| h(i) * y(j), |i: int| f(j, i));
        lemma_terms(n, h, |i: int| x(i) * flipped(a)(i, j));
    }
    lemma_terms(r, left, inner);
    lemma_swap(r, n, f);
    let right = |i: int| x(i) * row_times(y, a, r)(i);
    let outer = |i: int| rsum(r, |j: int| f(j, i));
    assert forall|i: int| 0 <= i < n implies #[trigger] outer(i) == right(i) by {
        let h = |j: int| y(j) * a(j, i);
        let xh = |j: int| x(i) * h(j);
        let fi = |j: int| f(j, i);
        lemma_scale(r, x(i), h);
        assert forall|j: int| 0 <= j < r implies #[trigger] xh(j) == fi(j) by {
            let (p, q, s) = (x(i), a(j, i), y(j));
            assert(p * (s * q) == (p * q) * s) by (nonlinear_arith);
        }
        lemma_terms(r, xh, fi);
    }
    lemma_terms(n, outer, right);
}

/// `xᵀ (a m aᵀ) x = (aᵀx)ᵀ m (aᵀx)`.
pub proof fn lemma_form_of_congruence(a: RealMat, m: RealMat, x: RealVec, r: nat, n: nat)
    ensures
        form(times(times(a, m, n), flipped(a), n), x, r) == form(m, row_times(x, a, r), n),
{
    let b = times(a, m, n);
    let y = row_times(x, a, r);
    let xb = row_times(x, b, r);
    let ym = row_times(y, m, n);
    let whole = row_times(x, times(b, flipped(a), n), r);
    let parts = row_times(xb, flipped(a), n);
    let f = |j: int| whole(j) * x(j);
    let g = |j: int| parts(j) * x(j);
    assert forall|j: int| 0 <= j < r implies #[trigger] f(j) == g(j) by {
        lemma_row_through(x, b, flipped(a), r, n, j);
    }
    lemma_terms(r, f, g);
    lemma_dot_across(xb, a, x, n, r);
    let f2 = |j: int| xb(j) * y(j);
    let g2 = |j: int| ym(j) * y(j);
    assert forall|j: int| 0 <= j < n implies #[trigger] f2(j) == g2(j) by {
        lemma_row_through(x, a, m, r, n, j);
    }
    lemma_terms(n, f2, g2);
}

/// Matrices that agree have the same quadratic form.
pub proof fn lemma_form_agree(a: RealMat, b: RealMat, x: RealVec, n: nat)
    requires
        agree(a, b, n, n),
    ensures
        form(a, x, n) == form(b, x, n),
{
    let f = |j: int| row_times(x, a, n)(j) * x(j);
    let g = |j: int| row_times(x, b, n)(j) * x(j);
    assert forall|j: int| 0 <= j < n implies #[trigger] f(j) == g(j) by {
        lemma_terms(n, |i: int| x(i) * a(i, j), |i: int| x(i) * b(i, j));
    }
    lemma_terms(n, f, g);
}

/// A congruence of a positive matrix is positive.
pub proof fn lemma_congruence_positive(a: RealMat, m: RealMat, r: nat, n: nat)
    requires
        positive(m, n),
    ensures
        positive(times(times(a, m, n), flipped(a), n), r),
{
    let c = times(times(a, m, n), flipped(a), n);
    assert forall|x: RealVec| #[trigger] form(c, x, r) >= 0real by {
        lemma_form_of_congruence(a, m, x, r, n);
        assert(form(m, row_times(x, a, r), n) >= 0real);
    }
}

/// The form of a sum is the sum of the forms.
pub proof fn lemma_form_of_sum(a: RealMat, b: RealMat, x: RealVec, n: nat)
    ensures
        form(|i: int, j: int| a(i, j) + b(i, j), x, n) == form(a, x, n) + form(b, x, n),
{
    let c = |i: int, j: int| a(i, j) + b(i, j);
    let fa = |j: int| row_times(x, a, n)(j) * x(j);
    let fb = |j: int| row_times(x, b, n)(j) * x(j);
    let fc = |j: int| row_times(x, c, n)(j) * x(j);
    let both = |j: int| fa(j) + fb(j);
    assert forall|j: int| 0 <= j < n implies #[trigger] fc(j) == both(j) by {
        let ga = |i: int| x(i) * a(i, j);
        let gb = |i: int| x(i) * b(i, j);
        lemma_add(n, ga, gb);
        let gc = |i: int| x(i) * c(i, j);
        let gab = |i: int| ga(i) + gb(i);
        assert forall|i: int| 0 <= i < n implies #[trigger] gc(i) == gab(i) by {
            let (p, q, s) = (x(i), a(i, j), b(i, j));
            assert(p * (q + s) == p * q + p * s) by (nonlinear_arith);
        }
        lemma_terms(n, gc, gab);
        let (p, q, s) = (rsum(n, ga), rsum(n, gb), x(j));
        assert((p + q) * s == p * s + q * s) by (nonlinear_arith);
    }
    lemma_add(n, fa, fb);
    lemma_terms(n, fc, both);
}

/// The form of a multiple is the multiple of the form.
pub proof fn lemma_form_of_multiple(c: real, a: RealMat, x: RealVec, n: nat)
    ensures
        form(|i: int, j: int| c * a(i, j), x, n) == c * form(a, x, n),
{
    let ca = |i: int, j: int| c * a(i, j);
    let f = |j: int| row_times(x, a, n)(j) * x(j);
    let g = |j: int| row_times(x, ca, n)(j) * x(j);
    let cf = |j: int| c * f(j);
    assert forall|j: int| 0 <= j < n implies #[trigger] g(j) == cf(j) by {
        let h = |i: int| x(i) * a(i, j);
        let ch = |i: int| c * h(i);
        let k = |i: int| x(i) * ca(i, j);
        assert forall|i: int| 0 <= i < n implies #[trigger] k(i) == ch(i) by {
            let (p, q) = (x(i), a(i, j));
            assert(p * (c * q) == c * (p * q)) by (nonlinear_arith);
        }
        lemma_terms(n, k, ch);
        lemma_scale(n, c, h);
        let (p, q) = (rsum(n, h), x(j));
        assert((c * p) * q == c * (p * q)) by (nonlinear_arith);
    }
    lemma_terms(n, g, cf);
    lemma_scale(n, c, f);
}

/// The form of the transpose is the form.
pub proof fn lemma_form_of_flipped(a: RealMat, x: RealVec, n: nat)
    ensures
        form(flipped(a), x, n) == form(a, x, n),
{
    lemma_dot_across(x, a, x, n, n);
    let f = |j: int| row_times(x, a, n)(j) * x(j);
    let g = |j: int| x(j) * row_times(x, a, n)(j);
    assert forall|j: int| 0 <= j < n implies #[trigger] f(j) == g(j) by {
        let (p, q) = (row_times(x, a, n)(j), x(j));
        assert(p * q == q * p) by (nonlinear_arith);
    }
    lemma_terms(n, f, g);
}

/// A diagonal matrix whose entries are not negative is positive.
pub proof fn lemma_diagonal_positive(d: RealMat, n: nat)
    requires
        forall|i: int, j: int| 0 <= i < n && 0 <= j < n && i != j ==> #[trigger] d(i, j) == 0real,
        forall|i: int| 0 <= i < n ==> #[trigger] d(i, i) >= 0real,
    ensures
        positive(d, n),
{
    assert forall|x: RealVec| #[trigger] form(d, x, n) >= 0real by {
        let f = |j: int| row_times(x, d, n)(j) * x(j);
        assert forall|j: int| 0 <= j < n implies #[trigger] f(j) >= 0real by {
            let g = |i: int| x(i) * d(i, j);
            assert forall|i: int| 0 <= i < n && i != j implies #[trigger] g(i) == 0real by {
                let p = x(i);
                assert(d(i, j) == 0real);
                assert(p * 0real == 0real) by (nonlinear_arith);
            }
            lemma_single(n, j, g);
            lemma_terms(n, g, |i: int| x(i) * d(i, j));
            let (p, q) = (x(j), d(j, j));
            assert((p * q) * p == q * (p * p)) by (nonlinear_arith);
            assert(p * p >= 0real) by (nonlinear_arith);
            let s = p * p;
            assert(q * s >= 0real) by (nonlinear_arith)
                requires
                    q >= 0real,
                    s >= 0real,
            ;
        }
        lemma_not_negative(n, f);
        lemma_terms(n, f, |i: int| row_times(x, d, n)(i) * x(i));
    }
}

/// The transpose of `[v]×` is its negative.
pub proof fn skew_is_antisymmetric<T: Real>(val: spec_fn(T) -> real, v: V3<T>)
    requires
        exact(val),
    ensures
        agree(
            numbers(val, transposed(skew_grid(v), 3, 3)),
            |i: int, j: int| -numbers(val, skew_grid(v))(i, j),
            3,
            3,
        ),
{
    assert(val(lit::<T>(0, 1)) == 0real);
    let t = numbers(val, transposed(skew_grid(v), 3, 3));
    let m = numbers(val, skew_grid(v));
    assert(t(0, 0) == -m(0, 0) && t(0, 1) == -m(0, 1) && t(0, 2) == -m(0, 2));
    assert(t(1, 0) == -m(1, 0) && t(1, 1) == -m(1, 1) && t(1, 2) == -m(1, 2));
    assert(t(2, 0) == -m(2, 0) && t(2, 1) == -m(2, 1) && t(2, 2) == -m(2, 2));
}

} // verus!
