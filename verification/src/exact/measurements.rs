//! What a measurement does: it never makes the filter less certain of what it measures, and one that
//! agrees with the prediction leaves the estimate where it is.

use vstd::prelude::*;

use crate::exact::algebra::{comm, dist_sub_right, times_one, times_zero};
use crate::exact::conditioning::lemma_form_of_identity;
use crate::exact::conversions::{lemma_exp_of_zero, lemma_zero_square, normalizing_keeps_unit};
use crate::exact::covariance::{
    lemma_noise3_positive, lemma_sandwich_agrees, lemma_single_positive, sound,
};
use crate::exact::inverse::inverse_inverts;
use crate::exact::matrices::{
    agree, delta, dot, flipped, form, lemma_congruence_positive, lemma_dot_across, lemma_form_agree,
    lemma_form_of_congruence, lemma_form_of_sum, lemma_row_by_col, lemma_row_through,
    lemma_times_agree, numbers, positive, product_is_exact, row_times, times, RealMat, RealVec,
};
use crate::exact::quaternions::{four, is_unit, triple};
use crate::exact::sums::{
    lemma_add, lemma_not_negative, lemma_scale, lemma_single, lemma_terms, lemma_zero, rsum,
};
use crate::exact::{exact, lemma_constants, lemma_square};
use crate::filter::{
    baro_corrected, block_jacobian, congruence, corrected, error_block, gain, gps_corrected,
    gps_velocity_corrected, innovation, joseph, noise3, pick, range_corrected, range_model,
    reset_jacobian, single, symmetric, FilterState, IP, ITH, IV, N,
};
use crate::linalg::gauss::inverse_grid;
use crate::linalg::{column, grid_diff, grid_sum, identity_grid, product, transposed, v3, Grid, V3};
use crate::quat::{exp_map, hamilton};
use crate::scalar::{diff, lit, prod, Real};

verus! {

/// `x m y`.
pub open spec fn between(x: RealVec, m: RealMat, y: RealVec, n: nat) -> real {
    dot(row_times(x, m, n), y, n)
}

/// `(x − u)` in the first place of a dot product.
pub proof fn lemma_dot_minus(x: RealVec, u: RealVec, y: RealVec, n: nat)
    ensures
        dot(|i: int| x(i) - u(i), y, n) == dot(x, y, n) - dot(u, y, n),
{
    let xy = |i: int| x(i) * y(i);
    let uy = |i: int| u(i) * y(i);
    let less = |i: int| (-1real) * uy(i);
    let both = |i: int| xy(i) + less(i);
    let d = |i: int| x(i) - u(i);
    let t = |i: int| d(i) * y(i);
    assert forall|i: int| 0 <= i < n implies #[trigger] t(i) == both(i) by {
        dist_sub_right(x(i), u(i), y(i));
    }
    lemma_terms(n, t, both);
    lemma_add(n, xy, less);
    lemma_scale(n, -1real, uy);
}

/// The factors of a dot product exchanged.
pub proof fn lemma_dot_comm(x: RealVec, y: RealVec, n: nat)
    ensures
        dot(x, y, n) == dot(y, x, n),
{
    let f = |i: int| x(i) * y(i);
    let g = |i: int| y(i) * x(i);
    assert forall|i: int| 0 <= i < n implies #[trigger] f(i) == g(i) by {
        comm(x(i), y(i));
    }
    lemma_terms(n, f, g);
}

/// Vectors that agree have the same dot products.
pub proof fn lemma_dot_agree(x: RealVec, x2: RealVec, y: RealVec, y2: RealVec, n: nat)
    requires
        forall|i: int| 0 <= i < n ==> #[trigger] x(i) == x2(i),
        forall|i: int| 0 <= i < n ==> #[trigger] y(i) == y2(i),
    ensures
        dot(x, y, n) == dot(x2, y2, n),
{
    let f = |i: int| x(i) * y(i);
    let g = |i: int| x2(i) * y2(i);
    assert forall|i: int| 0 <= i < n implies #[trigger] f(i) == g(i) by {
        assert(x(i) == x2(i) && y(i) == y2(i));
    }
    lemma_terms(n, f, g);
}

/// The form depends on the vector's components alone.
proof fn lemma_form_vector(m: RealMat, x: RealVec, y: RealVec, n: nat)
    requires
        forall|i: int| 0 <= i < n ==> #[trigger] x(i) == y(i),
    ensures
        form(m, x, n) == form(m, y, n),
{
    assert forall|j: int| 0 <= j < n implies #[trigger] row_times(x, m, n)(j) == row_times(
        y,
        m,
        n,
    )(j) by {
        let f = |i: int| x(i) * m(i, j);
        let g = |i: int| y(i) * m(i, j);
        assert forall|i: int| 0 <= i < n implies #[trigger] f(i) == g(i) by {
            assert(x(i) == y(i));
        }
        lemma_terms(n, f, g);
    }
    lemma_dot_agree(row_times(x, m, n), row_times(y, m, n), x, y, n);
}

/// `(x − u) m (x − u)` for a symmetric `m`.
proof fn lemma_form_minus(m: RealMat, x: RealVec, u: RealVec, n: nat)
    requires
        agree(m, flipped(m), n, n),
    ensures
        form(m, |i: int| x(i) - u(i), n) == form(m, x, n) - 2real * between(x, m, u, n) + form(
            m,
            u,
            n,
        ),
{
    let d = |i: int| x(i) - u(i);
    let xm = row_times(x, m, n);
    let um = row_times(u, m, n);
    let dm = row_times(d, m, n);
    let diff_m = |j: int| xm(j) - um(j);
    assert forall|j: int| 0 <= j < n implies #[trigger] dm(j) == diff_m(j) by {
        let col = |i: int| m(i, j);
        lemma_dot_minus(x, u, col, n);
        lemma_terms(n, |i: int| d(i) * m(i, j), |i: int| d(i) * col(i));
        lemma_terms(n, |i: int| x(i) * m(i, j), |i: int| x(i) * col(i));
        lemma_terms(n, |i: int| u(i) * m(i, j), |i: int| u(i) * col(i));
    }
    lemma_dot_agree(dm, diff_m, d, d, n);
    lemma_dot_minus(xm, um, d, n);
    lemma_dot_comm(xm, d, n);
    lemma_dot_minus(x, u, xm, n);
    lemma_dot_comm(x, xm, n);
    lemma_dot_comm(u, xm, n);
    lemma_dot_comm(um, d, n);
    lemma_dot_minus(x, u, um, n);
    lemma_dot_comm(u, um, n);
    // u m x = x m u.
    lemma_dot_comm(x, um, n);
    lemma_dot_across(u, m, x, n, n);
    let uf = row_times(u, flipped(m), n);
    assert forall|j: int| 0 <= j < n implies #[trigger] um(j) == uf(j) by {
        let f = |i: int| u(i) * m(i, j);
        let g = |i: int| u(i) * flipped(m)(i, j);
        assert forall|i: int| 0 <= i < n implies #[trigger] f(i) == g(i) by {
            assert(m(i, j) == flipped(m)(i, j));
        }
        lemma_terms(n, f, g);
    }
    lemma_dot_agree(um, uf, x, x, n);
}

/// A variance after a measurement with the optimal gain: what it was, less `k S k` for the row `k`
/// of the gain.
proof fn lemma_variance(p: RealMat, h: RealMat, r: RealMat, s_inv: RealMat, n: nat, m: nat, i: int)
    requires
        0 <= i < n,
        agree(p, flipped(p), n, n),
        ({
            let hph = times(times(h, p, n), flipped(h), n);
            agree(times(s_inv, |a: int, b: int| hph(a, b) + r(a, b), m), delta(), m, m)
        }),
    ensures
        ({
            let hph = times(times(h, p, n), flipped(h), n);
            let s = |a: int, b: int| hph(a, b) + r(a, b);
            let x = |j: int| times(p, flipped(h), n)(i, j);
            let k = row_times(x, s_inv, m);
            let a = |l: int| delta()(i, l) - row_times(k, h, m)(l);
            &&& form(p, a, n) + form(r, k, m) == p(i, i) - form(s, k, m)
            &&& forall|j: int| 0 <= j < m ==> #[trigger] row_times(k, s, m)(j) == x(j)
        }),
{
    let hph = times(times(h, p, n), flipped(h), n);
    let s = |a: int, b: int| hph(a, b) + r(a, b);
    let x = |j: int| times(p, flipped(h), n)(i, j);
    let k = row_times(x, s_inv, m);
    let u = row_times(k, h, m);
    let e = |l: int| delta()(i, l);
    let a = |l: int| delta()(i, l) - row_times(k, h, m)(l);
    let e_less_u = |l: int| e(l) - u(l);
    lemma_form_vector(p, a, e_less_u, n);
    lemma_form_minus(p, e, u, n);
    // e p = row i of p, so that e p e is the variance.
    let pi = |j: int| p(i, j);
    let ep = row_times(e, p, n);
    assert forall|j: int| 0 <= j < n implies #[trigger] ep(j) == pi(j) by {
        let f = |l: int| e(l) * p(l, j);
        assert forall|l: int| 0 <= l < n && l != i implies #[trigger] f(l) == 0real by {
            times_zero(p(l, j), 0real);
            comm(p(l, j), 0real);
        }
        lemma_single(n, i, f);
        times_one(p(i, j), 1real);
        comm(p(i, j), 1real);
    }
    assert(form(p, e, n) == p(i, i)) by {
        lemma_dot_agree(ep, pi, e, e, n);
        let f = |l: int| pi(l) * e(l);
        assert forall|l: int| 0 <= l < n && l != i implies #[trigger] f(l) == 0real by {
            times_zero(pi(l), e(l));
        }
        lemma_single(n, i, f);
        times_one(pi(i), e(i));
    }
    // e p u = x·k.
    lemma_dot_agree(ep, pi, u, u, n);
    lemma_dot_across(pi, h, k, n, m);
    let ph = row_times(pi, flipped(h), n);
    assert forall|j: int| 0 <= j < m implies #[trigger] ph(j) == x(j) by {
        lemma_terms(n, |l: int| pi(l) * flipped(h)(l, j), |l: int| p(i, l) * flipped(h)(l, j));
    }
    lemma_dot_agree(ph, x, k, k, m);
    // u p u = k (h p hᵀ) k.
    lemma_form_of_congruence(h, p, k, m, n);
    lemma_form_of_sum(hph, r, k, m);
    // k s = x.
    let ks = row_times(k, s, m);
    assert forall|j: int| 0 <= j < m implies #[trigger] ks(j) == x(j) by {
        lemma_row_through(x, s_inv, s, m, m, j);
        let f = |l: int| x(l) * times(s_inv, s, m)(l, j);
        assert forall|l: int| 0 <= l < m && l != j implies #[trigger] f(l) == 0real by {
            assert(times(s_inv, s, m)(l, j) == delta()(l, j));
            times_zero(x(l), times(s_inv, s, m)(l, j));
        }
        lemma_single(m, j, f);
        assert(times(s_inv, s, m)(j, j) == delta()(j, j));
        times_one(x(j), times(s_inv, s, m)(j, j));
    }
    lemma_dot_agree(ks, x, k, k, m);
}

/// Row `i` of `a m aᵀ` at column `i` is the form of row `i` of `a`.
pub proof fn lemma_diagonal_entry(a: RealMat, m: RealMat, n: nat, i: int)
    ensures
        times(times(a, m, n), flipped(a), n)(i, i) == form(m, |l: int| a(i, l), n),
{
    let row = |l: int| a(i, l);
    let f = |l: int| times(a, m, n)(i, l) * flipped(a)(l, i);
    let g = |l: int| row_times(row, m, n)(l) * row(l);
    assert forall|l: int| 0 <= l < n implies #[trigger] f(l) == g(l) by {
        lemma_terms(n, |k: int| a(i, k) * m(k, l), |k: int| row(k) * m(k, l));
    }
    lemma_terms(n, f, g);
}

/// Resetting the orientation error does not touch a vector without an orientation part.
proof fn lemma_reset_passes<T: Real>(val: spec_fn(T) -> real, dth: V3<T>, a: RealVec)
    requires
        exact(val),
        forall|l: int| ITH <= l < ITH + 3 ==> #[trigger] a(l) == 0real,
    ensures
        forall|l: int|
            0 <= l < N ==> #[trigger] row_times(a, numbers(val, reset_jacobian(dth)), N as nat)(l)
                == a(l),
{
    lemma_constants(val);
    let g = numbers(val, reset_jacobian(dth));
    let n = N as nat;
    assert forall|l: int| 0 <= l < N implies #[trigger] row_times(a, g, n)(l) == a(l) by {
        let f = |k: int| a(k) * g(k, l);
        assert forall|k: int| 0 <= k < n && k != l implies #[trigger] f(k) == 0real by {
            if ITH <= k < ITH + 3 {
                assert(a(k) == 0real);
                times_zero(g(k, l), a(k));
                comm(g(k, l), a(k));
            } else {
                assert(g(k, l) == 0real);
                times_zero(a(k), g(k, l));
            }
        }
        lemma_single(n, l, f);
        if ITH <= l < ITH + 3 {
            assert(a(l) == 0real);
            times_zero(g(l, l), a(l));
            comm(g(l, l), a(l));
        } else {
            assert(g(l, l) == 1real);
            times_one(a(l), g(l, l));
        }
    }
}

/// The innovation covariance `h (p hᵀ) + r`, as numbers.
pub proof fn lemma_innovation<T: Real>(val: spec_fn(T) -> real, p: Grid<T>, h: Grid<T>, r: Grid<T>, m: nat)
    requires
        exact(val),
    ensures
        ({
            let n = N as nat;
            let pht = product(p, transposed(h, m, n), n, n, m);
            let rh = numbers(val, h);
            let hph = times(times(rh, numbers(val, p), n), flipped(rh), n);
            &&& agree(numbers(val, pht), times(numbers(val, p), flipped(rh), n), n, m)
            &&& agree(
                numbers(val, grid_sum(product(h, pht, m, n, m), r, m, m)),
                |a: int, b: int| hph(a, b) + numbers(val, r)(a, b),
                m,
                m,
            )
        }),
{
    let n = N as nat;
    let ht = transposed(h, m, n);
    let pht = product(p, ht, n, n, m);
    let rp = numbers(val, p);
    let rh = numbers(val, h);
    let rpht = numbers(val, pht);
    let pf = times(rp, flipped(rh), n);
    product_is_exact(val, p, ht, n, n, m);
    lemma_times_agree(rp, rp, numbers(val, ht), flipped(rh), n, n, m);
    assert forall|i: int, j: int| 0 <= i < n && 0 <= j < m implies #[trigger] rpht(i, j) == pf(i, j) by {
        assert(rpht(i, j) == times(rp, numbers(val, ht), n)(i, j));
        assert(times(rp, numbers(val, ht), n)(i, j) == pf(i, j));
    }
    product_is_exact(val, h, pht, m, n, m);
    lemma_times_agree(rh, rh, rpht, pf, m, n, m);
    let hph = times(times(rh, rp, n), flipped(rh), n);
    let s = |a: int, b: int| hph(a, b) + numbers(val, r)(a, b);
    let rs = numbers(val, grid_sum(product(h, pht, m, n, m), r, m, m));
    assert forall|i: int, j: int| 0 <= i < m && 0 <= j < m implies #[trigger] rs(i, j) == s(i, j) by {
        assert(numbers(val, product(h, pht, m, n, m))(i, j) == times(rh, rpht, n)(i, j));
        assert(times(rh, rpht, n)(i, j) == times(rh, pf, n)(i, j));
        let row = |l: int| rh(i, l);
        lemma_row_through(row, rp, flipped(rh), n, n, j);
        lemma_terms(n, |l: int| rh(i, l) * pf(l, j), |l: int| row(l) * pf(l, j));
        let f = |l: int| times(rh, rp, n)(i, l) * flipped(rh)(l, j);
        let g = |l: int| row_times(row, rp, n)(l) * flipped(rh)(l, j);
        assert forall|l: int| 0 <= l < n implies #[trigger] f(l) == g(l) by {
            lemma_terms(n, |t: int| rh(i, t) * rp(t, l), |t: int| row(t) * rp(t, l));
        }
        lemma_terms(n, f, g);
    }
}

/// The innovation covariance of a measurement, as numbers.
pub open spec fn spread<T: Real>(val: spec_fn(T) -> real, p: Grid<T>, h: Grid<T>, r: Grid<T>) -> RealMat {
    let rh = numbers(val, h);
    let hph = times(times(rh, numbers(val, p), N as nat), flipped(rh), N as nat);
    |a: int, b: int| hph(a, b) + numbers(val, r)(a, b)
}

/// Row `i` of `P Hᵀ`.
pub open spec fn cross_row<T: Real>(val: spec_fn(T) -> real, p: Grid<T>, h: Grid<T>, i: int) -> RealVec {
    |j: int| times(numbers(val, p), flipped(numbers(val, h)), N as nat)(i, j)
}

/// Row `i` of the gain.
pub open spec fn gain_row<T: Real>(
    val: spec_fn(T) -> real,
    p: Grid<T>,
    h: Grid<T>,
    r: Grid<T>,
    m: nat,
    i: int,
) -> RealVec {
    row_times(cross_row(val, p, h, i), numbers(val, inverse_grid(innovation(p, h, r, m), m)->0), m)
}

/// A variance after a measurement that does not depend on the orientation: what it was, less `k S k`
/// for the row `k` of the gain, which `S` takes to the row of `P Hᵀ`.
pub proof fn lemma_variance_after<T: Real>(
    val: spec_fn(T) -> real,
    s: FilterState<T>,
    h: Grid<T>,
    z: Grid<T>,
    r: Grid<T>,
    m: nat,
    i: int,
)
    requires
        exact(val),
        symmetric(s.p, N as nat),
        gain(s.p, h, r, m) is Some,
        0 <= i < N,
        !(ITH <= i < ITH + 3),
        forall|j: int, l: int|
            0 <= j < m && ITH <= l < ITH + 3 ==> #[trigger] numbers(val, h)(j, l) == 0real,
    ensures
        ({
            let k = gain_row(val, s.p, h, r, m, i);
            let inn = spread(val, s.p, h, r);
            &&& val(corrected(s, h, z, r, m).p[i][i]) == val(s.p[i][i]) - form(inn, k, m)
            &&& forall|j: int|
                0 <= j < m ==> #[trigger] row_times(k, inn, m)(j) == cross_row(val, s.p, h, i)(j)
        }),
{
    let n = N as nat;
    let p = s.p;
    let pht = product(p, transposed(h, m, n), n, n, m);
    let inn = grid_sum(product(h, pht, m, n, m), r, m, m);
    lemma_constants(val);
    let rp = numbers(val, p);
    let rh = numbers(val, h);
    let rr = numbers(val, r);
    let s_inv = inverse_grid(inn, m)->0;
    let ri = numbers(val, s_inv);
    lemma_innovation(val, p, h, r, m);
    inverse_inverts(val, inn, m);
    let hph = times(times(rh, rp, n), flipped(rh), n);
    let rs = |a: int, b: int| hph(a, b) + rr(a, b);
    lemma_times_agree(ri, ri, numbers(val, inn), rs, m, m, m);
    assert(agree(times(ri, rs, m), delta(), m, m)) by {
        assert forall|a: int, b: int| 0 <= a < m && 0 <= b < m implies #[trigger] times(
            ri,
            rs,
            m,
        )(a, b) == delta()(a, b) by {
            assert(times(ri, numbers(val, inn), m)(a, b) == times(ri, rs, m)(a, b));
            assert(times(ri, numbers(val, inn), m)(a, b) == delta()(a, b));
        }
    }
    assert(agree(rp, flipped(rp), n, n));
    lemma_variance(rp, rh, rr, ri, n, m, i);
    let x = |j: int| times(rp, flipped(rh), n)(i, j);
    let kr = row_times(x, ri, m);
    let a = |l: int| delta()(i, l) - row_times(kr, rh, m)(l);

    // The gain and `I − K H`, row `i`.
    let k = product(pht, s_inv, n, m, m);
    assert(gain(p, h, r, m) == Some(k));
    let rk = numbers(val, k);
    let k_row = |j: int| rk(i, j);
    assert forall|j: int| 0 <= j < m implies #[trigger] k_row(j) == kr(j) by {
        lemma_row_by_col(val, pht, s_inv, i, j, m);
        let f = |t: int| val(pht[i][t]) * val(s_inv[t][j]);
        let g = |t: int| x(t) * ri(t, j);
        assert forall|t: int| 0 <= t < m implies #[trigger] f(t) == g(t) by {
            assert(numbers(val, pht)(i, t) == times(rp, flipped(rh), n)(i, t));
        }
        lemma_terms(m, f, g);
    }
    let ikh = grid_diff(identity_grid::<T>(n), product(k, h, n, m, n), n, n);
    let rikh = numbers(val, ikh);
    let ikh_row = |l: int| rikh(i, l);
    assert forall|l: int| 0 <= l < n implies #[trigger] ikh_row(l) == a(l) by {
        lemma_row_by_col(val, k, h, i, l, m);
        let f = |t: int| val(k[i][t]) * val(h[t][l]);
        let g = |t: int| kr(t) * rh(t, l);
        assert forall|t: int| 0 <= t < m implies #[trigger] f(t) == g(t) by {
            assert(k_row(t) == kr(t));
        }
        lemma_terms(m, f, g);
    }
    assert forall|l: int| ITH <= l < ITH + 3 implies #[trigger] a(l) == 0real by {
        let f = |t: int| kr(t) * rh(t, l);
        assert forall|t: int| 0 <= t < m implies #[trigger] f(t) == 0real by {
            assert(rh(t, l) == 0real);
            times_zero(kr(t), rh(t, l));
        }
        lemma_zero(m, f);
    }

    // The two halves of the Joseph form, at `(i, i)`.
    let dx = product(k, z, n, m, 1);
    let dth = error_block(dx, ITH as int);
    let g = reset_jacobian(dth);
    let rg = numbers(val, g);
    let p2 = congruence(g, p);
    let rp2 = numbers(val, p2);
    lemma_sandwich_agrees(val, g, p, n, n);
    lemma_sandwich_agrees(val, ikh, p2, n, n);
    lemma_sandwich_agrees(val, k, r, n, m);
    lemma_diagonal_entry(rikh, rp2, n, i);
    lemma_diagonal_entry(rk, rr, m, i);
    lemma_form_vector(rp2, ikh_row, a, n);
    lemma_form_vector(rr, k_row, kr, m);
    let turned = times(times(rg, rp, n), flipped(rg), n);
    lemma_form_agree(rp2, turned, a, n);
    lemma_form_of_congruence(rg, rp, a, n, n);
    lemma_reset_passes(val, dth, a);
    lemma_form_vector(rp, row_times(a, rg, n), a, n);
    let first = congruence(ikh, p2);
    let second = product(product(k, r, n, m, m), transposed(k, n, m), n, m, n);
    assert(numbers(val, first)(i, i) == form(rp, a, n));
    assert(numbers(val, second)(i, i) == form(rr, kr, m));
    assert(corrected(s, h, z, r, m).p[i][i] == joseph(p2, k, h, r, m)[i][i]);
    assert(val(joseph(p2, k, h, r, m)[i][i]) == form(rp, a, n) + form(rr, kr, m));
    let k2 = gain_row(val, p, h, r, m, i);
    let rs2 = spread(val, p, h, r);
    let cross = cross_row(val, p, h, i);
    assert forall|j: int| 0 <= j < m implies #[trigger] k2(j) == kr(j) by {
        lemma_terms(m, |t: int| cross(t) * ri(t, j), |t: int| x(t) * ri(t, j));
    }
    lemma_form_vector(rs, k2, kr, m);
    lemma_form_agree(rs2, rs, k2, m);
    assert forall|j: int| 0 <= j < m implies #[trigger] row_times(k2, rs2, m)(j) == cross(j) by {
        assert(row_times(kr, rs, m)(j) == x(j));
        let f = |t: int| k2(t) * rs2(t, j);
        let g = |t: int| kr(t) * rs(t, j);
        assert forall|t: int| 0 <= t < m implies #[trigger] f(t) == g(t) by {
            assert(k2(t) == kr(t));
        }
        lemma_terms(m, f, g);
    }
}

/// No variance grows with a measurement that does not depend on the orientation; the orientation's
/// own are left out, since folding the correction in turns them.
pub proof fn no_variance_grows<T: Real>(
    val: spec_fn(T) -> real,
    s: FilterState<T>,
    h: Grid<T>,
    z: Grid<T>,
    r: Grid<T>,
    m: nat,
    i: int,
)
    requires
        exact(val),
        sound(val, s),
        symmetric(s.p, N as nat),
        positive(numbers(val, r), m),
        0 <= i < N,
        !(ITH <= i < ITH + 3),
        forall|j: int, l: int|
            0 <= j < m && ITH <= l < ITH + 3 ==> #[trigger] numbers(val, h)(j, l) == 0real,
    ensures
        val(corrected(s, h, z, r, m).p[i][i]) <= val(s.p[i][i]),
{
    if gain(s.p, h, r, m) is Some {
        lemma_variance_after(val, s, h, z, r, m, i);
        let k = gain_row(val, s.p, h, r, m, i);
        let (rp, rh, rr) = (numbers(val, s.p), numbers(val, h), numbers(val, r));
        let n = N as nat;
        let hph = times(times(rh, rp, n), flipped(rh), n);
        lemma_congruence_positive(rh, rp, m, n);
        lemma_form_of_sum(hph, rr, k, m);
        lemma_form_agree(spread(val, s.p, h, r), |a: int, b: int| hph(a, b) + rr(a, b), k, m);
        assert(form(hph, k, m) >= 0real);
        assert(form(rr, k, m) >= 0real);
    }
}

/// A GPS fix with noise makes the filter strictly more certain of a position that it was not certain
/// of: a positive variance shrinks.
pub proof fn gps_fix_strictly_shrinks_variance<T: Real>(
    val: spec_fn(T) -> real,
    s: FilterState<T>,
    fix: V3<T>,
    sigma: T,
    i: int,
)
    requires
        exact(val),
        sound(val, s),
        symmetric(s.p, N as nat),
        val(sigma) != 0real,
        gain(s.p, block_jacobian(IP as int, identity_grid::<T>(3)), noise3(sigma), 3) is Some,
        0 <= i < 3,
        val(s.p[i][i]) > 0real,
    ensures
        val(gps_corrected(s, fix, sigma).p[i][i]) < val(s.p[i][i]),
{
    lemma_constants(val);
    let n = N as nat;
    let h = block_jacobian(IP as int, identity_grid::<T>(3));
    let r = noise3(sigma);
    let z = column(v3::subtracted(fix, s.nom.p));
    lemma_variance_after(val, s, h, z, r, 3, i);
    let k = gain_row(val, s.p, h, r, 3, i);
    let inn = spread(val, s.p, h, r);
    let (rp, rh, rr) = (numbers(val, s.p), numbers(val, h), numbers(val, r));
    let hph = times(times(rh, rp, n), flipped(rh), n);
    // The row of P Hᵀ holds the variance, so the row of the gain is not zero.
    let t = |l: int| rp(i, l) * flipped(rh)(l, i);
    assert forall|l: int| 0 <= l < n && l != i implies #[trigger] t(l) == 0real by {
        assert(rh(i, l) == 0real);
        times_zero(rp(i, l), rh(i, l));
    }
    lemma_single(n, i, t);
    assert(rh(i, i) == 1real);
    times_one(rp(i, i), rh(i, i));
    assert(cross_row(val, s.p, h, i)(i) == rp(i, i));
    let rho = val(sigma) * val(sigma);
    lemma_square(val(sigma));
    let kk = |j: int| k(j) * k(j);
    assert forall|j: int| 0 <= j < 3 implies #[trigger] kk(j) >= 0real by {
        lemma_square(k(j));
    }
    lemma_not_negative(3, kk);
    if dot(k, k, 3) == 0real {
        reveal_with_fuel(rsum, 4);
        lemma_square(k(0));
        lemma_square(k(1));
        lemma_square(k(2));
        lemma_zero_square(k(0));
        lemma_zero_square(k(1));
        lemma_zero_square(k(2));
        let f = |l: int| k(l) * inn(l, i);
        assert forall|l: int| 0 <= l < 3 implies #[trigger] f(l) == 0real by {
            assert(l == 0 || l == 1 || l == 2);
            times_zero(inn(l, i), k(l));
            comm(inn(l, i), k(l));
        }
        lemma_zero(3, f);
        assert(row_times(k, inn, 3)(i) == 0real);
    }
    let scaled = |a: int, b: int| rho * delta()(a, b);
    assert forall|a: int, b: int| 0 <= a < 3 && 0 <= b < 3 implies #[trigger] rr(a, b) == scaled(a, b) by {
        comm(rho, delta()(a, b));
    }
    lemma_form_of_identity(rr, rho, k, 3);
    if rho == 0real {
        lemma_zero_square(val(sigma));
    }
    let len = dot(k, k, 3);
    assert(rho * len > 0real) by (nonlinear_arith)
        requires
            rho > 0real,
            len > 0real,
    ;
    lemma_congruence_positive(rh, rp, 3, n);
    lemma_form_of_sum(hph, rr, k, 3);
    lemma_form_agree(inn, |a: int, b: int| hph(a, b) + rr(a, b), k, 3);
    assert(form(hph, k, 3) >= 0real);
}

/// A GPS fix, a barometer reading, a range and a GPS velocity let no variance of position, velocity
/// or the biases grow.
pub proof fn fixes_shrink_variance<T: Real>(
    val: spec_fn(T) -> real,
    s: FilterState<T>,
    v: V3<T>,
    x: T,
    sigma: T,
    i: int,
)
    requires
        exact(val),
        sound(val, s),
        symmetric(s.p, N as nat),
        0 <= i < N,
        !(ITH <= i < ITH + 3),
    ensures
        val(gps_corrected(s, v, sigma).p[i][i]) <= val(s.p[i][i]),
        val(baro_corrected(s, x, sigma).p[i][i]) <= val(s.p[i][i]),
        val(range_corrected(s, v, x, sigma).p[i][i]) <= val(s.p[i][i]),
        val(gps_velocity_corrected(s, v, sigma).p[i][i]) <= val(s.p[i][i]),
{
    lemma_constants(val);
    lemma_noise3_positive(val, sigma);
    lemma_single_positive(val, sigma);
    let r1 = single(prod(sigma, sigma));
    no_variance_grows(
        val,
        s,
        block_jacobian(IP as int, identity_grid::<T>(3)),
        column(v3::subtracted(v, s.nom.p)),
        noise3(sigma),
        3,
        i,
    );
    no_variance_grows(
        val,
        s,
        pick(IP + 2, lit::<T>(1, 1)),
        single(diff(x, s.nom.p[2])),
        r1,
        1,
        i,
    );
    no_variance_grows(
        val,
        s,
        block_jacobian(IV as int, identity_grid::<T>(3)),
        column(v3::subtracted(v, s.nom.v)),
        noise3(sigma),
        3,
        i,
    );
    if let Some(model) = range_model(s.nom.p, v) {
        no_variance_grows(val, s, model.1, single(diff(x, model.0)), r1, 1, i);
    }
}

/// A measurement that agrees with the prediction leaves the estimate where it is.
pub proof fn agreeing_measurement_moves_nothing<T: Real>(
    val: spec_fn(T) -> real,
    s: FilterState<T>,
    h: Grid<T>,
    z: Grid<T>,
    r: Grid<T>,
    m: nat,
)
    requires
        exact(val),
        is_unit(val, s.nom.q),
        forall|j: int| 0 <= j < m ==> val(#[trigger] z[j][0]) == 0real,
    ensures
        ({
            let t = corrected(s, h, z, r, m).nom;
            &&& triple(val, t.p) == triple(val, s.nom.p)
            &&& triple(val, t.v) == triple(val, s.nom.v)
            &&& four(val, t.q) == four(val, s.nom.q)
            &&& triple(val, t.accel_bias) == triple(val, s.nom.accel_bias)
            &&& triple(val, t.gyro_bias) == triple(val, s.nom.gyro_bias)
        }),
{
    let n = N as nat;
    if let Some(k) = gain(s.p, h, r, m) {
        let dx = product(k, z, n, m, 1);
        assert forall|i: int| 0 <= i < n implies val(#[trigger] dx[i][0]) == 0real by {
            lemma_row_by_col(val, k, z, i, 0, m);
            let f = |t: int| val(k[i][t]) * val(z[t][0]);
            assert forall|t: int| 0 <= t < m implies #[trigger] f(t) == 0real by {
                assert(val(z[t][0]) == 0real);
                times_zero(val(k[i][t]), val(z[t][0]));
            }
            lemma_zero(m, f);
        }
        let dth = error_block(dx, ITH as int);
        lemma_exp_of_zero(val, dth);
        let e = exp_map(dth);
        let turned = hamilton(s.nom.q, e);
        let (w, x, y, zz) = four(val, s.nom.q);
        times_one(w, val(e.w));
        times_one(x, val(e.w));
        times_one(y, val(e.w));
        times_one(zz, val(e.w));
        times_zero(w, 0real);
        times_zero(x, 0real);
        times_zero(y, 0real);
        times_zero(zz, 0real);
        assert(four(val, turned) == four(val, s.nom.q));
        normalizing_keeps_unit(val, turned);
    }
}

} // verus!
