//! What a correction is: the Kalman update, told by what it must satisfy.

use vstd::prelude::*;

use crate::exact::{exact, lemma_constants, lemma_square};
use crate::exact::algebra::{comm, times_one, times_zero};
use crate::exact::covariance::{lemma_sandwich_agrees, sound};
use crate::exact::dynamics::lemma_symmetrized_entry;
use crate::exact::inverse::inverse_inverts;
use crate::exact::jacobians::Three;
use crate::exact::matrices::{
    agree, delta, dot, flipped, lemma_dot_across, lemma_row_by_col, lemma_row_through,
    lemma_times_agree, numbers, product_is_exact, row_times, times, RealMat, RealVec,
};
use crate::exact::measurements::{lemma_dot_agree, lemma_innovation};
use crate::exact::quaternions::triple;
use crate::exact::residuals::{
    lemma_col_agree, lemma_col_through, residual_left, residual_never_grows, times_col,
};
use crate::exact::sums::{lemma_not_negative, lemma_single, lemma_terms};
use crate::filter::{
    congruence, corrected, error_block, gain, innovation, joseph, reported, reset_jacobian,
    symmetrized, FilterState, Nominal, Reading, ITH, N,
};
use crate::linalg::{grid_diff, identity_grid, product, row_by_col, transposed, Grid, V3};
use crate::linalg::gauss::inverse_grid;
use crate::quat::{exp_map, hamilton, unit};
use crate::scalar::{root, Real};

verus! {

/// A variance on the diagonal: components with independent noise.
pub open spec fn noise_matrix(var: real) -> RealMat {
    |i: int, j: int|
        if i == j {
            var
        } else {
            0real
        }
}

/// The matrix of the cross product with `u`.
pub open spec fn cross_matrix(u: Three) -> RealMat {
    |i: int, j: int|
        if i == 0 && j == 1 {
            -u.2
        } else if i == 0 && j == 2 {
            u.1
        } else if i == 1 && j == 0 {
            u.2
        } else if i == 1 && j == 2 {
            -u.0
        } else if i == 2 && j == 0 {
            -u.1
        } else if i == 2 && j == 1 {
            u.0
        } else {
            0real
        }
}

/// The covariance of a residual: `J P Jᵀ + σ²`.
pub open spec fn residual_spread(p: RealMat, jac: RealMat, var: real) -> RealMat {
    let jpj = times(times(jac, p, 15), flipped(jac), 15);
    |i: int, j: int| jpj(i, j) + noise_matrix(var)(i, j)
}

/// How an error is seen once the orientation has been moved by `turn`: `I − ½[turn]×` on the
/// orientation, nothing else changed.
pub open spec fn reset_matrix(turn: Three) -> RealMat {
    |i: int, j: int|
        delta()(i, j) - (if 6 <= i < 9 && 6 <= j < 9 {
            cross_matrix(turn)(i - 6, j - 6) / 2real
        } else {
            0real
        })
}

/// The covariance of the error that is left: `(I − K J) P (I − K J)ᵀ + σ² K Kᵀ`, for `P` as it is seen
/// once the orientation has been moved.
pub open spec fn refined(
    p: RealMat,
    jac: RealMat,
    k: RealMat,
    var: real,
    turn: Three,
    m: nat,
) -> RealMat {
    let g = reset_matrix(turn);
    let seen = times(times(g, p, 15), flipped(g), 15);
    let rest = |i: int, j: int| delta()(i, j) - times(k, jac, m)(i, j);
    let kept = times(times(rest, seen, 15), flipped(rest), 15);
    let brought = times(times(k, noise_matrix(var), m), flipped(k), m);
    |i: int, j: int| kept(i, j) + brought(i, j)
}

/// The estimate `b` is `a` moved by the error `dx`: position, velocity, orientation, accelerometer bias
/// and gyroscope bias, three components each.
pub open spec fn moved_by<T: Real>(
    val: spec_fn(T) -> real,
    a: Nominal<T>,
    b: Nominal<T>,
    dx: RealVec,
) -> bool {
    &&& forall|i: int| 0 <= i < 3 ==> val(#[trigger] b.p[i]) == val(a.p[i]) + dx(i)
    &&& forall|i: int| 0 <= i < 3 ==> val(#[trigger] b.v[i]) == val(a.v[i]) + dx(3 + i)
    &&& forall|i: int|
        0 <= i < 3 ==> val(#[trigger] b.accel_bias[i]) == val(a.accel_bias[i]) + dx(9 + i)
    &&& forall|i: int|
        0 <= i < 3 ==> val(#[trigger] b.gyro_bias[i]) == val(a.gyro_bias[i]) + dx(12 + i)
    &&& exists|turn: V3<T>|
        triple(val, turn) == (dx(6), dx(7), dx(8)) && b.q == #[trigger] unit(
            hamilton(a.q, exp_map(turn)),
        )
}

/// The correction of `s` to `next` by a residual `z` of `m` components with variance `var`, which
/// depends on the error by `jac`, is the Kalman update: the estimate moves by `dx = K z`, where the
/// gain `K` solves `K S = P Jᵀ` for the covariance `S` of the residual; the covariance is that of the
/// error left; the record holds `zᵀ S⁻¹ z` and the length of `z`. What the linear model leaves of the
/// residual is no longer than the residual.
pub open spec fn is_kalman_update<T: Real>(
    val: spec_fn(T) -> real,
    s: FilterState<T>,
    next: FilterState<T>,
    m: nat,
    jac: RealMat,
    z: RealVec,
    var: real,
    k: RealMat,
    y: RealVec,
    dx: RealVec,
) -> bool {
    let p = numbers(val, s.p);
    let spread = residual_spread(p, jac, var);
    let record = next.last_update->0;
    let after = refined(p, jac, k, var, (dx(6), dx(7), dx(8)), m);
    let left = |i: int| z(i) - times_col(jac, dx, 15)(i);
    &&& moved_by(val, s.nom, next.nom, dx)
    &&& agree(times(k, spread, m), times(p, flipped(jac), 15), 15, m)
    &&& forall|a: int| 0 <= a < 15 ==> #[trigger] dx(a) == times_col(k, z, m)(a)
    &&& forall|i: int| 0 <= i < m ==> times_col(spread, y, m)(i) == #[trigger] z(i)
    &&& val(record.nis) == dot(z, y, m)
    &&& val(record.innovation_norm) >= 0real
    &&& val(record.innovation_norm) * val(record.innovation_norm) == dot(z, z, m)
    &&& forall|a: int, b: int|
        0 <= a < 15 && 0 <= b < 15 ==> val(#[trigger] next.p[a][b]) == (after(a, b) + after(b, a))
            / 2real
    &&& dot(left, left, m) <= dot(z, z, m)
}

/// `next` is `s` corrected by a residual `z` of `m` components with variance `var` that depends on the
/// error by `jac`: by the Kalman update where it is accepted, and otherwise not at all.
pub open spec fn corrects<T: Real>(
    val: spec_fn(T) -> real,
    s: FilterState<T>,
    next: FilterState<T>,
    m: nat,
    jac: RealMat,
    z: RealVec,
    var: real,
) -> bool {
    &&& next.last_update is Some
    &&& next.last_update->0.dim == m
    &&& next.noise == s.noise
    &&& if next.last_update->0.accepted {
        exists|k: RealMat, y: RealVec, dx: RealVec|
            #[trigger] is_kalman_update(val, s, next, m, jac, z, var, k, y, dx)
    } else {
        next.nom == s.nom && next.p == s.p
    }
}

/// The gain solves `K S = P Jᵀ`, and `S⁻¹ z` solves `S y = z`.
proof fn lemma_solved<T: Real>(
    val: spec_fn(T) -> real,
    p: Grid<T>,
    x: Reading<T>,
    jac: RealMat,
    z: RealVec,
    var: real,
)
    requires
        exact(val),
        agree(numbers(val, x.h), jac, x.m, 15),
        agree(numbers(val, x.r), noise_matrix(var), x.m, x.m),
        forall|i: int| 0 <= i < x.m ==> val(#[trigger] x.z[i][0]) == z(i),
        gain(p, x.h, x.r, x.m) is Some,
    ensures
        ({
            let (rp, m) = (numbers(val, p), x.m);
            let k = numbers(val, gain(p, x.h, x.r, m)->0);
            let spread = residual_spread(rp, jac, var);
            let ri = numbers(val, inverse_grid(innovation(p, x.h, x.r, m), m)->0);
            let y = times_col(ri, z, m);
            &&& inverse_grid(innovation(p, x.h, x.r, m), m) is Some
            &&& agree(times(k, spread, m), times(rp, flipped(jac), 15), 15, m)
            &&& forall|i: int| 0 <= i < m ==> times_col(spread, y, m)(i) == #[trigger] z(i)
        }),
{
    let (rp, m, n) = (numbers(val, p), x.m, N as nat);
    let (rh, rr) = (numbers(val, x.h), numbers(val, x.r));
    let pht = product(p, transposed(x.h, m, n), n, n, m);
    let inn = innovation(p, x.h, x.r, m);
    let inv = inverse_grid(inn, m)->0;
    let kg = gain(p, x.h, x.r, m)->0;
    let (k, ri, rpht, si) = (numbers(val, kg), numbers(val, inv), numbers(val, pht), numbers(val, inn));
    lemma_innovation(val, p, x.h, x.r, m);
    inverse_inverts(val, inn, m);
    product_is_exact(val, pht, inv, n, m, m);
    // The spread in terms of the Jacobian.
    let spread = residual_spread(rp, jac, var);
    let hph = times(times(rh, rp, n), flipped(rh), n);
    let jpj = times(times(jac, rp, 15), flipped(jac), 15);
    lemma_times_agree(rh, jac, rp, rp, m, 15, 15);
    lemma_times_agree(times(rh, rp, n), times(jac, rp, 15), flipped(rh), flipped(jac), m, 15, m);
    assert forall|i: int, j: int| 0 <= i < m && 0 <= j < m implies #[trigger] si(i, j) == spread(i, j) by {
        assert(hph(i, j) == jpj(i, j));
        assert(rr(i, j) == noise_matrix(var)(i, j));
    }
    let pj = times(rp, flipped(jac), 15);
    lemma_times_agree(rp, rp, flipped(rh), flipped(jac), 15, 15, m);
    // K S = P Jᵀ S⁻¹ S = P Jᵀ.
    assert forall|a: int, i: int| 0 <= a < 15 && 0 <= i < m implies #[trigger] times(k, spread, m)(a, i)
        == pj(a, i) by {
        let row = |t: int| rpht(a, t);
        lemma_row_through(row, ri, si, m, m, i);
        let f = |t: int| k(a, t) * spread(t, i);
        let g = |t: int| row_times(row, ri, m)(t) * si(t, i);
        assert forall|t: int| 0 <= t < m implies #[trigger] f(t) == g(t) by {
            assert(k(a, t) == times(rpht, ri, m)(a, t));
            lemma_terms(m, |l: int| rpht(a, l) * ri(l, t), |l: int| row(l) * ri(l, t));
            assert(si(t, i) == spread(t, i));
        }
        lemma_terms(m, f, g);
        let e = |t: int| row(t) * times(ri, si, m)(t, i);
        assert forall|t: int| 0 <= t < m && t != i implies #[trigger] e(t) == 0real by {
            assert(times(ri, si, m)(t, i) == delta()(t, i));
            times_zero(row(t), 0real);
        }
        lemma_single(m, i, e);
        assert(times(ri, si, m)(i, i) == delta()(i, i));
        times_one(row(i), 1real);
        assert(rpht(a, i) == times(rp, flipped(rh), n)(a, i));
    }
    // S y = S S⁻¹ z = z.
    let y = times_col(ri, z, m);
    assert forall|i: int| 0 <= i < m implies times_col(spread, y, m)(i) == #[trigger] z(i) by {
        lemma_col_agree(si, spread, y, y, m, m, i);
        lemma_col_through(si, ri, z, m, m, i);
        let e = |t: int| times(si, ri, m)(i, t) * z(t);
        assert forall|t: int| 0 <= t < m && t != i implies #[trigger] e(t) == 0real by {
            assert(times(si, ri, m)(i, t) == delta()(i, t));
            times_zero(z(t), 0real);
            comm(z(t), 0real);
        }
        lemma_single(m, i, e);
        assert(times(si, ri, m)(i, i) == delta()(i, i));
        times_one(z(i), 1real);
        comm(z(i), 1real);
    }
}

/// `zᵀ A z` as the filter forms it.
proof fn lemma_weighed<T: Real>(
    val: spec_fn(T) -> real,
    zc: Grid<T>,
    inv: Grid<T>,
    z: RealVec,
    m: nat,
)
    requires
        exact(val),
        forall|i: int| 0 <= i < m ==> val(#[trigger] zc[i][0]) == z(i),
    ensures
        val(product(product(transposed(zc, m, 1), inv, 1, m, m), zc, 1, m, 1)[0][0]) == dot(
            z,
            times_col(numbers(val, inv), z, m),
            m,
        ),
{
    let ri = numbers(val, inv);
    let zt = transposed(zc, m, 1);
    let zi = product(zt, inv, 1, m, m);
    lemma_row_by_col(val, zi, zc, 0, 0, m);
    let w = row_times(z, ri, m);
    let f = |t: int| val(zi[0][t]) * val(zc[t][0]);
    let g = |t: int| w(t) * z(t);
    assert forall|t: int| 0 <= t < m implies #[trigger] f(t) == g(t) by {
        lemma_row_by_col(val, zt, inv, 0, t, m);
        let a = |l: int| val(zt[0][l]) * val(inv[l][t]);
        let b = |l: int| z(l) * ri(l, t);
        assert forall|l: int| 0 <= l < m implies #[trigger] a(l) == b(l) by {
            assert(val(zc[l][0]) == z(l));
        }
        lemma_terms(m, a, b);
        assert(val(zc[t][0]) == z(t));
    }
    lemma_terms(m, f, g);
    assert(val(product(zi, zc, 1, m, 1)[0][0]) == dot(w, z, m));
    // (zᵀ A) z = z (A z).
    let at = flipped(ri);
    lemma_dot_across(z, at, z, m, m);
    let v = row_times(z, flipped(at), m);
    assert forall|t: int| 0 <= t < m implies #[trigger] v(t) == w(t) by {
        lemma_terms(m, |l: int| z(l) * flipped(at)(l, t), |l: int| z(l) * ri(l, t));
    }
    lemma_dot_agree(v, w, z, z, m);
    let u = row_times(z, at, m);
    let y = times_col(ri, z, m);
    assert forall|t: int| 0 <= t < m implies #[trigger] u(t) == y(t) by {
        let a = |l: int| z(l) * at(l, t);
        let b = |l: int| ri(t, l) * z(l);
        assert forall|l: int| 0 <= l < m implies #[trigger] a(l) == b(l) by {
            comm(z(l), ri(t, l));
        }
        lemma_terms(m, a, b);
    }
    lemma_dot_agree(z, z, u, y, m);
}

/// The reset Jacobian in numbers.
proof fn lemma_reset<T: Real>(val: spec_fn(T) -> real, dth: V3<T>)
    requires
        exact(val),
    ensures
        agree(numbers(val, reset_jacobian(dth)), reset_matrix(triple(val, dth)), 15, 15),
{
    lemma_constants(val);
    let turn = triple(val, dth);
    let g = reset_jacobian(dth);
    let (a, b, c) = turn;
    let half = 1real / 2real;
    comm(a, half);
    comm(b, half);
    comm(c, half);
    assert forall|i: int, j: int| 0 <= i < 15 && 0 <= j < 15 implies #[trigger] numbers(val, g)(i, j)
        == reset_matrix(turn)(i, j) by {
        if 6 <= i < 9 && 6 <= j < 9 {
            assert(i == 6 || i == 7 || i == 8);
            assert(j == 6 || j == 7 || j == 8);
        }
    }
}

/// The covariance after a correction, in numbers.
proof fn lemma_refined<T: Real>(
    val: spec_fn(T) -> real,
    p: Grid<T>,
    x: Reading<T>,
    jac: RealMat,
    var: real,
    kg: Grid<T>,
    dth: V3<T>,
    a: int,
    b: int,
)
    requires
        exact(val),
        agree(numbers(val, x.h), jac, x.m, 15),
        agree(numbers(val, x.r), noise_matrix(var), x.m, x.m),
        0 <= a < 15,
        0 <= b < 15,
    ensures
        val(joseph(congruence(reset_jacobian(dth), p), kg, x.h, x.r, x.m)[a][b]) == refined(
            numbers(val, p),
            jac,
            numbers(val, kg),
            var,
            triple(val, dth),
            x.m,
        )(a, b),
{
    lemma_constants(val);
    let (rp, m, n) = (numbers(val, p), x.m, N as nat);
    let (rh, rr, k) = (numbers(val, x.h), numbers(val, x.r), numbers(val, kg));
    let turn = triple(val, dth);
    let gj = reset_jacobian(dth);
    let (rg, g) = (numbers(val, gj), reset_matrix(turn));
    lemma_reset(val, dth);
    let p2 = congruence(gj, p);
    lemma_sandwich_agrees(val, gj, p, n, n);
    let seen = times(times(g, rp, 15), flipped(g), 15);
    lemma_times_agree(rg, g, rp, rp, 15, 15, 15);
    lemma_times_agree(times(rg, rp, n), times(g, rp, 15), flipped(rg), flipped(g), 15, 15, 15);
    assert forall|i: int, j: int| 0 <= i < 15 && 0 <= j < 15 implies #[trigger] numbers(val, p2)(i, j)
        == seen(i, j) by {
        assert(numbers(val, p2)(i, j) == times(times(rg, rp, n), flipped(rg), n)(i, j));
    }
    let kh = product(kg, x.h, n, m, n);
    product_is_exact(val, kg, x.h, n, m, n);
    lemma_times_agree(k, k, rh, jac, 15, m, 15);
    let ikh = grid_diff(identity_grid::<T>(n), kh, n, n);
    let (ri, rest) = (numbers(val, ikh), |i: int, j: int| delta()(i, j) - times(k, jac, m)(i, j));
    assert forall|i: int, j: int| 0 <= i < 15 && 0 <= j < 15 implies #[trigger] ri(i, j) == rest(i, j) by {
        assert(numbers(val, kh)(i, j) == times(k, rh, m)(i, j));
        assert(times(k, rh, m)(i, j) == times(k, jac, m)(i, j));
    }
    lemma_sandwich_agrees(val, ikh, p2, n, n);
    let rp2 = numbers(val, p2);
    lemma_times_agree(ri, rest, rp2, seen, 15, 15, 15);
    lemma_times_agree(times(ri, rp2, n), times(rest, seen, 15), flipped(ri), flipped(rest), 15, 15, 15);
    let kept = times(times(rest, seen, 15), flipped(rest), 15);
    assert(numbers(val, congruence(ikh, p2))(a, b) == kept(a, b)) by {
        assert(numbers(val, congruence(ikh, p2))(a, b) == times(times(ri, rp2, n), flipped(ri), n)(
            a,
            b,
        ));
    }
    let kr = product(kg, x.r, n, m, m);
    let kt = transposed(kg, n, m);
    product_is_exact(val, kg, x.r, n, m, m);
    product_is_exact(val, kr, kt, n, m, n);
    let kv = times(k, noise_matrix(var), m);
    lemma_times_agree(k, k, rr, noise_matrix(var), 15, m, m);
    assert(agree(numbers(val, kt), flipped(k), m, 15));
    assert forall|i: int, j: int| 0 <= i < 15 && 0 <= j < m implies #[trigger] numbers(val, kr)(i, j)
        == kv(i, j) by {
        assert(numbers(val, kr)(i, j) == times(k, rr, m)(i, j));
    }
    lemma_times_agree(numbers(val, kr), kv, numbers(val, kt), flipped(k), 15, m, 15);
    let brought = times(kv, flipped(k), m);
    assert(numbers(val, product(kr, kt, n, m, n))(a, b) == brought(a, b)) by {
        assert(numbers(val, product(kr, kt, n, m, n))(a, b) == times(
            numbers(val, kr),
            numbers(val, kt),
            m,
        )(a, b));
    }
}

/// A correction by any measurement is the Kalman update for its residual, its Jacobian and its noise.
pub proof fn correction_is_the_kalman_update<T: Real>(
    val: spec_fn(T) -> real,
    s: FilterState<T>,
    x: Reading<T>,
    jac: RealMat,
    z: RealVec,
    var: real,
)
    requires
        exact(val),
        sound(val, s),
        var >= 0real,
        x.m <= 15,
        agree(numbers(val, x.h), jac, x.m, 15),
        agree(numbers(val, x.r), noise_matrix(var), x.m, x.m),
        forall|i: int| 0 <= i < x.m ==> val(#[trigger] x.z[i][0]) == z(i),
    ensures
        corrects(val, s, corrected(s, x.h, x.z, x.r, x.m), x.m, jac, z, var),
{
    lemma_constants(val);
    let m = x.m;
    let n = N as nat;
    let next = corrected(s, x.h, x.z, x.r, m);
    let record = reported(s, x);
    assert(x == (Reading { h: x.h, z: x.z, r: x.r, m: x.m }));
    assert(next.last_update == Some(record));
    if gain(s.p, x.h, x.r, m) is Some {
        let kg = gain(s.p, x.h, x.r, m)->0;
        let k = numbers(val, kg);
        let dxg = product(kg, x.z, n, m, 1);
        let dx = |a: int| val(dxg[a][0]);
        let dth = error_block(dxg, ITH as int);
        lemma_solved(val, s.p, x, jac, z, var);
        let inv = inverse_grid(innovation(s.p, x.h, x.r, m), m)->0;
        let y = times_col(numbers(val, inv), z, m);
        lemma_weighed(val, x.z, inv, z, m);
        assert(record.accepted);
        assert(val(record.nis) == dot(z, y, m));
        // How far the estimate moves.
        assert forall|a: int| 0 <= a < 15 implies #[trigger] dx(a) == times_col(k, z, m)(a) by {
            lemma_row_by_col(val, kg, x.z, a, 0, m);
            let f = |t: int| val(kg[a][t]) * val(x.z[t][0]);
            let g = |t: int| k(a, t) * z(t);
            assert forall|t: int| 0 <= t < m implies #[trigger] f(t) == g(t) by {
                assert(val(x.z[t][0]) == z(t));
            }
            lemma_terms(m, f, g);
        }
        assert(moved_by(val, s.nom, next.nom, dx)) by {
            assert(triple(val, dth) == (dx(6), dx(7), dx(8)));
            assert(next.nom.q == unit(hamilton(s.nom.q, exp_map(dth))));
        }
        // The length of the residual.
        lemma_length(val, x.z, z, m);
        // The covariance.
        let after = refined(numbers(val, s.p), jac, k, var, (dx(6), dx(7), dx(8)), m);
        assert forall|a: int, b: int| 0 <= a < 15 && 0 <= b < 15 implies val(#[trigger] next.p[a][b])
            == (after(a, b) + after(b, a)) / 2real by {
            lemma_refined(val, s.p, x, jac, var, kg, dth, a, b);
            lemma_refined(val, s.p, x, jac, var, kg, dth, b, a);
            let j = joseph(congruence(reset_jacobian(dth), s.p), kg, x.h, x.r, m);
            assert(next.p == symmetrized(j, n));
            assert(triple(val, dth) == (dx(6), dx(7), dx(8)));
            assert(val(j[a][b]) == after(a, b) && val(j[b][a]) == after(b, a));
            lemma_symmetrized_entry(val, j, a, b);
        }
        // The residual that is left.
        let rr = numbers(val, x.r);
        assert forall|i: int, j: int| 0 <= i < m && 0 <= j < m implies #[trigger] rr(i, j) == var
            * delta()(i, j) by {
            assert(rr(i, j) == noise_matrix(var)(i, j));
            times_one(var, 1real);
            times_zero(var, 0real);
        }
        residual_never_grows(val, s, x.h, x.z, x.r, var, m);
        let kept = residual_left(val, kg, x.h, x.z, m);
        let left = |i: int| z(i) - times_col(jac, dx, 15)(i);
        let given = |a: int| val(x.z[a][0]);
        assert forall|i: int| 0 <= i < m implies #[trigger] kept(i) == left(i) by {
            lemma_row_by_col(val, x.h, dxg, i, 0, n);
            let f = |t: int| val(x.h[i][t]) * val(dxg[t][0]);
            let g = |t: int| jac(i, t) * dx(t);
            assert forall|t: int| 0 <= t < 15 implies #[trigger] f(t) == g(t) by {
                assert(numbers(val, x.h)(i, t) == jac(i, t));
            }
            lemma_terms(15, f, g);
            assert(val(x.z[i][0]) == z(i));
        }
        lemma_dot_agree(kept, left, kept, left, m);
        lemma_dot_agree(given, z, given, z, m);
        assert(is_kalman_update(val, s, next, m, jac, z, var, k, y, dx));
    } else {
        assert(!record.accepted);
    }
}

/// The length of a residual.
proof fn lemma_length<T: Real>(val: spec_fn(T) -> real, zc: Grid<T>, z: RealVec, m: nat)
    requires
        exact(val),
        forall|i: int| 0 <= i < m ==> val(#[trigger] zc[i][0]) == z(i),
    ensures
        ({
            let square = row_by_col(transposed(zc, m, 1), zc, 0, 0, m);
            &&& val(root(square)) >= 0real
            &&& val(root(square)) * val(root(square)) == dot(z, z, m)
        }),
{
    let zt = transposed(zc, m, 1);
    lemma_row_by_col(val, zt, zc, 0, 0, m);
    let f = |t: int| val(zt[0][t]) * val(zc[t][0]);
    let g = |t: int| z(t) * z(t);
    assert forall|t: int| 0 <= t < m implies #[trigger] f(t) == g(t) by {
        assert(val(zc[t][0]) == z(t));
    }
    lemma_terms(m, f, g);
    assert forall|t: int| 0 <= t < m implies #[trigger] g(t) >= 0real by {
        lemma_square(z(t));
    }
    lemma_not_negative(m, g);
}

} // verus!
