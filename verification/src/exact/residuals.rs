//! What a correction does to the residual, and what a prediction does to the variances.

use vstd::prelude::*;

use crate::exact::algebra::{assoc, comm, dist, dist_right, square_of_sum, times_one, times_zero};
use crate::exact::covariance::{lemma_positive_agree, lemma_sandwich_agrees, sound};
use crate::exact::inverse::inverse_inverts;
use crate::exact::jacobians::{dot3, picking_a_block_is_exact, Three};
use crate::exact::matrices::{
    agree, delta, dot, flipped, form, lemma_congruence_positive, lemma_dot_across, lemma_row_by_col,
    lemma_row_through, numbers, positive, product_is_exact, row_times, times, RealMat, RealVec,
};
use crate::exact::measurements::{
    lemma_diagonal_entry, lemma_dot_agree, lemma_dot_comm, lemma_innovation,
};
use crate::exact::quaternions::triple;
use crate::exact::sums::{
    lemma_add, lemma_not_negative, lemma_scale, lemma_single, lemma_terms, lemma_two, rsum,
};
use crate::exact::{exact, lemma_constants, lemma_square};
use crate::filter::{
    baro_corrected, block_jacobian, congruence, gain, gps_corrected, gps_velocity_corrected, noise3,
    pick, predicted, process_noise, single, transition, FilterState, IAB, IP, IV, IWB, N,
};
use crate::linalg::gauss::inverse_grid;
use crate::linalg::{column, grid_sum, identity_grid, product, transposed, v3, Grid, V3};
use crate::scalar::{diff, lit, prod, Real};

verus! {

/// The matrix `a` times the column `y`, over `n` terms.
pub open spec fn times_col(a: RealMat, y: RealVec, n: nat) -> RealVec {
    |i: int| rsum(n, |j: int| a(i, j) * y(j))
}

/// `(a b) y = a (b y)`.
pub proof fn lemma_col_through(a: RealMat, b: RealMat, y: RealVec, n: nat, k: nat, i: int)
    ensures
        times_col(times(a, b, n), y, k)(i) == times_col(a, times_col(b, y, k), n)(i),
{
    let row = |t: int| a(i, t);
    let ym = |t: int, j: int| y(t);
    lemma_row_through(row, b, ym, n, k, 0);
    let whole = |t: int| row(t) * times(b, ym, k)(t, 0);
    let parts = |t: int| a(i, t) * times_col(b, y, k)(t);
    assert forall|t: int| 0 <= t < n implies #[trigger] whole(t) == parts(t) by {
        lemma_terms(k, |j: int| b(t, j) * ym(j, 0), |j: int| b(t, j) * y(j));
    }
    lemma_terms(n, whole, parts);
    let f = |t: int| row_times(row, b, n)(t) * ym(t, 0);
    let g = |t: int| times(a, b, n)(i, t) * y(t);
    assert forall|t: int| 0 <= t < k implies #[trigger] f(t) == g(t) by {
        lemma_terms(n, |l: int| row(l) * b(l, t), |l: int| a(i, l) * b(l, t));
    }
    lemma_terms(k, f, g);
}

/// Matrices that agree give the same column.
pub proof fn lemma_col_agree(a: RealMat, b: RealMat, x: RealVec, y: RealVec, r: nat, n: nat, i: int)
    requires
        agree(a, b, r, n),
        0 <= i < r,
        forall|j: int| 0 <= j < n ==> #[trigger] x(j) == y(j),
    ensures
        times_col(a, x, n)(i) == times_col(b, y, n)(i),
{
    let f = |j: int| a(i, j) * x(j);
    let g = |j: int| b(i, j) * y(j);
    assert forall|j: int| 0 <= j < n implies #[trigger] f(j) == g(j) by {
        assert(a(i, j) == b(i, j) && x(j) == y(j));
    }
    lemma_terms(n, f, g);
}

/// The identity leaves a column as it is.
proof fn lemma_col_delta(y: RealVec, n: nat, i: int)
    requires
        0 <= i < n,
    ensures
        times_col(delta(), y, n)(i) == y(i),
{
    let f = |j: int| delta()(i, j) * y(j);
    assert forall|j: int| 0 <= j < n && j != i implies #[trigger] f(j) == 0real by {
        times_zero(y(j), 0real);
        comm(y(j), 0real);
    }
    lemma_single(n, i, f);
    times_one(y(i), 1real);
    comm(y(i), 1real);
}

/// With `s = b + rho I`, the column `s⁻¹ z` leaves `rho s⁻¹ z` of `z`, which is no longer than `z`.
proof fn lemma_pull(b: RealMat, s: RealMat, s_inv: RealMat, rho: real, z: RealVec, m: nat)
    requires
        positive(b, m),
        rho >= 0real,
        agree(s, |i: int, j: int| b(i, j) + rho * delta()(i, j), m, m),
        agree(times(s, s_inv, m), delta(), m, m),
    ensures
        ({
            let image = times_col(b, times_col(s_inv, z, m), m);
            let left = |i: int| z(i) - image(i);
            dot(left, left, m) <= dot(z, z, m)
        }),
{
    let y = times_col(s_inv, z, m);
    let image = times_col(b, y, m);
    let left = |i: int| z(i) - image(i);
    let rest = |i: int| rho * y(i);
    let full = |i: int, j: int| b(i, j) + rho * delta()(i, j);
    // z = b y + rho y.
    assert forall|i: int| 0 <= i < m implies #[trigger] left(i) == rest(i) by {
        lemma_col_through(s, s_inv, z, m, m, i);
        lemma_col_agree(times(s, s_inv, m), delta(), z, z, m, m, i);
        lemma_col_delta(z, m, i);
        lemma_col_agree(s, full, y, y, m, m, i);
        let p = |j: int| b(i, j) * y(j);
        let q = |j: int| rho * (delta()(i, j) * y(j));
        let d = |j: int| delta()(i, j) * y(j);
        lemma_add(m, p, q);
        let f = |j: int| full(i, j) * y(j);
        let g = |j: int| p(j) + q(j);
        assert forall|j: int| 0 <= j < m implies #[trigger] f(j) == g(j) by {
            dist_right(b(i, j), rho * delta()(i, j), y(j));
            assoc(rho, delta()(i, j), y(j));
        }
        lemma_terms(m, f, g);
        lemma_scale(m, rho, d);
        lemma_terms(m, q, |j: int| rho * d(j));
        lemma_col_delta(y, m, i);
    }
    lemma_dot_agree(left, rest, left, rest, m);
    // z·z = (b y)·(b y) + 2 rho (b y)·y + (rho y)·(rho y).
    let sq = |i: int| image(i) * image(i);
    let cross = |i: int| image(i) * y(i);
    let twice = |i: int| (2real * rho) * cross(i);
    let last = |i: int| rest(i) * rest(i);
    let head = |i: int| sq(i) + twice(i);
    let all = |i: int| head(i) + last(i);
    let zz = |i: int| z(i) * z(i);
    assert forall|i: int| 0 <= i < m implies #[trigger] zz(i) == all(i) by {
        assert(left(i) == rest(i));
        assert(z(i) == image(i) + rest(i));
        square_of_sum(image(i), rest(i));
        comm(rho, y(i));
        assoc(image(i), y(i), rho);
        comm(image(i) * y(i), rho);
        assoc(2real, rho, image(i) * y(i));
    }
    lemma_terms(m, zz, all);
    lemma_add(m, head, last);
    lemma_add(m, sq, twice);
    lemma_scale(m, 2real * rho, cross);
    assert forall|i: int| 0 <= i < m implies #[trigger] sq(i) >= 0real by {
        lemma_square(image(i));
    }
    lemma_not_negative(m, sq);
    // (b y)·y is the form of b.
    let yb = row_times(y, flipped(b), m);
    assert forall|i: int| 0 <= i < m implies #[trigger] yb(i) == image(i) by {
        let f = |j: int| y(j) * flipped(b)(j, i);
        let g = |j: int| b(i, j) * y(j);
        assert forall|j: int| 0 <= j < m implies #[trigger] f(j) == g(j) by {
            comm(y(j), b(i, j));
        }
        lemma_terms(m, f, g);
    }
    lemma_dot_agree(yb, image, y, y, m);
    lemma_dot_across(y, b, y, m, m);
    lemma_dot_comm(y, row_times(y, b, m), m);
    assert(dot(image, y, m) == form(b, y, m));
    let c = dot(image, y, m);
    let k = 2real * rho;
    assert(k * c >= 0real) by (nonlinear_arith)
        requires
            k >= 0real,
            c >= 0real,
    ;
}

/// What the linear model leaves of a residual: `z − H δx`.
pub open spec fn residual_left<T: Real>(
    val: spec_fn(T) -> real,
    k: Grid<T>,
    h: Grid<T>,
    z: Grid<T>,
    m: nat,
) -> RealVec {
    let dx = product(k, z, N as nat, m, 1);
    |a: int| val(z[a][0]) - val(product(h, dx, m, N as nat, 1)[a][0])
}

/// A correction never lengthens the residual: where the components of a measurement have independent
/// noise of one variance, what the linear model leaves of the residual is no longer than the residual
/// was.
pub proof fn residual_never_grows<T: Real>(
    val: spec_fn(T) -> real,
    s: FilterState<T>,
    h: Grid<T>,
    z: Grid<T>,
    r: Grid<T>,
    rho: real,
    m: nat,
)
    requires
        exact(val),
        sound(val, s),
        rho >= 0real,
        agree(numbers(val, r), |i: int, j: int| rho * delta()(i, j), m, m),
        gain(s.p, h, r, m) is Some,
    ensures
        ({
            let left = residual_left(val, gain(s.p, h, r, m)->0, h, z, m);
            let residual = |a: int| val(z[a][0]);
            dot(left, left, m) <= dot(residual, residual, m)
        }),
{
    let n = N as nat;
    let k = gain(s.p, h, r, m)->0;
    let pht = product(s.p, transposed(h, m, n), n, n, m);
    let hp = product(h, pht, m, n, m);
    let inn = grid_sum(hp, r, m, m);
    let s_inv = inverse_grid(inn, m)->0;
    let dx = product(k, z, n, m, 1);
    let hdx = product(h, dx, m, n, 1);
    let (rp, rh, rr) = (numbers(val, s.p), numbers(val, h), numbers(val, r));
    let (rpht, ri, rk) = (numbers(val, pht), numbers(val, s_inv), numbers(val, k));
    let b = numbers(val, hp);
    lemma_innovation(val, s.p, h, r, m);
    inverse_inverts(val, inn, m);
    let hph = times(times(rh, rp, n), flipped(rh), n);
    let si = numbers(val, inn);
    assert forall|i: int, j: int| 0 <= i < m && 0 <= j < m implies #[trigger] b(i, j) == hph(i, j) by {
        assert(si(i, j) == hph(i, j) + rr(i, j));
    }
    lemma_congruence_positive(rh, rp, m, n);
    lemma_positive_agree(b, hph, m);
    let full = |i: int, j: int| b(i, j) + rho * delta()(i, j);
    assert forall|i: int, j: int| 0 <= i < m && 0 <= j < m implies #[trigger] si(i, j) == full(i, j) by {
        assert(rr(i, j) == rho * delta()(i, j));
    }
    let zv = |a: int| val(z[a][0]);
    let y = times_col(ri, zv, m);
    lemma_pull(b, si, ri, rho, zv, m);
    // δx = P Hᵀ y.
    let dv = |i: int| val(dx[i][0]);
    let py = times_col(rpht, y, m);
    product_is_exact(val, pht, s_inv, n, m, m);
    assert forall|i: int| 0 <= i < n implies #[trigger] dv(i) == py(i) by {
        lemma_row_by_col(val, k, z, i, 0, m);
        lemma_terms(m, |t: int| val(k[i][t]) * val(z[t][0]), |t: int| rk(i, t) * zv(t));
        lemma_col_agree(rk, times(rpht, ri, m), zv, zv, n, m, i);
        lemma_col_through(rpht, ri, zv, m, m, i);
    }
    // H δx = (H P Hᵀ) y.
    let image = times_col(b, y, m);
    let left = residual_left(val, k, h, z, m);
    let after = |i: int| zv(i) - image(i);
    product_is_exact(val, h, pht, m, n, m);
    assert forall|a: int| 0 <= a < m implies #[trigger] left(a) == after(a) by {
        lemma_row_by_col(val, h, dx, a, 0, n);
        lemma_terms(n, |t: int| val(h[a][t]) * val(dx[t][0]), |t: int| rh(a, t) * dv(t));
        lemma_col_agree(rh, rh, dv, py, m, n, a);
        lemma_col_through(rh, rpht, y, n, m, a);
        lemma_col_agree(b, times(rh, rpht, n), y, y, m, m, a);
    }
    lemma_dot_agree(left, after, left, after, m);
}

/// The squared distance between two points.
pub open spec fn apart(a: Three, b: Three) -> real {
    let d = (a.0 - b.0, a.1 - b.1, a.2 - b.2);
    dot3(d, d)
}

/// A fix of a block of the error state, as position and velocity fixes are, leaves the residual less
/// the block of the correction.
proof fn lemma_block_fix<T: Real>(val: spec_fn(T) -> real, s: FilterState<T>, c: int, z: V3<T>, sigma: T)
    requires
        exact(val),
        sound(val, s),
        0 <= c <= N - 3,
        gain(s.p, block_jacobian(c, identity_grid::<T>(3)), noise3(sigma), 3) is Some,
    ensures
        ({
            let h = block_jacobian(c, identity_grid::<T>(3));
            let dx = product(gain(s.p, h, noise3(sigma), 3)->0, column(z), N as nat, 3, 1);
            apart(triple(val, z), (val(dx[c][0]), val(dx[c + 1][0]), val(dx[c + 2][0]))) <= dot3(
                triple(val, z),
                triple(val, z),
            )
        }),
{
    lemma_constants(val);
    let h = block_jacobian(c, identity_grid::<T>(3));
    let r = noise3(sigma);
    let rho = val(sigma) * val(sigma);
    let k = gain(s.p, h, r, 3)->0;
    let zc = column(z);
    let dx = product(k, zc, N as nat, 3, 1);
    lemma_square(val(sigma));
    let rr = numbers(val, r);
    let scaled = |i: int, j: int| rho * delta()(i, j);
    assert forall|i: int, j: int| 0 <= i < 3 && 0 <= j < 3 implies #[trigger] rr(i, j) == scaled(i, j) by {
        comm(rho, delta()(i, j));
    }
    residual_never_grows(val, s, h, zc, r, rho, 3);
    picking_a_block_is_exact(val, c, dx, 0);
    picking_a_block_is_exact(val, c, dx, 1);
    picking_a_block_is_exact(val, c, dx, 2);
    let left = residual_left(val, k, h, zc, 3);
    let residual = |a: int| val(zc[a][0]);
    lemma_three_terms(left);
    lemma_three_terms(residual);
}

/// A dot product over three terms.
proof fn lemma_three_terms(x: RealVec)
    ensures
        dot(x, x, 3) == x(0) * x(0) + x(1) * x(1) + x(2) * x(2),
{
    reveal_with_fuel(rsum, 4);
}

/// A position fix never takes the estimate away from the fix, and neither does a velocity fix or a
/// barometer reading.
pub proof fn fixes_pull_the_estimate_closer<T: Real>(
    val: spec_fn(T) -> real,
    s: FilterState<T>,
    fix: V3<T>,
    altitude: T,
    sigma: T,
)
    requires
        exact(val),
        sound(val, s),
    ensures
        apart(triple(val, fix), triple(val, gps_corrected(s, fix, sigma).nom.p)) <= apart(
            triple(val, fix),
            triple(val, s.nom.p),
        ),
        apart(triple(val, fix), triple(val, gps_velocity_corrected(s, fix, sigma).nom.v)) <= apart(
            triple(val, fix),
            triple(val, s.nom.v),
        ),
        ({
            let before = val(altitude) - val(s.nom.p[2]);
            let after = val(altitude) - val(baro_corrected(s, altitude, sigma).nom.p[2]);
            after * after <= before * before
        }),
{
    let eye = identity_grid::<T>(3);
    if gain(s.p, block_jacobian(IP as int, eye), noise3(sigma), 3) is Some {
        lemma_block_fix(val, s, IP as int, v3::subtracted(fix, s.nom.p), sigma);
    }
    if gain(s.p, block_jacobian(IV as int, eye), noise3(sigma), 3) is Some {
        lemma_block_fix(val, s, IV as int, v3::subtracted(fix, s.nom.v), sigma);
    }
    lemma_constants(val);
    let n = N as nat;
    let h = pick(IP + 2, lit::<T>(1, 1));
    let r = single(prod(sigma, sigma));
    let z = single(diff(altitude, s.nom.p[2]));
    if gain(s.p, h, r, 1) is Some {
        let rho = val(sigma) * val(sigma);
        lemma_square(val(sigma));
        let rr = numbers(val, r);
        times_one(rho, 1real);
        assert(agree(rr, |i: int, j: int| rho * delta()(i, j), 1, 1));
        residual_never_grows(val, s, h, z, r, rho, 1);
        let k = gain(s.p, h, r, 1)->0;
        let dx = product(k, z, n, 1, 1);
        lemma_row_by_col(val, h, dx, 0, 0, n);
        let f = |t: int| val(h[0][t]) * val(dx[t][0]);
        assert forall|t: int| 0 <= t < n && t != IP + 2 implies #[trigger] f(t) == 0real by {
            assert(val(h[0][t]) == 0real);
            times_zero(val(dx[t][0]), val(h[0][t]));
            comm(val(dx[t][0]), val(h[0][t]));
        }
        lemma_single(n, IP + 2, f);
        assert(val(h[0][IP + 2]) == 1real);
        times_one(val(dx[IP + 2][0]), 1real);
        comm(val(dx[IP + 2][0]), 1real);
        let left = residual_left(val, k, h, z, 1);
        let residual = |a: int| val(z[a][0]);
        reveal_with_fuel(rsum, 2);
        assert(dot(left, left, 1) == left(0) * left(0));
        assert(dot(residual, residual, 1) == residual(0) * residual(0));
    }
}

/// Without measurements the position grows uncertain as the velocity is: one sample adds
/// `dt (P_pv + P_vp) + dt² P_vv` to the variance of a position.
pub proof fn prediction_spreads_the_position<T: Real>(
    val: spec_fn(T) -> real,
    s: FilterState<T>,
    accel: V3<T>,
    gyro: V3<T>,
    dt: T,
    i: int,
)
    requires
        exact(val),
        0 <= i < 3,
    ensures
        ({
            let p = numbers(val, s.p);
            let d = val(dt);
            val(predicted(s, accel, gyro, dt).p[IP + i][IP + i]) == p(IP + i, IP + i) + d * (p(
                IP + i,
                IV + i,
            ) + p(IV + i, IP + i)) + (d * d) * p(IV + i, IV + i)
        }),
{
    lemma_constants(val);
    let n = N as nat;
    let a = v3::subtracted(accel, s.nom.accel_bias);
    let w = v3::subtracted(gyro, s.nom.gyro_bias);
    let f = transition(s.nom.q, a, w, dt);
    let q = process_noise(s.noise, dt);
    let (rf, p) = (numbers(val, f), numbers(val, s.p));
    let d = val(dt);
    let row = |l: int| rf(i, l);
    assert forall|l: int| 0 <= l < n && l != i && l != IV + i implies #[trigger] row(l) == 0real by {
        assert(val(f[i][l]) == 0real) by {
            if IV <= l < IV + 3 {
                let eye = identity_grid::<T>(3);
                assert(f[i][l] == prod(eye[i][l - IV], dt));
                times_zero(d, 0real);
                comm(d, 0real);
            }
        }
    }
    assert(row(i) == 1real);
    assert(row(IV + i) == d) by {
        let eye = identity_grid::<T>(3);
        assert(f[i][IV + i] == prod(eye[i][i], dt));
        times_one(d, 1real);
        comm(d, 1real);
    }
    lemma_sandwich_agrees(val, f, s.p, n, n);
    lemma_diagonal_entry(rf, p, n, i);
    // The row times the covariance.
    let rp = row_times(row, p, n);
    lemma_two_rows(row, p, d, i, IV + i, i, n);
    lemma_two_rows(row, p, d, i, IV + i, IV + i, n);
    let g = |l: int| rp(l) * row(l);
    assert forall|l: int| 0 <= l < n && l != i && l != IV + i implies #[trigger] g(l) == 0real by {
        assert(row(l) == 0real);
        times_zero(rp(l), row(l));
    }
    lemma_two(n, i, IV + i, g);
    times_one(rp(i), row(i));
    let (pp, pv, vp, vv) = (p(i, i), p(i, IV + i), p(IV + i, i), p(IV + i, IV + i));
    assert(rp(i) == pp + d * vp);
    assert(rp(IV + i) == pv + d * vv);
    dist_right(pv, d * vv, d);
    comm(pv, d);
    comm(d * vv, d);
    assoc(d, d, vv);
    dist(d, pv, vp);
    let c = congruence(f, s.p);
    assert(numbers(val, c)(i, i) == form(p, row, n));
    assert(val(q[i][i]) == 0real);
}

/// A row with a one at `a` and `d` at `b`, times a matrix.
proof fn lemma_two_rows(row: RealVec, p: RealMat, d: real, a: int, b: int, j: int, n: nat)
    requires
        0 <= a < b < n,
        row(a) == 1real,
        row(b) == d,
        forall|l: int| 0 <= l < n && l != a && l != b ==> #[trigger] row(l) == 0real,
    ensures
        row_times(row, p, n)(j) == p(a, j) + d * p(b, j),
{
    let f = |l: int| row(l) * p(l, j);
    assert forall|l: int| 0 <= l < n && l != a && l != b implies #[trigger] f(l) == 0real by {
        assert(row(l) == 0real);
        times_zero(p(l, j), row(l));
        comm(p(l, j), row(l));
    }
    lemma_two(n, a, b, f);
    times_one(p(a, j), row(a));
    comm(p(a, j), row(a));
}

/// Without measurements a bias only grows more uncertain: one sample adds `σ² dt`, the step of its
/// random walk.
pub proof fn prediction_spreads_the_biases<T: Real>(
    val: spec_fn(T) -> real,
    s: FilterState<T>,
    accel: V3<T>,
    gyro: V3<T>,
    dt: T,
    i: int,
)
    requires
        exact(val),
        IAB <= i < N,
    ensures
        ({
            let walk = val(
                if i < IWB {
                    s.noise.accel_bias
                } else {
                    s.noise.gyro_bias
                },
            );
            val(predicted(s, accel, gyro, dt).p[i][i]) == val(s.p[i][i]) + (walk * walk) * val(dt)
        }),
{
    lemma_constants(val);
    let n = N as nat;
    let a = v3::subtracted(accel, s.nom.accel_bias);
    let w = v3::subtracted(gyro, s.nom.gyro_bias);
    let f = transition(s.nom.q, a, w, dt);
    let (rf, p) = (numbers(val, f), numbers(val, s.p));
    let row = |l: int| rf(i, l);
    assert forall|l: int| 0 <= l < n implies #[trigger] row(l) == delta()(i, l) by {
        assert(val(f[i][l]) == delta()(i, l));
    }
    lemma_sandwich_agrees(val, f, s.p, n, n);
    lemma_diagonal_entry(rf, p, n, i);
    let rp = row_times(row, p, n);
    let g = |l: int| row(l) * p(l, i);
    assert forall|l: int| 0 <= l < n && l != i implies #[trigger] g(l) == 0real by {
        assert(row(l) == delta()(i, l));
        times_zero(p(l, i), row(l));
        comm(p(l, i), row(l));
    }
    lemma_single(n, i, g);
    assert(row(i) == delta()(i, i));
    times_one(p(i, i), row(i));
    comm(p(i, i), row(i));
    let h = |l: int| rp(l) * row(l);
    assert forall|l: int| 0 <= l < n && l != i implies #[trigger] h(l) == 0real by {
        assert(row(l) == delta()(i, l));
        times_zero(rp(l), row(l));
    }
    lemma_single(n, i, h);
    times_one(rp(i), row(i));
    let c = congruence(f, s.p);
    assert(numbers(val, c)(i, i) == form(p, row, n));
}

} // verus!
