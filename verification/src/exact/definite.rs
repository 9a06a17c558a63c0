//! A positive definite covariance stays so: no direction of the error state is ever taken for known.

use vstd::prelude::*;

use crate::exact::algebra::{assoc, comm, dist_sub, neg, times_one, times_zero};
use crate::exact::conversions::{lemma_all_zero, lemma_zero_square};
use crate::exact::covariance::{
    lemma_sandwich_agrees, lemma_symmetrized_form, process_noise_is_positive,
};
use crate::exact::errors::lemma_positive_square;
use crate::exact::matrices::{
    delta, flipped, form, lemma_form_agree, lemma_form_of_congruence, lemma_form_of_sum,
    lemma_row_by_col, lemma_row_through, numbers, positive, row_times, times, RealMat, RealVec,
};
use crate::exact::quaternions::exponential_is_unit;
use crate::exact::rotations::rotation_is_orthonormal;
use crate::exact::sums::{
    lemma_add, lemma_block, lemma_scale, lemma_single, lemma_some_positive, lemma_terms, lemma_zero,
    rsum,
};
use crate::exact::{exact, lemma_constants, lemma_square};
use crate::filter::{
    attitude_corrected, baro_corrected, body_velocity_corrected, congruence, corrected, error_block,
    flow_corrected, gain, gps_corrected, gps_velocity_corrected, initial_covariance, joseph,
    lidar_corrected, mag_corrected, noise3, predicted, process_noise, range_corrected,
    reset_jacobian, single, standard_sigma, transition, FilterState, IAB, IP, ITH, IV, IWB, N,
};
use crate::flight::{
    after_att, after_baro, after_dvl, after_flow, after_gps, after_gps_vel, after_lidar, after_mag,
    after_uwb, airborne, fused, guarded, lemma_settings_kept, ranged,
};
use crate::linalg::{
    grid_diff, grid_sum, identity_grid, product, skew_grid, transposed, v3, Grid, V3,
};
use crate::quat::{exp_map, rotation_rows, Quat};
use crate::scalar::{lit, negation, prod, quot, Real};
use crate::sim::{anchors, magnetic_north, stepped, SimConfig, Tick};

verus! {

/// A row of `n` zeros.
pub open spec fn is_zero(x: RealVec, n: nat) -> bool {
    forall|i: int| 0 <= i < n ==> #[trigger] x(i) == 0real
}

/// `xᵀ m x` is positive for every `x` but zero.
pub open spec fn definite(m: RealMat, n: nat) -> bool {
    forall|x: RealVec| #[trigger] form(m, x, n) > 0real || is_zero(x, n)
}

/// The covariance of a state is positive definite.
pub open spec fn certain<T: Real>(val: spec_fn(T) -> real, s: FilterState<T>) -> bool {
    definite(numbers(val, s.p), N as nat)
}

/// The form of zero is zero.
proof fn lemma_form_of_zero(m: RealMat, x: RealVec, n: nat)
    requires
        is_zero(x, n),
    ensures
        form(m, x, n) == 0real,
{
    let xm = row_times(x, m, n);
    let f = |j: int| xm(j) * x(j);
    assert forall|j: int| 0 <= j < n implies #[trigger] f(j) == 0real by {
        assert(x(j) == 0real);
        times_zero(xm(j), x(j));
    }
    lemma_zero(n, f);
}

/// What is definite is not negative.
pub proof fn lemma_definite_is_positive(m: RealMat, n: nat)
    requires
        definite(m, n),
    ensures
        positive(m, n),
{
    assert forall|x: RealVec| #[trigger] form(m, x, n) >= 0real by {
        if is_zero(x, n) {
            lemma_form_of_zero(m, x, n);
        }
    }
}

/// A diagonal matrix of positive entries is definite.
proof fn lemma_diagonal_definite(d: RealMat, n: nat)
    requires
        forall|i: int, j: int| 0 <= i < n && 0 <= j < n && i != j ==> #[trigger] d(i, j) == 0real,
        forall|i: int| 0 <= i < n ==> #[trigger] d(i, i) > 0real,
    ensures
        definite(d, n),
{
    assert forall|x: RealVec| #[trigger] form(d, x, n) > 0real || is_zero(x, n) by {
        let xd = row_times(x, d, n);
        let f = |j: int| xd(j) * x(j);
        assert forall|j: int| 0 <= j < n implies #[trigger] f(j) == d(j, j) * (x(j) * x(j)) by {
            let g = |i: int| x(i) * d(i, j);
            assert forall|i: int| 0 <= i < n && i != j implies #[trigger] g(i) == 0real by {
                assert(d(i, j) == 0real);
                times_zero(x(i), d(i, j));
            }
            lemma_single(n, j, g);
            comm(x(j), d(j, j));
            assoc(d(j, j), x(j), x(j));
        }
        assert forall|j: int| 0 <= j < n implies #[trigger] f(j) >= 0real && (x(j) != 0real ==> f(j)
            > 0real) by {
            assert(f(j) == d(j, j) * (x(j) * x(j)));
            assert(d(j, j) > 0real);
            lemma_square(x(j));
            let (p, q) = (d(j, j), x(j) * x(j));
            assert(p * q >= 0real) by (nonlinear_arith)
                requires
                    p > 0real,
                    q >= 0real,
            ;
            if x(j) != 0real {
                if q == 0real {
                    lemma_zero_square(x(j));
                }
                assert(p * q > 0real) by (nonlinear_arith)
                    requires
                        p > 0real,
                        q > 0real,
                ;
            }
        }
        if !is_zero(x, n) {
            let k = choose|k: int| 0 <= k < n && #[trigger] x(k) != 0real;
            assert(f(k) > 0real);
            lemma_some_positive(n, k, f);
        }
    }
}

/// A grid that takes no row but zero to zero.
pub open spec fn regular(a: RealMat, n: nat) -> bool {
    forall|x: RealVec| is_zero(#[trigger] row_times(x, a, n), n) ==> is_zero(x, n)
}

/// A congruence by a regular grid keeps a grid definite.
proof fn lemma_congruence_definite<T: Real>(val: spec_fn(T) -> real, a: Grid<T>, m: Grid<T>)
    requires
        exact(val),
        definite(numbers(val, m), N as nat),
        regular(numbers(val, a), N as nat),
    ensures
        definite(numbers(val, congruence(a, m)), N as nat),
{
    let n = N as nat;
    let (ra, rm) = (numbers(val, a), numbers(val, m));
    let c = times(times(ra, rm, n), flipped(ra), n);
    lemma_sandwich_agrees(val, a, m, n, n);
    assert forall|x: RealVec| #[trigger] form(numbers(val, congruence(a, m)), x, n) > 0real || is_zero(
        x,
        n,
    ) by {
        lemma_form_agree(numbers(val, congruence(a, m)), c, x, n);
        lemma_form_of_congruence(ra, rm, x, n, n);
        let y = row_times(x, ra, n);
        assert(form(rm, y, n) > 0real || is_zero(y, n));
    }
}

/// One component of a row times a matrix, where every other term vanishes.
proof fn lemma_only(x: RealVec, a: RealMat, j: int, n: nat)
    requires
        0 <= j < n,
        a(j, j) == 1real,
        forall|i: int| 0 <= i < n && i != j ==> x(i) == 0real || #[trigger] a(i, j) == 0real,
    ensures
        row_times(x, a, n)(j) == x(j),
{
    let f = |i: int| x(i) * a(i, j);
    assert forall|i: int| 0 <= i < n && i != j implies #[trigger] f(i) == 0real by {
        if a(i, j) == 0real {
            times_zero(x(i), a(i, j));
        } else {
            times_zero(a(i, j), x(i));
            comm(a(i, j), x(i));
        }
    }
    lemma_single(n, j, f);
    times_one(x(j), a(j, j));
}

/// The transition takes no row but zero to zero.
proof fn lemma_transition_is_regular<T: Real>(val: spec_fn(T) -> real, q: Quat<T>, a: V3<T>, w: V3<T>, dt: T)
    requires
        exact(val),
    ensures
        regular(numbers(val, transition(q, a, w, dt)), N as nat),
{
    lemma_constants(val);
    let n = N as nat;
    let f = transition(q, a, w, dt);
    let rf = numbers(val, f);
    let back = negation(dt);
    let turn = exp_map(v3::scaled(w, back));
    let phi = rotation_rows(turn);
    let rphi = numbers(val, phi);
    exponential_is_unit(val, v3::scaled(w, back));
    rotation_is_orthonormal(val, turn);
    let eye = identity_grid::<T>(3);
    assert forall|x: RealVec| is_zero(#[trigger] row_times(x, rf, n), n) implies is_zero(x, n) by {
        let y = row_times(x, rf, n);
        assert forall|j: int| IP <= j < IP + 3 implies #[trigger] x(j) == 0real by {
            lemma_only(x, rf, j, n);
            assert(y(j) == 0real);
        }
        assert forall|j: int| IV <= j < IV + 3 implies #[trigger] x(j) == 0real by {
            lemma_only(x, rf, j, n);
            assert(y(j) == 0real);
        }
        // The orientation: a rotation takes only zero to zero.
        let z = |k: int| x(ITH + k);
        let zp = row_times(z, rphi, 3);
        assert forall|j: int| 0 <= j < 3 implies #[trigger] zp(j) == 0real by {
            let t = |i: int| x(i) * rf(i, ITH + j);
            assert forall|i: int| 0 <= i < n && !(ITH <= i < ITH + 3) implies #[trigger] t(i)
                == 0real by {
                if IV <= i < IV + 3 {
                    assert(x(i) == 0real);
                    times_zero(rf(i, ITH + j), x(i));
                    comm(rf(i, ITH + j), x(i));
                } else {
                    assert(rf(i, ITH + j) == 0real);
                    times_zero(x(i), rf(i, ITH + j));
                }
            }
            lemma_block(n, ITH as int, t);
            assert(f[ITH as int][ITH + j] == phi[0][j]);
            assert(f[ITH + 1][ITH + j] == phi[1][j]);
            assert(f[ITH + 2][ITH + j] == phi[2][j]);
            reveal_with_fuel(rsum, 4);
            assert(y(ITH + j) == 0real);
            assert(zp(j) == z(0) * rphi(0, j) + z(1) * rphi(1, j) + z(2) * rphi(2, j));
        }
        assert forall|k: int| 0 <= k < 3 implies #[trigger] z(k) == 0real by {
            lemma_row_through(z, rphi, flipped(rphi), 3, 3, k);
            let g = |j: int| zp(j) * flipped(rphi)(j, k);
            assert forall|j: int| 0 <= j < 3 implies #[trigger] g(j) == 0real by {
                assert(zp(j) == 0real);
                times_zero(flipped(rphi)(j, k), zp(j));
                comm(flipped(rphi)(j, k), zp(j));
            }
            lemma_zero(3, g);
            let rr = times(rphi, flipped(rphi), 3);
            assert forall|i: int| 0 <= i < 3 && i != k implies z(i) == 0real || #[trigger] rr(i, k)
                == 0real by {
                assert(rr(i, k) == delta()(i, k));
            }
            assert(rr(k, k) == delta()(k, k));
            lemma_only(z, rr, k, 3);
        }
        assert forall|j: int| ITH <= j < ITH + 3 implies #[trigger] x(j) == 0real by {
            assert(z(j - ITH) == 0real);
        }
        assert forall|j: int| IAB <= j < IAB + 3 implies #[trigger] x(j) == 0real by {
            lemma_only(x, rf, j, n);
            assert(y(j) == 0real);
        }
        assert forall|j: int| IWB <= j < IWB + 3 implies #[trigger] x(j) == 0real by {
            lemma_only(x, rf, j, n);
            assert(y(j) == 0real);
        }
    }
}

/// A row that its cross product with a vector gives back is zero.
proof fn lemma_no_fixed_cross(x0: real, x1: real, x2: real, a: real, b: real, c: real)
    requires
        x0 == x1 * c - x2 * b,
        x1 == x2 * a - x0 * c,
        x2 == x0 * b - x1 * a,
    ensures
        x0 == 0real && x1 == 0real && x2 == 0real,
{
    dist_sub(x0, x1 * c, x2 * b);
    dist_sub(x1, x2 * a, x0 * c);
    dist_sub(x2, x0 * b, x1 * a);
    assoc(x0, x1, c);
    assoc(x1, x0, c);
    comm(x0, x1);
    assoc(x0, x2, b);
    assoc(x2, x0, b);
    comm(x0, x2);
    assoc(x1, x2, a);
    assoc(x2, x1, a);
    comm(x1, x2);
    lemma_all_zero(x0, x1, x2);
}

/// The reset takes no row but zero to zero.
proof fn lemma_reset_is_regular<T: Real>(val: spec_fn(T) -> real, dth: V3<T>)
    requires
        exact(val),
    ensures
        regular(numbers(val, reset_jacobian(dth)), N as nat),
{
    lemma_constants(val);
    let n = N as nat;
    let f = reset_jacobian(dth);
    let rf = numbers(val, f);
    let half = v3::scaled(dth, lit::<T>(1, 2));
    let (a, b, c) = (val(half[0]), val(half[1]), val(half[2]));
    let sk = skew_grid(half);
    let eye = identity_grid::<T>(3);
    let g = grid_diff(eye, sk, 3, 3);
    assert forall|i: int, j: int| 0 <= i < 3 && 0 <= j < 3 implies #[trigger] rf(ITH + i, ITH + j)
        == val(g[i][j]) by {
        assert(f[ITH + i][ITH + j] == g[i][j]);
    }
    assert forall|x: RealVec| is_zero(#[trigger] row_times(x, rf, n), n) implies is_zero(x, n) by {
        let y = row_times(x, rf, n);
        assert forall|j: int| 0 <= j < n && !(ITH <= j < ITH + 3) implies #[trigger] x(j) == 0real by {
            lemma_only(x, rf, j, n);
            assert(y(j) == 0real);
        }
        let (x0, x1, x2) = (x(ITH as int), x(ITH + 1), x(ITH + 2));
        assert forall|j: int| 0 <= j < 3 implies #[trigger] y(ITH + j) == x0 * val(g[0][j]) + x1 * val(
            g[1][j],
        ) + x2 * val(g[2][j]) by {
            let t = |i: int| x(i) * rf(i, ITH + j);
            assert forall|i: int| 0 <= i < n && !(ITH <= i < ITH + 3) implies #[trigger] t(i)
                == 0real by {
                assert(x(i) == 0real);
                times_zero(rf(i, ITH + j), x(i));
                comm(rf(i, ITH + j), x(i));
            }
            lemma_block(n, ITH as int, t);
            assert(rf(ITH + 0, ITH + j) == val(g[0][j]));
            assert(rf(ITH + 1, ITH + j) == val(g[1][j]));
            assert(rf(ITH + 2, ITH + j) == val(g[2][j]));
        }
        assert(y(ITH + 0) == 0real && y(ITH + 1) == 0real && y(ITH + 2) == 0real);
        assert(val(g[0][0]) == 1real && val(g[0][1]) == c && val(g[0][2]) == -b);
        assert(val(g[1][0]) == -c && val(g[1][1]) == 1real && val(g[1][2]) == a);
        assert(val(g[2][0]) == b && val(g[2][1]) == -a && val(g[2][2]) == 1real);
        times_one(x0, 1real);
        times_one(x1, 1real);
        times_one(x2, 1real);
        neg(x1, c);
        neg(x2, a);
        neg(x0, b);
        lemma_no_fixed_cross(x0, x1, x2, a, b, c);
        assert forall|j: int| 0 <= j < n implies #[trigger] x(j) == 0real by {
            assert(j == ITH || j == ITH + 1 || j == ITH + 2 || !(ITH <= j < ITH + 3));
        }
    }
}

/// Propagation keeps the covariance positive definite.
pub proof fn predicting_keeps_definite<T: Real>(
    val: spec_fn(T) -> real,
    s: FilterState<T>,
    accel: V3<T>,
    gyro: V3<T>,
    dt: T,
)
    requires
        exact(val),
        certain(val, s),
        val(dt) >= 0real,
    ensures
        certain(val, predicted(s, accel, gyro, dt)),
{
    let n = N as nat;
    let a = v3::subtracted(accel, s.nom.accel_bias);
    let w = v3::subtracted(gyro, s.nom.gyro_bias);
    let f = transition(s.nom.q, a, w, dt);
    let q = process_noise(s.noise, dt);
    lemma_transition_is_regular(val, s.nom.q, a, w, dt);
    lemma_congruence_definite(val, f, s.p);
    process_noise_is_positive(val, s.noise, dt);
    let c = congruence(f, s.p);
    let m = grid_sum(c, q, n, n);
    let (rc, rq) = (numbers(val, c), numbers(val, q));
    let both = |i: int, j: int| rc(i, j) + rq(i, j);
    let next = predicted(s, accel, gyro, dt);
    assert forall|x: RealVec| #[trigger] form(numbers(val, next.p), x, n) > 0real || is_zero(x, n) by {
        lemma_symmetrized_form(val, m, n, x);
        lemma_form_agree(numbers(val, m), both, x, n);
        lemma_form_of_sum(rc, rq, x, n);
        assert(form(rc, x, n) > 0real || is_zero(x, n));
        assert(form(rq, x, n) >= 0real);
    }
}

/// A correction keeps the covariance positive definite, if the noise of the measurement is.
pub proof fn correcting_keeps_definite<T: Real>(
    val: spec_fn(T) -> real,
    s: FilterState<T>,
    h: Grid<T>,
    z: Grid<T>,
    r: Grid<T>,
    m: nat,
)
    requires
        exact(val),
        certain(val, s),
        definite(numbers(val, r), m),
    ensures
        certain(val, corrected(s, h, z, r, m)),
{
    lemma_constants(val);
    let n = N as nat;
    if let Some(k) = gain(s.p, h, r, m) {
        let dx = product(k, z, n, m, 1);
        let dth = error_block(dx, ITH as int);
        let p2 = congruence(reset_jacobian(dth), s.p);
        lemma_reset_is_regular(val, dth);
        lemma_congruence_definite(val, reset_jacobian(dth), s.p);
        lemma_definite_is_positive(numbers(val, p2), n);
        lemma_definite_is_positive(numbers(val, r), m);
        let ikh = grid_diff(identity_grid::<T>(n), product(k, h, n, m, n), n, n);
        let first = congruence(ikh, p2);
        let second = product(product(k, r, n, m, m), transposed(k, n, m), n, m, n);
        let j = joseph(p2, k, h, r, m);
        let (ra, rk, rh, rr, rp) = (
            numbers(val, ikh),
            numbers(val, k),
            numbers(val, h),
            numbers(val, r),
            numbers(val, p2),
        );
        let (r1, r2) = (numbers(val, first), numbers(val, second));
        let both = |a: int, b: int| r1(a, b) + r2(a, b);
        lemma_sandwich_agrees(val, ikh, p2, n, n);
        lemma_sandwich_agrees(val, k, r, n, m);
        let next = corrected(s, h, z, r, m);
        assert forall|x: RealVec| #[trigger] form(numbers(val, next.p), x, n) > 0real || is_zero(x, n) by {
            lemma_symmetrized_form(val, j, n, x);
            lemma_form_agree(numbers(val, j), both, x, n);
            lemma_form_of_sum(r1, r2, x, n);
            lemma_form_agree(r1, times(times(ra, rp, n), flipped(ra), n), x, n);
            lemma_form_agree(r2, times(times(rk, rr, m), flipped(rk), m), x, n);
            lemma_form_of_congruence(ra, rp, x, n, n);
            lemma_form_of_congruence(rk, rr, x, n, m);
            let y = row_times(x, ra, n);
            let u = row_times(x, rk, n);
            assert(form(rp, y, n) >= 0real && form(rr, u, m) >= 0real);
            assert(form(rp, y, n) > 0real || is_zero(y, n));
            assert(form(rr, u, m) > 0real || is_zero(u, m));
            if is_zero(y, n) && is_zero(u, m) {
                // x = x (I − K H) + (x K) H.
                assert forall|l: int| 0 <= l < n implies #[trigger] x(l) == 0real by {
                    let kh = times(rk, rh, m);
                    let f = |i: int| x(i) * ra(i, l);
                    let g = |i: int| x(i) * delta()(i, l);
                    let t = |i: int| (-1real) * (x(i) * kh(i, l));
                    let q = |i: int| x(i) * kh(i, l);
                    let gt = |i: int| g(i) + t(i);
                    assert forall|i: int| 0 <= i < n implies #[trigger] f(i) == gt(i) by {
                        lemma_row_by_col(val, k, h, i, l, m);
                        lemma_terms(m, |c: int| val(k[i][c]) * val(h[c][l]), |c: int| rk(i, c) * rh(c, l));
                        assert(ra(i, l) == delta()(i, l) - kh(i, l));
                        dist_sub(x(i), delta()(i, l), kh(i, l));
                    }
                    lemma_terms(n, f, gt);
                    lemma_add(n, g, t);
                    lemma_scale(n, -1real, q);
                    lemma_terms(n, t, |i: int| (-1real) * q(i));
                    lemma_only(x, delta(), l, n);
                    lemma_row_through(x, rk, rh, n, m, l);
                    let v = |c: int| u(c) * rh(c, l);
                    assert forall|c: int| 0 <= c < m implies #[trigger] v(c) == 0real by {
                        assert(u(c) == 0real);
                        times_zero(rh(c, l), u(c));
                        comm(rh(c, l), u(c));
                    }
                    lemma_zero(m, v);
                    assert(row_times(u, rh, m)(l) == rsum(m, v));
                    assert(row_times(x, kh, n)(l) == rsum(n, q));
                    assert(row_times(x, delta(), n)(l) == rsum(n, g));
                    assert(y(l) == rsum(n, f));
                    assert(y(l) == 0real);
                }
            }
        }
    }
}

/// Noise that is not zero is positive definite.
proof fn lemma_noise_definite<T: Real>(val: spec_fn(T) -> real, sigma: T)
    requires
        exact(val),
        val(sigma) != 0real,
    ensures
        definite(numbers(val, noise3(sigma)), 3),
        definite(numbers(val, single(prod(sigma, sigma))), 1),
        definite(
            numbers(
                val,
                seq![
                    seq![prod(sigma, sigma), lit::<T>(0, 1)],
                    seq![lit::<T>(0, 1), prod(sigma, sigma)],
                ],
            ),
            2,
        ),
{
    lemma_constants(val);
    let s2 = val(sigma) * val(sigma);
    lemma_square(val(sigma));
    if s2 == 0real {
        lemma_zero_square(val(sigma));
    }
    times_zero(s2, 0real);
    comm(s2, 0real);
    times_one(s2, 1real);
    comm(s2, 1real);
    lemma_diagonal_definite(numbers(val, noise3(sigma)), 3);
    lemma_diagonal_definite(numbers(val, single(prod(sigma, sigma))), 1);
    let (x, zero) = (prod(sigma, sigma), lit::<T>(0, 1));
    let r2 = seq![seq![x, zero], seq![zero, x]];
    assert(val(r2[0][0]) == s2 && val(r2[1][1]) == s2);
    assert(val(r2[0][1]) == 0real && val(r2[1][0]) == 0real);
    lemma_diagonal_definite(numbers(val, r2), 2);
}

/// Every sensor with noise keeps the covariance positive definite.
pub proof fn every_sensor_keeps_definite<T: Real>(
    val: spec_fn(T) -> real,
    s: FilterState<T>,
    v: V3<T>,
    reference: V3<T>,
    x: T,
    xy: [T; 2],
    q: Quat<T>,
    sigma: T,
)
    requires
        exact(val),
        certain(val, s),
        val(sigma) != 0real,
    ensures
        certain(val, gps_corrected(s, v, sigma)),
        certain(val, baro_corrected(s, x, sigma)),
        certain(val, mag_corrected(s, v, reference, sigma)),
        certain(val, range_corrected(s, v, x, sigma)),
        certain(val, lidar_corrected(s, x, sigma)),
        certain(val, flow_corrected(s, xy, sigma)),
        certain(val, gps_velocity_corrected(s, v, sigma)),
        certain(val, body_velocity_corrected(s, v, sigma)),
        certain(val, attitude_corrected(s, q, sigma)),
{
    lemma_noise_definite(val, sigma);
    let s2 = prod(sigma, sigma);
    let zero = lit::<T>(0, 1);
    let r2 = seq![seq![s2, zero], seq![zero, s2]];
    assert forall|h: Grid<T>, z: Grid<T>| certain(
        val,
        #[trigger] corrected(s, h, z, noise3(sigma), 3),
    ) by {
        correcting_keeps_definite(val, s, h, z, noise3(sigma), 3);
    }
    assert forall|h: Grid<T>, z: Grid<T>| certain(val, #[trigger] corrected(s, h, z, single(s2), 1)) by {
        correcting_keeps_definite(val, s, h, z, single(s2), 1);
    }
    assert forall|h: Grid<T>, z: Grid<T>| certain(val, #[trigger] corrected(s, h, z, r2, 2)) by {
        correcting_keeps_definite(val, s, h, z, r2, 2);
    }
}

proof fn lemma_sweep_definite<T: Real>(
    val: spec_fn(T) -> real,
    s: FilterState<T>,
    ranges: [T; 4],
    sigma: T,
    k: nat,
)
    requires
        exact(val),
        certain(val, s),
        val(sigma) != 0real,
        k <= 4,
    ensures
        certain(val, ranged(s, ranges, sigma, k)),
    decreases k,
{
    if k > 0 {
        let i = (k - 1) as nat;
        lemma_sweep_definite(val, s, ranges, sigma, i);
        let before = ranged(s, ranges, sigma, i);
        let x = ranges[i as int];
        every_sensor_keeps_definite(
            val,
            before,
            anchors::<T>()[i as int],
            s.nom.p,
            x,
            [x, x],
            s.nom.q,
            sigma,
        );
    }
}

/// Every sensor has noise.
pub open spec fn noisy<T>(val: spec_fn(T) -> real, cfg: SimConfig<T>) -> bool {
    &&& val(cfg.gps_noise) != 0real && val(cfg.baro_noise) != 0real && val(cfg.mag_noise) != 0real
    &&& val(cfg.lidar_noise) != 0real && val(cfg.uwb_noise) != 0real && val(cfg.flow_noise) != 0real
    &&& val(cfg.gps_vel_noise) != 0real && val(cfg.dvl_noise) != 0real && val(cfg.att_noise) != 0real
}

/// A tick keeps the covariance positive definite.
pub proof fn fusing_keeps_definite<T: Real>(
    val: spec_fn(T) -> real,
    s: FilterState<T>,
    tick: Tick<T>,
    cfg: SimConfig<T>,
)
    requires
        exact(val),
        certain(val, s),
        val(tick.dt) >= 0real,
        noisy(val, cfg),
    ensures
        certain(val, fused(s, tick, cfg)),
{
    reveal(fused);
    predicting_keeps_definite(val, s, tick.accel, tick.gyro, tick.dt);
    let s0 = predicted(s, tick.accel, tick.gyro, tick.dt);
    let (v0, x0, q0) = (tick.accel, tick.dt, s.nom.q);
    let xy0 = [x0, x0];
    let s1 = after_gps(s0, tick, cfg);
    if let Some(z) = tick.gps {
        every_sensor_keeps_definite(val, s0, z, v0, x0, xy0, q0, cfg.gps_noise);
    }
    assert(certain(val, s1));
    let s2 = after_baro(s1, tick, cfg);
    if let Some(z) = tick.baro {
        every_sensor_keeps_definite(val, s1, v0, v0, z, xy0, q0, cfg.baro_noise);
    }
    assert(certain(val, s2));
    let s3 = after_mag(s2, tick, cfg);
    if let Some(z) = tick.mag {
        every_sensor_keeps_definite(val, s2, z, magnetic_north(), x0, xy0, q0, cfg.mag_noise);
    }
    assert(certain(val, s3));
    let s4 = after_lidar(s3, tick, cfg);
    if let Some(z) = tick.lidar {
        every_sensor_keeps_definite(val, s3, v0, v0, z, xy0, q0, cfg.lidar_noise);
    }
    assert(certain(val, s4));
    let s5 = after_uwb(s4, tick, cfg);
    if let Some(z) = tick.uwb {
        lemma_sweep_definite(val, s4, z, cfg.uwb_noise, 4);
    }
    let s6 = after_flow(s5, tick, cfg);
    if let Some(z) = tick.flow {
        every_sensor_keeps_definite(val, s5, v0, v0, x0, z, q0, cfg.flow_noise);
    }
    assert(certain(val, s6));
    let s7 = after_gps_vel(s6, tick, cfg);
    if let Some(z) = tick.gps_vel {
        every_sensor_keeps_definite(val, s6, z, v0, x0, xy0, q0, cfg.gps_vel_noise);
    }
    assert(certain(val, s7));
    let s8 = after_dvl(s7, tick, cfg);
    if let Some(z) = tick.dvl {
        every_sensor_keeps_definite(val, s7, z, v0, x0, xy0, q0, cfg.dvl_noise);
    }
    assert(certain(val, s8));
    let s9 = after_att(s8, tick, cfg);
    if let Some(z) = tick.att {
        every_sensor_keeps_definite(val, s8, v0, v0, x0, xy0, z, cfg.att_noise);
    }
    assert(certain(val, s9));
}

/// Throughout a flight, whatever its settings, seed and length, the covariance that the filter
/// reports is positive definite.
pub proof fn flight_stays_definite<T: Real>(
    val: spec_fn(T) -> real,
    cfg: SimConfig<T>,
    seed: u64,
    k: nat,
)
    requires
        exact(val),
        val(cfg.imu_rate) > 0real,
    ensures
        certain(val, airborne(cfg, seed, k).filter),
    decreases k,
{
    lemma_constants(val);
    if k == 0 {
        let s = standard_sigma::<T>();
        let c = initial_covariance(s);
        let rc = numbers(val, c);
        assert(val(s.position) == 3real && val(s.velocity) == 3real / 10real);
        assert(val(s.orientation) == 1real / 10real && val(s.accel_bias) == 1real / 10real);
        assert(val(s.gyro_bias) == 1real / 100real);
        lemma_positive_square(val(s.position));
        lemma_positive_square(val(s.velocity));
        lemma_positive_square(val(s.orientation));
        lemma_positive_square(val(s.accel_bias));
        lemma_positive_square(val(s.gyro_bias));
        lemma_diagonal_definite(rc, N as nat);
    } else {
        let before = airborne(cfg, seed, (k - 1) as nat);
        flight_stays_definite(val, cfg, seed, (k - 1) as nat);
        lemma_settings_kept(cfg, seed, (k - 1) as nat);
        let tick = stepped(before.sim).0;
        assert(val(tick.dt) >= 0real) by {
            reveal(stepped);
            let rate = val(cfg.imu_rate);
            assert(tick.dt == quot(lit::<T>(1, 1), cfg.imu_rate));
            assert(1real / rate >= 0real) by (nonlinear_arith)
                requires
                    rate > 0real,
            ;
        }
        let (milli, tenth) = (lit::<T>(1, 1000), lit::<T>(1, 10_000));
        assert(val(milli) == 1real / 1000real && val(tenth) == 1real / 10_000real);
        fusing_keeps_definite(val, before.filter, tick, guarded(cfg));
    }
}

} // verus!
