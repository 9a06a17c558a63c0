//! What a prediction is: the motion of a body under the IMU, and of the error that goes with it.

use vstd::prelude::*;

use crate::exact::{exact, lemma_constants};
use crate::exact::algebra::{assoc, comm, neg, swap_middle, times_one, times_zero};
use crate::exact::covariance::lemma_sandwich_agrees;
use crate::exact::jacobians::{plus3, rotation_formula, Three};
use crate::exact::kalman::cross_matrix;
use crate::exact::matrices::{
    agree, delta, flipped, lemma_times_agree, numbers, product_is_exact, times, RealMat,
};
use crate::exact::quaternions::{four, triple};
use crate::exact::readings::{entries, seeing_matrix, turned_by};
use crate::exact::rotations::lemma_entries;
use crate::filter::{
    congruence, initial_covariance, predicted, process_noise, symmetrized, transition, FilterState,
    InitialSigma, Noise, N,
};
use crate::linalg::{grid_sum, product, skew_grid, v3, Grid, V3};
use crate::quat::{exp_map, hamilton, rotation_rows, unit, Quat};
use crate::scalar::{lit, negation, prod, sum, Real};

verus! {

/// The entries of a symmetrized matrix are the means of those on either side of the diagonal.
pub proof fn lemma_symmetrized_entry<T: Real>(val: spec_fn(T) -> real, m: Grid<T>, a: int, b: int)
    requires
        exact(val),
        0 <= a < 15,
        0 <= b < 15,
    ensures
        val(symmetrized(m, N as nat)[a][b]) == (val(m[a][b]) + val(m[b][a])) / 2real,
{
    lemma_constants(val);
    let (u, v) = (val(m[a][b]), val(m[b][a]));
    let half = 1real / 2real;
    assert(half * (u + v) == (u + v) / 2real);
    assert(half * (v + u) == (u + v) / 2real);
    let s = symmetrized(m, N as nat);
    if a == b {
        assert(s[a][b] == m[a][b]);
    } else if a < b {
        assert(s[a][b] == prod(lit::<T>(1, 2), sum(m[a][b], m[b][a])));
        assert(val(s[a][b]) == half * (u + v));
    } else {
        assert(s[a][b] == prod(lit::<T>(1, 2), sum(m[b][a], m[a][b])));
        assert(val(s[a][b]) == half * (v + u));
    }
}

/// How an error moves in a time `d` on which the body feels the force `f` and the error of the
/// orientation is turned by `turn`. The position error follows the velocity error. The velocity error
/// follows the error of the force: that of a turned body, and that of its bias. The orientation error
/// turns with the body and follows the bias of the rate. The biases stay.
pub open spec fn error_motion(q: RealMat, f: Three, turn: RealMat, d: real) -> RealMat {
    let force = times(q, cross_matrix(f), 3);
    |i: int, j: int|
        if 3 <= i < 6 && 6 <= j < 9 {
            -(force(i - 3, j - 6) * d)
        } else if 3 <= i < 6 && 9 <= j < 12 {
            -(q(i - 3, j - 9) * d)
        } else if 6 <= i < 9 && 6 <= j < 9 {
            turn(i - 6, j - 6)
        } else if (i < 3 && j == i + 3) {
            d
        } else if 6 <= i < 9 && j == i + 6 {
            -d
        } else {
            delta()(i, j)
        }
}

/// What the noise of the IMU adds in a time `d`: white noise moves velocity and orientation by `σ d`, a
/// random walk moves a bias by `σ √d`.
pub open spec fn noise_added(
    accel: real,
    gyro: real,
    accel_walk: real,
    gyro_walk: real,
    d: real,
) -> RealMat {
    |i: int, j: int|
        if i != j || i < 3 {
            0real
        } else if i < 6 {
            (accel * d) * (accel * d)
        } else if i < 9 {
            (gyro * d) * (gyro * d)
        } else if i < 12 {
            (accel_walk * accel_walk) * d
        } else {
            (gyro_walk * gyro_walk) * d
        }
}

/// A prediction is the motion of the body. With the biases taken off the readings, the body is
/// accelerated by the force it feels, turned into the world, and by gravity; it is turned by the rate
/// it feels. The biases stay as they are, and so does what was noted of the last measurement.
pub proof fn prediction_moves_the_body<T: Real>(
    val: spec_fn(T) -> real,
    s: FilterState<T>,
    accel: V3<T>,
    gyro: V3<T>,
    dt: T,
)
    requires
        exact(val),
    ensures
        ({
            let next = predicted(s, accel, gyro, dt);
            let d = val(dt);
            let felt = (
                val(accel[0]) - val(s.nom.accel_bias[0]),
                val(accel[1]) - val(s.nom.accel_bias[1]),
                val(accel[2]) - val(s.nom.accel_bias[2]),
            );
            let a = entries(
                plus3(turned_by(four(val, s.nom.q), felt), triple(val, s.noise.gravity)),
            );
            &&& forall|i: int|
                0 <= i < 3 ==> val(#[trigger] next.nom.p[i]) == val(s.nom.p[i]) + val(s.nom.v[i]) * d
                    + a(i) * ((d * d) / 2real)
            &&& forall|i: int|
                0 <= i < 3 ==> val(#[trigger] next.nom.v[i]) == val(s.nom.v[i]) + a(i) * d
            &&& exists|turn: V3<T>|
                triple(val, turn) == (
                    (val(gyro[0]) - val(s.nom.gyro_bias[0])) * d,
                    (val(gyro[1]) - val(s.nom.gyro_bias[1])) * d,
                    (val(gyro[2]) - val(s.nom.gyro_bias[2])) * d,
                ) && next.nom.q == #[trigger] unit(hamilton(s.nom.q, exp_map(turn)))
            &&& next.nom.accel_bias == s.nom.accel_bias
            &&& next.nom.gyro_bias == s.nom.gyro_bias
            &&& next.noise == s.noise
            &&& next.last_update == s.last_update
        }),
{
    lemma_constants(val);
    let next = predicted(s, accel, gyro, dt);
    let d = val(dt);
    let f = v3::subtracted(accel, s.nom.accel_bias);
    let w = v3::subtracted(gyro, s.nom.gyro_bias);
    let turn = v3::scaled(w, dt);
    rotation_formula(val, s.nom.q, f);
    let a = entries(
        plus3(turned_by(four(val, s.nom.q), triple(val, f)), triple(val, s.noise.gravity)),
    );
    let half = 1real / 2real;
    assoc(half, d, d);
    let dd = d * d;
    assert(half * dd == dd / 2real);
    assert forall|i: int| 0 <= i < 3 implies val(#[trigger] next.nom.p[i]) == val(s.nom.p[i]) + val(
        s.nom.v[i],
    ) * d + a(i) * ((d * d) / 2real) by {
        assert(i == 0 || i == 1 || i == 2);
    }
    assert forall|i: int| 0 <= i < 3 implies val(#[trigger] next.nom.v[i]) == val(s.nom.v[i]) + a(i)
        * d by {
        assert(i == 0 || i == 1 || i == 2);
    }
    assert(next.nom.q == unit(hamilton(s.nom.q, exp_map(turn))));
}

/// The transition in numbers.
proof fn lemma_transition<T: Real>(val: spec_fn(T) -> real, q: Quat<T>, a: V3<T>, w: V3<T>, dt: T)
    requires
        exact(val),
    ensures
        agree(
            numbers(val, transition(q, a, w, dt)),
            error_motion(
                flipped(seeing_matrix(four(val, q))),
                triple(val, a),
                flipped(seeing_matrix(four(val, exp_map(v3::scaled(w, negation(dt)))))),
                val(dt),
            ),
            15,
            15,
        ),
{
    lemma_constants(val);
    let d = val(dt);
    let rows = rotation_rows(q);
    let back = exp_map(v3::scaled(w, negation(dt)));
    let turn = rotation_rows(back);
    let (r, e) = (flipped(seeing_matrix(four(val, q))), flipped(seeing_matrix(four(val, back))));
    lemma_entries(val, q);
    lemma_entries(val, back);
    let f = transition(q, a, w, dt);
    let sk = skew_grid(a);
    let force = product(rows, sk, 3, 3, 3);
    let c = cross_matrix(triple(val, a));
    assert(agree(numbers(val, rows), r, 3, 3)) by {
        assert forall|i: int, j: int| 0 <= i < 3 && 0 <= j < 3 implies #[trigger] numbers(val, rows)(
            i,
            j,
        ) == r(i, j) by {
            assert(i == 0 || i == 1 || i == 2);
            assert(j == 0 || j == 1 || j == 2);
        }
    }
    assert(agree(numbers(val, turn), e, 3, 3)) by {
        assert forall|i: int, j: int| 0 <= i < 3 && 0 <= j < 3 implies #[trigger] numbers(val, turn)(
            i,
            j,
        ) == e(i, j) by {
            assert(i == 0 || i == 1 || i == 2);
            assert(j == 0 || j == 1 || j == 2);
        }
    }
    assert(agree(numbers(val, sk), c, 3, 3)) by {
        assert forall|i: int, j: int| 0 <= i < 3 && 0 <= j < 3 implies #[trigger] numbers(val, sk)(
            i,
            j,
        ) == c(i, j) by {
            assert(i == 0 || i == 1 || i == 2);
            assert(j == 0 || j == 1 || j == 2);
        }
    }
    product_is_exact(val, rows, sk, 3, 3, 3);
    lemma_times_agree(numbers(val, rows), r, numbers(val, sk), c, 3, 3, 3);
    let rc = times(r, c, 3);
    let m = error_motion(r, triple(val, a), e, d);
    assert forall|i: int, j: int| 0 <= i < 15 && 0 <= j < 15 implies #[trigger] numbers(val, f)(i, j)
        == m(i, j) by {
        if 3 <= i < 6 && 6 <= j < 9 {
            let x = numbers(val, force)(i - 3, j - 6);
            assert(x == times(numbers(val, rows), numbers(val, sk), 3)(i - 3, j - 6));
            assert(x == rc(i - 3, j - 6));
            neg(x, d);
        } else if 3 <= i < 6 && 9 <= j < 12 {
            let x = numbers(val, rows)(i - 3, j - 9);
            assert(x == r(i - 3, j - 9));
            neg(x, d);
        } else if 6 <= i < 9 && 6 <= j < 9 {
            assert(numbers(val, turn)(i - 6, j - 6) == e(i - 6, j - 6));
        } else if i < 3 && 3 <= j < 6 {
            times_one(d, 1real);
            comm(d, 1real);
            times_zero(d, 0real);
            comm(d, 0real);
        } else if 6 <= i < 9 && 12 <= j < 15 {
            times_one(-d, 1real);
            comm(-d, 1real);
            times_zero(-d, 0real);
            comm(-d, 0real);
        }
    }
}

/// The process noise in numbers.
proof fn lemma_noise_added<T: Real>(val: spec_fn(T) -> real, noise: Noise<T>, dt: T)
    requires
        exact(val),
    ensures
        agree(
            numbers(val, process_noise(noise, dt)),
            noise_added(
                val(noise.accel),
                val(noise.gyro),
                val(noise.accel_bias),
                val(noise.gyro_bias),
                val(dt),
            ),
            15,
            15,
        ),
{
    lemma_constants(val);
    let d = val(dt);
    lemma_white(val(noise.accel), d);
    lemma_white(val(noise.gyro), d);
}

proof fn lemma_white(s: real, d: real)
    ensures
        (s * s) * d * d == (s * d) * (s * d),
{
    assoc(s * s, d, d);
    swap_middle(s, s, d, d);
}

/// The covariance follows the motion of the error: `F P Fᵀ` for the motion `F`, and what the noise of
/// the IMU adds, made symmetric.
pub proof fn prediction_moves_the_covariance<T: Real>(
    val: spec_fn(T) -> real,
    s: FilterState<T>,
    accel: V3<T>,
    gyro: V3<T>,
    dt: T,
)
    requires
        exact(val),
    ensures
        exists|back: V3<T>|
            triple(val, back) == (
                -((val(gyro[0]) - val(s.nom.gyro_bias[0])) * val(dt)),
                -((val(gyro[1]) - val(s.nom.gyro_bias[1])) * val(dt)),
                -((val(gyro[2]) - val(s.nom.gyro_bias[2])) * val(dt)),
            ) && #[trigger] covariance_moves(val, s, predicted(s, accel, gyro, dt).p, accel, dt, back),
{
    lemma_constants(val);
    let d = val(dt);
    let a = v3::subtracted(accel, s.nom.accel_bias);
    let w = v3::subtracted(gyro, s.nom.gyro_bias);
    let back = v3::scaled(w, negation(dt));
    neg(val(w[0]), d);
    neg(val(w[1]), d);
    neg(val(w[2]), d);
    let f = transition(s.nom.q, a, w, dt);
    let fpf = congruence(f, s.p);
    let q = process_noise(s.noise, dt);
    let n = N as nat;
    let rf = numbers(val, f);
    let rp = numbers(val, s.p);
    let m = error_motion(
        flipped(seeing_matrix(four(val, s.nom.q))),
        triple(val, a),
        flipped(seeing_matrix(four(val, exp_map(back)))),
        d,
    );
    lemma_transition(val, s.nom.q, a, w, dt);
    lemma_noise_added(val, s.noise, dt);
    lemma_sandwich_agrees(val, f, s.p, n, n);
    lemma_times_agree(rf, m, rp, rp, 15, 15, 15);
    lemma_times_agree(times(rf, rp, n), times(m, rp, 15), flipped(rf), flipped(m), 15, 15, 15);
    let moved = times(times(m, rp, 15), flipped(m), 15);
    let whole = grid_sum(fpf, q, n, n);
    let added = noise_added(
        val(s.noise.accel),
        val(s.noise.gyro),
        val(s.noise.accel_bias),
        val(s.noise.gyro_bias),
        d,
    );
    let next = predicted(s, accel, gyro, dt).p;
    assert forall|i: int, j: int| 0 <= i < 15 && 0 <= j < 15 implies val(#[trigger] whole[i][j])
        == moved(i, j) + added(i, j) by {
        assert(numbers(val, fpf)(i, j) == times(times(rf, rp, n), flipped(rf), n)(i, j));
        assert(times(times(rf, rp, n), flipped(rf), n)(i, j) == moved(i, j));
        assert(numbers(val, q)(i, j) == added(i, j));
    }
    assert forall|i: int, j: int| 0 <= i < 15 && 0 <= j < 15 implies val(#[trigger] next[i][j]) == (
    moved(i, j) + added(i, j) + moved(j, i) + added(j, i)) / 2real by {
        lemma_symmetrized_entry(val, whole, i, j);
        assert(val(whole[i][j]) == moved(i, j) + added(i, j));
        assert(val(whole[j][i]) == moved(j, i) + added(j, i));
    }
    assert(triple(val, a) == (
        val(accel[0]) - val(s.nom.accel_bias[0]),
        val(accel[1]) - val(s.nom.accel_bias[1]),
        val(accel[2]) - val(s.nom.accel_bias[2]),
    ));
    assert(covariance_moves(val, s, next, accel, dt, back));
}

/// The covariance `next` is that of `s` moved on by `dt` under the force read as `accel`, while the body
/// turns back by `back`.
pub open spec fn covariance_moves<T: Real>(
    val: spec_fn(T) -> real,
    s: FilterState<T>,
    next: Grid<T>,
    accel: V3<T>,
    dt: T,
    back: V3<T>,
) -> bool {
    let felt = (
        val(accel[0]) - val(s.nom.accel_bias[0]),
        val(accel[1]) - val(s.nom.accel_bias[1]),
        val(accel[2]) - val(s.nom.accel_bias[2]),
    );
    let motion = error_motion(
        flipped(seeing_matrix(four(val, s.nom.q))),
        felt,
        flipped(seeing_matrix(four(val, exp_map(back)))),
        val(dt),
    );
    let moved = times(times(motion, numbers(val, s.p), 15), flipped(motion), 15);
    let added = noise_added(
        val(s.noise.accel),
        val(s.noise.gyro),
        val(s.noise.accel_bias),
        val(s.noise.gyro_bias),
        val(dt),
    );
    forall|i: int, j: int|
        0 <= i < 15 && 0 <= j < 15 ==> val(#[trigger] next[i][j]) == (moved(i, j) + added(i, j) + moved(
            j,
            i,
        ) + added(j, i)) / 2real
}

/// A filter starts with independent errors of the given standard deviations: position, velocity,
/// orientation, accelerometer bias, gyroscope bias.
pub proof fn filter_starts_uncertain<T: Real>(
    val: spec_fn(T) -> real,
    s: InitialSigma<T>,
    i: int,
    j: int,
)
    requires
        exact(val),
        0 <= i < 15,
        0 <= j < 15,
    ensures
        ({
            let sigma = val(
                if i < 3 {
                    s.position
                } else if i < 6 {
                    s.velocity
                } else if i < 9 {
                    s.orientation
                } else if i < 12 {
                    s.accel_bias
                } else {
                    s.gyro_bias
                },
            );
            val(initial_covariance(s)[i][j]) == (if i == j {
                sigma * sigma
            } else {
                0real
            })
        }),
{
    lemma_constants(val);
}

} // verus!
