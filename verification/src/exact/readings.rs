//! What each sensor tells the filter: its reading less what the estimate makes of it, how that depends
//! on the error, and how noisy it is.

use vstd::prelude::*;

use crate::exact::{exact, lemma_constants, lemma_reciprocal, lemma_square};
use crate::exact::algebra::{comm, neg, same_square, times_one, times_zero};
use crate::exact::composition::{qconj, Four};
use crate::exact::conversions::{at_most_half_a_turn, exact_angles, perturbation_is_recovered, slip};
use crate::exact::covariance::sound;
use crate::exact::jacobians::{
    body_velocity_is_turned_back, cross3, plus3, rotation_formula, times3, Three,
};
use crate::exact::kalman::{correction_is_the_kalman_update, corrects, cross_matrix, noise_matrix};
use crate::exact::matrices::{agree, delta, numbers, RealMat, RealVec};
use crate::exact::quaternions::{four, triple};
use crate::exact::rotations::lemma_entries;
use crate::exact::small::{close_three, exact_small};
use crate::filter::{
    attitude_corrected, attitude_reading, baro_corrected, baro_reading, body_velocity,
    body_velocity_corrected, body_velocity_reading, flow_corrected, flow_reading, gps_corrected,
    gps_reading, gps_velocity_corrected, gps_velocity_reading, lidar_corrected, lidar_reading,
    mag_corrected, mag_reading, noise3, range_corrected, range_reading, FilterState,
};
use crate::linalg::{v3, V3};
use crate::quat::{angular_error, conjugated, exp_map, hamilton, rotated_back, rotation_rows, Quat};
use crate::scalar::{lit, Real};

verus! {

/// The components of a vector.
pub open spec fn entries(v: Three) -> RealVec {
    |i: int|
        if i == 0 {
            v.0
        } else if i == 1 {
            v.1
        } else {
            v.2
        }
}

/// `a − b`, entry by entry.
pub open spec fn less_by(a: RealVec, b: RealVec) -> RealVec {
    |i: int| a(i) - b(i)
}

/// The vector `v` turned by the unit quaternion `q = (w, d)`: `v + 2w (d × v) + 2 d × (d × v)`.
pub open spec fn turned_by(q: Four, v: Three) -> Three {
    let d = (q.1, q.2, q.3);
    let dv = cross3(d, v);
    plus3(plus3(v, times3(2real, times3(q.0, dv))), times3(2real, cross3(d, dv)))
}

/// The vector `v` of the world as a body sees it whose orientation is `q`.
pub open spec fn seen_from(q: Four, v: Three) -> Three {
    turned_by(qconj(q), v)
}

/// The matrix that takes a vector of the world to what a body of orientation `q` sees of it.
pub open spec fn seeing_matrix(q: Four) -> RealMat {
    let (w, x, y, z) = q;
    |i: int, j: int|
        if i == 0 && j == 0 {
            1real - 2real * (y * y + z * z)
        } else if i == 1 && j == 0 {
            2real * (x * y - w * z)
        } else if i == 2 && j == 0 {
            2real * (x * z + w * y)
        } else if i == 0 && j == 1 {
            2real * (x * y + w * z)
        } else if i == 1 && j == 1 {
            1real - 2real * (x * x + z * z)
        } else if i == 2 && j == 1 {
            2real * (y * z - w * x)
        } else if i == 0 && j == 2 {
            2real * (x * z - w * y)
        } else if i == 1 && j == 2 {
            2real * (y * z + w * x)
        } else {
            1real - 2real * (x * x + y * y)
        }
}

/// A Jacobian with the matrix `a` on the three components of the error from `c` on.
pub open spec fn on_block(c: int, a: RealMat) -> RealMat {
    |i: int, j: int|
        if c <= j < c + 3 {
            a(i, j - c)
        } else {
            0real
        }
}

/// The sum of two Jacobians.
pub open spec fn both(a: RealMat, b: RealMat) -> RealMat {
    |i: int, j: int| a(i, j) + b(i, j)
}

/// A Jacobian of one row.
pub open spec fn one_row(f: RealVec) -> RealMat {
    |i: int, j: int| f(j)
}

/// A position fix tells the position: its residual is the fix less the estimated position, and it
/// depends on the position error alone. A velocity fix tells the velocity in the same way, and a
/// barometer the altitude.
pub proof fn fixes_tell_position_velocity_altitude<T: Real>(
    val: spec_fn(T) -> real,
    s: FilterState<T>,
    fix: V3<T>,
    altitude: T,
    sigma: T,
)
    requires
        exact(val),
        sound(val, s),
    ensures
        ({
            let var = val(sigma) * val(sigma);
            let seen = entries(triple(val, fix));
            let up = |j: int|
                if j == 2 {
                    1real
                } else {
                    0real
                };
            &&& corrects(
                val,
                s,
                gps_corrected(s, fix, sigma),
                3,
                on_block(0, delta()),
                less_by(seen, entries(triple(val, s.nom.p))),
                var,
            )
            &&& corrects(
                val,
                s,
                gps_velocity_corrected(s, fix, sigma),
                3,
                on_block(3, delta()),
                less_by(seen, entries(triple(val, s.nom.v))),
                var,
            )
            &&& corrects(
                val,
                s,
                baro_corrected(s, altitude, sigma),
                1,
                one_row(up),
                |i: int| val(altitude) - val(s.nom.p[2]),
                var,
            )
        }),
{
    lemma_constants(val);
    let var = val(sigma) * val(sigma);
    lemma_square(val(sigma));
    lemma_noise3(val, sigma);
    let seen = entries(triple(val, fix));
    let gps = gps_reading(s, fix, sigma)->0;
    let zp = less_by(seen, entries(triple(val, s.nom.p)));
    assert(agree(numbers(val, gps.h), on_block(0, delta()), 3, 15));
    assert forall|i: int| 0 <= i < 3 implies val(#[trigger] gps.z[i][0]) == zp(i) by {
        assert(i == 0 || i == 1 || i == 2);
    }
    correction_is_the_kalman_update(val, s, gps, on_block(0, delta()), zp, var);
    let vel = gps_velocity_reading(s, fix, sigma)->0;
    let zv = less_by(seen, entries(triple(val, s.nom.v)));
    assert(agree(numbers(val, vel.h), on_block(3, delta()), 3, 15));
    assert forall|i: int| 0 <= i < 3 implies val(#[trigger] vel.z[i][0]) == zv(i) by {
        assert(i == 0 || i == 1 || i == 2);
    }
    correction_is_the_kalman_update(val, s, vel, on_block(3, delta()), zv, var);
    let up = |j: int|
        if j == 2 {
            1real
        } else {
            0real
        };
    let baro = baro_reading(s, altitude, sigma)->0;
    assert(agree(numbers(val, baro.h), one_row(up), 1, 15));
    assert(agree(numbers(val, baro.r), noise_matrix(var), 1, 1));
    correction_is_the_kalman_update(
        val,
        s,
        baro,
        one_row(up),
        |i: int| val(altitude) - val(s.nom.p[2]),
        var,
    );
}

/// Independent noise of one sigma on three components.
proof fn lemma_noise3<T: Real>(val: spec_fn(T) -> real, sigma: T)
    requires
        exact(val),
    ensures
        agree(
            numbers(val, noise3(sigma)),
            noise_matrix(val(sigma) * val(sigma)),
            3,
            3,
        ),
{
    lemma_constants(val);
    let var = val(sigma) * val(sigma);
    times_one(var, 1real);
    comm(var, 1real);
    times_zero(var, 0real);
    comm(var, 0real);
}

/// What a body sees of a vector, as the filter computes it.
proof fn lemma_seen<T: Real>(val: spec_fn(T) -> real, q: Quat<T>, v: V3<T>)
    requires
        exact(val),
    ensures
        triple(val, rotated_back(q, v)) == seen_from(four(val, q), triple(val, v)),
{
    rotation_formula(val, conjugated(q), v);
}

/// The entries of the transposed rotation matrix.
proof fn lemma_seeing<T: Real>(val: spec_fn(T) -> real, q: Quat<T>, i: int, j: int)
    requires
        exact(val),
        0 <= i < 3,
        0 <= j < 3,
    ensures
        val(rotation_rows(q)[j][i]) == seeing_matrix(four(val, q))(i, j),
{
    lemma_entries(val, q);
    assert(i == 0 || i == 1 || i == 2);
    assert(j == 0 || j == 1 || j == 2);
}

/// A magnetometer tells which way a known direction of the world lies from the body: its residual is
/// the measured field less the reference as the estimated orientation sees it, and a turn of the body
/// by `δθ` changes what is seen by its cross product with `δθ`.
pub proof fn magnetometer_tells_a_direction<T: Real>(
    val: spec_fn(T) -> real,
    s: FilterState<T>,
    field: V3<T>,
    reference: V3<T>,
    sigma: T,
)
    requires
        exact(val),
        sound(val, s),
    ensures
        ({
            let expected = seen_from(four(val, s.nom.q), triple(val, reference));
            corrects(
                val,
                s,
                mag_corrected(s, field, reference, sigma),
                3,
                on_block(6, cross_matrix(expected)),
                less_by(entries(triple(val, field)), entries(expected)),
                val(sigma) * val(sigma),
            )
        }),
{
    lemma_constants(val);
    let var = val(sigma) * val(sigma);
    lemma_square(val(sigma));
    lemma_noise3(val, sigma);
    lemma_seen(val, s.nom.q, reference);
    let expected = seen_from(four(val, s.nom.q), triple(val, reference));
    let x = mag_reading(s, field, reference, sigma)->0;
    let jac = on_block(6, cross_matrix(expected));
    let z = less_by(entries(triple(val, field)), entries(expected));
    assert forall|i: int, j: int| 0 <= i < 3 && 0 <= j < 15 implies #[trigger] numbers(val, x.h)(i, j)
        == jac(i, j) by {
        assert(i == 0 || i == 1 || i == 2);
        if 6 <= j < 9 {
            assert(j == 6 || j == 7 || j == 8);
        }
    }
    assert forall|i: int| 0 <= i < 3 implies val(#[trigger] x.z[i][0]) == z(i) by {
        assert(i == 0 || i == 1 || i == 2);
    }
    correction_is_the_kalman_update(val, s, x, jac, z, var);
}

/// A Doppler log tells the velocity as the body sees it, and optical flow its two horizontal
/// components: the residual is the reading less the estimated velocity seen from the estimated
/// orientation, in every component. A velocity error is seen as a velocity is, and a turn of the body
/// by `δθ` changes what is seen by its cross product with `δθ`.
pub proof fn doppler_and_flow_tell_the_body_velocity<T: Real>(
    val: spec_fn(T) -> real,
    s: FilterState<T>,
    vel: V3<T>,
    flow: [T; 2],
    sigma: T,
)
    requires
        exact(val),
        sound(val, s),
    ensures
        ({
            let q = four(val, s.nom.q);
            let expected = seen_from(q, triple(val, s.nom.v));
            let jac = both(
                on_block(3, seeing_matrix(q)),
                on_block(6, cross_matrix(expected)),
            );
            &&& corrects(
                val,
                s,
                body_velocity_corrected(s, vel, sigma),
                3,
                jac,
                less_by(entries(triple(val, vel)), entries(expected)),
                val(sigma) * val(sigma),
            )
            &&& corrects(
                val,
                s,
                flow_corrected(s, flow, sigma),
                2,
                jac,
                less_by(entries((val(flow[0]), val(flow[1]), 0real)), entries(expected)),
                val(sigma) * val(sigma),
            )
        }),
{
    lemma_constants(val);
    let var = val(sigma) * val(sigma);
    lemma_square(val(sigma));
    lemma_noise3(val, sigma);
    lemma_seen(val, s.nom.q, s.nom.v);
    body_velocity_is_turned_back(val, s.nom);
    let q = four(val, s.nom.q);
    let expected = seen_from(q, triple(val, s.nom.v));
    assert(triple(val, body_velocity(s.nom)) == expected);
    let jac = both(on_block(3, seeing_matrix(q)), on_block(6, cross_matrix(expected)));
    let x = body_velocity_reading(s, vel, sigma)->0;
    let z = less_by(entries(triple(val, vel)), entries(expected));
    assert forall|i: int, j: int| 0 <= i < 3 && 0 <= j < 15 implies #[trigger] numbers(val, x.h)(i, j)
        == jac(i, j) by {
        assert(i == 0 || i == 1 || i == 2);
        if 3 <= j < 6 {
            lemma_seeing(val, s.nom.q, i, j - 3);
        } else if 6 <= j < 9 {
            assert(j == 6 || j == 7 || j == 8);
        }
    }
    assert forall|i: int| 0 <= i < 3 implies val(#[trigger] x.z[i][0]) == z(i) by {
        assert(i == 0 || i == 1 || i == 2);
    }
    correction_is_the_kalman_update(val, s, x, jac, z, var);
    let f = flow_reading(s, flow, sigma)->0;
    let zf = less_by(entries((val(flow[0]), val(flow[1]), 0real)), entries(expected));
    assert forall|i: int, j: int| 0 <= i < 2 && 0 <= j < 15 implies #[trigger] numbers(val, f.h)(i, j)
        == jac(i, j) by {
        assert(numbers(val, x.h)(i, j) == jac(i, j));
        assert(f.h[i][j] == x.h[i][j]);
    }
    assert forall|i: int| 0 <= i < 2 implies val(#[trigger] f.z[i][0]) == zf(i) by {
        assert(i == 0 || i == 1);
    }
    assert forall|i: int, j: int| 0 <= i < 2 && 0 <= j < 2 implies #[trigger] numbers(val, f.r)(i, j)
        == noise_matrix(var)(i, j) by {
        assert(i == 0 || i == 1);
        assert(j == 0 || j == 1);
    }
    correction_is_the_kalman_update(val, s, f, jac, zf, var);
}

/// A range tells the distance to a beacon: its residual is the range less the estimated distance, and
/// it grows with the error along the line of sight. Within a millimetre of the beacon, where there is
/// no line of sight, it tells nothing.
pub proof fn range_tells_the_distance<T: Real>(
    val: spec_fn(T) -> real,
    s: FilterState<T>,
    beacon: V3<T>,
    range: T,
    sigma: T,
    distance: real,
)
    requires
        exact(val),
        sound(val, s),
        distance >= 0real,
        ({
            let (a, b, c) = triple(val, s.nom.p);
            let (x, y, z) = triple(val, beacon);
            distance * distance == (a - x) * (a - x) + (b - y) * (b - y) + (c - z) * (c - z)
        }),
    ensures
        ({
            let next = range_corrected(s, beacon, range, sigma);
            let sight = |j: int|
                if 0 <= j < 3 {
                    (val(s.nom.p[j]) - val(beacon[j])) / distance
                } else {
                    0real
                };
            if distance < 1real / 1000real {
                next.nom == s.nom && next.p == s.p && next.noise == s.noise && next.last_update is None
            } else {
                corrects(
                    val,
                    s,
                    next,
                    1,
                    one_row(sight),
                    |i: int| val(range) - distance,
                    val(sigma) * val(sigma),
                )
            }
        }),
{
    lemma_constants(val);
    let var = val(sigma) * val(sigma);
    lemma_square(val(sigma));
    let d = v3::subtracted(s.nom.p, beacon);
    let (a, b, c) = triple(val, d);
    lemma_square(a);
    lemma_square(b);
    lemma_square(c);
    let length = v3::length(d);
    same_square(val(length), distance);
    assert(val(lit::<T>(1, 1000)) == 1real / 1000real);
    if distance >= 1real / 1000real {
        let x = range_reading(s, beacon, range, sigma)->0;
        let sight = |j: int|
            if 0 <= j < 3 {
                (val(s.nom.p[j]) - val(beacon[j])) / distance
            } else {
                0real
            };
        lemma_reciprocal(a, distance);
        lemma_reciprocal(b, distance);
        lemma_reciprocal(c, distance);
        assert forall|i: int, j: int| 0 <= i < 1 && 0 <= j < 15 implies #[trigger] numbers(val, x.h)(
            i,
            j,
        ) == one_row(sight)(i, j) by {
            if j < 3 {
                assert(j == 0 || j == 1 || j == 2);
            }
        }
        assert(agree(numbers(val, x.r), noise_matrix(var), 1, 1));
        let z = |i: int| val(range) - distance;
        correction_is_the_kalman_update(val, s, x, one_row(sight), z, var);
    }
}

/// A laser altimeter tells the slant range straight down the body to flat ground: its residual is the
/// range less the estimated altitude over the cosine of the tilt. It grows with the altitude over that
/// cosine, and with a roll or a pitch as the tilt does. Where the beam does not point at the ground
/// below, it tells nothing.
pub proof fn altimeter_tells_the_slant_range<T: Real>(
    val: spec_fn(T) -> real,
    s: FilterState<T>,
    range: T,
    sigma: T,
)
    requires
        exact(val),
        sound(val, s),
    ensures
        ({
            let next = lidar_corrected(s, range, sigma);
            let m = seeing_matrix(four(val, s.nom.q));
            let (across, along, tilt) = (m(0, 2), m(1, 2), m(2, 2));
            let height = val(s.nom.p[2]);
            let rate = height / (tilt * tilt);
            let slope = |j: int|
                if j == 2 {
                    1real / tilt
                } else if j == 6 {
                    rate * along
                } else if j == 7 {
                    -(rate * across)
                } else {
                    0real
                };
            if tilt < 2real / 10real || height <= 0real {
                next.nom == s.nom && next.p == s.p && next.noise == s.noise && next.last_update is None
            } else {
                corrects(
                    val,
                    s,
                    next,
                    1,
                    one_row(slope),
                    |i: int| val(range) - height / tilt,
                    val(sigma) * val(sigma),
                )
            }
        }),
{
    lemma_constants(val);
    let var = val(sigma) * val(sigma);
    lemma_square(val(sigma));
    assert(val(lit::<T>(2, 10)) == 2real / 10real);
    let m = seeing_matrix(four(val, s.nom.q));
    let (across, along, tilt) = (m(0, 2), m(1, 2), m(2, 2));
    lemma_seeing(val, s.nom.q, 0, 2);
    lemma_seeing(val, s.nom.q, 1, 2);
    lemma_seeing(val, s.nom.q, 2, 2);
    let height = val(s.nom.p[2]);
    if tilt >= 2real / 10real && height > 0real {
        assert(tilt * tilt > 0real) by (nonlinear_arith)
            requires
                tilt >= 2real / 10real,
        ;
        let rate = height / (tilt * tilt);
        let slope = |j: int|
            if j == 2 {
                1real / tilt
            } else if j == 6 {
                rate * along
            } else if j == 7 {
                -(rate * across)
            } else {
                0real
            };
        comm(-rate, across);
        neg(across, rate);
        comm(across, rate);
        let x = lidar_reading(s, range, sigma)->0;
        assert forall|i: int, j: int| 0 <= i < 1 && 0 <= j < 15 implies #[trigger] numbers(val, x.h)(
            i,
            j,
        ) == one_row(slope)(i, j) by {}
        assert(agree(numbers(val, x.r), noise_matrix(var), 1, 1));
        let z = |i: int| val(range) - height / tilt;
        correction_is_the_kalman_update(val, s, x, one_row(slope), z, var);
    }
}

/// An attitude fix tells the turn from the estimated orientation to the fix, in the body frame: a fix
/// that is the estimate turned by `turn` leaves the residual `turn`, to the cube of its angle where that
/// is taken for small.
pub proof fn attitude_fix_tells_the_turn<T: Real>(
    val: spec_fn(T) -> real,
    s: FilterState<T>,
    turn: V3<T>,
    sigma: T,
)
    requires
        exact(val),
        exact_angles(val),
        exact_small(val),
        sound(val, s),
        at_most_half_a_turn(val, turn),
    ensures
        exists|told: Three|
            close_three(told, triple(val, turn), slip(val, turn)) && #[trigger] corrects(
                val,
                s,
                attitude_corrected(s, hamilton(s.nom.q, exp_map(turn)), sigma),
                3,
                on_block(6, delta()),
                entries(told),
                val(sigma) * val(sigma),
            ),
{
    lemma_constants(val);
    let var = val(sigma) * val(sigma);
    lemma_square(val(sigma));
    lemma_noise3(val, sigma);
    let fix = hamilton(s.nom.q, exp_map(turn));
    let told = triple(val, angular_error(fix, s.nom.q));
    perturbation_is_recovered(val, s.nom.q, turn);
    let x = attitude_reading(s, fix, sigma)->0;
    assert(agree(numbers(val, x.h), on_block(6, delta()), 3, 15));
    assert forall|i: int| 0 <= i < 3 implies val(#[trigger] x.z[i][0]) == entries(told)(i) by {
        assert(i == 0 || i == 1 || i == 2);
    }
    correction_is_the_kalman_update(val, s, x, on_block(6, delta()), entries(told), var);
    assert(corrects(
        val,
        s,
        attitude_corrected(s, fix, sigma),
        3,
        on_block(6, delta()),
        entries(told),
        var,
    ));
}

} // verus!
