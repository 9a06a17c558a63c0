//! The analytic trajectory, a banking helical orbit: position, velocity and acceleration are closed
//! forms, so no integration error gets into the truth.

use vstd::prelude::*;

use crate::linalg::{v3, Grid, Mat, V3};
use crate::quat::{angular_error, boxminus, matrix_quat, Quat};
use crate::scalar::{
    arctan2, cosine, diff, functional, group_real_ops, less, lit, negation, prod, quot, sine, sum,
    turn, Real,
};

verus! {

broadcast use group_real_ops;

/// Radius of the orbit, m.
pub const ORBIT_RADIUS: i64 = 40;

/// Time of one orbit, s.
pub const ORBIT_PERIOD: i64 = 30;

/// Amplitude of the climb and descent, m.
pub const CLIMB_AMPLITUDE: i64 = 8;

/// Time of one climb and descent, s.
pub const CLIMB_PERIOD: i64 = 17;

/// Mean altitude, m.
pub const BASE_ALTITUDE: i64 = 20;

/// Ground truth at an instant.
#[derive(Clone, Copy, Debug)]
pub struct TrueState<T> {
    pub p: V3<T>,
    pub v: V3<T>,
    pub q: Quat<T>,
    pub accel_bias: V3<T>,
    pub gyro_bias: V3<T>,
}

/// Angular rate of the orbit.
pub open spec fn orbit_rate<T: Real>() -> T {
    quot(turn::<T>(), lit::<T>(ORBIT_PERIOD, 1))
}

/// Angular rate of the climb.
pub open spec fn climb_rate<T: Real>() -> T {
    quot(turn::<T>(), lit::<T>(CLIMB_PERIOD, 1))
}

/// The true position at time `t`.
pub open spec fn true_position<T: Real>(t: T) -> V3<T> {
    let w = orbit_rate::<T>();
    let radius = lit::<T>(ORBIT_RADIUS, 1);
    [
        prod(radius, cosine(prod(w, t))),
        prod(radius, sine(prod(w, t))),
        sum(
            lit::<T>(BASE_ALTITUDE, 1),
            prod(lit::<T>(CLIMB_AMPLITUDE, 1), sine(prod(climb_rate::<T>(), t))),
        ),
    ]
}

/// The true velocity at time `t`.
pub open spec fn true_velocity<T: Real>(t: T) -> V3<T> {
    let w = orbit_rate::<T>();
    let wz = climb_rate::<T>();
    let radius = lit::<T>(ORBIT_RADIUS, 1);
    [
        prod(prod(negation(radius), w), sine(prod(w, t))),
        prod(prod(radius, w), cosine(prod(w, t))),
        prod(prod(lit::<T>(CLIMB_AMPLITUDE, 1), wz), cosine(prod(wz, t))),
    ]
}

/// The true acceleration at time `t`.
pub open spec fn true_acceleration<T: Real>(t: T) -> V3<T> {
    let w = orbit_rate::<T>();
    let wz = climb_rate::<T>();
    let radius = negation(lit::<T>(ORBIT_RADIUS, 1));
    let climb = negation(lit::<T>(CLIMB_AMPLITUDE, 1));
    [
        prod(prod(prod(radius, w), w), cosine(prod(w, t))),
        prod(prod(prod(radius, w), w), sine(prod(w, t))),
        prod(prod(prod(climb, wz), wz), sine(prod(wz, t))),
    ]
}

/// The horizontal left of a nose direction, `ẑ × fwd`; the y axis where the nose points straight up
/// or down.
pub open spec fn level_left<T: Real>(fwd: V3<T>) -> V3<T> {
    let up: V3<T> = [lit::<T>(0, 1), lit::<T>(0, 1), lit::<T>(1, 1)];
    let left = v3::crossed(up, fwd);
    v3::direction(
        if less(v3::length(left), lit::<T>(1, 1_000_000)) {
            [lit::<T>(0, 1), lit::<T>(1, 1), lit::<T>(0, 1)]
        } else {
            left
        },
    )
}

/// The rows of the matrix with the given columns.
pub open spec fn axes_grid<T>(x: V3<T>, y: V3<T>, z: V3<T>) -> Grid<T> {
    seq![seq![x[0], y[0], z[0]], seq![x[1], y[1], z[1]], seq![x[2], y[2], z[2]]]
}

/// The body axes as columns: nose along the velocity, rolled into the turn by the bank angle that
/// balances the lateral acceleration against gravity.
pub open spec fn attitude_rows<T: Real>(t: T) -> Grid<T> {
    let fwd = v3::direction(true_velocity(t));
    let left0 = level_left(fwd);
    let up0 = v3::crossed(fwd, left0);
    let phi = arctan2(
        v3::inner(true_acceleration(t), left0),
        lit::<T>(980_665, 100_000),
    );
    let s = sine(phi);
    let c = cosine(phi);
    axes_grid(
        fwd,
        v3::subtracted(v3::scaled(left0, c), v3::scaled(up0, s)),
        v3::added(v3::scaled(left0, s), v3::scaled(up0, c)),
    )
}

/// The true orientation.
pub open spec fn true_orientation<T: Real>(t: T) -> Quat<T> {
    matrix_quat(attitude_rows(t))
}

/// The truth at time `t`, without bias.
pub open spec fn truth<T: Real>(t: T) -> TrueState<T> {
    TrueState {
        p: true_position(t),
        v: true_velocity(t),
        q: true_orientation(t),
        accel_bias: v3::origin(),
        gyro_bias: v3::origin(),
    }
}

/// The body rate at `t`, by the central difference of the orientation over `±1e-4` s.
pub open spec fn true_body_rate<T: Real>(t: T) -> V3<T> {
    let h = lit::<T>(1, 10_000);
    v3::scaled(
        angular_error(true_orientation(sum(t, h)), true_orientation(diff(t, h))),
        quot(lit::<T>(1, 1), prod(lit::<T>(2, 1), h)),
    )
}

/// Angular rate of the orbit.
pub fn omega_orbit<T: Real>() -> (r: T)
    ensures
        functional::<T>() ==> r == orbit_rate::<T>(),
{
    T::tau().over(T::ratio(ORBIT_PERIOD, 1))
}

/// Angular rate of the climb.
pub fn omega_climb<T: Real>() -> (r: T)
    ensures
        functional::<T>() ==> r == climb_rate::<T>(),
{
    T::tau().over(T::ratio(CLIMB_PERIOD, 1))
}

/// The true position at time `t`.
pub fn position_at<T: Real>(t: T) -> (r: V3<T>)
    ensures
        functional::<T>() ==> r == true_position(t),
{
    let w = omega_orbit::<T>();
    let radius = T::ratio(ORBIT_RADIUS, 1);
    [
        radius.times(w.times(t).cos()),
        radius.times(w.times(t).sin()),
        T::ratio(BASE_ALTITUDE, 1).plus(
            T::ratio(CLIMB_AMPLITUDE, 1).times(omega_climb::<T>().times(t).sin()),
        ),
    ]
}

/// The true velocity at time `t`.
pub fn velocity_at<T: Real>(t: T) -> (r: V3<T>)
    ensures
        functional::<T>() ==> r == true_velocity(t),
{
    let w = omega_orbit::<T>();
    let wz = omega_climb::<T>();
    let radius = T::ratio(ORBIT_RADIUS, 1);
    [
        radius.negate().times(w).times(w.times(t).sin()),
        radius.times(w).times(w.times(t).cos()),
        T::ratio(CLIMB_AMPLITUDE, 1).times(wz).times(wz.times(t).cos()),
    ]
}

/// The true acceleration at time `t`.
pub fn accel_at<T: Real>(t: T) -> (r: V3<T>)
    ensures
        functional::<T>() ==> r == true_acceleration(t),
{
    let w = omega_orbit::<T>();
    let wz = omega_climb::<T>();
    let radius = T::ratio(ORBIT_RADIUS, 1).negate();
    [
        radius.times(w).times(w).times(w.times(t).cos()),
        radius.times(w).times(w).times(w.times(t).sin()),
        T::ratio(CLIMB_AMPLITUDE, 1).negate().times(wz).times(wz).times(wz.times(t).sin()),
    ]
}

/// Orientation of a coordinated, banking aircraft: nose along the velocity, the lift leaning into the
/// turn.
pub fn orientation_at<T: Real>(t: T) -> (r: Quat<T>)
    ensures
        functional::<T>() ==> r == true_orientation(t),
{
    let v = velocity_at(t);
    let a = accel_at(t);
    let fwd = v3::normalize(v);
    let zero = T::ratio(0, 1);
    let one = T::ratio(1, 1);
    let mut left0 = v3::cross([zero, zero, one], fwd);
    if v3::norm(left0).lt(T::ratio(1, 1_000_000)) {
        left0 = [zero, one, zero];
    }
    let left0 = v3::normalize(left0);
    let up0 = v3::cross(fwd, left0);
    let lateral = v3::dot(a, left0);
    let phi = lateral.atan2(T::ratio(980_665, 100_000));
    let s = phi.sin();
    let c = phi.cos();
    let left = v3::sub(v3::scale(left0, c), v3::scale(up0, s));
    let up = v3::add(v3::scale(left0, s), v3::scale(up0, c));
    let m = Mat::<T, 3, 3>::from_rows(
        [
            [fwd[0], left[0], up[0]],
            [fwd[1], left[1], up[1]],
            [fwd[2], left[2], up[2]],
        ],
    );
    assert(m@ =~~= axes_grid(fwd, left, up));
    Quat::from_matrix(&m)
}

/// The truth at time `t`, without bias.
pub fn truth_at<T: Real>(t: T) -> (r: TrueState<T>)
    ensures
        functional::<T>() ==> r == truth(t),
{
    TrueState {
        p: position_at(t),
        v: velocity_at(t),
        q: orientation_at(t),
        accel_bias: v3::zero(),
        gyro_bias: v3::zero(),
    }
}

/// The body-frame angular rate that a gyroscope would read.
pub fn body_rate<T: Real>(t: T) -> (r: V3<T>)
    ensures
        functional::<T>() ==> r == true_body_rate(t),
{
    let h = T::ratio(1, 10_000);
    let earlier = orientation_at(t.minus(h));
    let later = orientation_at(t.plus(h));
    v3::scale(boxminus(later, earlier), T::ratio(1, 1).over(T::ratio(2, 1).times(h)))
}

} // verus!
