//! The true motion: its velocity is the rate of its position, and its acceleration that of its
//! velocity.

use vstd::prelude::*;

use crate::exact::algebra::{assoc, comm, dist_right, dist_sub, neg};
use crate::exact::small::{lemma_absolute, lemma_scaled_bound, lemma_times_quotient};
use crate::exact::{absolute, exact};
use crate::linalg::V3;
use crate::scalar::{cosine, lit, negation, prod, sine, Real};
use crate::trajectory::{
    climb_rate, orbit_rate, true_acceleration, true_position, true_velocity, BASE_ALTITUDE,
    CLIMB_AMPLITUDE, ORBIT_RADIUS,
};

verus! {

/// Closer to `t` than `delta`, the straight line through `f(t)` with slope `rate` misses `f` by at
/// most the share `eps` of the distance.
pub open spec fn tangent<T>(
    val: spec_fn(T) -> real,
    f: spec_fn(T) -> T,
    t: T,
    rate: T,
    eps: real,
    delta: real,
) -> bool {
    &&& delta > 0real
    &&& forall|s: T|
        absolute(val(s) - val(t)) < delta ==> absolute(
            val(#[trigger] f(s)) - val(f(t)) - val(rate) * (val(s) - val(t)),
        ) <= eps * absolute(val(s) - val(t))
}

/// Near enough to `t`, the line is as close to `f` as `eps` asks.
pub open spec fn approximated<T>(
    val: spec_fn(T) -> real,
    f: spec_fn(T) -> T,
    t: T,
    rate: T,
    eps: real,
) -> bool {
    exists|delta: real| #[trigger] tangent(val, f, t, rate, eps, delta)
}

/// The derivative of `f` at `t` is `rate`.
pub open spec fn has_rate<T>(val: spec_fn(T) -> real, f: spec_fn(T) -> T, t: T, rate: T) -> bool {
    forall|eps: real| eps > 0real ==> #[trigger] approximated(val, f, t, rate, eps)
}

/// The derivative of the sine is the cosine, and that of the cosine the opposite of the sine.
pub open spec fn smooth_circle<T: Real>(val: spec_fn(T) -> real) -> bool {
    forall|a: T|
        #![trigger sine(a)]
        #![trigger cosine(a)]
        has_rate(val, |x: T| sine(x), a, cosine(a)) && has_rate(
            val,
            |x: T| cosine(x),
            a,
            negation(sine(a)),
        )
}

/// One component of a motion.
pub open spec fn along<T>(path: spec_fn(T) -> V3<T>, i: int) -> spec_fn(T) -> T {
    |s: T| path(s)[i]
}

/// A positive number over one more than a number that is not negative.
proof fn lemma_share(e: real, k: real) -> (q: real)
    requires
        e > 0real,
        k >= 0real,
    ensures
        q > 0real,
        k * q <= e,
        k * q + q == e,
{
    let m = k + 1real;
    let q = e / m;
    lemma_times_quotient(m, e);
    dist_right(k, 1real, q);
    assert(q > 0real) by (nonlinear_arith)
        requires
            m > 0real,
            e > 0real,
            m * q == e,
    ;
    q
}

/// The rate of `base + c f(w t)` is `c f′(w t) w`.
proof fn lemma_wave<T: Real>(
    val: spec_fn(T) -> real,
    f: spec_fn(T) -> T,
    slope: T,
    g: spec_fn(T) -> T,
    base: real,
    c: real,
    w: T,
    t: T,
    rate: T,
)
    requires
        exact(val),
        has_rate(val, f, prod(w, t), slope),
        forall|s: T| val(#[trigger] g(s)) == base + c * val(f(prod(w, s))),
        val(rate) == c * (val(slope) * val(w)),
    ensures
        has_rate(val, g, t, rate),
{
    let (at, aw, ac) = (prod(w, t), absolute(val(w)), absolute(c));
    lemma_absolute(val(w), 0real);
    lemma_absolute(c, val(w));
    let k = ac * aw;
    assert(k >= 0real);
    assert forall|eps: real| eps > 0real implies #[trigger] approximated(val, g, t, rate, eps) by {
        let share = lemma_share(eps, k);
        assert(approximated(val, f, at, slope, share));
        let reach = choose|delta: real| #[trigger] tangent(val, f, at, slope, share, delta);
        let delta = lemma_share(reach, aw);
        assert forall|s: T| absolute(val(s) - val(t)) < delta implies absolute(
            val(#[trigger] g(s)) - val(g(t)) - val(rate) * (val(s) - val(t)),
        ) <= eps * absolute(val(s) - val(t)) by {
            let x = val(s) - val(t);
            let y = val(w) * x;
            let there = prod(w, s);
            dist_sub(val(w), val(s), val(t));
            assert(val(there) - val(at) == y);
            lemma_absolute(val(w), x);
            lemma_absolute(x, 0real);
            lemma_scaled_bound(aw, absolute(x), delta);
            assert(absolute(y) < reach);
            let (m, n) = (val(f(there)), val(f(at)));
            let err = m - n - val(slope) * y;
            assert(absolute(err) <= share * absolute(y));
            // What is missed is `c` times what `f` misses.
            dist_sub(c, m - n, val(slope) * y);
            dist_sub(c, m, n);
            assoc(c, val(slope) * val(w), x);
            assoc(val(slope), val(w), x);
            assert(val(g(s)) - val(g(t)) - val(rate) * x == c * err);
            lemma_absolute(c, err);
            lemma_scaled_bound(ac, absolute(err), share * absolute(y));
            // |c| (share (|w| |x|)) = (k share) |x| ≤ eps |x|
            let ax = absolute(x);
            comm(share, aw * ax);
            assoc(aw, ax, share);
            comm(ax, share);
            assoc(aw, share, ax);
            assoc(ac, aw * share, ax);
            assoc(ac, aw, share);
            assert(ac * (share * absolute(y)) == (k * share) * ax);
            comm(k * share, ax);
            comm(eps, ax);
            lemma_scaled_bound(ax, k * share, eps);
        }
        assert(tangent(val, g, t, rate, eps, delta));
    }
}

/// `c · (−s) · w`, as the velocity writes it.
proof fn lemma_turned(c: real, s: real, w: real)
    ensures
        c * (-s * w) == (-c * w) * s,
        c * (s * w) == (c * w) * s,
{
    comm(s, w);
    assoc(c, w, s);
    comm(-s, w);
    neg(w, s);
    neg(c, w * s);
    comm(-c, w);
    neg(w, c);
    comm(c, w);
    comm(-(c * w), s);
    neg(s, c * w);
    comm(s, c * w);
}

/// The velocity of the true motion is the derivative of its position, climb and descent included.
pub proof fn velocity_is_the_rate_of_position<T: Real>(val: spec_fn(T) -> real, t: T)
    requires
        exact(val),
        smooth_circle(val),
    ensures
        has_rate(val, along(|s: T| true_position(s), 0), t, true_velocity(t)[0]),
        has_rate(val, along(|s: T| true_position(s), 1), t, true_velocity(t)[1]),
        has_rate(val, along(|s: T| true_position(s), 2), t, true_velocity(t)[2]),
{
    let (w, wz) = (orbit_rate::<T>(), climb_rate::<T>());
    let radius = val(lit::<T>(ORBIT_RADIUS, 1));
    let climb = val(lit::<T>(CLIMB_AMPLITUDE, 1));
    let base = val(lit::<T>(BASE_ALTITUDE, 1));
    let (at, az) = (prod(w, t), prod(wz, t));
    let path = |s: T| true_position(s);
    let (sin, cos) = (|x: T| sine(x), |x: T| cosine(x));
    let (back, up, rise) = (negation(sine(at)), cosine(at), cosine(az));
    lemma_turned(radius, val(sine(at)), val(w));
    lemma_turned(radius, val(up), val(w));
    lemma_turned(climb, val(rise), val(wz));
    lemma_wave(val, cos, back, along(path, 0), 0real, radius, w, t, true_velocity(t)[0]);
    lemma_wave(val, sin, up, along(path, 1), 0real, radius, w, t, true_velocity(t)[1]);
    lemma_wave(val, sin, rise, along(path, 2), base, climb, wz, t, true_velocity(t)[2]);
}

/// The acceleration of the true motion is the derivative of its velocity.
pub proof fn acceleration_is_the_rate_of_velocity<T: Real>(val: spec_fn(T) -> real, t: T)
    requires
        exact(val),
        smooth_circle(val),
    ensures
        has_rate(val, along(|s: T| true_velocity(s), 0), t, true_acceleration(t)[0]),
        has_rate(val, along(|s: T| true_velocity(s), 1), t, true_acceleration(t)[1]),
        has_rate(val, along(|s: T| true_velocity(s), 2), t, true_acceleration(t)[2]),
{
    let (w, wz) = (orbit_rate::<T>(), climb_rate::<T>());
    let (rw, rz) = (val(w), val(wz));
    let radius = val(lit::<T>(ORBIT_RADIUS, 1));
    let climb = val(lit::<T>(CLIMB_AMPLITUDE, 1));
    let (at, az) = (prod(w, t), prod(wz, t));
    let path = |s: T| true_velocity(s);
    let (sin, cos) = (|x: T| sine(x), |x: T| cosine(x));
    let (up, back, fall) = (cosine(at), negation(sine(at)), negation(sine(az)));
    lemma_turned(-radius * rw, val(up), rw);
    lemma_turned(radius * rw, val(sine(at)), rw);
    lemma_turned(climb * rz, val(sine(az)), rz);
    comm(-radius, rw);
    neg(rw, radius);
    comm(radius, rw);
    comm(-climb, rz);
    neg(rz, climb);
    comm(climb, rz);
    lemma_wave(val, sin, up, along(path, 0), 0real, -radius * rw, w, t, true_acceleration(t)[0]);
    lemma_wave(val, cos, back, along(path, 1), 0real, radius * rw, w, t, true_acceleration(t)[1]);
    lemma_wave(val, cos, fall, along(path, 2), 0real, climb * rz, wz, t, true_acceleration(t)[2]);
}

} // verus!
