//! The logarithm: it takes the short way round, the exponential undoes it, and the error of an
//! estimate, folded in, gives the truth.

use vstd::prelude::*;

use crate::exact::algebra::{
    assoc, comm, dist_right, neg, same_square, square_of_product, swap_middle, times_one,
    times_zero,
};
use crate::exact::composition::{lemma_times_conjugate, product_of_units_is_unit, qconj, qmul, Four};
use crate::exact::conversions::{
    lemma_all_zero, lemma_exp_of_zero, normalizing_keeps_unit, same_rotation,
};
use crate::exact::errors::{lemma_conjugate, lemma_undone, vector_part};
use crate::exact::quaternions::{exponential_is_unit, four, is_unit, triple};
use crate::exact::small::{
    close_four, close_rotation, cube, exact_small, lemma_at_most, lemma_normalized,
    lemma_normalizer, lemma_powers, lemma_product_close, lemma_scaled_bound, lemma_series,
    lemma_shortened, lemma_times_quotient, lemma_tiny_cube, lemma_unit_components, qneg,
};
use crate::exact::{absolute, exact, lemma_constants, lemma_reciprocal, lemma_square};
use crate::filter::{error_block, nudged, Nominal, IAB, IP, ITH, IV, IWB, N};
use crate::linalg::v3;
use crate::metrics::{error_column, error_part};
use crate::quat::{
    angular_error, conjugated, exp_map, hamilton, log_map, norm_squared, opposite, short_way, Quat,
};
use crate::scalar::{arctan2, cosine, lit, prod, quarter_turn, root, sine, Real};
use crate::trajectory::TrueState;

verus! {

/// The arctangent in the first quadrant: it depends on the numbers alone, lies between zero and a
/// quarter turn, and gives the angle whose sine and cosine are a point of the unit circle. An angle
/// is at least its sine, and a quarter turn at least one.
pub open spec fn exact_arcs<T: Real>(val: spec_fn(T) -> real) -> bool {
    &&& val(quarter_turn::<T>()) >= 1real
    &&& forall|a: T| val(a) >= 0real ==> val(#[trigger] sine(a)) <= val(a)
    &&& forall|y: T, x: T, y2: T, x2: T|
        #![trigger arctan2(y, x), arctan2(y2, x2)]
        val(y) == val(y2) && val(x) == val(x2) ==> val(arctan2(y, x)) == val(arctan2(y2, x2))
    &&& forall|y: T, x: T|
        val(y) >= 0real && val(x) >= 0real ==> 0real <= val(#[trigger] arctan2(y, x)) <= val(
            quarter_turn::<T>(),
        )
    &&& forall|t: T, y: T, x: T|
        #![trigger sine(t), arctan2(y, x)]
        #![trigger cosine(t), arctan2(y, x)]
        val(y) >= 0real && val(x) >= 0real && val(y) * val(y) + val(x) * val(x) == 1real && val(t)
            == val(arctan2(y, x)) ==> val(sine(t)) == val(y) && val(cosine(t)) == val(x)
}

/// The length of the vector part, taken the short way round.
pub open spec fn reach<T: Real>(val: spec_fn(T) -> real, q: Quat<T>) -> real {
    val(v3::length(vector_part(short_way(q))))
}

/// The quaternions whose logarithm the exponential undoes exactly: no rotation, and those that the
/// logarithm does not take for small.
pub open spec fn settled<T: Real>(val: spec_fn(T) -> real, q: Quat<T>) -> bool {
    reach(val, q) == 0real || reach(val, q) >= 1real / 1_000_000_000real
}

/// The short way round is the same rotation, of the same size, and not negative.
proof fn lemma_short<T: Real>(val: spec_fn(T) -> real, q: Quat<T>)
    requires
        exact(val),
        is_unit(val, q),
    ensures
        ({
            let (w, x, y, z) = four(val, short_way(q));
            let n = reach(val, q);
            &&& w >= 0real
            &&& n >= 0real
            &&& n * n == x * x + y * y + z * z
            &&& n * n + w * w == 1real
            &&& same_rotation(val, short_way(q), q)
        }),
{
    lemma_constants(val);
    let (w, x, y, z) = four(val, q);
    lemma_square(x);
    lemma_square(y);
    lemma_square(z);
    lemma_opposite_square(w);
    lemma_opposite_square(x);
    lemma_opposite_square(y);
    lemma_opposite_square(z);
}

proof fn lemma_opposite_square(a: real)
    ensures
        (-a) * (-a) == a * a,
{
    neg(-a, a);
    comm(-a, a);
    neg(a, a);
}

/// A vector times a factor is that many times as long.
proof fn lemma_scaled_length(a: real, b: real, c: real, f: real, n: real)
    requires
        n * n == a * a + b * b + c * c,
    ensures
        (a * f) * (a * f) + (b * f) * (b * f) + (c * f) * (c * f) == (n * f) * (n * f),
{
    square_of_product(a, f);
    square_of_product(b, f);
    square_of_product(c, f);
    square_of_product(n, f);
    let k = f * f;
    dist_right(a * a + b * b, c * c, k);
    dist_right(a * a, b * b, k);
}

/// The length of the logarithm: twice the arctangent, or twice the reach where that is small.
proof fn lemma_log_length<T: Real>(val: spec_fn(T) -> real, q: Quat<T>)
    requires
        exact(val),
        exact_arcs(val),
        is_unit(val, q),
    ensures
        ({
            let s = short_way(q);
            let v = vector_part(s);
            let n = reach(val, q);
            let length = val(v3::length(log_map(q)));
            if n < 1real / 1_000_000_000real {
                length == 2real * n
            } else {
                &&& length == 2real * val(arctan2(v3::length(v), s.w))
                &&& val(arctan2(v3::length(v), s.w)) >= n
            }
        }),
{
    lemma_constants(val);
    lemma_short(val, q);
    let s = short_way(q);
    let v = vector_part(s);
    let n = reach(val, q);
    let (a, b, c) = triple(val, v);
    let tiny = lit::<T>(1, 1_000_000_000);
    assert(val(tiny) == 1real / 1_000_000_000real);
    let phi = log_map(q);
    let (x, y, z) = triple(val, phi);
    lemma_square(x);
    lemma_square(y);
    lemma_square(z);
    let length = val(v3::length(phi));
    assert(length * length == x * x + y * y + z * z);
    if n < val(tiny) {
        lemma_scaled_length(a, b, c, 2real, n);
        same_square(length, n * 2real);
    } else {
        let at = arctan2(v3::length(v), s.w);
        let t = 2real * val(at);
        let f = t / n;
        assert((x, y, z) == (a * f, b * f, c * f));
        lemma_scaled_length(a, b, c, f, n);
        lemma_times_quotient(n, t);
        same_square(length, t);
        assert(val(sine(at)) == n);
    }
}

/// The logarithm takes the shorter of the two equivalent rotations: its angle is at most half a turn.
pub proof fn logarithm_is_the_short_way<T: Real>(val: spec_fn(T) -> real, q: Quat<T>)
    requires
        exact(val),
        exact_arcs(val),
        is_unit(val, q),
    ensures
        val(v3::length(log_map(q))) <= 2real * val(quarter_turn::<T>()),
{
    lemma_log_length(val, q);
    lemma_short(val, q);
    let s = short_way(q);
    let at = arctan2(v3::length(vector_part(s)), s.w);
    assert(val(at) <= val(quarter_turn::<T>()));
}

/// The exponential of the logarithm of a unit quaternion is that quaternion, taken the short way
/// round.
proof fn lemma_exp_of_log<T: Real>(val: spec_fn(T) -> real, q: Quat<T>)
    requires
        exact(val),
        exact_arcs(val),
        is_unit(val, q),
        settled(val, q),
    ensures
        four(val, exp_map(log_map(q))) == four(val, short_way(q)),
{
    lemma_constants(val);
    lemma_short(val, q);
    lemma_log_length(val, q);
    let s = short_way(q);
    let v = vector_part(s);
    let n = reach(val, q);
    let (a, b, c) = triple(val, v);
    let phi = log_map(q);
    let tiny = lit::<T>(1, 1_000_000_000);
    assert(val(tiny) == 1real / 1_000_000_000real);
    if n == 0real {
        times_zero(n, n);
        lemma_all_zero(a, b, c);
        times_zero(2real, 0real);
        comm(2real, 0real);
        assert(triple(val, phi) == (0real, 0real, 0real));
        lemma_exp_of_zero(val, phi);
        times_one(1real, 1real);
        same_square(val(s.w), 1real);
    } else {
        let at = arctan2(v3::length(v), s.w);
        let t = 2real * val(at);
        let angle = v3::length(phi);
        let half = prod(angle, lit::<T>(1, 2));
        comm(val(angle), 1real / 2real);
        assert(val(half) == val(at));
        assert(val(sine(half)) == n && val(cosine(half)) == val(s.w));
        let f = t / n;
        let g = n / t;
        assert(f * g == 1real) by {
            lemma_reciprocal(t, n);
            lemma_reciprocal(n, t);
            let (i, j) = (1real / n, 1real / t);
            swap_middle(t, i, n, j);
            comm(i, n);
            comm(t, n);
            swap_middle(n, i, t, j);
            comm(i, t);
            assert((t * i) * (n * j) == (t * n) * (i * j));
            assert((n * i) * (t * j) == (n * t) * (i * j));
            times_one(n * i, t * j);
        }
        assoc(a, f, g);
        assoc(b, f, g);
        assoc(c, f, g);
        times_one(a, f * g);
        times_one(b, f * g);
        times_one(c, f * g);
    }
}

/// What the exponential leaves of the logarithm of a small rotation: the normalized `(1, v)`, or the
/// sine and cosine of the length of the vector part.
proof fn lemma_exp_of_small_log<T: Real>(val: spec_fn(T) -> real, q: Quat<T>)
    requires
        exact(val),
        exact_arcs(val),
        exact_small(val),
        is_unit(val, q),
        !settled(val, q),
    ensures
        close_four(
            four(val, exp_map(log_map(q))),
            four(val, short_way(q)),
            cube(reach(val, q)),
        ),
{
    lemma_constants(val);
    lemma_short(val, q);
    lemma_log_length(val, q);
    let s = short_way(q);
    let v = vector_part(s);
    let n = reach(val, q);
    let (a, b, c) = triple(val, v);
    let phi = log_map(q);
    let tiny = lit::<T>(1, 1_000_000_000);
    assert(val(tiny) == 1real / 1_000_000_000real);
    lemma_square(a);
    lemma_square(b);
    lemma_square(c);
    lemma_at_most(a, n);
    lemma_at_most(b, n);
    lemma_at_most(c, n);
    lemma_powers(n);
    let n2 = n * n;
    let angle = v3::length(phi);
    let half = lit::<T>(1, 2);
    assert(triple(val, phi) == (a * 2real, b * 2real, c * 2real));
    assert(val(angle) == 2real * n);
    if val(angle) < val(tiny) {
        let e = Quat {
            w: lit::<T>(1, 1),
            x: prod(phi[0], half),
            y: prod(phi[1], half),
            z: prod(phi[2], half),
        };
        assert(four(val, e) == (1real, a, b, c));
        let m = root(norm_squared(e));
        times_one(1real, 1real);
        assert(val(norm_squared(e)) == 1real + n2);
        lemma_normalizer(n, val(m));
        lemma_normalized(n, val(m), val(s.w));
        let i = 1real / val(m);
        lemma_reciprocal(a, val(m));
        lemma_reciprocal(b, val(m));
        lemma_reciprocal(c, val(m));
        assert(four(val, exp_map(phi)) == (i, a * i, b * i, c * i));
        lemma_shortened(a, i, n, n2 / 2real);
        lemma_shortened(b, i, n, n2 / 2real);
        lemma_shortened(c, i, n, n2 / 2real);
        assert(n * (n2 / 2real) <= cube(n)) by {
            lemma_scaled_bound(n, n2 / 2real, n2);
        }
    } else {
        let at = prod(angle, half);
        comm(val(angle), 1real / 2real);
        assert(val(at) == n);
        let (sn, cs) = (val(sine(at)), val(cosine(at)));
        lemma_series(n, sn, cs, val(s.w));
        let f = sn / (2real * n);
        let k = sn / n;
        assert(2real * f == k) by {
            lemma_times_quotient(2real * n, sn);
            lemma_times_quotient(n, sn);
            assoc(2real, n, f);
            comm(n, f);
            assoc(2real, f, n);
            comm(2real * f, n);
            let (x, y) = (2real * f, k);
            assert(x == y) by (nonlinear_arith)
                requires
                    n > 0real,
                    n * x == n * y,
            ;
        }
        assoc(a, 2real, f);
        assoc(b, 2real, f);
        assoc(c, 2real, f);
        assert(four(val, exp_map(phi)) == (cs, a * k, b * k, c * k));
        lemma_shortened(a, k, n, n2 / 6real);
        lemma_shortened(b, k, n, n2 / 6real);
        lemma_shortened(c, k, n, n2 / 6real);
        assert(n * (n2 / 6real) <= cube(n)) by {
            lemma_scaled_bound(n, n2 / 6real, n2);
        }
    }
}

/// How far the exponential of the logarithm may be from a quaternion: not at all, except where the
/// logarithm takes the vector part for small; there by its cube, less than `1e-27`.
pub open spec fn gap<T: Real>(val: spec_fn(T) -> real, q: Quat<T>) -> real {
    if settled(val, q) {
        0real
    } else {
        cube(reach(val, q))
    }
}

/// The exponential undoes the logarithm: `exp(log q)` is `q` or `−q`. Where the logarithm takes the
/// vector part for small, each component is within the cube of its length.
pub proof fn exp_undoes_log<T: Real>(val: spec_fn(T) -> real, q: Quat<T>)
    requires
        exact(val),
        exact_arcs(val),
        exact_small(val),
        is_unit(val, q),
    ensures
        close_rotation(val, exp_map(log_map(q)), q, gap(val, q)),
        settled(val, q) ==> same_rotation(val, exp_map(log_map(q)), q),
{
    lemma_short(val, q);
    if settled(val, q) {
        lemma_exp_of_log(val, q);
    } else {
        lemma_exp_of_small_log(val, q);
    }
}

/// `q` and `−q`, the same rotation, have the same logarithm, unless it is half a turn.
pub proof fn opposite_has_the_same_log<T: Real>(val: spec_fn(T) -> real, q: Quat<T>)
    requires
        exact(val),
        exact_arcs(val),
        is_unit(val, q),
        val(q.w) != 0real,
    ensures
        triple(val, log_map(opposite(q))) == triple(val, log_map(q)),
{
    lemma_constants(val);
    let (w, x, y, z) = four(val, q);
    lemma_opposite_square(w);
    lemma_opposite_square(x);
    lemma_opposite_square(y);
    lemma_opposite_square(z);
    let o = opposite(q);
    assert(is_unit(val, o));
    lemma_short(val, q);
    lemma_short(val, o);
    let (s, u) = (short_way(q), short_way(o));
    assert(four(val, s) == four(val, u));
    same_square(reach(val, q), reach(val, o));
    let (m, n) = (v3::length(vector_part(s)), v3::length(vector_part(u)));
    assert(val(m) == val(n));
    let (at, bt) = (arctan2(m, s.w), arctan2(n, u.w));
    assert(val(at) == val(bt));
    let tiny = lit::<T>(1, 1_000_000_000);
    assert(val(tiny) == 1real / 1_000_000_000real);
    assert(triple(val, vector_part(s)) == triple(val, vector_part(u)));
    if val(m) < val(tiny) {
    } else {
        let (a, b, c) = triple(val, vector_part(s));
        let f = (2real * val(at)) / val(m);
        assert(triple(val, log_map(q)) == (a * f, b * f, c * f));
        assert(triple(val, log_map(o)) == (a * f, b * f, c * f));
    }
}

/// `a ⊗ (−b) = −(a ⊗ b)`.
proof fn lemma_negated_product(a: Four, b: Four)
    ensures
        ({
            let p = qmul(a, b);
            qmul(a, (-b.0, -b.1, -b.2, -b.3)) == (-p.0, -p.1, -p.2, -p.3)
        }),
{
    neg(a.0, b.0);
    neg(a.0, b.1);
    neg(a.0, b.2);
    neg(a.0, b.3);
    neg(a.1, b.0);
    neg(a.1, b.1);
    neg(a.1, b.2);
    neg(a.1, b.3);
    neg(a.2, b.0);
    neg(a.2, b.1);
    neg(a.2, b.2);
    neg(a.2, b.3);
    neg(a.3, b.0);
    neg(a.3, b.1);
    neg(a.3, b.2);
    neg(a.3, b.3);
}

/// The logarithm of a quaternion that is close to no rotation, of either sign, is close to zero.
proof fn lemma_log_near_identity<T: Real>(val: spec_fn(T) -> real, e: Quat<T>, bound: real)
    requires
        exact(val),
        is_unit(val, e),
        0real <= bound < 1real / 5_000_000_000real,
        close_four(four(val, e), (1real, 0real, 0real, 0real), bound) || close_four(
            four(val, e),
            (-1real, 0real, 0real, 0real),
            bound,
        ),
    ensures
        ({
            let (x, y, z) = triple(val, log_map(e));
            &&& absolute(x) <= 2real * bound
            &&& absolute(y) <= 2real * bound
            &&& absolute(z) <= 2real * bound
        }),
{
    lemma_constants(val);
    lemma_short(val, e);
    let v = vector_part(short_way(e));
    let (a, b, c) = triple(val, v);
    let n = reach(val, e);
    let tiny = lit::<T>(1, 1_000_000_000);
    assert(val(tiny) == 1real / 1_000_000_000real);
    let bb = bound * bound;
    lemma_bounded_square(a, bound);
    lemma_bounded_square(b, bound);
    lemma_bounded_square(c, bound);
    assert(n * n <= 3real * bb);
    let t = 2real * bound;
    assert(t * t == 4real * bb) by {
        square_of_product(2real, bound);
    }
    lemma_at_most(n, t);
    assert(triple(val, log_map(e)) == (a * 2real, b * 2real, c * 2real));
}

proof fn lemma_bounded_square(a: real, bound: real)
    requires
        absolute(a) <= bound,
    ensures
        0real <= a * a <= bound * bound,
{
    let y = absolute(a);
    lemma_opposite_square(a);
    lemma_square(a);
    lemma_scaled_bound(y, y, bound);
    lemma_scaled_bound(bound, y, bound);
    comm(y, bound);
}

/// Folding the error of an estimate into it gives the truth. Position, velocity and biases are the
/// true ones. The orientation is the true one or its opposite, and the error that is left is zero in
/// every component, except where the logarithm takes the orientation error for small: there they are
/// so within a few times the cube of the vector part of that error.
pub proof fn injecting_the_error_recovers_the_truth<T: Real>(
    val: spec_fn(T) -> real,
    nom: Nominal<T>,
    truth: TrueState<T>,
)
    requires
        exact(val),
        exact_arcs(val),
        exact_small(val),
        is_unit(val, nom.q),
        is_unit(val, truth.q),
    ensures
        ({
            let next = nudged(nom, error_column(nom, truth));
            let between = hamilton(conjugated(nom.q), truth.q);
            let left = error_column(next, truth);
            &&& triple(val, next.p) == triple(val, truth.p)
            &&& triple(val, next.v) == triple(val, truth.v)
            &&& triple(val, next.accel_bias) == triple(val, truth.accel_bias)
            &&& triple(val, next.gyro_bias) == triple(val, truth.gyro_bias)
            &&& close_rotation(val, next.q, truth.q, 4real * gap(val, between))
            &&& forall|i: int|
                0 <= i < N ==> absolute(val(#[trigger] left[i][0])) <= 32real * gap(val, between)
            &&& settled(val, between) ==> same_rotation(val, next.q, truth.q)
            &&& settled(val, between) ==> forall|i: int|
                0 <= i < N ==> val(#[trigger] left[i][0]) == 0real
        }),
{
    let e = error_column(nom, truth);
    let next = nudged(nom, e);
    let log = angular_error(truth.q, nom.q);
    assert(error_block(e, ITH as int) =~= log);
    assert(error_block(e, IP as int) =~= error_part(nom, truth, 0));
    assert(error_block(e, IV as int) =~= error_part(nom, truth, 1));
    assert(error_block(e, IAB as int) =~= error_part(nom, truth, 3));
    assert(error_block(e, IWB as int) =~= error_part(nom, truth, 4));
    // The orientation.
    let between = hamilton(conjugated(nom.q), truth.q);
    lemma_conjugate(val, nom.q);
    product_of_units_is_unit(val, conjugated(nom.q), truth.q);
    exp_undoes_log(val, between);
    let far = gap(val, between);
    lemma_short(val, between);
    if !settled(val, between) {
        lemma_tiny_cube(reach(val, between));
    }
    assert(0real <= far < 1real / 100_000_000_000real);
    let turn = exp_map(log);
    let (fa, fc, ft) = (four(val, nom.q), four(val, conjugated(nom.q)), four(val, truth.q));
    lemma_times_conjugate(fa);
    assert(qmul(qconj(fc), fc) == (1real, 0real, 0real, 0real));
    lemma_undone(fc, ft);
    let fb = four(val, between);
    assert(qmul(fa, fb) == ft);
    lemma_negated_product(fa, fb);
    let turned = hamilton(nom.q, turn);
    let fturn = four(val, turn);
    assert(four(val, turned) == qmul(fa, fturn));
    lemma_unit_components(fa);
    let back = if close_four(fturn, fb, far) {
        fb
    } else {
        qneg(fb)
    };
    lemma_product_close(fa, fturn, back, far);
    exponential_is_unit(val, log);
    product_of_units_is_unit(val, nom.q, turn);
    normalizing_keeps_unit(val, turned);
    // What is left.
    lemma_conjugate(val, next.q);
    let fx = four(val, next.q);
    let left = hamilton(conjugated(next.q), truth.q);
    product_of_units_is_unit(val, conjugated(next.q), truth.q);
    let fl = qconj(fx);
    assert(qmul(fl, fx) == (1real, 0real, 0real, 0real));
    lemma_negated_product(fl, fx);
    assert(four(val, left) == qmul(fl, ft));
    lemma_opposite_square(fx.1);
    lemma_opposite_square(fx.2);
    lemma_opposite_square(fx.3);
    lemma_unit_components(fl);
    let aim = if close_four(fx, ft, 4real * far) {
        fx
    } else {
        qneg(fx)
    };
    assert(close_four(ft, aim, 4real * far));
    lemma_product_close(fl, ft, aim, 4real * far);
    lemma_log_near_identity(val, left, 16real * far);
    assert forall|i: int| 0 <= i < N implies absolute(
        val(#[trigger] error_column(next, truth)[i][0]),
    ) <= 32real * far by {
        let part = error_part(next, truth, i / 3);
        assert(i / 3 != 2 ==> triple(val, part) == (0real, 0real, 0real));
        assert(i % 3 == 0 || i % 3 == 1 || i % 3 == 2);
        assert(error_column(next, truth)[i][0] == part[i % 3]);
    }
    if settled(val, between) {
        assert(same_rotation(val, next.q, truth.q));
        assert forall|i: int| 0 <= i < N implies val(#[trigger] error_column(next, truth)[i][0])
            == 0real by {
            assert(absolute(val(error_column(next, truth)[i][0])) <= 32real * far);
        }
    }
}

} // verus!
