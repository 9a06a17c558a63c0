//! What the angles of an orientation say, and how steeply the aircraft banks.

use vstd::prelude::*;

use crate::exact::{absolute, exact, lemma_constants, lemma_reciprocal, lemma_square};
use crate::exact::algebra::{
    assoc, comm, dist, dist_right, dist_sub_right, neg, same_square, square_of_product, swap,
    swap_middle, times_one, times_zero,
};
use crate::exact::frames::{exact_lean, lemma_level_frame, lift_leans_into_the_turn};
use crate::exact::jacobians::{dot3, times3, Three};
use crate::exact::matrices::{delta, flipped, numbers, times};
use crate::exact::quaternions::{four, is_unit, triple};
use crate::exact::readings::seeing_matrix;
use crate::exact::rotations::{lemma_entries, rotation_is_orthonormal};
use crate::exact::small::lemma_times_quotient;
use crate::exact::sums::rsum;
use crate::linalg::{v3, V3};
use crate::quat::{euler_angles, exp_map, norm_squared, rotated, rotation_rows, Quat};
use crate::scalar::{
    arcsine, arctan2, cosine, lit, prod, quarter_turn, root, sine, turn, with_sign, Real,
};
use crate::trajectory::{level_left, true_acceleration, true_orientation, true_velocity};

verus! {

/// The inverse functions of the circle: an arctangent is the angle at which the point lies, and an
/// arcsine the angle to the right whose sine it is.
pub open spec fn exact_inverses<T: Real>(val: spec_fn(T) -> real) -> bool {
    &&& forall|y: T, x: T|
        #![trigger arctan2(y, x)]
        val(y) != 0real || val(x) != 0real ==> {
            let a = arctan2(y, x);
            &&& val(sine(a)) * val(x) == val(cosine(a)) * val(y)
            &&& val(sine(a)) * val(y) + val(cosine(a)) * val(x) > 0real
        }
    &&& forall|x: T|
        #![trigger arcsine(x)]
        absolute(val(x)) <= 1real ==> val(sine(arcsine(x))) == val(x) && val(cosine(arcsine(x))) >= 0real
    &&& forall|a: T, b: T|
        #![trigger with_sign(a, b)]
        val(b) != 0real ==> val(with_sign(a, b)) == (if val(b) < 0real {
            -absolute(val(a))
        } else {
            absolute(val(a))
        })
}

/// The point at distance `h` in the direction of an arctangent.
pub proof fn lemma_at_its_angle(x: real, y: real, c: real, s: real, h: real)
    requires
        s * s + c * c == 1real,
        s * x == c * y,
        s * y + c * x > 0real,
        h >= 0real,
        h * h == x * x + y * y,
    ensures
        x == c * h,
        y == s * h,
{
    let g = s * y + c * x;
    // c g = c s y + c c x = s s x + c c x.
    dist(c, s * y, c * x);
    assoc(c, s, y);
    comm(c, s);
    assoc(s, c, y);
    assoc(s, s, x);
    assoc(c, c, x);
    dist_right(s * s, c * c, x);
    times_one(x, 1real);
    comm(x, 1real);
    assert(c * g == x);
    dist(s, s * y, c * x);
    assoc(s, s, y);
    assoc(s, c, x);
    assoc(c, s, x);
    assoc(c, c, y);
    dist_right(s * s, c * c, y);
    times_one(y, 1real);
    comm(y, 1real);
    assert(s * g == y);
    square_of_product(c, g);
    square_of_product(s, g);
    dist_right(s * s, c * c, g * g);
    times_one(g * g, 1real);
    comm(g * g, 1real);
    same_square(h, g);
}

/// The angles of an orientation, roll, pitch and yaw, tell where it points: the nose is at the yaw from
/// the first axis and below the horizon by the pitch, and the body is rolled about it by the roll. With a
/// nose straight up or down the pitch is a quarter turn.
pub proof fn angles_tell_the_orientation<T: Real>(val: spec_fn(T) -> real, q: Quat<T>)
    requires
        exact(val),
        exact_inverses(val),
        is_unit(val, q),
    ensures
        ({
            let m = seeing_matrix(four(val, q));
            let (roll, pitch, yaw) = (euler_angles(q)[0], euler_angles(q)[1], euler_angles(q)[2]);
            let p = val(cosine(pitch));
            let (nose_x, nose_y, nose_z) = (m(0, 0), m(0, 1), m(0, 2));
            &&& absolute(nose_z) < 1real ==> {
                &&& p > 0real
                &&& nose_x == val(cosine(yaw)) * p
                &&& nose_y == val(sine(yaw)) * p
                &&& nose_z == -val(sine(pitch))
                &&& m(1, 2) == val(sine(roll)) * p
                &&& m(2, 2) == val(cosine(roll)) * p
            }
            &&& nose_z >= 1real ==> val(pitch) == -absolute(val(quarter_turn::<T>()))
            &&& nose_z <= -1real ==> val(pitch) == absolute(val(quarter_turn::<T>()))
        }),
{
    lemma_constants(val);
    lemma_entries(val, q);
    rotation_is_orthonormal(val, q);
    let (w, x, y, z) = four(val, q);
    let rows = rotation_rows(q);
    let r = numbers(val, rows);
    let (r00, r10, r20) = (val(rows[0][0]), val(rows[1][0]), val(rows[2][0]));
    let (r21, r22) = (val(rows[2][1]), val(rows[2][2]));
    comm(z, x);
    assert(r00 * r00 + r10 * r10 + r20 * r20 == 1real && r20 * r20 + r21 * r21 + r22 * r22 == 1real) by {
        assert(times(flipped(r), r, 3)(0, 0) == delta()(0, 0));
        assert(times(r, flipped(r), 3)(2, 2) == delta()(2, 2));
        reveal_with_fuel(rsum, 4);
        let f = |k: int| flipped(r)(0, k) * r(k, 0);
        let g = |k: int| r(2, k) * flipped(r)(k, 2);
        assert(rsum(3, f) == f(0) + f(1) + f(2));
        assert(rsum(3, g) == g(0) + g(1) + g(2));
    }
    let (roll, pitch, yaw) = (euler_angles(q)[0], euler_angles(q)[1], euler_angles(q)[2]);
    if absolute(r20) < 1real {
        let (p, sp) = (val(cosine(pitch)), val(sine(pitch)));
        assert(sp == -r20);
        assert(r20 * r20 < 1real) by (nonlinear_arith)
            requires
                -1real < r20 < 1real,
        ;
        assert(sp * sp == r20 * r20) by (nonlinear_arith)
            requires
                sp == -r20,
        ;
        assert(sp * sp + p * p == 1real);
        assert(p * p == r00 * r00 + r10 * r10);
        assert(p * p == r21 * r21 + r22 * r22);
        assert(p != 0real) by {
            times_zero(0real, 0real);
        }
        if r00 == 0real {
            times_zero(r00, 0real);
        }
        if r10 == 0real {
            times_zero(r10, 0real);
        }
        if r21 == 0real {
            times_zero(r21, 0real);
        }
        if r22 == 0real {
            times_zero(r22, 0real);
        }
        lemma_at_its_angle(r00, r10, val(cosine(yaw)), val(sine(yaw)), p);
        lemma_at_its_angle(r22, r21, val(cosine(roll)), val(sine(roll)), p);
    }
}

/// The exponential of a rotation vector holds half its angle: the scalar part is the cosine of half the
/// length, and the rest lies along the vector with the sine of half the length. A vector shorter than
/// `10⁻⁹` is half of itself beside one, brought to unit size.
pub proof fn exponential_holds_half_the_angle<T: Real>(val: spec_fn(T) -> real, phi: V3<T>)
    requires
        exact(val),
    ensures
        ({
            let (q, n) = (exp_map(phi), val(v3::length(phi)));
            &&& n >= 1real / 1_000_000_000real ==> exists|half: T|
                {
                    &&& val(half) == n / 2real
                    &&& val(q.w) == val(#[trigger] cosine(half))
                    &&& val(q.x) * n == val(sine(half)) * val(phi[0])
                    &&& val(q.y) * n == val(sine(half)) * val(phi[1])
                    &&& val(q.z) * n == val(sine(half)) * val(phi[2])
                }
            &&& n < 1real / 1_000_000_000real ==> {
                &&& val(q.w) > 0real
                &&& 2real * val(q.x) == val(q.w) * val(phi[0])
                &&& 2real * val(q.y) == val(q.w) * val(phi[1])
                &&& 2real * val(q.z) == val(q.w) * val(phi[2])
            }
        }),
{
    lemma_constants(val);
    assert(val(lit::<T>(1, 1_000_000_000)) == 1real / 1_000_000_000real);
    let (q, n) = (exp_map(phi), val(v3::length(phi)));
    let (a, b, c) = triple(val, phi);
    if n >= 1real / 1_000_000_000real {
        let half = prod(v3::length(phi), lit::<T>(1, 2));
        comm(n, 1real / 2real);
        assert((1real / 2real) * n == n / 2real);
        let s = val(sine(half));
        lemma_times_quotient(n, s);
        comm(n, s / n);
        lemma_half_part(a, s / n, n, s);
        lemma_half_part(b, s / n, n, s);
        lemma_half_part(c, s / n, n, s);
        assert(val(q.w) == val(cosine(half)));
    } else {
        let k = 1real / 2real;
        let (x, y, z) = (a * k, b * k, c * k);
        lemma_square(x);
        lemma_square(y);
        lemma_square(z);
        let raw = Quat {
            w: lit::<T>(1, 1),
            x: prod(phi[0], lit::<T>(1, 2)),
            y: prod(phi[1], lit::<T>(1, 2)),
            z: prod(phi[2], lit::<T>(1, 2)),
        };
        let m = val(root(norm_squared(raw)));
        times_one(1real, 1real);
        assert(val(norm_squared(raw)) >= 1real);
        if m == 0real {
            times_zero(m, 0real);
        }
        assert(m > 0real);
        assert(1real / m > 0real) by (nonlinear_arith)
            requires
                m > 0real,
        ;
        lemma_small_part(a, m);
        lemma_small_part(b, m);
        lemma_small_part(c, m);
    }
}

proof fn lemma_half_part(a: real, f: real, n: real, s: real)
    requires
        f * n == s,
    ensures
        (a * f) * n == s * a,
{
    assoc(a, f, n);
    comm(a, s);
}

proof fn lemma_small_part(a: real, m: real)
    requires
        m > 0real,
    ensures
        2real * ((a * (1real / 2real)) / m) == (1real / m) * a,
{
    let x = a * (1real / 2real);
    comm(a, 1real / 2real);
    assert(2real * x == a);
    lemma_reciprocal(x, m);
    assoc(2real, x, 1real / m);
    comm(a, 1real / m);
}

/// A level unit vector at right angles to another, with the other's length to its left.
proof fn lemma_to_the_left(f: Three, l: Three, z: real)
    requires
        f.0 * l.0 + f.1 * l.1 == 0real,
        l.0 * l.0 + l.1 * l.1 == 1real,
        z == f.0 * l.1 - f.1 * l.0,
    ensures
        z * l.0 == -f.1,
        z * l.1 == f.0,
{
    let (p, q, a, b) = (f.0, f.1, l.0, l.1);
    // z a = p b a − q a² and p a = −q b.
    dist_sub_right(p * b, q * a, a);
    assoc(p, b, a);
    comm(b, a);
    assoc(p, a, b);
    assert(p * a == -(q * b));
    neg(b, q * b);
    comm(b, p * a);
    comm(b, q * b);
    comm(b, -(q * b));
    assoc(q, b, b);
    assoc(q, a, a);
    dist(q, a * a, b * b);
    times_one(q, 1real);
    assert(z * a == -q);
    // z b = p b² − q a b and q b = −p a.
    dist_sub_right(p * b, q * a, b);
    assoc(p, b, b);
    assoc(q, a, b);
    comm(a, b);
    assoc(q, b, a);
    assert(q * b == -(p * a));
    neg(a, p * a);
    comm(a, q * b);
    comm(a, -(p * a));
    comm(a, p * a);
    assoc(p, a, a);
    dist(p, a * a, b * b);
    times_one(p, 1real);
}

/// The turn is coordinated, and the aircraft flies upright in it: its lift, the body's up axis, points
/// upwards, and leans to the side to which it accelerates by the angle whose tangent is the acceleration
/// to that side over gravity. The side is the level one to the left of the velocity.
pub proof fn bank_balances_the_turn<T: Real>(val: spec_fn(T) -> real, t: T)
    requires
        exact(val),
        exact_lean(val),
        exact_inverses(val),
        val(turn::<T>()) > 0real,
    ensures
        ({
            let up = triple(
                val,
                rotated(true_orientation(t), [lit::<T>(0, 1), lit::<T>(0, 1), lit::<T>(1, 1)]),
            );
            let v = triple(val, true_velocity(t));
            let side = (-v.1, v.0, 0real);
            let lean = dot3(up, side);
            let lateral = dot3(triple(val, true_acceleration(t)), side);
            let long = dot3(side, side);
            let g = 980_665real / 100_000real;
            &&& up.2 > 0real
            &&& lateral > 0real ==> lean > 0real
            &&& lateral < 0real ==> lean < 0real
            &&& (lean * lean) * (lateral * lateral + (g * g) * long) == (lateral * lateral) * long
        }),
{
    lift_leans_into_the_turn(val, t);
    lemma_level_frame(val, t);
    let fwd = v3::direction(true_velocity(t));
    let left = level_left(fwd);
    let a = v3::inner(true_acceleration(t), left);
    let down = lit::<T>(980_665, 100_000);
    let phi = arctan2(a, down);
    let (s, c, x, g) = (val(sine(phi)), val(cosine(phi)), val(a), 980_665real / 100_000real);
    assert(val(down) == g);
    let up = triple(
        val,
        rotated(true_orientation(t), [lit::<T>(0, 1), lit::<T>(0, 1), lit::<T>(1, 1)]),
    );
    let (v, f, l) = (triple(val, true_velocity(t)), triple(val, fwd), triple(val, left));
    let acc = triple(val, true_acceleration(t));
    // The bank: s² (x² + g²) = x², and c is positive.
    assert(s * g == c * x);
    square_of_product(s, g);
    square_of_product(c, x);
    dist(s * s, x * x, g * g);
    dist_right(s * s, c * c, x * x);
    times_one(x * x, 1real);
    comm(x * x, 1real);
    let bank = x * x + g * g;
    assert((s * s) * bank == x * x);
    assert(c > 0real) by {
        dist(g, s * x, c * g);
        assoc(g, s, x);
        comm(g, s);
        assoc(c, x, x);
        assoc(g, c, g);
        comm(g, c);
        assoc(c, g, g);
        dist(c, x * x, g * g);
        let w = s * x + c * g;
        assert(g * w > 0real) by (nonlinear_arith)
            requires
                g > 0real,
                w > 0real,
        ;
        assert(bank > 0real) by {
            lemma_square(x);
        }
        if c <= 0real {
            assert(c * bank <= 0real) by (nonlinear_arith)
                requires
                    c <= 0real,
                    bank > 0real,
            ;
        }
    }
    // Upright.
    let z = val(v3::crossed(fwd, left)[2]);
    times_zero(s, 0real);
    assert(c * z > 0real) by (nonlinear_arith)
        requires
            c > 0real,
            z > 0real,
    ;
    // The side is n z times the level left.
    let n = val(v3::length(true_velocity(t)));
    times_zero(f.2, 0real);
    times_zero(l.2, 0real);
    lemma_to_the_left(f, l, z);
    let k = n * z;
    assoc(n, z, l.0);
    assoc(n, z, l.1);
    neg(n, f.1);
    times_zero(k, 0real);
    let side = (-v.1, v.0, 0real);
    assert(side == times3(k, l));
    assert(k > 0real) by (nonlinear_arith)
        requires
            n > 0real,
            z > 0real,
            k == n * z,
    ;
    lemma_scaled_dot(up, l, k);
    lemma_scaled_dot(acc, l, k);
    lemma_scaled_dot(side, l, k);
    lemma_scaled_dot(l, l, k);
    comm(side.0, l.0);
    comm(side.1, l.1);
    comm(side.2, l.2);
    let kk = k * k;
    times_one(k, 1real);
    assert(dot3(side, side) == kk);
    square_of_product(k, s);
    square_of_product(k, x);
    let (lean, lateral) = (dot3(up, side), dot3(acc, side));
    assert(lean == k * s && lateral == k * x);
    assert(x > 0real ==> k * x > 0real) by (nonlinear_arith)
        requires
            k > 0real,
    ;
    assert(x <= 0real ==> k * x <= 0real) by (nonlinear_arith)
        requires
            k > 0real,
    ;
    assert(x < 0real ==> k * x < 0real) by (nonlinear_arith)
        requires
            k > 0real,
    ;
    assert(x >= 0real ==> k * x >= 0real) by (nonlinear_arith)
        requires
            k > 0real,
    ;
    assert(s > 0real ==> k * s > 0real) by (nonlinear_arith)
        requires
            k > 0real,
    ;
    assert(s < 0real ==> k * s < 0real) by (nonlinear_arith)
        requires
            k > 0real,
    ;
    // (k² s²)(k² x² + g² k²) = (k² x²) k².
    comm(g * g, kk);
    dist(kk, x * x, g * g);
    swap_middle(kk, s * s, kk, bank);
    comm(kk * (x * x), kk);
    assoc(kk, kk, x * x);
}

/// A factor of one vector is a factor of the product.
proof fn lemma_scaled_dot(a: Three, b: Three, k: real)
    ensures
        dot3(a, times3(k, b)) == k * dot3(a, b),
{
    swap(a.0, k, b.0);
    swap(a.1, k, b.1);
    swap(a.2, k, b.2);
    dist(k, a.0 * b.0 + a.1 * b.1, a.2 * b.2);
    dist(k, a.0 * b.0, a.1 * b.1);
}

} // verus!
