//! Quaternions and back: the exponential and the logarithm, the rotation matrix and its quaternion.

use vstd::prelude::*;

use crate::exact::algebra::{
    assoc, cancel, comm, dist, dist_right, neg, same_square, square_of_product, swap_middle,
    times_one, times_zero,
};
use crate::exact::quaternions::{conjugate_inverts, four, is_unit, size, triple};
use crate::exact::rotations::lemma_entries;
use crate::exact::small::{
    close_three, cube, exact_small, lemma_at_most, lemma_both, lemma_normalizer, lemma_scaled_bound,
    lemma_shortened, lemma_sine_over_angle, lemma_times_quotient,
};
use crate::exact::{absolute, exact, lemma_constants, lemma_reciprocal, lemma_square};
use crate::linalg::{v3, V3};
use crate::quat::{
    angular_error, conjugated, exp_map, hamilton, log_map, matrix_components, matrix_quat,
    norm_squared, rotation_rows, shepperd, short_way, unit, Quat,
};
use crate::scalar::{arctan2, cosine, diff, less, lit, prod, quarter_turn, root, sine, sum, Real};

verus! {

/// The functions of an angle: in the first quadrant sine and cosine are not negative, and the
/// arctangent gives the angle back.
pub open spec fn exact_angles<T: Real>(val: spec_fn(T) -> real) -> bool {
    &&& forall|a: T|
        #![trigger sine(a)]
        #![trigger cosine(a)]
        0real <= val(a) <= val(quarter_turn::<T>()) ==> val(sine(a)) >= 0real && val(cosine(a))
            >= 0real
    &&& forall|a: T, y: T, x: T|
        #![trigger sine(a), arctan2(y, x)]
        0real <= val(a) <= val(quarter_turn::<T>()) && val(y) == val(sine(a)) && val(x) == val(
            cosine(a),
        ) ==> val(arctan2(y, x)) == val(a)
}

/// Normalizing a unit quaternion leaves it as it is.
pub proof fn normalizing_keeps_unit<T: Real>(val: spec_fn(T) -> real, q: Quat<T>)
    requires
        exact(val),
        is_unit(val, q),
    ensures
        four(val, unit(q)) == four(val, q),
{
    lemma_constants(val);
    let n = root(norm_squared(q));
    assert(val(norm_squared(q)) == 1real);
    same_square(val(n), 1real);
    let (w, x, y, z) = four(val, q);
    assert(w / 1real == w && x / 1real == x && y / 1real == y && z / 1real == z);
}

/// The rotation vectors on which the logarithm undoes the exponential exactly: zero, and up to half
/// a turn those that neither map takes for small.
pub open spec fn invertible<T: Real>(val: spec_fn(T) -> real, phi: V3<T>) -> bool {
    let angle = v3::length(phi);
    let half = prod(angle, lit::<T>(1, 2));
    ||| val(angle) == 0real
    ||| {
        &&& val(angle) >= 1real / 1_000_000_000real
        &&& val(sine(half)) >= 1real / 1_000_000_000real
        &&& val(half) <= val(quarter_turn::<T>())
    }
}

/// A sum of three squares that is zero has three zeros.
pub proof fn lemma_all_zero(a: real, b: real, c: real)
    requires
        a * a + b * b + c * c == 0real,
    ensures
        a == 0real && b == 0real && c == 0real,
{
    lemma_square(a);
    lemma_square(b);
    lemma_square(c);
    assert(0real * 0real == 0real);
    lemma_zero_square(a);
    lemma_zero_square(b);
    lemma_zero_square(c);
}

/// A number whose square is zero is zero.
pub proof fn lemma_zero_square(a: real)
    requires
        a * a == 0real,
    ensures
        a == 0real,
{
    if a != 0real {
        lemma_reciprocal(a, a);
        let i = 1real / a;
        assoc(i, a, a);
        comm(i, a);
        times_zero(i, a * a);
        comm(a * i, a);
        times_one(a, a * i);
    }
}

/// The exponential of zero is no rotation.
pub proof fn lemma_exp_of_zero<T: Real>(val: spec_fn(T) -> real, phi: V3<T>)
    requires
        exact(val),
        triple(val, phi) == (0real, 0real, 0real),
    ensures
        four(val, exp_map(phi)) == (1real, 0real, 0real, 0real),
{
    lemma_constants(val);
    times_zero(0real, 0real);
    let angle = v3::length(phi);
    lemma_zero_square(val(angle));
    let tiny = lit::<T>(1, 1_000_000_000);
    assert(val(tiny) == 1real / 1_000_000_000real);
    let half = lit::<T>(1, 2);
    let e = Quat {
        w: lit::<T>(1, 1),
        x: prod(phi[0], half),
        y: prod(phi[1], half),
        z: prod(phi[2], half),
    };
    assert(four(val, e) == (1real, 0real, 0real, 0real)) by {
        times_zero(1real / 2real, 0real);
        comm(1real / 2real, 0real);
    }
    assert(is_unit(val, e)) by {
        assert(1real * 1real == 1real && 0real * 0real == 0real);
    }
    normalizing_keeps_unit(val, e);
}

/// The logarithm of a quaternion with the numbers of `exp(phi)`.
proof fn lemma_log_of_exp<T: Real>(val: spec_fn(T) -> real, q: Quat<T>, phi: V3<T>)
    requires
        exact(val),
        exact_angles(val),
        invertible(val, phi),
        four(val, q) == four(val, exp_map(phi)),
    ensures
        triple(val, log_map(q)) == triple(val, phi),
{
    lemma_constants(val);
    let (a, b, c) = triple(val, phi);
    lemma_square(a);
    lemma_square(b);
    lemma_square(c);
    let angle = v3::length(phi);
    let t = val(angle);
    assert(t * t == a * a + b * b + c * c);
    let tiny = lit::<T>(1, 1_000_000_000);
    assert(val(tiny) == 1real / 1_000_000_000real);
    let v = [q.x, q.y, q.z];
    let n = v3::length(v);
    let (x, y, z) = triple(val, v);
    lemma_square(x);
    lemma_square(y);
    lemma_square(z);
    assert(val(n) * val(n) == x * x + y * y + z * z);
    if t == 0real {
        times_zero(t, t);
        lemma_all_zero(a, b, c);
        lemma_exp_of_zero(val, phi);
        assert(short_way(q) == q);
        assert(x == 0real && y == 0real && z == 0real);
        assert(0real * 0real == 0real);
        lemma_zero_square(val(n));
        assert(0real * 2real == 0real);
    } else {
        let half = prod(angle, lit::<T>(1, 2));
        let s = val(sine(half));
        let f = s / t;
        assert((x, y, z) == (a * f, b * f, c * f));
        lemma_half(t);
        assert(val(half) >= 0real);
        assert(short_way(q) == q);
        square_of_product(a, f);
        square_of_product(b, f);
        square_of_product(c, f);
        let k = f * f;
        dist_right(a * a + b * b, c * c, k);
        dist_right(a * a, b * b, k);
        square_of_product(t, f);
        lemma_reciprocal(s, t);
        let i = 1real / t;
        assoc(t, s, i);
        comm(t, s);
        assoc(s, t, i);
        times_one(s, t * i);
        assert(t * f == s);
        assert(val(n) * val(n) == s * s);
        same_square(val(n), s);
        let at = arctan2(n, q.w);
        assert(val(at) == val(half));
        let g = val(prod(lit::<T>(2, 1), at)) / s;
        assert(val(prod(lit::<T>(2, 1), at)) == t);
        lemma_reciprocal(t, s);
        let j = 1real / s;
        // f·g = (s·i)·(t·j) = 1.
        assert(f * g == 1real) by {
            swap_middle(s, i, t, j);
            comm(s, t);
            swap_middle(t, i, s, j);
            comm(i, t);
            comm(t * i, s * j);
            assert((s * i) * (t * j) == (s * t) * (i * j));
            assert((t * i) * (s * j) == (t * s) * (i * j));
            times_one(t * i, s * j);
        }
        assoc(a, f, g);
        times_one(a, f * g);
        assoc(b, f, g);
        times_one(b, f * g);
        assoc(c, f, g);
        times_one(c, f * g);
    }
}

proof fn lemma_half(t: real)
    requires
        t >= 0real,
    ensures
        t * (1real / 2real) >= 0real,
        2real * (t * (1real / 2real)) == t,
{
    comm(t, 1real / 2real);
    assoc(2real, 1real / 2real, t);
}

/// What the logarithm leaves of the exponential of a small rotation vector.
proof fn lemma_small_log_of_exp<T: Real>(val: spec_fn(T) -> real, q: Quat<T>, phi: V3<T>)
    requires
        exact(val),
        exact_angles(val),
        exact_small(val),
        at_most_half_a_turn(val, phi),
        !invertible(val, phi),
        four(val, q) == four(val, exp_map(phi)),
    ensures
        close_three(triple(val, log_map(q)), triple(val, phi), cube(val(v3::length(phi)))),
{
    lemma_constants(val);
    let (a, b, c) = triple(val, phi);
    lemma_square(a);
    lemma_square(b);
    lemma_square(c);
    let angle = v3::length(phi);
    let t = val(angle);
    assert(t * t == a * a + b * b + c * c);
    lemma_at_most(a, t);
    lemma_at_most(b, t);
    lemma_at_most(c, t);
    let tiny = lit::<T>(1, 1_000_000_000);
    assert(val(tiny) == 1real / 1_000_000_000real);
    let half = prod(angle, lit::<T>(1, 2));
    let h = val(half);
    comm(t, 1real / 2real);
    assert(h == t / 2real && h > 0real);
    square_of_product(2real, h);
    lemma_square(h);
    let (h2, t2) = (h * h, t * t);
    assert(t2 == 4real * h2);
    let v = [q.x, q.y, q.z];
    let n = v3::length(v);
    let (x, y, z) = triple(val, v);
    lemma_square(x);
    lemma_square(y);
    lemma_square(z);
    assert(val(n) * val(n) == x * x + y * y + z * z);
    // The vector part is `phi` times `f`, and `2 f` is short of one by little.
    let f = if t < val(tiny) {
        let e = Quat {
            w: lit::<T>(1, 1),
            x: prod(phi[0], lit::<T>(1, 2)),
            y: prod(phi[1], lit::<T>(1, 2)),
            z: prod(phi[2], lit::<T>(1, 2)),
        };
        let (a2, b2, c2) = (a / 2real, b / 2real, c / 2real);
        comm(a, 1real / 2real);
        comm(b, 1real / 2real);
        comm(c, 1real / 2real);
        assert(four(val, e) == (1real, a2, b2, c2));
        square_of_product(2real, a2);
        square_of_product(2real, b2);
        square_of_product(2real, c2);
        times_one(1real, 1real);
        let m = root(norm_squared(e));
        assert(val(norm_squared(e)) == 1real + h2);
        lemma_normalizer(h, val(m));
        let i = 1real / val(m);
        lemma_reciprocal(a2, val(m));
        lemma_reciprocal(b2, val(m));
        lemma_reciprocal(c2, val(m));
        assert(four(val, exp_map(phi)) == (i, a2 * i, b2 * i, c2 * i));
        let f = i / 2real;
        assert(a2 * i == a * f) by (nonlinear_arith)
            requires
                a2 == a / 2real,
                f == i / 2real,
        ;
        assert(b2 * i == b * f) by (nonlinear_arith)
            requires
                b2 == b / 2real,
                f == i / 2real,
        ;
        assert(c2 * i == c * f) by (nonlinear_arith)
            requires
                c2 == c / 2real,
                f == i / 2real,
        ;
        f
    } else {
        let s = val(sine(half));
        let f = s / t;
        lemma_sine_over_angle(h, s);
        assert(2real * f == s / h) by {
            lemma_times_quotient(t, s);
            lemma_times_quotient(h, s);
            let k = s / h;
            assert(2real * f == k) by (nonlinear_arith)
                requires
                    t == 2real * h,
                    h > 0real,
                    t * f == s,
                    h * k == s,
            ;
        }
        f
    };
    assert((x, y, z) == (a * f, b * f, c * f));
    assert(0real <= 1real - 2real * f <= h2 / 2real);
    assert(short_way(q) == q);
    // The vector part is short: `n = t f`.
    square_of_product(a, f);
    square_of_product(b, f);
    square_of_product(c, f);
    square_of_product(t, f);
    let k = f * f;
    dist_right(a * a + b * b, c * c, k);
    dist_right(a * a, b * b, k);
    assert(val(n) * val(n) == (t * f) * (t * f));
    if t < val(tiny) {
        lemma_both(t, f);
        same_square(val(n), t * f);
        lemma_scaled_bound(t, f, 1real / 2real);
        assert(t * (1real / 2real) == h);
    } else {
        let s = val(sine(half));
        lemma_times_quotient(t, s);
        same_square(val(n), s);
    }
    assert(val(n) < val(tiny));
    assoc(a, f, 2real);
    assoc(b, f, 2real);
    assoc(c, f, 2real);
    comm(f, 2real);
    let g = 2real * f;
    assert(triple(val, log_map(q)) == (a * g, b * g, c * g));
    lemma_shortened(a, g, t, h2 / 2real);
    lemma_shortened(b, g, t, h2 / 2real);
    lemma_shortened(c, g, t, h2 / 2real);
    lemma_scaled_bound(t, h2 / 2real, t2);
    comm(t, t2);
}

/// A rotation by at most half a turn.
pub open spec fn at_most_half_a_turn<T: Real>(val: spec_fn(T) -> real, phi: V3<T>) -> bool {
    val(prod(v3::length(phi), lit::<T>(1, 2))) <= val(quarter_turn::<T>())
}

/// How far the logarithm of the exponential may be from a rotation vector: not at all, except where
/// one of the two maps takes it for small; there by the cube of the angle.
pub open spec fn slip<T: Real>(val: spec_fn(T) -> real, phi: V3<T>) -> real {
    if invertible(val, phi) {
        0real
    } else {
        cube(val(v3::length(phi)))
    }
}

/// The logarithm undoes the exponential, up to half a turn: `log(exp(phi)) = phi`. Where one of the
/// two takes the rotation for small, each component is within the cube of the angle.
pub proof fn log_undoes_exp<T: Real>(val: spec_fn(T) -> real, phi: V3<T>)
    requires
        exact(val),
        exact_angles(val),
        exact_small(val),
        at_most_half_a_turn(val, phi),
    ensures
        close_three(triple(val, log_map(exp_map(phi))), triple(val, phi), slip(val, phi)),
        invertible(val, phi) ==> triple(val, log_map(exp_map(phi))) == triple(val, phi),
{
    if invertible(val, phi) {
        lemma_log_of_exp(val, exp_map(phi), phi);
    } else {
        lemma_small_log_of_exp(val, exp_map(phi), phi);
    }
}

/// The angular error of a perturbed orientation is the perturbation:
/// `(b ⊗ exp(delta)) ⊟ b = delta` for a unit `b` and a perturbation of at most half a turn. Where the
/// perturbation is taken for small, each component is within the cube of its angle.
pub proof fn perturbation_is_recovered<T: Real>(val: spec_fn(T) -> real, b: Quat<T>, delta: V3<T>)
    requires
        exact(val),
        exact_angles(val),
        exact_small(val),
        is_unit(val, b),
        at_most_half_a_turn(val, delta),
    ensures
        ({
            let e = triple(val, angular_error(hamilton(b, exp_map(delta)), b));
            &&& close_three(e, triple(val, delta), slip(val, delta))
            &&& invertible(val, delta) ==> e == triple(val, delta)
        }),
{
    conjugate_inverts(val, b, exp_map(delta));
    let q = hamilton(conjugated(b), hamilton(b, exp_map(delta)));
    if invertible(val, delta) {
        lemma_log_of_exp(val, q, delta);
    } else {
        lemma_small_log_of_exp(val, q, delta);
    }
}

/// The root that Shepperd's method takes, four times the magnitude of the pivot component.
proof fn lemma_pivot(p: real, r: real)
    requires
        r >= 0real,
        r * r == 4real * (p * p),
    ensures
        r * 2real == 4real * absolute(p),
{
    let m = absolute(p);
    neg(-p, p);
    neg(p, p);
    comm(-p, p);
    assert(m * m == p * p);
    square_of_product(2real, m);
    same_square(r, 2real * m);
}

/// A component next to the pivot: `4pt / 4|p|`.
proof fn lemma_beside(p: real, t: real)
    requires
        p != 0real,
    ensures
        (4real * (p * t)) / (4real * absolute(p)) == (if p > 0real {
            t
        } else {
            -t
        }),
{
    if p > 0real {
        assoc(4real, p, t);
        cancel(4real * p, t);
    } else {
        neg(p, t);
        neg(t, p);
        comm(-p, t);
        comm(p, t);
        comm(-p, -t);
        neg(-p, t);
        assoc(4real, -p, -t);
        assert((-p) * (-t) == p * t);
        cancel(4real * (-p), -t);
    }
}

/// Two quaternions with the same numbers, or opposite ones: the same rotation.
pub open spec fn same_rotation<T>(val: spec_fn(T) -> real, a: Quat<T>, b: Quat<T>) -> bool {
    let (w, x, y, z) = four(val, b);
    four(val, a) == (w, x, y, z) || four(val, a) == (-w, -x, -y, -z)
}

/// The quaternion of the rotation matrix of a unit quaternion is that quaternion or its opposite.
pub proof fn matrix_round_trip<T: Real>(val: spec_fn(T) -> real, q: Quat<T>)
    requires
        exact(val),
        is_unit(val, q),
    ensures
        same_rotation(val, matrix_quat(rotation_rows(q)), q),
{
    lemma_constants(val);
    lemma_entries(val, q);
    let (w, x, y, z) = four(val, q);
    let r = rotation_rows(q);
    let c = matrix_components(r);
    lemma_square(w);
    lemma_square(x);
    lemma_square(y);
    lemma_square(z);
    let trace = sum(sum(r[0][0], r[1][1]), r[2][2]);
    assert(size(val, q) == w * w + x * x + y * y + z * z);
    assert(val(trace) == val(r[0][0]) + val(r[1][1]) + val(r[2][2]));
    dist(2real, y * y, z * z);
    dist(2real, x * x, z * z);
    dist(2real, x * x, y * y);
    assert(val(r[0][0]) == 1real - 2real * (y * y) - 2real * (z * z));
    assert(val(r[1][1]) == 1real - 2real * (x * x) - 2real * (z * z));
    assert(val(r[2][2]) == 1real - 2real * (x * x) - 2real * (y * y));
    assert(val(trace) == 4real * (w * w) - 1real);
    comm(x, w);
    comm(y, w);
    comm(z, w);
    comm(y, x);
    comm(z, x);
    comm(z, y);
    if less(lit::<T>(0, 1), trace) {
        let p = root(sum(trace, lit::<T>(1, 1)));
        assert(w != 0real) by {
            if w == 0real {
                times_zero(w, w);
            }
        }
        lemma_pivot(w, val(p));
        lemma_beside(w, x);
        lemma_beside(w, y);
        lemma_beside(w, z);
        assert(four(val, c) == (if w > 0real {
            (w, x, y, z)
        } else {
            (-w, -x, -y, -z)
        }));
    } else if less(r[1][1], r[0][0]) && less(r[2][2], r[0][0]) {
        assert(x != 0real) by {
            if x == 0real {
                times_zero(x, x);
            }
        }
        lemma_shepperd(val, r[0][0], r[1][1], r[2][2], x);
        lemma_beside(x, w);
        lemma_beside(x, y);
        lemma_beside(x, z);
        assert(val(r[2][1]) - val(r[1][2]) == 4real * (x * w));
        assert(val(r[0][1]) + val(r[1][0]) == 4real * (x * y));
        assert(val(r[0][2]) + val(r[2][0]) == 4real * (x * z));
        assert(four(val, c) == (if x > 0real {
            (w, x, y, z)
        } else {
            (-w, -x, -y, -z)
        }));
    } else if less(r[2][2], r[1][1]) {
        assert(y != 0real) by {
            if y == 0real {
                times_zero(y, y);
            }
        }
        lemma_shepperd(val, r[1][1], r[0][0], r[2][2], y);
        lemma_beside(y, w);
        lemma_beside(y, x);
        lemma_beside(y, z);
        assert(four(val, c) == (if y > 0real {
            (w, x, y, z)
        } else {
            (-w, -x, -y, -z)
        }));
    } else {
        assert(z != 0real) by {
            if z == 0real {
                times_zero(z, z);
            }
        }
        lemma_shepperd(val, r[2][2], r[0][0], r[1][1], z);
        lemma_beside(z, w);
        lemma_beside(z, x);
        lemma_beside(z, y);
        assert(four(val, c) == (if z > 0real {
            (w, x, y, z)
        } else {
            (-w, -x, -y, -z)
        }));
    }
    assert(size(val, c) == 1real) by {
        neg(-w, w);
        neg(w, w);
        comm(-w, w);
        neg(-x, x);
        neg(x, x);
        comm(-x, x);
        neg(-y, y);
        neg(y, y);
        comm(-y, y);
        neg(-z, z);
        neg(z, z);
        comm(-z, z);
    }
    normalizing_keeps_unit(val, c);
}

proof fn lemma_shepperd<T: Real>(val: spec_fn(T) -> real, a: T, b: T, c: T, p: real)
    requires
        exact(val),
        1real + val(a) - val(b) - val(c) == 4real * (p * p),
    ensures
        val(shepperd(a, b, c)) == 4real * absolute(p),
{
    lemma_constants(val);
    lemma_square(p);
    let inside = diff(diff(sum(lit::<T>(1, 1), a), b), c);
    assert(val(inside) == 4real * (p * p));
    lemma_pivot(p, val(root(inside)));
}

} // verus!
