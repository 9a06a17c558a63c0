//! Unit quaternions, Hamilton convention, `[w, x, y, z]`, representing a body→world rotation.
//!
//! The filter carries orientation as a unit quaternion and its error as a 3-vector rotation in the
//! body frame: the `δθ` with `q_true = q_nominal ⊗ exp(½ δθ)`.

use vstd::prelude::*;

use crate::linalg::{v3, Grid, Mat, V3};
use crate::scalar::{
    arcsine, arctan2, at_most, cosine, diff, functional, group_real_ops, less, lit, magnitude,
    negation, prod, quarter_turn, quot, root, sine, sum, with_sign, Real,
};

verus! {

broadcast use group_real_ops;

/// A quaternion `w + xi + yj + zk`; of norm one, it turns the body frame into the world frame.
#[derive(Clone, Copy, Debug, PartialEq)]
pub struct Quat<T> {
    pub w: T,
    pub x: T,
    pub y: T,
    pub z: T,
}

/// The quaternion of no rotation.
pub open spec fn no_rotation<T: Real>() -> Quat<T> {
    Quat { w: lit::<T>(1, 1), x: lit::<T>(0, 1), y: lit::<T>(0, 1), z: lit::<T>(0, 1) }
}

/// The Hamilton product `a ⊗ b`.
pub open spec fn hamilton<T: Real>(a: Quat<T>, b: Quat<T>) -> Quat<T> {
    Quat {
        w: diff(diff(diff(prod(a.w, b.w), prod(a.x, b.x)), prod(a.y, b.y)), prod(a.z, b.z)),
        x: diff(sum(sum(prod(a.w, b.x), prod(a.x, b.w)), prod(a.y, b.z)), prod(a.z, b.y)),
        y: sum(sum(diff(prod(a.w, b.y), prod(a.x, b.z)), prod(a.y, b.w)), prod(a.z, b.x)),
        z: sum(diff(sum(prod(a.w, b.z), prod(a.x, b.y)), prod(a.y, b.x)), prod(a.z, b.w)),
    }
}

/// The conjugate: the vector part negated.
pub open spec fn conjugated<T: Real>(q: Quat<T>) -> Quat<T> {
    Quat { w: q.w, x: negation(q.x), y: negation(q.y), z: negation(q.z) }
}

/// `-q`, the same rotation.
pub open spec fn opposite<T: Real>(q: Quat<T>) -> Quat<T> {
    Quat { w: negation(q.w), x: negation(q.x), y: negation(q.y), z: negation(q.z) }
}

/// The sum of the squares of the components.
pub open spec fn norm_squared<T: Real>(q: Quat<T>) -> T {
    sum(sum(sum(prod(q.w, q.w), prod(q.x, q.x)), prod(q.y, q.y)), prod(q.z, q.z))
}

/// `q` divided by its norm; the quaternion of no rotation where the norm is not positive.
pub open spec fn unit<T: Real>(q: Quat<T>) -> Quat<T> {
    let n = root(norm_squared(q));
    if less(lit::<T>(0, 1), n) {
        Quat { w: quot(q.w, n), x: quot(q.x, n), y: quot(q.y, n), z: quot(q.z, n) }
    } else {
        no_rotation()
    }
}

/// The one of `q` and `-q` whose `w` is not negative.
pub open spec fn short_way<T: Real>(q: Quat<T>) -> Quat<T> {
    if less(q.w, lit::<T>(0, 1)) {
        opposite(q)
    } else {
        q
    }
}

/// The exponential map: the unit quaternion of the rotation vector `phi`. Below an angle of `1e-9`
/// it is the normalized `(1, phi / 2)`.
pub open spec fn exp_map<T: Real>(phi: V3<T>) -> Quat<T> {
    let angle = v3::length(phi);
    let half = lit::<T>(1, 2);
    if less(angle, lit::<T>(1, 1_000_000_000)) {
        unit(
            Quat {
                w: lit::<T>(1, 1),
                x: prod(phi[0], half),
                y: prod(phi[1], half),
                z: prod(phi[2], half),
            },
        )
    } else {
        let s = quot(sine(prod(angle, half)), angle);
        Quat {
            w: cosine(prod(angle, half)),
            x: prod(phi[0], s),
            y: prod(phi[1], s),
            z: prod(phi[2], s),
        }
    }
}

/// The logarithm: the rotation vector of `q`, taken the short way round. Where the vector part is
/// shorter than `1e-9` it is twice the vector part.
pub open spec fn log_map<T: Real>(q: Quat<T>) -> V3<T> {
    let c = short_way(q);
    let v = [c.x, c.y, c.z];
    let n = v3::length(v);
    if less(n, lit::<T>(1, 1_000_000_000)) {
        v3::scaled(v, lit::<T>(2, 1))
    } else {
        v3::scaled(v, quot(prod(lit::<T>(2, 1), arctan2(n, c.w)), n))
    }
}

/// The rows of the body→world rotation matrix of `q`.
pub open spec fn rotation_rows<T: Real>(q: Quat<T>) -> Grid<T> {
    let one = lit::<T>(1, 1);
    let two = lit::<T>(2, 1);
    seq![
        seq![
            diff(one, prod(two, sum(prod(q.y, q.y), prod(q.z, q.z)))),
            prod(two, diff(prod(q.x, q.y), prod(q.w, q.z))),
            prod(two, sum(prod(q.x, q.z), prod(q.w, q.y))),
        ],
        seq![
            prod(two, sum(prod(q.x, q.y), prod(q.w, q.z))),
            diff(one, prod(two, sum(prod(q.x, q.x), prod(q.z, q.z)))),
            prod(two, diff(prod(q.y, q.z), prod(q.w, q.x))),
        ],
        seq![
            prod(two, diff(prod(q.x, q.z), prod(q.w, q.y))),
            prod(two, sum(prod(q.y, q.z), prod(q.w, q.x))),
            diff(one, prod(two, sum(prod(q.x, q.x), prod(q.y, q.y)))),
        ],
    ]
}

/// The 3×3 grid `m` times the vector `v`.
pub open spec fn applied<T: Real>(m: Grid<T>, v: V3<T>) -> V3<T> {
    [
        sum(sum(prod(m[0][0], v[0]), prod(m[0][1], v[1])), prod(m[0][2], v[2])),
        sum(sum(prod(m[1][0], v[0]), prod(m[1][1], v[1])), prod(m[1][2], v[2])),
        sum(sum(prod(m[2][0], v[0]), prod(m[2][1], v[1])), prod(m[2][2], v[2])),
    ]
}

/// `v` taken from the body frame into the world frame.
pub open spec fn rotated<T: Real>(q: Quat<T>, v: V3<T>) -> V3<T> {
    applied(rotation_rows(q), v)
}

/// `v` taken from the world frame into the body frame.
pub open spec fn rotated_back<T: Real>(q: Quat<T>, v: V3<T>) -> V3<T> {
    rotated(conjugated(q), v)
}

/// Twice the root of `one + a - b - c`: four times the largest component of the quaternion.
pub open spec fn shepperd<T: Real>(a: T, b: T, c: T) -> T {
    prod(root(diff(diff(sum(lit::<T>(1, 1), a), b), c)), lit::<T>(2, 1))
}

/// Shepperd's method before the final normalization: the largest of the trace and the diagonal
/// terms says which component to take the root for.
pub open spec fn matrix_components<T: Real>(r: Grid<T>) -> Quat<T> {
    let trace = sum(sum(r[0][0], r[1][1]), r[2][2]);
    let quarter = lit::<T>(1, 4);
    if less(lit::<T>(0, 1), trace) {
        let s = prod(root(sum(trace, lit::<T>(1, 1))), lit::<T>(2, 1));
        Quat {
            w: prod(quarter, s),
            x: quot(diff(r[2][1], r[1][2]), s),
            y: quot(diff(r[0][2], r[2][0]), s),
            z: quot(diff(r[1][0], r[0][1]), s),
        }
    } else if less(r[1][1], r[0][0]) && less(r[2][2], r[0][0]) {
        let s = shepperd(r[0][0], r[1][1], r[2][2]);
        Quat {
            w: quot(diff(r[2][1], r[1][2]), s),
            x: prod(quarter, s),
            y: quot(sum(r[0][1], r[1][0]), s),
            z: quot(sum(r[0][2], r[2][0]), s),
        }
    } else if less(r[2][2], r[1][1]) {
        let s = shepperd(r[1][1], r[0][0], r[2][2]);
        Quat {
            w: quot(diff(r[0][2], r[2][0]), s),
            x: quot(sum(r[0][1], r[1][0]), s),
            y: prod(quarter, s),
            z: quot(sum(r[1][2], r[2][1]), s),
        }
    } else {
        let s = shepperd(r[2][2], r[0][0], r[1][1]);
        Quat {
            w: quot(diff(r[1][0], r[0][1]), s),
            x: quot(sum(r[0][2], r[2][0]), s),
            y: quot(sum(r[1][2], r[2][1]), s),
            z: prod(quarter, s),
        }
    }
}

/// The unit quaternion of the rotation matrix with rows `r`.
pub open spec fn matrix_quat<T: Real>(r: Grid<T>) -> Quat<T> {
    unit(matrix_components(r))
}

/// Roll, pitch and yaw, the aerospace Z-Y-X sequence; a pitch at or past the pole is a quarter turn.
pub open spec fn euler_angles<T: Real>(q: Quat<T>) -> V3<T> {
    let one = lit::<T>(1, 1);
    let two = lit::<T>(2, 1);
    let sinp = prod(two, diff(prod(q.w, q.y), prod(q.z, q.x)));
    [
        arctan2(
            prod(two, sum(prod(q.w, q.x), prod(q.y, q.z))),
            diff(one, prod(two, sum(prod(q.x, q.x), prod(q.y, q.y)))),
        ),
        if at_most(one, magnitude(sinp)) {
            with_sign(quarter_turn::<T>(), sinp)
        } else {
            arcsine(sinp)
        },
        arctan2(
            prod(two, sum(prod(q.w, q.z), prod(q.x, q.y))),
            diff(one, prod(two, sum(prod(q.y, q.y), prod(q.z, q.z)))),
        ),
    ]
}

/// The body-frame rotation that carries `b` onto `a`: the `δθ` with `a = b ⊗ exp(½ δθ)`.
pub open spec fn angular_error<T: Real>(a: Quat<T>, b: Quat<T>) -> V3<T> {
    log_map(hamilton(conjugated(b), a))
}

impl<T: Real> Quat<T> {
    /// The quaternion of no rotation.
    pub fn identity() -> (r: Quat<T>)
        ensures
            functional::<T>() ==> r == no_rotation::<T>(),
    {
        Quat { w: T::ratio(1, 1), x: T::ratio(0, 1), y: T::ratio(0, 1), z: T::ratio(0, 1) }
    }

    /// The quaternion with these components.
    pub fn new(w: T, x: T, y: T, z: T) -> (r: Self)
        ensures
            r == (Quat { w, x, y, z }),
    {
        Quat { w, x, y, z }
    }

    /// The exponential map from a rotation vector (axis·angle, radians) to a unit quaternion.
    pub fn from_rotation_vector(phi: V3<T>) -> (r: Self)
        ensures
            functional::<T>() ==> r == exp_map(phi),
    {
        let angle = v3::norm(phi);
        let half = T::ratio(1, 2);
        if angle.lt(T::ratio(1, 1_000_000_000)) {
            Quat::new(
                T::ratio(1, 1),
                phi[0].times(half),
                phi[1].times(half),
                phi[2].times(half),
            ).normalized()
        } else {
            let half_angle = angle.times(half);
            let s = half_angle.sin().over(angle);
            Quat::new(half_angle.cos(), phi[0].times(s), phi[1].times(s), phi[2].times(s))
        }
    }

    /// The log map: a unit quaternion back to its rotation vector.
    pub fn to_rotation_vector(self) -> (r: V3<T>)
        ensures
            functional::<T>() ==> r == log_map(self),
    {
        let q = self.canonical();
        let v = [q.x, q.y, q.z];
        let vn = v3::norm(v);
        if vn.lt(T::ratio(1, 1_000_000_000)) {
            v3::scale(v, T::ratio(2, 1))
        } else {
            let angle = T::ratio(2, 1).times(vn.atan2(q.w));
            v3::scale(v, angle.over(vn))
        }
    }

    /// The Hamilton product `self ⊗ r`.
    pub fn mul(self, r: Quat<T>) -> (out: Quat<T>)
        ensures
            functional::<T>() ==> out == hamilton(self, r),
    {
        Quat {
            w: self.w.times(r.w).minus(self.x.times(r.x)).minus(self.y.times(r.y)).minus(
                self.z.times(r.z),
            ),
            x: self.w.times(r.x).plus(self.x.times(r.w)).plus(self.y.times(r.z)).minus(
                self.z.times(r.y),
            ),
            y: self.w.times(r.y).minus(self.x.times(r.z)).plus(self.y.times(r.w)).plus(
                self.z.times(r.x),
            ),
            z: self.w.times(r.z).plus(self.x.times(r.y)).minus(self.y.times(r.x)).plus(
                self.z.times(r.w),
            ),
        }
    }

    /// The conjugate, the opposite rotation of a unit quaternion.
    pub fn conjugate(self) -> (r: Quat<T>)
        ensures
            functional::<T>() ==> r == conjugated(self),
    {
        Quat { w: self.w, x: self.x.negate(), y: self.y.negate(), z: self.z.negate() }
    }

    /// The norm.
    pub fn norm(self) -> (r: T)
        ensures
            functional::<T>() ==> r == root(norm_squared(self)),
    {
        self.w.times(self.w).plus(self.x.times(self.x)).plus(self.y.times(self.y)).plus(
            self.z.times(self.z),
        ).sqrt()
    }

    /// `self` scaled to unit norm, or the quaternion of no rotation where that cannot be done.
    pub fn normalized(self) -> (r: Quat<T>)
        ensures
            functional::<T>() ==> r == unit(self),
    {
        let n = self.norm();
        if T::ratio(0, 1).lt(n) {
            Quat { w: self.w.over(n), x: self.x.over(n), y: self.y.over(n), z: self.z.over(n) }
        } else {
            Quat::identity()
        }
    }

    /// Flips the sign so that `w` is not negative. `q` and `-q` are the same rotation.
    pub fn canonical(self) -> (r: Quat<T>)
        ensures
            functional::<T>() ==> r == short_way(self),
    {
        if self.w.lt(T::ratio(0, 1)) {
            Quat {
                w: self.w.negate(),
                x: self.x.negate(),
                y: self.y.negate(),
                z: self.z.negate(),
            }
        } else {
            self
        }
    }

    /// The body→world rotation matrix.
    pub fn to_matrix(self) -> (out: Mat<T, 3, 3>)
        ensures
            functional::<T>() ==> out@ == rotation_rows(self),
    {
        let (w, x, y, z) = (self.w, self.x, self.y, self.z);
        let one = T::ratio(1, 1);
        let two = T::ratio(2, 1);
        let out = Mat::from_rows(
            [
                [
                    one.minus(two.times(y.times(y).plus(z.times(z)))),
                    two.times(x.times(y).minus(w.times(z))),
                    two.times(x.times(z).plus(w.times(y))),
                ],
                [
                    two.times(x.times(y).plus(w.times(z))),
                    one.minus(two.times(x.times(x).plus(z.times(z)))),
                    two.times(y.times(z).minus(w.times(x))),
                ],
                [
                    two.times(x.times(z).minus(w.times(y))),
                    two.times(y.times(z).plus(w.times(x))),
                    one.minus(two.times(x.times(x).plus(y.times(y)))),
                ],
            ],
        );
        assert(functional::<T>() ==> out@ =~~= rotation_rows(self));
        out
    }

    /// Rotates a body-frame vector into the world frame (`R · v`).
    pub fn rotate(self, v: V3<T>) -> (r: V3<T>)
        ensures
            functional::<T>() ==> r == rotated(self, v),
    {
        mat_vec(&self.to_matrix(), v)
    }

    /// Rotates a world-frame vector into the body frame (`Rᵀ · v`).
    pub fn rotate_inv(self, v: V3<T>) -> (r: V3<T>)
        ensures
            functional::<T>() ==> r == rotated_back(self, v),
    {
        self.conjugate().rotate(v)
    }

    /// The quaternion of a body→world rotation matrix, by Shepperd's method.
    pub fn from_matrix(m: &Mat<T, 3, 3>) -> (q: Quat<T>)
        ensures
            functional::<T>() ==> q == matrix_quat(m@),
    {
        let r = &m.m;
        assert forall|i: int, j: int| 0 <= i < 3 && 0 <= j < 3 implies #[trigger] r[i][j]
            == m@[i][j] by {}
        let trace = r[0][0].plus(r[1][1]).plus(r[2][2]);
        let zero = T::ratio(0, 1);
        let one = T::ratio(1, 1);
        let two = T::ratio(2, 1);
        let quarter = T::ratio(1, 4);
        let q = if zero.lt(trace) {
            let s = trace.plus(one).sqrt().times(two);
            Quat::new(
                quarter.times(s),
                r[2][1].minus(r[1][2]).over(s),
                r[0][2].minus(r[2][0]).over(s),
                r[1][0].minus(r[0][1]).over(s),
            )
        } else if r[1][1].lt(r[0][0]) && r[2][2].lt(r[0][0]) {
            let s = one.plus(r[0][0]).minus(r[1][1]).minus(r[2][2]).sqrt().times(two);
            Quat::new(
                r[2][1].minus(r[1][2]).over(s),
                quarter.times(s),
                r[0][1].plus(r[1][0]).over(s),
                r[0][2].plus(r[2][0]).over(s),
            )
        } else if r[2][2].lt(r[1][1]) {
            let s = one.plus(r[1][1]).minus(r[0][0]).minus(r[2][2]).sqrt().times(two);
            Quat::new(
                r[0][2].minus(r[2][0]).over(s),
                r[0][1].plus(r[1][0]).over(s),
                quarter.times(s),
                r[1][2].plus(r[2][1]).over(s),
            )
        } else {
            let s = one.plus(r[2][2]).minus(r[0][0]).minus(r[1][1]).sqrt().times(two);
            Quat::new(
                r[1][0].minus(r[0][1]).over(s),
                r[0][2].plus(r[2][0]).over(s),
                r[1][2].plus(r[2][1]).over(s),
                quarter.times(s),
            )
        };
        assert(functional::<T>() ==> q == matrix_components(m@));
        q.normalized()
    }

    /// Roll, pitch, yaw (radians), the aerospace Z-Y-X sequence, for display.
    pub fn to_euler(self) -> (r: V3<T>)
        ensures
            functional::<T>() ==> r == euler_angles(self),
    {
        let (w, x, y, z) = (self.w, self.x, self.y, self.z);
        let one = T::ratio(1, 1);
        let two = T::ratio(2, 1);
        let roll = two.times(w.times(x).plus(y.times(z))).atan2(
            one.minus(two.times(x.times(x).plus(y.times(y)))),
        );
        let sinp = two.times(w.times(y).minus(z.times(x)));
        let pitch = if one.le(sinp.abs()) {
            T::frac_pi_2().copysign(sinp)
        } else {
            sinp.asin()
        };
        let yaw = two.times(w.times(z).plus(x.times(y))).atan2(
            one.minus(two.times(y.times(y).plus(z.times(z)))),
        );
        [roll, pitch, yaw]
    }
}

/// The body-frame angular error carrying `b` onto `a`: the `δθ` with `a = b ⊗ exp(½ δθ)`.
pub fn boxminus<T: Real>(a: Quat<T>, b: Quat<T>) -> (r: V3<T>)
    ensures
        functional::<T>() ==> r == angular_error(a, b),
{
    b.conjugate().mul(a).to_rotation_vector()
}

/// `m · v`.
pub fn mat_vec<T: Real>(m: &Mat<T, 3, 3>, v: V3<T>) -> (r: V3<T>)
    ensures
        functional::<T>() ==> r == applied(m@, v),
{
    let r = [
        m.m[0][0].times(v[0]).plus(m.m[0][1].times(v[1])).plus(m.m[0][2].times(v[2])),
        m.m[1][0].times(v[0]).plus(m.m[1][1].times(v[1])).plus(m.m[1][2].times(v[2])),
        m.m[2][0].times(v[0]).plus(m.m[2][1].times(v[1])).plus(m.m[2][2].times(v[2])),
    ];
    assert(m@[0] == m.m[0]@ && m@[1] == m.m[1]@ && m@[2] == m.m[2]@);
    r
}

} // verus!
