//! Plain 3-vectors: positions, velocities, biases, axes.

use vstd::prelude::*;

use crate::linalg::V3;
use crate::scalar::{diff, functional, group_real_ops, less, lit, prod, quot, root, sum, Real};

verus! {

broadcast use group_real_ops;

/// `a + b`.
pub open spec fn added<T: Real>(a: V3<T>, b: V3<T>) -> V3<T> {
    [sum(a[0], b[0]), sum(a[1], b[1]), sum(a[2], b[2])]
}

/// `a - b`.
pub open spec fn subtracted<T: Real>(a: V3<T>, b: V3<T>) -> V3<T> {
    [diff(a[0], b[0]), diff(a[1], b[1]), diff(a[2], b[2])]
}

/// `a` times the scalar `s`.
pub open spec fn scaled<T: Real>(a: V3<T>, s: T) -> V3<T> {
    [prod(a[0], s), prod(a[1], s), prod(a[2], s)]
}

/// The inner product, summed from the first component on.
pub open spec fn inner<T: Real>(a: V3<T>, b: V3<T>) -> T {
    sum(sum(prod(a[0], b[0]), prod(a[1], b[1])), prod(a[2], b[2]))
}

/// The cross product `a × b`.
pub open spec fn crossed<T: Real>(a: V3<T>, b: V3<T>) -> V3<T> {
    [
        diff(prod(a[1], b[2]), prod(a[2], b[1])),
        diff(prod(a[2], b[0]), prod(a[0], b[2])),
        diff(prod(a[0], b[1]), prod(a[1], b[0])),
    ]
}

/// The Euclidean length.
pub open spec fn length<T: Real>(a: V3<T>) -> T {
    root(inner(a, a))
}

/// `a` scaled to unit length; a vector without a positive length stays as it is.
pub open spec fn direction<T: Real>(a: V3<T>) -> V3<T> {
    if less(lit::<T>(0, 1), length(a)) {
        scaled(a, quot(lit::<T>(1, 1), length(a)))
    } else {
        a
    }
}

/// The vector whose components are all zero.
pub open spec fn origin<T: Real>() -> V3<T> {
    [lit::<T>(0, 1), lit::<T>(0, 1), lit::<T>(0, 1)]
}

/// The vector whose components are all zero.
pub fn zero<T: Real>() -> (r: V3<T>)
    ensures
        functional::<T>() ==> r == origin::<T>(),
{
    let z = T::ratio(0, 1);
    [z, z, z]
}

/// `a + b`.
pub fn add<T: Real>(a: V3<T>, b: V3<T>) -> (r: V3<T>)
    ensures
        functional::<T>() ==> r == added(a, b),
{
    [a[0].plus(b[0]), a[1].plus(b[1]), a[2].plus(b[2])]
}

/// `a - b`.
pub fn sub<T: Real>(a: V3<T>, b: V3<T>) -> (r: V3<T>)
    ensures
        functional::<T>() ==> r == subtracted(a, b),
{
    [a[0].minus(b[0]), a[1].minus(b[1]), a[2].minus(b[2])]
}

/// `a` times the scalar `s`.
pub fn scale<T: Real>(a: V3<T>, s: T) -> (r: V3<T>)
    ensures
        functional::<T>() ==> r == scaled(a, s),
{
    [a[0].times(s), a[1].times(s), a[2].times(s)]
}

/// The inner product.
pub fn dot<T: Real>(a: V3<T>, b: V3<T>) -> (r: T)
    ensures
        functional::<T>() ==> r == inner(a, b),
{
    a[0].times(b[0]).plus(a[1].times(b[1])).plus(a[2].times(b[2]))
}

/// The cross product.
pub fn cross<T: Real>(a: V3<T>, b: V3<T>) -> (r: V3<T>)
    ensures
        functional::<T>() ==> r == crossed(a, b),
{
    [
        a[1].times(b[2]).minus(a[2].times(b[1])),
        a[2].times(b[0]).minus(a[0].times(b[2])),
        a[0].times(b[1]).minus(a[1].times(b[0])),
    ]
}

/// The Euclidean length.
pub fn norm<T: Real>(a: V3<T>) -> (r: T)
    ensures
        functional::<T>() ==> r == length(a),
{
    dot(a, a).sqrt()
}

/// The direction of `a`: `a` scaled to unit length, or `a` itself where it has no positive length.
pub fn normalize<T: Real>(a: V3<T>) -> (r: V3<T>)
    ensures
        functional::<T>() ==> r == direction(a),
{
    let n = norm(a);
    if T::ratio(0, 1).lt(n) {
        scale(a, T::ratio(1, 1).over(n))
    } else {
        a
    }
}

} // verus!
