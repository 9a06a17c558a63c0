//! What holds in exact arithmetic.
//!
//! The contracts of this library say which operations make up an answer, and assume no algebra of
//! them. Here the operations are taken to be exact: `val` reads a scalar as a real number, and every
//! operation computes on those numbers without rounding. What the filter is built on is then provable
//! of the very expressions that the code evaluates. Hardware floats come near to it.

use vstd::prelude::*;

use crate::scalar::{
    at_most, cosine, diff, larger, less, lit, magnitude, negation, prod, quot, root, same, sine,
    sum, whole, Real,
};

pub mod algebra;
pub mod angles;
pub mod clockwork;
pub mod composition;
pub mod conditioning;
pub mod conversions;
pub mod covariance;
pub mod definite;
pub mod dynamics;
pub mod elements;
pub mod errors;
pub mod flights;
pub mod frames;
pub mod fusion;
pub mod inverse;
pub mod jacobians;
pub mod kalman;
pub mod logarithm;
pub mod matrices;
pub mod measurements;
pub mod motion;
pub mod pivots;
pub mod quaternions;
pub mod readings;
pub mod recordings;
pub mod residuals;
pub mod rotations;
pub mod scores;
pub mod sessions;
pub mod small;
pub mod sums;
pub mod windows;

verus! {

/// Every operation on scalars is exact, with `val` for the number that a scalar stands for.
pub open spec fn exact<T: Real>(val: spec_fn(T) -> real) -> bool {
    &&& forall|num: i64, den: u64|
        den > 0 ==> val(#[trigger] lit::<T>(num, den)) == num as real / den as real
    &&& forall|n: u64| val(#[trigger] whole::<T>(n)) == n as real
    &&& forall|a: T, b: T| val(#[trigger] sum(a, b)) == val(a) + val(b)
    &&& forall|a: T, b: T| val(#[trigger] diff(a, b)) == val(a) - val(b)
    &&& forall|a: T, b: T| val(#[trigger] prod(a, b)) == val(a) * val(b)
    &&& forall|a: T, b: T|
        val(b) != 0real ==> val(#[trigger] quot(a, b)) == val(a) / val(b)
    &&& forall|a: T| val(#[trigger] negation(a)) == -val(a)
    &&& forall|a: T| val(#[trigger] magnitude(a)) == absolute(val(a))
    &&& forall|a: T, b: T|
        val(#[trigger] larger(a, b)) == (if val(a) < val(b) {
            val(b)
        } else {
            val(a)
        })
    &&& forall|a: T, b: T| #[trigger] less(a, b) == (val(a) < val(b))
    &&& forall|a: T, b: T| #[trigger] at_most(a, b) == (val(a) <= val(b))
    &&& forall|a: T, b: T| #[trigger] same(a, b) == (val(a) == val(b))
    &&& forall|a: T|
        #![trigger root(a)]
        val(a) >= 0real ==> val(root(a)) >= 0real && val(root(a)) * val(root(a)) == val(a)
    &&& forall|a: T|
        #![trigger sine(a)]
        #![trigger cosine(a)]
        val(sine(a)) * val(sine(a)) + val(cosine(a)) * val(cosine(a)) == 1real
}

/// The small constants.
pub proof fn lemma_constants<T: Real>(val: spec_fn(T) -> real)
    requires
        exact(val),
    ensures
        val(lit::<T>(0, 1)) == 0real,
        val(lit::<T>(1, 1)) == 1real,
        val(lit::<T>(2, 1)) == 2real,
        val(lit::<T>(1, 2)) == 1real / 2real,
        val(lit::<T>(1, 4)) == 1real / 4real,
{
}

/// A square is not negative.
pub proof fn lemma_square(x: real)
    ensures
        x * x >= 0real,
{
    assert(x * x >= 0real) by (nonlinear_arith);
}

/// Dividing is multiplying by the reciprocal.
pub proof fn lemma_reciprocal(x: real, m: real)
    requires
        m != 0real,
    ensures
        x / m == x * (1real / m),
        m * (1real / m) == 1real,
{
    assert(x / m == x * (1real / m)) by (nonlinear_arith)
        requires
            m != 0real,
    ;
    assert(m * (1real / m) == 1real) by (nonlinear_arith)
        requires
            m != 0real,
    ;
}

/// The absolute value of a real number.
pub open spec fn absolute(x: real) -> real {
    if x < 0real {
        -x
    } else {
        x
    }
}

} // verus!
