//! Scalars handed to a viewer in a narrower type.

use vstd::prelude::*;

use crate::scalar::Real;

verus! {

/// A scalar that can be rounded to the narrower `U`.
pub trait Narrow<U: Real>: Real {
    /// The nearest value of `U`.
    fn narrow(self) -> (r: U);
}

/// `x` in the narrower type, as [`Narrow::narrow`] gives it.
#[verifier::opaque]
pub open spec fn narrowed<U: Real, T: Narrow<U>>(x: T) -> U {
    choose|r: U| call_ensures(T::narrow, (x,), r)
}

/// Narrowing depends on its argument alone.
#[verifier::opaque]
pub open spec fn narrows<U: Real, T: Narrow<U>>() -> bool {
    forall|x: T, r: U| #[trigger] call_ensures(T::narrow, (x,), r) ==> r == narrowed::<U, T>(x)
}

/// What [`Narrow::narrow`] returns is what [`narrowed`] names.
pub broadcast proof fn narrow_gives_narrowed<U: Real, T: Narrow<U>>(x: T, r: U)
    requires
        narrows::<U, T>(),
        #[trigger] call_ensures(T::narrow, (x,), r),
    ensures
        r == narrowed::<U, T>(x),
{
    reveal(narrows);
}

} // verus!
