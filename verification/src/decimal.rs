//! Scalars as decimal text.

use vstd::prelude::*;

use crate::scalar::Real;

verus! {

/// A scalar that can be written and read in decimal, as ASCII text.
pub trait Decimal: Real {
    /// The text with `digits` digits after the point.
    fn to_fixed(self, digits: u8) -> (r: Vec<u8>);

    /// The number that `text` spells, if it spells one.
    fn parse(text: &[u8]) -> (r: Option<Self>);
}

/// The text of `x` with `digits` digits after the point, as [`Decimal::to_fixed`] gives it.
#[verifier::opaque]
pub open spec fn written<T: Decimal>(x: T, digits: u8) -> Seq<u8> {
    (choose|v: Vec<u8>| call_ensures(T::to_fixed, (x, digits), v))@
}

/// Reading `text` may give `r`.
pub open spec fn may_spell<T: Decimal>(text: Seq<u8>, r: Option<T>) -> bool {
    exists|s: &[u8]| #[trigger] call_ensures(T::parse, (s,), r) && s@ == text
}

/// The number that `text` spells, as [`Decimal::parse`] gives it.
#[verifier::opaque]
pub open spec fn spelled<T: Decimal>(text: Seq<u8>) -> Option<T> {
    choose|r: Option<T>| may_spell(text, r)
}

/// Writing and reading depend on their arguments alone.
#[verifier::opaque]
pub open spec fn textual<T: Decimal>() -> bool {
    &&& forall|x: T, digits: u8, v: Vec<u8>| #[trigger]
        call_ensures(T::to_fixed, (x, digits), v) ==> v@ == written(x, digits)
    &&& forall|s: &[u8], r: Option<T>| #[trigger]
        call_ensures(T::parse, (s,), r) ==> r == spelled::<T>(s@)
}

/// What [`Decimal::to_fixed`] returns is what [`written`] names.
pub broadcast proof fn to_fixed_gives_written<T: Decimal>(x: T, digits: u8, v: Vec<u8>)
    requires
        textual::<T>(),
        #[trigger] call_ensures(T::to_fixed, (x, digits), v),
    ensures
        v@ == written(x, digits),
{
    reveal(textual);
}

/// What [`Decimal::parse`] returns is what [`spelled`] names.
pub broadcast proof fn parse_gives_spelled<T: Decimal>(s: &[u8], r: Option<T>)
    requires
        textual::<T>(),
        #[trigger] call_ensures(T::parse, (s,), r),
    ensures
        r == spelled::<T>(s@),
{
    reveal(textual);
}

/// The names of the results of both.
pub broadcast group group_decimal_ops {
    to_fixed_gives_written,
    parse_gives_spelled,
}

} // verus!
