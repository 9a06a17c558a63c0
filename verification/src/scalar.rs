//! The scalar that the filter computes with.
//!
//! All of the library is generic in its scalar: a flight computer plugs in its hardware floats, a
//! bench plugs in whatever it wants to run the same code on. Nothing is assumed of the operations
//! beyond what a contract says under [`functional`]: that an operation, given the same operands,
//! gives the same result. The names below ([`sum`], [`prod`], [`root`] and so on) stand for those
//! results, so that a contract can say which operations, in which order, make up an answer. No
//! algebra is built in: `sum(a, b) == sum(b, a)`, say, is not assumed. The laws that hold in exact
//! arithmetic are proved from [`crate::exact::exact`].

use vstd::prelude::*;

verus! {

/// A real-number type.
pub trait Real: Copy {
    /// The constant `num / den`.
    fn ratio(num: i64, den: u64) -> (r: Self);

    /// The whole number `n`.
    fn from_u64(n: u64) -> (r: Self);

    /// A full turn in radians, `2π`.
    fn tau() -> (r: Self);

    /// A quarter turn in radians, `π/2`.
    fn frac_pi_2() -> (r: Self);

    /// `self + rhs`.
    fn plus(self, rhs: Self) -> (r: Self);

    /// `self - rhs`.
    fn minus(self, rhs: Self) -> (r: Self);

    /// `self * rhs`.
    fn times(self, rhs: Self) -> (r: Self);

    /// `self / rhs`.
    fn over(self, rhs: Self) -> (r: Self);

    /// `-self`.
    fn negate(self) -> (r: Self);

    /// The absolute value.
    fn abs(self) -> (r: Self);

    /// The larger of the two.
    fn max(self, rhs: Self) -> (r: Self);

    /// The magnitude of `self` with the sign of `sign`.
    fn copysign(self, sign: Self) -> (r: Self);

    /// `self < rhs`.
    fn lt(self, rhs: Self) -> (r: bool);

    /// `self <= rhs`.
    fn le(self, rhs: Self) -> (r: bool);

    /// `self == rhs`.
    fn equals(self, rhs: Self) -> (r: bool);

    /// The square root.
    fn sqrt(self) -> (r: Self);

    /// The sine of an angle in radians.
    fn sin(self) -> (r: Self);

    /// The cosine of an angle in radians.
    fn cos(self) -> (r: Self);

    /// The angle of the point `(x, self)`, in radians.
    fn atan2(self, x: Self) -> (r: Self);

    /// The angle in radians whose sine is `self`.
    fn asin(self) -> (r: Self);

    /// The natural logarithm.
    fn ln(self) -> (r: Self);

    /// An angle in radians, in degrees.
    fn to_degrees(self) -> (r: Self);

    /// The nearest count.
    fn round_usize(self) -> (r: usize);

    /// The count left when the fraction is cut off.
    fn trunc_usize(self) -> (r: usize);
}

/// The constant `num / den`, as [`Real::ratio`] gives it.
#[verifier::opaque]
pub open spec fn lit<T: Real>(num: i64, den: u64) -> T {
    choose|r: T| call_ensures(T::ratio, (num, den), r)
}

/// The whole number `n`, as [`Real::from_u64`] gives it.
#[verifier::opaque]
pub open spec fn whole<T: Real>(n: u64) -> T {
    choose|r: T| call_ensures(T::from_u64, (n,), r)
}

/// A full turn in radians, as [`Real::tau`] gives it.
#[verifier::opaque]
pub open spec fn turn<T: Real>() -> T {
    choose|r: T| call_ensures(T::tau, (), r)
}

/// A quarter turn in radians, as [`Real::frac_pi_2`] gives it.
#[verifier::opaque]
pub open spec fn quarter_turn<T: Real>() -> T {
    choose|r: T| call_ensures(T::frac_pi_2, (), r)
}

/// `a + b`, as [`Real::plus`] gives it.
#[verifier::opaque]
pub open spec fn sum<T: Real>(a: T, b: T) -> T {
    choose|r: T| call_ensures(T::plus, (a, b), r)
}

/// `a - b`, as [`Real::minus`] gives it.
#[verifier::opaque]
pub open spec fn diff<T: Real>(a: T, b: T) -> T {
    choose|r: T| call_ensures(T::minus, (a, b), r)
}

/// `a * b`, as [`Real::times`] gives it.
#[verifier::opaque]
pub open spec fn prod<T: Real>(a: T, b: T) -> T {
    choose|r: T| call_ensures(T::times, (a, b), r)
}

/// `a / b`, as [`Real::over`] gives it.
#[verifier::opaque]
pub open spec fn quot<T: Real>(a: T, b: T) -> T {
    choose|r: T| call_ensures(T::over, (a, b), r)
}

/// `-a`, as [`Real::negate`] gives it.
#[verifier::opaque]
pub open spec fn negation<T: Real>(a: T) -> T {
    choose|r: T| call_ensures(T::negate, (a,), r)
}

/// `|a|`, as [`Real::abs`] gives it.
#[verifier::opaque]
pub open spec fn magnitude<T: Real>(a: T) -> T {
    choose|r: T| call_ensures(T::abs, (a,), r)
}

/// The larger of `a` and `b`, as [`Real::max`] gives it.
#[verifier::opaque]
pub open spec fn larger<T: Real>(a: T, b: T) -> T {
    choose|r: T| call_ensures(T::max, (a, b), r)
}

/// The magnitude of `a` with the sign of `b`, as [`Real::copysign`] gives it.
#[verifier::opaque]
pub open spec fn with_sign<T: Real>(a: T, b: T) -> T {
    choose|r: T| call_ensures(T::copysign, (a, b), r)
}

/// `a < b`, as [`Real::lt`] gives it.
#[verifier::opaque]
pub open spec fn less<T: Real>(a: T, b: T) -> bool {
    choose|r: bool| call_ensures(T::lt, (a, b), r)
}

/// `a <= b`, as [`Real::le`] gives it.
#[verifier::opaque]
pub open spec fn at_most<T: Real>(a: T, b: T) -> bool {
    choose|r: bool| call_ensures(T::le, (a, b), r)
}

/// `a == b`, as [`Real::equals`] gives it.
#[verifier::opaque]
pub open spec fn same<T: Real>(a: T, b: T) -> bool {
    choose|r: bool| call_ensures(T::equals, (a, b), r)
}

/// The square root of `a`, as [`Real::sqrt`] gives it.
#[verifier::opaque]
pub open spec fn root<T: Real>(a: T) -> T {
    choose|r: T| call_ensures(T::sqrt, (a,), r)
}

/// The sine of `a`, as [`Real::sin`] gives it.
#[verifier::opaque]
pub open spec fn sine<T: Real>(a: T) -> T {
    choose|r: T| call_ensures(T::sin, (a,), r)
}

/// The cosine of `a`, as [`Real::cos`] gives it.
#[verifier::opaque]
pub open spec fn cosine<T: Real>(a: T) -> T {
    choose|r: T| call_ensures(T::cos, (a,), r)
}

/// The angle of the point `(b, a)`, as [`Real::atan2`] gives it.
#[verifier::opaque]
pub open spec fn arctan2<T: Real>(a: T, b: T) -> T {
    choose|r: T| call_ensures(T::atan2, (a, b), r)
}

/// The arcsine of `a`, as [`Real::asin`] gives it.
#[verifier::opaque]
pub open spec fn arcsine<T: Real>(a: T) -> T {
    choose|r: T| call_ensures(T::asin, (a,), r)
}

/// The natural logarithm of `a`, as [`Real::ln`] gives it.
#[verifier::opaque]
pub open spec fn log<T: Real>(a: T) -> T {
    choose|r: T| call_ensures(T::ln, (a,), r)
}

/// The angle `a` in degrees, as [`Real::to_degrees`] gives it.
#[verifier::opaque]
pub open spec fn degrees<T: Real>(a: T) -> T {
    choose|r: T| call_ensures(T::to_degrees, (a,), r)
}

/// The count nearest to `a`, as [`Real::round_usize`] gives it.
#[verifier::opaque]
pub open spec fn rounded<T: Real>(a: T) -> usize {
    choose|r: usize| call_ensures(T::round_usize, (a,), r)
}

/// The count that cutting off the fraction of `a` leaves, as [`Real::trunc_usize`] gives it.
#[verifier::opaque]
pub open spec fn truncated<T: Real>(a: T) -> usize {
    choose|r: usize| call_ensures(T::trunc_usize, (a,), r)
}

/// The operations of the scalar are functions: the same operands always give the same result, the
/// one that the names above stand for.
#[verifier::opaque]
pub open spec fn functional<T: Real>() -> bool {
    &&& forall|num: i64, den: u64, r: T| #[trigger] call_ensures(T::ratio, (num, den), r) ==> r == lit::<T>(num, den)
    &&& forall|n: u64, r: T| #[trigger] call_ensures(T::from_u64, (n,), r) ==> r == whole::<T>(n)
    &&& forall|r: T| #[trigger] call_ensures(T::tau, (), r) ==> r == turn::<T>()
    &&& forall|r: T| #[trigger] call_ensures(T::frac_pi_2, (), r) ==> r == quarter_turn::<T>()
    &&& forall|a: T, b: T, r: T| #[trigger] call_ensures(T::plus, (a, b), r) ==> r == sum(a, b)
    &&& forall|a: T, b: T, r: T| #[trigger] call_ensures(T::minus, (a, b), r) ==> r == diff(a, b)
    &&& forall|a: T, b: T, r: T| #[trigger] call_ensures(T::times, (a, b), r) ==> r == prod(a, b)
    &&& forall|a: T, b: T, r: T| #[trigger] call_ensures(T::over, (a, b), r) ==> r == quot(a, b)
    &&& forall|a: T, r: T| #[trigger] call_ensures(T::negate, (a,), r) ==> r == negation(a)
    &&& forall|a: T, r: T| #[trigger] call_ensures(T::abs, (a,), r) ==> r == magnitude(a)
    &&& forall|a: T, b: T, r: T| #[trigger] call_ensures(T::max, (a, b), r) ==> r == larger(a, b)
    &&& forall|a: T, b: T, r: T| #[trigger] call_ensures(T::copysign, (a, b), r) ==> r == with_sign(a, b)
    &&& forall|a: T, b: T, r: bool| #[trigger] call_ensures(T::lt, (a, b), r) ==> r == less(a, b)
    &&& forall|a: T, b: T, r: bool| #[trigger] call_ensures(T::le, (a, b), r) ==> r == at_most(a, b)
    &&& forall|a: T, b: T, r: bool| #[trigger] call_ensures(T::equals, (a, b), r) ==> r == same(a, b)
    &&& forall|a: T, r: T| #[trigger] call_ensures(T::sqrt, (a,), r) ==> r == root(a)
    &&& forall|a: T, r: T| #[trigger] call_ensures(T::sin, (a,), r) ==> r == sine(a)
    &&& forall|a: T, r: T| #[trigger] call_ensures(T::cos, (a,), r) ==> r == cosine(a)
    &&& forall|a: T, b: T, r: T| #[trigger] call_ensures(T::atan2, (a, b), r) ==> r == arctan2(a, b)
    &&& forall|a: T, r: T| #[trigger] call_ensures(T::asin, (a,), r) ==> r == arcsine(a)
    &&& forall|a: T, r: T| #[trigger] call_ensures(T::ln, (a,), r) ==> r == log(a)
    &&& forall|a: T, r: T| #[trigger] call_ensures(T::to_degrees, (a,), r) ==> r == degrees(a)
    &&& forall|a: T, r: usize| #[trigger] call_ensures(T::round_usize, (a,), r) ==> r == rounded(a)
    &&& forall|a: T, r: usize| #[trigger] call_ensures(T::trunc_usize, (a,), r) ==> r == truncated(a)
}

/// What [`Real::ratio`] returns is what [`lit`] names.
pub broadcast proof fn ratio_gives_lit<T: Real>(num: i64, den: u64, r: T)
    requires
        functional::<T>(),
        #[trigger] call_ensures(T::ratio, (num, den), r),
    ensures
        r == lit::<T>(num, den),
{
    reveal(functional);
}

/// What [`Real::from_u64`] returns is what [`whole`] names.
pub broadcast proof fn from_u64_gives_whole<T: Real>(n: u64, r: T)
    requires
        functional::<T>(),
        #[trigger] call_ensures(T::from_u64, (n,), r),
    ensures
        r == whole::<T>(n),
{
    reveal(functional);
}

/// What [`Real::tau`] returns is what [`turn`] names.
pub broadcast proof fn tau_gives_turn<T: Real>(r: T)
    requires
        functional::<T>(),
        #[trigger] call_ensures(T::tau, (), r),
    ensures
        r == turn::<T>(),
{
    reveal(functional);
}

/// What [`Real::frac_pi_2`] returns is what [`quarter_turn`] names.
pub broadcast proof fn frac_pi_2_gives_quarter_turn<T: Real>(r: T)
    requires
        functional::<T>(),
        #[trigger] call_ensures(T::frac_pi_2, (), r),
    ensures
        r == quarter_turn::<T>(),
{
    reveal(functional);
}

/// What [`Real::plus`] returns is what [`sum`] names.
pub broadcast proof fn plus_gives_sum<T: Real>(a: T, b: T, r: T)
    requires
        functional::<T>(),
        #[trigger] call_ensures(T::plus, (a, b), r),
    ensures
        r == sum(a, b),
{
    reveal(functional);
}

/// What [`Real::minus`] returns is what [`diff`] names.
pub broadcast proof fn minus_gives_diff<T: Real>(a: T, b: T, r: T)
    requires
        functional::<T>(),
        #[trigger] call_ensures(T::minus, (a, b), r),
    ensures
        r == diff(a, b),
{
    reveal(functional);
}

/// What [`Real::times`] returns is what [`prod`] names.
pub broadcast proof fn times_gives_prod<T: Real>(a: T, b: T, r: T)
    requires
        functional::<T>(),
        #[trigger] call_ensures(T::times, (a, b), r),
    ensures
        r == prod(a, b),
{
    reveal(functional);
}

/// What [`Real::over`] returns is what [`quot`] names.
pub broadcast proof fn over_gives_quot<T: Real>(a: T, b: T, r: T)
    requires
        functional::<T>(),
        #[trigger] call_ensures(T::over, (a, b), r),
    ensures
        r == quot(a, b),
{
    reveal(functional);
}

/// What [`Real::negate`] returns is what [`negation`] names.
pub broadcast proof fn negate_gives_negation<T: Real>(a: T, r: T)
    requires
        functional::<T>(),
        #[trigger] call_ensures(T::negate, (a,), r),
    ensures
        r == negation(a),
{
    reveal(functional);
}

/// What [`Real::abs`] returns is what [`magnitude`] names.
pub broadcast proof fn abs_gives_magnitude<T: Real>(a: T, r: T)
    requires
        functional::<T>(),
        #[trigger] call_ensures(T::abs, (a,), r),
    ensures
        r == magnitude(a),
{
    reveal(functional);
}

/// What [`Real::max`] returns is what [`larger`] names.
pub broadcast proof fn max_gives_larger<T: Real>(a: T, b: T, r: T)
    requires
        functional::<T>(),
        #[trigger] call_ensures(T::max, (a, b), r),
    ensures
        r == larger(a, b),
{
    reveal(functional);
}

/// What [`Real::copysign`] returns is what [`with_sign`] names.
pub broadcast proof fn copysign_gives_with_sign<T: Real>(a: T, b: T, r: T)
    requires
        functional::<T>(),
        #[trigger] call_ensures(T::copysign, (a, b), r),
    ensures
        r == with_sign(a, b),
{
    reveal(functional);
}

/// What [`Real::lt`] returns is what [`less`] names.
pub broadcast proof fn lt_gives_less<T: Real>(a: T, b: T, r: bool)
    requires
        functional::<T>(),
        #[trigger] call_ensures(T::lt, (a, b), r),
    ensures
        r == less(a, b),
{
    reveal(functional);
}

/// What [`Real::le`] returns is what [`at_most`] names.
pub broadcast proof fn le_gives_at_most<T: Real>(a: T, b: T, r: bool)
    requires
        functional::<T>(),
        #[trigger] call_ensures(T::le, (a, b), r),
    ensures
        r == at_most(a, b),
{
    reveal(functional);
}

/// What [`Real::equals`] returns is what [`same`] names.
pub broadcast proof fn equals_gives_same<T: Real>(a: T, b: T, r: bool)
    requires
        functional::<T>(),
        #[trigger] call_ensures(T::equals, (a, b), r),
    ensures
        r == same(a, b),
{
    reveal(functional);
}

/// What [`Real::sqrt`] returns is what [`root`] names.
pub broadcast proof fn sqrt_gives_root<T: Real>(a: T, r: T)
    requires
        functional::<T>(),
        #[trigger] call_ensures(T::sqrt, (a,), r),
    ensures
        r == root(a),
{
    reveal(functional);
}

/// What [`Real::sin`] returns is what [`sine`] names.
pub broadcast proof fn sin_gives_sine<T: Real>(a: T, r: T)
    requires
        functional::<T>(),
        #[trigger] call_ensures(T::sin, (a,), r),
    ensures
        r == sine(a),
{
    reveal(functional);
}

/// What [`Real::cos`] returns is what [`cosine`] names.
pub broadcast proof fn cos_gives_cosine<T: Real>(a: T, r: T)
    requires
        functional::<T>(),
        #[trigger] call_ensures(T::cos, (a,), r),
    ensures
        r == cosine(a),
{
    reveal(functional);
}

/// What [`Real::atan2`] returns is what [`arctan2`] names.
pub broadcast proof fn atan2_gives_arctan2<T: Real>(a: T, b: T, r: T)
    requires
        functional::<T>(),
        #[trigger] call_ensures(T::atan2, (a, b), r),
    ensures
        r == arctan2(a, b),
{
    reveal(functional);
}

/// What [`Real::asin`] returns is what [`arcsine`] names.
pub broadcast proof fn asin_gives_arcsine<T: Real>(a: T, r: T)
    requires
        functional::<T>(),
        #[trigger] call_ensures(T::asin, (a,), r),
    ensures
        r == arcsine(a),
{
    reveal(functional);
}

/// What [`Real::ln`] returns is what [`log`] names.
pub broadcast proof fn ln_gives_log<T: Real>(a: T, r: T)
    requires
        functional::<T>(),
        #[trigger] call_ensures(T::ln, (a,), r),
    ensures
        r == log(a),
{
    reveal(functional);
}

/// What [`Real::to_degrees`] returns is what [`degrees`] names.
pub broadcast proof fn to_degrees_gives_degrees<T: Real>(a: T, r: T)
    requires
        functional::<T>(),
        #[trigger] call_ensures(T::to_degrees, (a,), r),
    ensures
        r == degrees(a),
{
    reveal(functional);
}

/// What [`Real::round_usize`] returns is what [`rounded`] names.
pub broadcast proof fn round_usize_gives_rounded<T: Real>(a: T, r: usize)
    requires
        functional::<T>(),
        #[trigger] call_ensures(T::round_usize, (a,), r),
    ensures
        r == rounded(a),
{
    reveal(functional);
}

/// What [`Real::trunc_usize`] returns is what [`truncated`] names.
pub broadcast proof fn trunc_usize_gives_truncated<T: Real>(a: T, r: usize)
    requires
        functional::<T>(),
        #[trigger] call_ensures(T::trunc_usize, (a,), r),
    ensures
        r == truncated(a),
{
    reveal(functional);
}

/// What a call of each operation returns.
pub broadcast group group_real_ops {
    ratio_gives_lit,
    from_u64_gives_whole,
    tau_gives_turn,
    frac_pi_2_gives_quarter_turn,
    plus_gives_sum,
    minus_gives_diff,
    times_gives_prod,
    over_gives_quot,
    negate_gives_negation,
    abs_gives_magnitude,
    max_gives_larger,
    copysign_gives_with_sign,
    lt_gives_less,
    le_gives_at_most,
    equals_gives_same,
    sqrt_gives_root,
    sin_gives_sine,
    cos_gives_cosine,
    atan2_gives_arctan2,
    asin_gives_arcsine,
    ln_gives_log,
    to_degrees_gives_degrees,
    round_usize_gives_rounded,
    trunc_usize_gives_truncated,
}

} // verus!
