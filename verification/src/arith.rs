//! The arithmetic that the kernels are written over.
//!
//! A kernel fixes which operation is applied to which numbers in which order,
//! and that order is what its contract states. What one operation computes is
//! left to an implementation of [`Arithmetic`]: numbers are IEEE 754 bit
//! patterns, `u32` for single precision and `u64` for double.

use vstd::prelude::*;

verus! {

/// One rounding operation per method.
///
/// The methods promise nothing by themselves. A kernel that relies on them
/// says so: its contract asks for [`faithful`] arithmetic.
pub trait Arithmetic: Sized {
    /// `a + b`.
    fn plus(a: u32, b: u32) -> u32;

    /// `a - b`.
    fn minus(a: u32, b: u32) -> u32;

    /// `a * b`.
    fn times(a: u32, b: u32) -> u32;

    /// `a / b`.
    fn over(a: u32, b: u32) -> u32;

    /// `a % b`, with the sign of `a`.
    fn remainder(a: u32, b: u32) -> u32;

    /// The square root.
    fn root(a: u32) -> u32;

    /// The largest whole number at most `a`.
    fn floor(a: u32) -> u32;

    /// The smallest whole number at least `a`.
    fn ceil(a: u32) -> u32;

    /// The nearest whole number, halves away from zero.
    fn round(a: u32) -> u32;

    /// `a` to the power `b`.
    fn power(a: u32, b: u32) -> u32;

    /// The exponential.
    fn exp(a: u32) -> u32;

    /// The natural logarithm.
    fn ln(a: u32) -> u32;

    /// The cosine.
    fn cos(a: u32) -> u32;

    /// The nearest number to a count.
    fn of_count(n: u64) -> u32;

    /// The nearest number to a signed offset.
    fn of_offset(n: i64) -> u32;

    /// The whole part as a count: 0 below it and for what is not a number, the largest count above it.
    fn to_count(a: u32) -> u64;

    /// The whole part as a signed offset, held to its range; 0 for what is not a number.
    fn to_offset(a: u32) -> i64;

    /// The same number in double precision.
    fn widen(a: u32) -> u64;

    /// The nearest number in single precision.
    fn narrow(a: u64) -> u32;

    /// `a + b` in double precision.
    fn plus64(a: u64, b: u64) -> u64;

    /// `a - b` in double precision.
    fn minus64(a: u64, b: u64) -> u64;

    /// `a * b` in double precision.
    fn times64(a: u64, b: u64) -> u64;

    /// `a / b` in double precision.
    fn over64(a: u64, b: u64) -> u64;

    /// The square root in double precision.
    fn root64(a: u64) -> u64;

    /// The largest whole number at most `a`, in double precision.
    fn floor64(a: u64) -> u64;

    /// The exponential in double precision.
    fn exp64(a: u64) -> u64;

    /// The sine in double precision.
    fn sin64(a: u64) -> u64;

    /// The cosine in double precision.
    fn cos64(a: u64) -> u64;

    /// Degrees turned into radians, in double precision.
    fn radians64(a: u64) -> u64;

    /// The nearest double-precision number to a count.
    fn of_count64(n: u64) -> u64;

    /// The whole part of a double-precision number as a count, like `to_count`.
    fn to_count64(a: u64) -> u64;

    /// The number as it prints in messages.
    fn text(a: u32) -> String;

    /// The number as it prints inside a list.
    fn debug_text(a: u32) -> String;

}

/// What [`Arithmetic::plus`] gives.
#[verifier::opaque]
pub open spec fn plus_of<A: Arithmetic>(a: u32, b: u32) -> u32 {
    choose|r: u32| call_ensures(A::plus, (a, b), r)
}

/// What [`Arithmetic::minus`] gives.
#[verifier::opaque]
pub open spec fn minus_of<A: Arithmetic>(a: u32, b: u32) -> u32 {
    choose|r: u32| call_ensures(A::minus, (a, b), r)
}

/// What [`Arithmetic::times`] gives.
#[verifier::opaque]
pub open spec fn times_of<A: Arithmetic>(a: u32, b: u32) -> u32 {
    choose|r: u32| call_ensures(A::times, (a, b), r)
}

/// What [`Arithmetic::over`] gives.
#[verifier::opaque]
pub open spec fn over_of<A: Arithmetic>(a: u32, b: u32) -> u32 {
    choose|r: u32| call_ensures(A::over, (a, b), r)
}

/// What [`Arithmetic::remainder`] gives.
#[verifier::opaque]
pub open spec fn remainder_of<A: Arithmetic>(a: u32, b: u32) -> u32 {
    choose|r: u32| call_ensures(A::remainder, (a, b), r)
}

/// What [`Arithmetic::root`] gives.
#[verifier::opaque]
pub open spec fn root_of<A: Arithmetic>(a: u32) -> u32 {
    choose|r: u32| call_ensures(A::root, (a,), r)
}

/// What [`Arithmetic::floor`] gives.
#[verifier::opaque]
pub open spec fn floor_of<A: Arithmetic>(a: u32) -> u32 {
    choose|r: u32| call_ensures(A::floor, (a,), r)
}

/// What [`Arithmetic::ceil`] gives.
#[verifier::opaque]
pub open spec fn ceil_of<A: Arithmetic>(a: u32) -> u32 {
    choose|r: u32| call_ensures(A::ceil, (a,), r)
}

/// What [`Arithmetic::round`] gives.
#[verifier::opaque]
pub open spec fn round_of<A: Arithmetic>(a: u32) -> u32 {
    choose|r: u32| call_ensures(A::round, (a,), r)
}

/// What [`Arithmetic::power`] gives.
#[verifier::opaque]
pub open spec fn power_of<A: Arithmetic>(a: u32, b: u32) -> u32 {
    choose|r: u32| call_ensures(A::power, (a, b), r)
}

/// What [`Arithmetic::exp`] gives.
#[verifier::opaque]
pub open spec fn exp_of<A: Arithmetic>(a: u32) -> u32 {
    choose|r: u32| call_ensures(A::exp, (a,), r)
}

/// What [`Arithmetic::ln`] gives.
#[verifier::opaque]
pub open spec fn ln_of<A: Arithmetic>(a: u32) -> u32 {
    choose|r: u32| call_ensures(A::ln, (a,), r)
}

/// What [`Arithmetic::cos`] gives.
#[verifier::opaque]
pub open spec fn cos_of<A: Arithmetic>(a: u32) -> u32 {
    choose|r: u32| call_ensures(A::cos, (a,), r)
}

/// What [`Arithmetic::of_count`] gives.
#[verifier::opaque]
pub open spec fn of_count_of<A: Arithmetic>(n: u64) -> u32 {
    choose|r: u32| call_ensures(A::of_count, (n,), r)
}

/// What [`Arithmetic::of_offset`] gives.
#[verifier::opaque]
pub open spec fn of_offset_of<A: Arithmetic>(n: i64) -> u32 {
    choose|r: u32| call_ensures(A::of_offset, (n,), r)
}

/// What [`Arithmetic::to_count`] gives.
#[verifier::opaque]
pub open spec fn to_count_of<A: Arithmetic>(a: u32) -> u64 {
    choose|r: u64| call_ensures(A::to_count, (a,), r)
}

/// What [`Arithmetic::to_offset`] gives.
#[verifier::opaque]
pub open spec fn to_offset_of<A: Arithmetic>(a: u32) -> i64 {
    choose|r: i64| call_ensures(A::to_offset, (a,), r)
}

/// What [`Arithmetic::widen`] gives.
#[verifier::opaque]
pub open spec fn widen_of<A: Arithmetic>(a: u32) -> u64 {
    choose|r: u64| call_ensures(A::widen, (a,), r)
}

/// What [`Arithmetic::narrow`] gives.
#[verifier::opaque]
pub open spec fn narrow_of<A: Arithmetic>(a: u64) -> u32 {
    choose|r: u32| call_ensures(A::narrow, (a,), r)
}

/// What [`Arithmetic::plus64`] gives.
#[verifier::opaque]
pub open spec fn plus64_of<A: Arithmetic>(a: u64, b: u64) -> u64 {
    choose|r: u64| call_ensures(A::plus64, (a, b), r)
}

/// What [`Arithmetic::minus64`] gives.
#[verifier::opaque]
pub open spec fn minus64_of<A: Arithmetic>(a: u64, b: u64) -> u64 {
    choose|r: u64| call_ensures(A::minus64, (a, b), r)
}

/// What [`Arithmetic::times64`] gives.
#[verifier::opaque]
pub open spec fn times64_of<A: Arithmetic>(a: u64, b: u64) -> u64 {
    choose|r: u64| call_ensures(A::times64, (a, b), r)
}

/// What [`Arithmetic::over64`] gives.
#[verifier::opaque]
pub open spec fn over64_of<A: Arithmetic>(a: u64, b: u64) -> u64 {
    choose|r: u64| call_ensures(A::over64, (a, b), r)
}

/// What [`Arithmetic::root64`] gives.
#[verifier::opaque]
pub open spec fn root64_of<A: Arithmetic>(a: u64) -> u64 {
    choose|r: u64| call_ensures(A::root64, (a,), r)
}

/// What [`Arithmetic::floor64`] gives.
#[verifier::opaque]
pub open spec fn floor64_of<A: Arithmetic>(a: u64) -> u64 {
    choose|r: u64| call_ensures(A::floor64, (a,), r)
}

/// What [`Arithmetic::exp64`] gives.
#[verifier::opaque]
pub open spec fn exp64_of<A: Arithmetic>(a: u64) -> u64 {
    choose|r: u64| call_ensures(A::exp64, (a,), r)
}

/// What [`Arithmetic::sin64`] gives.
#[verifier::opaque]
pub open spec fn sin64_of<A: Arithmetic>(a: u64) -> u64 {
    choose|r: u64| call_ensures(A::sin64, (a,), r)
}

/// What [`Arithmetic::cos64`] gives.
#[verifier::opaque]
pub open spec fn cos64_of<A: Arithmetic>(a: u64) -> u64 {
    choose|r: u64| call_ensures(A::cos64, (a,), r)
}

/// What [`Arithmetic::radians64`] gives.
#[verifier::opaque]
pub open spec fn radians64_of<A: Arithmetic>(a: u64) -> u64 {
    choose|r: u64| call_ensures(A::radians64, (a,), r)
}

/// What [`Arithmetic::of_count64`] gives.
#[verifier::opaque]
pub open spec fn of_count64_of<A: Arithmetic>(n: u64) -> u64 {
    choose|r: u64| call_ensures(A::of_count64, (n,), r)
}

/// What [`Arithmetic::to_count64`] gives.
#[verifier::opaque]
pub open spec fn to_count64_of<A: Arithmetic>(a: u64) -> u64 {
    choose|r: u64| call_ensures(A::to_count64, (a,), r)
}

/// What [`Arithmetic::text`] gives.
#[verifier::opaque]
pub open spec fn text_of<A: Arithmetic>(a: u32) -> Seq<char> {
    (choose|r: String| call_ensures(A::text, (a,), r))@
}

/// What [`Arithmetic::debug_text`] gives.
#[verifier::opaque]
pub open spec fn debug_text_of<A: Arithmetic>(a: u32) -> Seq<char> {
    (choose|r: String| call_ensures(A::debug_text, (a,), r))@
}

/// Whether every operation is a function: what it gives depends on its arguments
/// alone. Nothing else is asked of arithmetic; in particular not which number an
/// operation gives.
#[verifier::opaque]
pub open spec fn faithful<A: Arithmetic>() -> bool {
    &&& forall|a: u32, b: u32, r: u32, s: u32| #[trigger]
        call_ensures(A::plus, (a, b), r) && #[trigger] call_ensures(A::plus, (a, b), s) ==> r == s
    &&& forall|a: u32, b: u32, r: u32, s: u32| #[trigger]
        call_ensures(A::minus, (a, b), r) && #[trigger] call_ensures(A::minus, (a, b), s) ==> r == s
    &&& forall|a: u32, b: u32, r: u32, s: u32| #[trigger]
        call_ensures(A::times, (a, b), r) && #[trigger] call_ensures(A::times, (a, b), s) ==> r == s
    &&& forall|a: u32, b: u32, r: u32, s: u32| #[trigger]
        call_ensures(A::over, (a, b), r) && #[trigger] call_ensures(A::over, (a, b), s) ==> r == s
    &&& forall|a: u32, b: u32, r: u32, s: u32| #[trigger]
        call_ensures(A::remainder, (a, b), r) && #[trigger] call_ensures(A::remainder, (a, b), s) ==> r == s
    &&& forall|a: u32, r: u32, s: u32| #[trigger]
        call_ensures(A::root, (a,), r) && #[trigger] call_ensures(A::root, (a,), s) ==> r == s
    &&& forall|a: u32, r: u32, s: u32| #[trigger]
        call_ensures(A::floor, (a,), r) && #[trigger] call_ensures(A::floor, (a,), s) ==> r == s
    &&& forall|a: u32, r: u32, s: u32| #[trigger]
        call_ensures(A::ceil, (a,), r) && #[trigger] call_ensures(A::ceil, (a,), s) ==> r == s
    &&& forall|a: u32, r: u32, s: u32| #[trigger]
        call_ensures(A::round, (a,), r) && #[trigger] call_ensures(A::round, (a,), s) ==> r == s
    &&& forall|a: u32, b: u32, r: u32, s: u32| #[trigger]
        call_ensures(A::power, (a, b), r) && #[trigger] call_ensures(A::power, (a, b), s) ==> r == s
    &&& forall|a: u32, r: u32, s: u32| #[trigger]
        call_ensures(A::exp, (a,), r) && #[trigger] call_ensures(A::exp, (a,), s) ==> r == s
    &&& forall|a: u32, r: u32, s: u32| #[trigger]
        call_ensures(A::ln, (a,), r) && #[trigger] call_ensures(A::ln, (a,), s) ==> r == s
    &&& forall|a: u32, r: u32, s: u32| #[trigger]
        call_ensures(A::cos, (a,), r) && #[trigger] call_ensures(A::cos, (a,), s) ==> r == s
    &&& forall|n: u64, r: u32, s: u32| #[trigger]
        call_ensures(A::of_count, (n,), r) && #[trigger] call_ensures(A::of_count, (n,), s) ==> r == s
    &&& forall|n: i64, r: u32, s: u32| #[trigger]
        call_ensures(A::of_offset, (n,), r) && #[trigger] call_ensures(A::of_offset, (n,), s) ==> r == s
    &&& forall|a: u32, r: u64, s: u64| #[trigger]
        call_ensures(A::to_count, (a,), r) && #[trigger] call_ensures(A::to_count, (a,), s) ==> r == s
    &&& forall|a: u32, r: i64, s: i64| #[trigger]
        call_ensures(A::to_offset, (a,), r) && #[trigger] call_ensures(A::to_offset, (a,), s) ==> r == s
    &&& forall|a: u32, r: u64, s: u64| #[trigger]
        call_ensures(A::widen, (a,), r) && #[trigger] call_ensures(A::widen, (a,), s) ==> r == s
    &&& forall|a: u64, r: u32, s: u32| #[trigger]
        call_ensures(A::narrow, (a,), r) && #[trigger] call_ensures(A::narrow, (a,), s) ==> r == s
    &&& forall|a: u64, b: u64, r: u64, s: u64| #[trigger]
        call_ensures(A::plus64, (a, b), r) && #[trigger] call_ensures(A::plus64, (a, b), s) ==> r == s
    &&& forall|a: u64, b: u64, r: u64, s: u64| #[trigger]
        call_ensures(A::minus64, (a, b), r) && #[trigger] call_ensures(A::minus64, (a, b), s) ==> r == s
    &&& forall|a: u64, b: u64, r: u64, s: u64| #[trigger]
        call_ensures(A::times64, (a, b), r) && #[trigger] call_ensures(A::times64, (a, b), s) ==> r == s
    &&& forall|a: u64, b: u64, r: u64, s: u64| #[trigger]
        call_ensures(A::over64, (a, b), r) && #[trigger] call_ensures(A::over64, (a, b), s) ==> r == s
    &&& forall|a: u64, r: u64, s: u64| #[trigger]
        call_ensures(A::root64, (a,), r) && #[trigger] call_ensures(A::root64, (a,), s) ==> r == s
    &&& forall|a: u64, r: u64, s: u64| #[trigger]
        call_ensures(A::floor64, (a,), r) && #[trigger] call_ensures(A::floor64, (a,), s) ==> r == s
    &&& forall|a: u64, r: u64, s: u64| #[trigger]
        call_ensures(A::exp64, (a,), r) && #[trigger] call_ensures(A::exp64, (a,), s) ==> r == s
    &&& forall|a: u64, r: u64, s: u64| #[trigger]
        call_ensures(A::sin64, (a,), r) && #[trigger] call_ensures(A::sin64, (a,), s) ==> r == s
    &&& forall|a: u64, r: u64, s: u64| #[trigger]
        call_ensures(A::cos64, (a,), r) && #[trigger] call_ensures(A::cos64, (a,), s) ==> r == s
    &&& forall|a: u64, r: u64, s: u64| #[trigger]
        call_ensures(A::radians64, (a,), r) && #[trigger] call_ensures(A::radians64, (a,), s) ==> r == s
    &&& forall|n: u64, r: u64, s: u64| #[trigger]
        call_ensures(A::of_count64, (n,), r) && #[trigger] call_ensures(A::of_count64, (n,), s) ==> r == s
    &&& forall|a: u64, r: u64, s: u64| #[trigger]
        call_ensures(A::to_count64, (a,), r) && #[trigger] call_ensures(A::to_count64, (a,), s) ==> r == s
    &&& forall|a: u32, r: String, s: String| #[trigger]
        call_ensures(A::text, (a,), r) && #[trigger] call_ensures(A::text, (a,), s)
            ==> r@ == s@
    &&& forall|a: u32, r: String, s: String| #[trigger]
        call_ensures(A::debug_text, (a,), r) && #[trigger] call_ensures(A::debug_text, (a,), s)
            ==> r@ == s@
}

pub(crate) fn plus<A: Arithmetic>(a: u32, b: u32) -> (r: u32)
    requires
        faithful::<A>(),
    ensures
        r == plus_of::<A>(a, b),
{
    reveal(faithful);
    reveal(plus_of);
    A::plus(a, b)
}

pub(crate) fn minus<A: Arithmetic>(a: u32, b: u32) -> (r: u32)
    requires
        faithful::<A>(),
    ensures
        r == minus_of::<A>(a, b),
{
    reveal(faithful);
    reveal(minus_of);
    A::minus(a, b)
}

pub(crate) fn times<A: Arithmetic>(a: u32, b: u32) -> (r: u32)
    requires
        faithful::<A>(),
    ensures
        r == times_of::<A>(a, b),
{
    reveal(faithful);
    reveal(times_of);
    A::times(a, b)
}

pub(crate) fn over<A: Arithmetic>(a: u32, b: u32) -> (r: u32)
    requires
        faithful::<A>(),
    ensures
        r == over_of::<A>(a, b),
{
    reveal(faithful);
    reveal(over_of);
    A::over(a, b)
}

pub(crate) fn remainder<A: Arithmetic>(a: u32, b: u32) -> (r: u32)
    requires
        faithful::<A>(),
    ensures
        r == remainder_of::<A>(a, b),
{
    reveal(faithful);
    reveal(remainder_of);
    A::remainder(a, b)
}

pub(crate) fn root<A: Arithmetic>(a: u32) -> (r: u32)
    requires
        faithful::<A>(),
    ensures
        r == root_of::<A>(a),
{
    reveal(faithful);
    reveal(root_of);
    A::root(a)
}

pub(crate) fn floor<A: Arithmetic>(a: u32) -> (r: u32)
    requires
        faithful::<A>(),
    ensures
        r == floor_of::<A>(a),
{
    reveal(faithful);
    reveal(floor_of);
    A::floor(a)
}

pub(crate) fn ceil<A: Arithmetic>(a: u32) -> (r: u32)
    requires
        faithful::<A>(),
    ensures
        r == ceil_of::<A>(a),
{
    reveal(faithful);
    reveal(ceil_of);
    A::ceil(a)
}

pub(crate) fn round<A: Arithmetic>(a: u32) -> (r: u32)
    requires
        faithful::<A>(),
    ensures
        r == round_of::<A>(a),
{
    reveal(faithful);
    reveal(round_of);
    A::round(a)
}

pub(crate) fn power<A: Arithmetic>(a: u32, b: u32) -> (r: u32)
    requires
        faithful::<A>(),
    ensures
        r == power_of::<A>(a, b),
{
    reveal(faithful);
    reveal(power_of);
    A::power(a, b)
}

pub(crate) fn exp<A: Arithmetic>(a: u32) -> (r: u32)
    requires
        faithful::<A>(),
    ensures
        r == exp_of::<A>(a),
{
    reveal(faithful);
    reveal(exp_of);
    A::exp(a)
}

pub(crate) fn ln<A: Arithmetic>(a: u32) -> (r: u32)
    requires
        faithful::<A>(),
    ensures
        r == ln_of::<A>(a),
{
    reveal(faithful);
    reveal(ln_of);
    A::ln(a)
}

pub(crate) fn cos<A: Arithmetic>(a: u32) -> (r: u32)
    requires
        faithful::<A>(),
    ensures
        r == cos_of::<A>(a),
{
    reveal(faithful);
    reveal(cos_of);
    A::cos(a)
}

pub(crate) fn of_count<A: Arithmetic>(n: u64) -> (r: u32)
    requires
        faithful::<A>(),
    ensures
        r == of_count_of::<A>(n),
{
    reveal(faithful);
    reveal(of_count_of);
    A::of_count(n)
}

pub(crate) fn of_offset<A: Arithmetic>(n: i64) -> (r: u32)
    requires
        faithful::<A>(),
    ensures
        r == of_offset_of::<A>(n),
{
    reveal(faithful);
    reveal(of_offset_of);
    A::of_offset(n)
}

pub(crate) fn to_count<A: Arithmetic>(a: u32) -> (r: u64)
    requires
        faithful::<A>(),
    ensures
        r == to_count_of::<A>(a),
{
    reveal(faithful);
    reveal(to_count_of);
    A::to_count(a)
}

pub(crate) fn to_offset<A: Arithmetic>(a: u32) -> (r: i64)
    requires
        faithful::<A>(),
    ensures
        r == to_offset_of::<A>(a),
{
    reveal(faithful);
    reveal(to_offset_of);
    A::to_offset(a)
}

pub(crate) fn widen<A: Arithmetic>(a: u32) -> (r: u64)
    requires
        faithful::<A>(),
    ensures
        r == widen_of::<A>(a),
{
    reveal(faithful);
    reveal(widen_of);
    A::widen(a)
}

pub(crate) fn narrow<A: Arithmetic>(a: u64) -> (r: u32)
    requires
        faithful::<A>(),
    ensures
        r == narrow_of::<A>(a),
{
    reveal(faithful);
    reveal(narrow_of);
    A::narrow(a)
}

pub(crate) fn plus64<A: Arithmetic>(a: u64, b: u64) -> (r: u64)
    requires
        faithful::<A>(),
    ensures
        r == plus64_of::<A>(a, b),
{
    reveal(faithful);
    reveal(plus64_of);
    A::plus64(a, b)
}

pub(crate) fn minus64<A: Arithmetic>(a: u64, b: u64) -> (r: u64)
    requires
        faithful::<A>(),
    ensures
        r == minus64_of::<A>(a, b),
{
    reveal(faithful);
    reveal(minus64_of);
    A::minus64(a, b)
}

pub(crate) fn times64<A: Arithmetic>(a: u64, b: u64) -> (r: u64)
    requires
        faithful::<A>(),
    ensures
        r == times64_of::<A>(a, b),
{
    reveal(faithful);
    reveal(times64_of);
    A::times64(a, b)
}

pub(crate) fn over64<A: Arithmetic>(a: u64, b: u64) -> (r: u64)
    requires
        faithful::<A>(),
    ensures
        r == over64_of::<A>(a, b),
{
    reveal(faithful);
    reveal(over64_of);
    A::over64(a, b)
}

pub(crate) fn root64<A: Arithmetic>(a: u64) -> (r: u64)
    requires
        faithful::<A>(),
    ensures
        r == root64_of::<A>(a),
{
    reveal(faithful);
    reveal(root64_of);
    A::root64(a)
}

pub(crate) fn floor64<A: Arithmetic>(a: u64) -> (r: u64)
    requires
        faithful::<A>(),
    ensures
        r == floor64_of::<A>(a),
{
    reveal(faithful);
    reveal(floor64_of);
    A::floor64(a)
}

pub(crate) fn exp64<A: Arithmetic>(a: u64) -> (r: u64)
    requires
        faithful::<A>(),
    ensures
        r == exp64_of::<A>(a),
{
    reveal(faithful);
    reveal(exp64_of);
    A::exp64(a)
}

pub(crate) fn sin64<A: Arithmetic>(a: u64) -> (r: u64)
    requires
        faithful::<A>(),
    ensures
        r == sin64_of::<A>(a),
{
    reveal(faithful);
    reveal(sin64_of);
    A::sin64(a)
}

pub(crate) fn cos64<A: Arithmetic>(a: u64) -> (r: u64)
    requires
        faithful::<A>(),
    ensures
        r == cos64_of::<A>(a),
{
    reveal(faithful);
    reveal(cos64_of);
    A::cos64(a)
}

pub(crate) fn radians64<A: Arithmetic>(a: u64) -> (r: u64)
    requires
        faithful::<A>(),
    ensures
        r == radians64_of::<A>(a),
{
    reveal(faithful);
    reveal(radians64_of);
    A::radians64(a)
}

pub(crate) fn of_count64<A: Arithmetic>(n: u64) -> (r: u64)
    requires
        faithful::<A>(),
    ensures
        r == of_count64_of::<A>(n),
{
    reveal(faithful);
    reveal(of_count64_of);
    A::of_count64(n)
}

pub(crate) fn to_count64<A: Arithmetic>(a: u64) -> (r: u64)
    requires
        faithful::<A>(),
    ensures
        r == to_count64_of::<A>(a),
{
    reveal(faithful);
    reveal(to_count64_of);
    A::to_count64(a)
}

pub(crate) fn text<A: Arithmetic>(a: u32) -> (r: String)
    requires
        faithful::<A>(),
    ensures
        r@ == text_of::<A>(a),
{
    reveal(faithful);
    reveal(text_of);
    A::text(a)
}

pub(crate) fn debug_text<A: Arithmetic>(a: u32) -> (r: String)
    requires
        faithful::<A>(),
    ensures
        r@ == debug_text_of::<A>(a),
{
    reveal(faithful);
    reveal(debug_text_of);
    A::debug_text(a)
}

} // verus!
