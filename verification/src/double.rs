//! Double-precision numbers as their IEEE 754 bit patterns: what can be said
//! and decided of one without arithmetic.
//!
//! The top bit is the sign and the rest the magnitude, so comparison, sign
//! and classification are integer facts about the pattern. Arithmetic is
//! elsewhere: see [`crate::arith`].

use vstd::prelude::*;

verus! {

/// The pattern of positive infinity. Larger magnitudes are not numbers.
pub const INFINITY: u64 = 0x7FF0_0000_0000_0000;

/// The weight of the sign bit.
pub const SIGN: u64 = 0x8000_0000_0000_0000;

/// The pattern of 1.
pub const ONE: u64 = 0x3FF0_0000_0000_0000;

/// The pattern without its sign.
#[verifier::allow_in_spec]
pub fn magnitude(x: u64) -> u64
    returns
        (if x >= SIGN {
            (x - SIGN) as u64
        } else {
            x
        }),
{
    if x >= SIGN {
        x - SIGN
    } else {
        x
    }
}

/// The pattern with its sign turned over.
#[verifier::allow_in_spec]
pub fn negated(x: u64) -> u64
    returns
        (if x >= SIGN {
            (x - SIGN) as u64
        } else {
            (x + SIGN) as u64
        }),
{
    if x >= SIGN {
        x - SIGN
    } else {
        x + SIGN
    }
}

/// Where a number stands among all numbers: both zeros at 0, larger numbers
/// at larger places.
pub open spec fn place(x: u64) -> int {
    if x >= SIGN {
        SIGN - x
    } else {
        x as int
    }
}

fn place_of(x: u64) -> (r: i128)
    ensures
        r == place(x),
{
    if x >= SIGN {
        -((x - SIGN) as i128)
    } else {
        x as i128
    }
}

/// Whether the pattern is not a number.
#[verifier::allow_in_spec]
pub fn is_nan(x: u64) -> bool
    returns
        magnitude(x) > INFINITY,
{
    magnitude(x) > INFINITY
}

/// Whether the pattern is one of the two infinities.
#[verifier::allow_in_spec]
pub fn is_infinite(x: u64) -> bool
    returns
        magnitude(x) == INFINITY,
{
    magnitude(x) == INFINITY
}

/// Whether the pattern is a number other than an infinity.
#[verifier::allow_in_spec]
pub fn is_finite(x: u64) -> bool
    returns
        magnitude(x) < INFINITY,
{
    magnitude(x) < INFINITY
}

/// `a < b`: never true of what is not a number.
#[verifier::allow_in_spec]
pub fn less(a: u64, b: u64) -> bool
    returns
        (!is_nan(a) && !is_nan(b) && place(a) < place(b)),
{
    !is_nan(a) && !is_nan(b) && place_of(a) < place_of(b)
}

/// `a <= b`: never true of what is not a number.
#[verifier::allow_in_spec]
pub fn at_most(a: u64, b: u64) -> bool
    returns
        (!is_nan(a) && !is_nan(b) && place(a) <= place(b)),
{
    !is_nan(a) && !is_nan(b) && place_of(a) <= place_of(b)
}

/// `a == b`: the two zeros are equal, and nothing equals what is not a number.
#[verifier::allow_in_spec]
pub fn same(a: u64, b: u64) -> bool
    returns
        (!is_nan(a) && !is_nan(b) && place(a) == place(b)),
{
    !is_nan(a) && !is_nan(b) && place_of(a) == place_of(b)
}

/// The larger of two numbers, the second of two equal ones, and the other one
/// where one is not a number.
#[verifier::allow_in_spec]
pub fn larger(a: u64, b: u64) -> u64
    returns
        (if is_nan(b) || less(b, a) {
            a
        } else {
            b
        }),
{
    if is_nan(b) || less(b, a) {
        a
    } else {
        b
    }
}

/// The smaller of two numbers, the first of two equal ones, and the other one
/// where one is not a number.
#[verifier::allow_in_spec]
pub fn smaller(a: u64, b: u64) -> u64
    returns
        (if is_nan(a) || less(b, a) {
            b
        } else {
            a
        }),
{
    if is_nan(a) || less(b, a) {
        b
    } else {
        a
    }
}

} // verus!
