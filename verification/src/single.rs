//! Single-precision numbers as their IEEE 754 bit patterns: what can be said
//! and decided of one without arithmetic.
//!
//! The top bit is the sign and the rest the magnitude, so comparison, sign
//! and classification are integer facts about the pattern. Arithmetic is
//! elsewhere: see [`crate::arith`].

use vstd::prelude::*;

verus! {

/// The pattern of positive infinity. Larger magnitudes are not numbers.
pub const INFINITY: u32 = 0x7F80_0000;

/// The weight of the sign bit.
pub const SIGN: u32 = 0x8000_0000;

/// The pattern without its sign.
#[verifier::allow_in_spec]
pub fn magnitude(x: u32) -> u32
    returns
        (if x >= SIGN {
            (x - SIGN) as u32
        } else {
            x
        }),
{
    if x >= SIGN {
        x - SIGN
    } else {
        x
    }
}

/// The pattern with its sign turned over.
#[verifier::allow_in_spec]
pub fn negated(x: u32) -> u32
    returns
        (if x >= SIGN {
            (x - SIGN) as u32
        } else {
            (x + SIGN) as u32
        }),
{
    if x >= SIGN {
        x - SIGN
    } else {
        x + SIGN
    }
}

/// Where a number stands among all numbers: both zeros at 0, larger numbers
/// at larger places.
pub open spec fn place(x: u32) -> int {
    if x >= SIGN {
        SIGN - x
    } else {
        x as int
    }
}

fn place_of(x: u32) -> (r: i64)
    ensures
        r == place(x),
{
    if x >= SIGN {
        -((x - SIGN) as i64)
    } else {
        x as i64
    }
}

/// Whether the pattern is not a number.
#[verifier::allow_in_spec]
pub fn is_nan(x: u32) -> bool
    returns
        magnitude(x) > INFINITY,
{
    magnitude(x) > INFINITY
}

/// Whether the pattern is one of the two infinities.
#[verifier::allow_in_spec]
pub fn is_infinite(x: u32) -> bool
    returns
        magnitude(x) == INFINITY,
{
    magnitude(x) == INFINITY
}

/// Whether the pattern is a number other than an infinity.
#[verifier::allow_in_spec]
pub fn is_finite(x: u32) -> bool
    returns
        magnitude(x) < INFINITY,
{
    magnitude(x) < INFINITY
}

/// `a < b`: never true of what is not a number.
#[verifier::allow_in_spec]
pub fn less(a: u32, b: u32) -> bool
    returns
        (!is_nan(a) && !is_nan(b) && place(a) < place(b)),
{
    !is_nan(a) && !is_nan(b) && place_of(a) < place_of(b)
}

/// `a <= b`: never true of what is not a number.
#[verifier::allow_in_spec]
pub fn at_most(a: u32, b: u32) -> bool
    returns
        (!is_nan(a) && !is_nan(b) && place(a) <= place(b)),
{
    !is_nan(a) && !is_nan(b) && place_of(a) <= place_of(b)
}

/// `a == b`: the two zeros are equal, and nothing equals what is not a number.
#[verifier::allow_in_spec]
pub fn same(a: u32, b: u32) -> bool
    returns
        (!is_nan(a) && !is_nan(b) && place(a) == place(b)),
{
    !is_nan(a) && !is_nan(b) && place_of(a) == place_of(b)
}

/// The larger of two numbers, the second of two equal ones, and the other one
/// where one is not a number.
#[verifier::allow_in_spec]
pub fn larger(a: u32, b: u32) -> u32
    returns
        (if is_nan(b) || less(b, a) {
            a
        } else {
            b
        }),
{
    if is_nan(b) || less(b, a) {
        a
    } else {
        b
    }
}

/// The smaller of two numbers, the first of two equal ones, and the other one
/// where one is not a number.
#[verifier::allow_in_spec]
pub fn smaller(a: u32, b: u32) -> u32
    returns
        (if is_nan(a) || less(b, a) {
            b
        } else {
            a
        }),
{
    if is_nan(a) || less(b, a) {
        b
    } else {
        a
    }
}

/// `x` held to `low..=high`. What is not a number stays as it is.
#[verifier::allow_in_spec]
pub fn clamped(x: u32, low: u32, high: u32) -> u32
    returns
        (if less(x, low) {
            low
        } else if less(high, x) {
            high
        } else {
            x
        }),
{
    if less(x, low) {
        low
    } else if less(high, x) {
        high
    } else {
        x
    }
}

/// Whether `x` is finite and at least 0.
#[verifier::allow_in_spec]
pub fn is_non_negative(x: u32) -> bool
    returns
        (is_finite(x) && at_most(0, x)),
{
    is_finite(x) && at_most(0, x)
}

/// The pattern of 1.
pub const ONE: u32 = 0x3F80_0000;

/// The pattern of 1/2.
pub const HALF: u32 = 0x3F00_0000;

/// The pattern of 2.
pub const TWO: u32 = 0x4000_0000;

/// The pattern of 4.
pub const FOUR: u32 = 0x4080_0000;

/// Whether `x` lies in `0..=1`.
#[verifier::allow_in_spec]
pub fn is_unit(x: u32) -> bool
    returns
        (at_most(0, x) && at_most(x, ONE)),
{
    at_most(0, x) && at_most(x, ONE)
}

} // verus!
