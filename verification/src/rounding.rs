//! Rounding to the nearest: what IEEE 754 asks of arithmetic.
//!
//! The kernels' contracts fix which operations are applied, whatever these give.
//! The laws that speak of numbers rest on what IEEE 754 demands of an operation:
//! that it gives the number nearest to the exact result. Every finite
//! single-precision number is a multiple of the least positive one, so numbers are
//! read here as whole numbers of that unit.

use vstd::arithmetic::power2::{
    lemma2_to64, lemma2_to64_rest, lemma_pow2_adds, lemma_pow2_pos, lemma_pow2_strictly_increases,
    lemma_pow2_unfold, pow2,
};
use vstd::prelude::*;

use crate::arith::{
    ceil_of, cos64_of, floor64_of, floor_of, minus64_of, minus_of, narrow_of, of_count64_of,
    of_count_of, of_offset_of, over64_of, over_of, plus64_of, plus_of, power_of, radians64_of,
    remainder_of, root64_of, root_of, sin64_of, times64_of, times_of, to_count64_of, to_count_of,
    to_offset_of, widen_of, Arithmetic,
};
use crate::double;
use crate::single;

verus! {

/// The number that a pattern without sign stands for, in units of the least
/// positive number: 23 bits of fraction under 8 bits of exponent.
pub open spec fn size(m: int) -> int {
    let e = m / 0x80_0000;
    let f = m % 0x80_0000;
    if e == 0 {
        f
    } else {
        (f + 0x80_0000) * pow2((e - 1) as nat)
    }
}

/// The finite number that a pattern stands for, in units of the least positive
/// number.
pub open spec fn value(x: u32) -> int {
    if x >= single::SIGN {
        -size(x - single::SIGN)
    } else {
        size(x as int)
    }
}

/// One half in units of the least positive number.
pub open spec fn half() -> int {
    pow2(148) as int
}

/// The distance of two whole numbers.
pub open spec fn apart(a: int, b: int) -> int {
    if a < b {
        b - a
    } else {
        a - b
    }
}

/// Whether a pattern is a finite number and none is closer to `n / d`.
pub open spec fn closest(r: u32, n: int, d: int) -> bool {
    &&& single::is_finite(r)
    &&& forall|c: u32|
        single::is_finite(c) ==> apart(value(r) * d, n) <= apart(#[trigger] value(c) * d, n)
}

/// The pattern of the largest finite number.
pub const LARGEST: u32 = 0x7F7F_FFFF;

/// Where overflow begins: half a step beyond the largest finite number.
pub open spec fn limit() -> int {
    value(LARGEST) + pow2(252)
}

/// Whether a pattern is `n / d` rounded: the closest finite number, or the infinity
/// on its side where it overflows.
pub open spec fn rounded(r: u32, n: int, d: int) -> bool {
    if apart(n, 0) < limit() * d {
        closest(r, n, d)
    } else {
        r == (if n > 0 {
            single::INFINITY
        } else {
            single::negated(single::INFINITY)
        })
    }
}

/// Whether a pattern has its sign bit set.
pub open spec fn signed(x: u32) -> bool {
    x >= single::SIGN
}

/// Whether arithmetic is as IEEE 754 demands, as far as the laws need it: a result
/// of finite operands is the exact one rounded, and which of two equally close
/// numbers comes out is left open; what is not a number makes results that are not;
/// infinities absorb, and signs of products and quotients multiply.
#[verifier::opaque]
pub open spec fn rounds<A: Arithmetic>() -> bool {
    &&& forall|a: u32, b: u32|
        single::is_finite(a) && single::is_finite(b) ==> rounded(
            #[trigger] plus_of::<A>(a, b),
            value(a) + value(b),
            1,
        )
    &&& forall|a: u32, b: u32|
        single::is_finite(a) && single::is_finite(b) ==> rounded(
            #[trigger] minus_of::<A>(a, b),
            value(a) - value(b),
            1,
        )
    &&& forall|a: u32, b: u32|
        single::is_finite(a) && single::is_finite(b) ==> rounded(
            #[trigger] times_of::<A>(a, b),
            value(a) * value(b),
            2 * half(),
        )
    &&& forall|a: u32, b: u32|
        single::is_finite(a) && single::is_finite(b) && value(b) > 0 ==> rounded(
            #[trigger] over_of::<A>(a, b),
            value(a) * (2 * half()),
            value(b),
        )
    &&& forall|a: u32, b: u32|
        single::is_finite(a) && single::is_finite(b) && value(b) < 0 ==> rounded(
            #[trigger] over_of::<A>(a, b),
            -(value(a) * (2 * half())),
            -value(b),
        )
    &&& forall|a: u32| single::is_finite(a) ==> #[trigger] minus_of::<A>(a, a) == 0
    &&& forall|a: u32, b: u32|
        single::is_infinite(a) && single::is_finite(b) ==> #[trigger] plus_of::<A>(a, b) == a
    &&& forall|a: u32, b: u32|
        single::is_finite(a) && single::is_infinite(b) ==> #[trigger] plus_of::<A>(a, b) == b
    &&& forall|a: u32, b: u32|
        single::is_infinite(a) && single::is_finite(b) ==> #[trigger] minus_of::<A>(a, b) == a
    &&& forall|a: u32, b: u32|
        single::is_finite(a) && single::is_infinite(b) ==> #[trigger] minus_of::<A>(a, b)
            == single::negated(b)
    &&& forall|a: u32, b: u32|
        single::is_infinite(a) && single::is_finite(b) && value(b) != 0 ==> single::is_infinite(
            #[trigger] times_of::<A>(a, b),
        )
    &&& forall|a: u32, b: u32|
        single::is_finite(a) && value(a) != 0 && single::is_infinite(b) ==> single::is_infinite(
            #[trigger] times_of::<A>(a, b),
        )
    &&& forall|a: u32, b: u32|
        single::is_infinite(a) && single::is_finite(b) ==> single::is_infinite(
            #[trigger] over_of::<A>(a, b),
        )
    &&& forall|a: u32, b: u32|
        !single::is_nan(#[trigger] times_of::<A>(a, b)) ==> signed(times_of::<A>(a, b)) == (signed(
            a,
        ) != signed(b))
    &&& forall|a: u32, b: u32|
        !single::is_nan(#[trigger] over_of::<A>(a, b)) ==> signed(over_of::<A>(a, b)) == (signed(a)
            != signed(b))
    &&& forall|a: u32, b: u32|
        single::is_nan(a) || single::is_nan(b) ==> single::is_nan(#[trigger] plus_of::<A>(a, b))
    &&& forall|a: u32, b: u32|
        single::is_nan(a) || single::is_nan(b) ==> single::is_nan(#[trigger] minus_of::<A>(a, b))
    &&& forall|a: u32, b: u32|
        single::is_nan(a) || single::is_nan(b) ==> single::is_nan(#[trigger] times_of::<A>(a, b))
    &&& forall|n: u64| closest(#[trigger] of_count_of::<A>(n), n * (2 * half()), 1)
    &&& forall|n: i64| closest(#[trigger] of_offset_of::<A>(n), n * (2 * half()), 1)
    &&& forall|a: u32|
        single::is_finite(a) ==> single::is_finite(#[trigger] floor_of::<A>(a)) && value(
            floor_of::<A>(a),
        ) == (value(a) / (2 * half())) * (2 * half())
    &&& forall|a: u32|
        single::is_finite(a) ==> single::is_finite(#[trigger] ceil_of::<A>(a)) && value(
            ceil_of::<A>(a),
        ) == -((-value(a)) / (2 * half())) * (2 * half())
    &&& forall|a: u32, n: i64|
        single::is_finite(a) && value(a) == #[trigger] (n * (2 * half()))
            ==> #[trigger] to_offset_of::<A>(a) == n
    &&& forall|a: u32, n: u64|
        single::is_finite(a) && value(a) == #[trigger] (n * (2 * half()))
            ==> #[trigger] to_count_of::<A>(a) == n
    &&& forall|a: u32, b: u32|
        single::is_finite(a) && single::same(b, 0) ==> #[trigger] power_of::<A>(a, b)
            == single::ONE
}

proof fn size_grows(a: int, b: int)
    requires
        0 <= a < b,
    ensures
        0 <= size(a) < size(b),
{
    let ea = a / 0x80_0000;
    let eb = b / 0x80_0000;
    let fa = a % 0x80_0000;
    let fb = b % 0x80_0000;
    assert(ea <= eb);
    assert(eb > 0 ==> pow2((eb - 1) as nat) > 0) by {
        lemma_pow2_pos((eb - 1) as nat);
    }
    if ea == eb {
        if ea > 0 {
            let p = pow2((ea - 1) as nat) as int;
            assert((fa + 0x80_0000) * p < (fb + 0x80_0000) * p) by (nonlinear_arith)
                requires
                    fa < fb,
                    p > 0,
            ;
            assert(0 <= (fa + 0x80_0000) * p) by (nonlinear_arith)
                requires
                    0 <= fa,
                    p > 0,
            ;
        }
    } else {
        let q = pow2((eb - 1) as nat) as int;
        assert(0x80_0000 * q <= (fb + 0x80_0000) * q) by (nonlinear_arith)
            requires
                0 <= fb,
                q > 0,
        ;
        if ea > 0 {
            let p = pow2((ea - 1) as nat) as int;
            lemma_pow2_pos((ea - 1) as nat);
            lemma_pow2_unfold(ea as nat);
            if ea < eb - 1 {
                lemma_pow2_strictly_increases(ea as nat, (eb - 1) as nat);
            }
            assert(2 * p <= q);
            assert((fa + 0x80_0000) * p < 0x80_0000 * q) by (nonlinear_arith)
                requires
                    0 <= fa < 0x80_0000,
                    p > 0,
                    2 * p <= q,
            ;
            assert(0 <= (fa + 0x80_0000) * p) by (nonlinear_arith)
                requires
                    0 <= fa,
                    p > 0,
            ;
        }
    }
}

/// Numbers and their values have one order.
pub proof fn values_are_ordered(a: u32, b: u32)
    requires
        single::is_finite(a),
        single::is_finite(b),
    ensures
        single::less(a, b) == (value(a) < value(b)),
        single::at_most(a, b) == (value(a) <= value(b)),
        single::same(a, b) == (value(a) == value(b)),
{
    let ma = single::magnitude(a) as int;
    let mb = single::magnitude(b) as int;
    assert(size(0) == 0);
    if ma > 0 {
        size_grows(0, ma);
    }
    if mb > 0 {
        size_grows(0, mb);
    }
    if ma < mb {
        size_grows(ma, mb);
    }
    if mb < ma {
        size_grows(mb, ma);
    }
}

/// Turning the sign over negates the value.
pub proof fn negated_value(x: u32)
    requires
        single::is_finite(x),
    ensures
        single::is_finite(single::negated(x)),
        value(single::negated(x)) == -value(x),
{
}

/// A whole number of less than 24 bits, times a power of two, is a number.
pub proof fn short_multiples_are_numbers(m: int, k: nat) -> (x: u32)
    requires
        -0x100_0000 < m < 0x100_0000,
        k <= 253,
    ensures
        single::is_finite(x),
        value(x) == m * pow2(k),
    decreases (if m < 0 { 1nat } else { 0nat }), k,
{
    lemma2_to64();
    if m < 0 {
        let y = short_multiples_are_numbers(-m, k);
        negated_value(y);
        assert((-m) * pow2(k) == -(m * pow2(k))) by (nonlinear_arith);
        single::negated(y)
    } else if k == 0 {
        let x = m as u32;
        assert(m < 0x80_0000 ==> m / 0x80_0000 == 0);
        assert(m >= 0x80_0000 ==> m / 0x80_0000 == 1 && m % 0x80_0000 == m - 0x80_0000);
        assert(m * pow2(k) == m);
        x
    } else if m >= 0x80_0000 {
        let x = (k * 0x80_0000 + m) as u32;
        assert((k * 0x80_0000 + m) / 0x80_0000 == k + 1);
        assert((k * 0x80_0000 + m) % 0x80_0000 == m - 0x80_0000);
        assert(k * 0x80_0000 + m < single::INFINITY);
        x
    } else {
        let x = short_multiples_are_numbers(2 * m, (k - 1) as nat);
        lemma_pow2_unfold(k);
        let p = pow2((k - 1) as nat) as int;
        assert((2 * m) * p == m * (2 * p)) by (nonlinear_arith);
        x
    }
}

/// One half is positive.
pub proof fn half_is_positive()
    ensures
        half() > 0,
{
    lemma_pow2_pos(148);
}

/// What is closest to a number is that number.
pub proof fn closest_is_exact(r: u32, n: int, d: int, c: u32)
    requires
        closest(r, n, d),
        d > 0,
        single::is_finite(c),
        value(c) * d == n,
    ensures
        value(r) == value(c),
{
    assert(apart(value(r) * d, n) <= apart(value(c) * d, n));
    assert(value(r) == value(c)) by (nonlinear_arith)
        requires
            value(r) * d == value(c) * d,
            d > 0,
    ;
}

/// Numbers do not overflow.
pub proof fn numbers_are_in_range(c: u32, d: int)
    requires
        single::is_finite(c),
        d > 0,
    ensures
        apart(value(c) * d, 0) < limit() * d,
{
    values_are_ordered(c, LARGEST);
    negated_value(LARGEST);
    values_are_ordered(single::negated(LARGEST), c);
    lemma_pow2_pos(252);
    let v = value(c);
    let l = limit();
    assert(v * d < l * d && -(v * d) < l * d) by (nonlinear_arith)
        requires
            v < l,
            -v < l,
            d > 0,
    ;
}

/// Rounding does not fall below a number that the exact result reaches.
pub proof fn rounded_at_least(r: u32, n: int, d: int, c: u32)
    requires
        rounded(r, n, d),
        d > 0,
        single::is_finite(c),
        value(c) * d <= n,
    ensures
        single::at_most(c, r),
{
    if closest(r, n, d) {
        assert(apart(value(r) * d, n) <= apart(value(c) * d, n));
        assert(value(c) <= value(r)) by (nonlinear_arith)
            requires
                value(r) * d <= n ==> value(r) * d >= value(c) * d,
                value(c) * d <= n,
                d > 0,
        ;
        values_are_ordered(c, r);
    } else {
        numbers_are_in_range(c, d);
    }
}

/// Rounding does not rise above a number that the exact result does not exceed.
pub proof fn rounded_at_most(r: u32, n: int, d: int, c: u32)
    requires
        rounded(r, n, d),
        d > 0,
        single::is_finite(c),
        n <= value(c) * d,
    ensures
        single::at_most(r, c),
{
    if closest(r, n, d) {
        assert(apart(value(r) * d, n) <= apart(value(c) * d, n));
        assert(value(r) <= value(c)) by (nonlinear_arith)
            requires
                value(r) * d >= n ==> value(r) * d <= value(c) * d,
                n <= value(c) * d,
                d > 0,
        ;
        values_are_ordered(r, c);
    } else {
        numbers_are_in_range(c, d);
    }
}

/// Rounding keeps the order.
pub proof fn rounded_keeps_order(r: u32, m: int, s: u32, n: int, d: int)
    requires
        rounded(r, m, d),
        rounded(s, n, d),
        d > 0,
        m < n,
    ensures
        single::at_most(r, s),
{
    let l = limit();
    if apart(m, 0) < l * d && apart(n, 0) < l * d {
        assert(apart(value(r) * d, m) <= apart(value(s) * d, m));
        assert(apart(value(s) * d, n) <= apart(value(r) * d, n));
        assert(value(r) <= value(s)) by (nonlinear_arith)
            requires
                value(r) * d <= value(s) * d,
                d > 0,
        ;
        values_are_ordered(r, s);
    } else {
        numbers_are_in_range(0, d);
    }
}

/// What lies between two numbers rounds to a finite one.
pub proof fn rounded_is_finite(r: u32, n: int, d: int, low: u32, high: u32)
    requires
        rounded(r, n, d),
        d > 0,
        single::is_finite(low),
        single::is_finite(high),
        value(low) * d <= n <= value(high) * d,
    ensures
        closest(r, n, d),
        value(low) <= value(r) <= value(high),
{
    rounded_at_least(r, n, d, low);
    rounded_at_most(r, n, d, high);
    values_are_ordered(low, r);
    values_are_ordered(r, high);
}

/// A sum of finite numbers is the exact sum rounded.
pub proof fn plus_rounds<A: Arithmetic>(a: u32, b: u32)
    requires
        rounds::<A>(),
        single::is_finite(a),
        single::is_finite(b),
    ensures
        rounded(plus_of::<A>(a, b), value(a) + value(b), 1),
{
    reveal(rounds);
}

/// A difference of finite numbers is the exact difference rounded.
pub proof fn minus_rounds<A: Arithmetic>(a: u32, b: u32)
    requires
        rounds::<A>(),
        single::is_finite(a),
        single::is_finite(b),
    ensures
        rounded(minus_of::<A>(a, b), value(a) - value(b), 1),
{
    reveal(rounds);
}

/// A product of finite numbers is the exact product rounded.
pub proof fn times_rounds<A: Arithmetic>(a: u32, b: u32)
    requires
        rounds::<A>(),
        single::is_finite(a),
        single::is_finite(b),
    ensures
        rounded(times_of::<A>(a, b), value(a) * value(b), 2 * half()),
{
    reveal(rounds);
}

/// A quotient of finite numbers by a positive one is the exact quotient rounded.
pub proof fn over_rounds<A: Arithmetic>(a: u32, b: u32)
    requires
        rounds::<A>(),
        single::is_finite(a),
        single::is_finite(b),
        value(b) > 0,
    ensures
        rounded(over_of::<A>(a, b), value(a) * (2 * half()), value(b)),
{
    reveal(rounds);
}

/// A product is no number, or its sign is that of its factors.
pub proof fn times_sign<A: Arithmetic>(a: u32, b: u32)
    requires
        rounds::<A>(),
    ensures
        single::is_nan(times_of::<A>(a, b)) || !single::is_nan(a) && !single::is_nan(b) && signed(
            times_of::<A>(a, b),
        ) == (signed(a) != signed(b)),
{
    reveal(rounds);
}

/// A quotient is no number, or its sign is that of its operands.
pub proof fn over_sign<A: Arithmetic>(a: u32, b: u32)
    requires
        rounds::<A>(),
    ensures
        single::is_nan(over_of::<A>(a, b)) || signed(over_of::<A>(a, b)) == (signed(a) != signed(
            b,
        )),
{
    reveal(rounds);
}

/// Positive numbers carry no sign.
pub proof fn positive_is_unsigned(a: u32)
    requires
        single::is_finite(a),
        value(a) > 0,
    ensures
        !signed(a),
{
    if signed(a) {
        negated_value(a);
        values_are_ordered(0, single::negated(a));
        assert(size(0) == 0);
    }
}

/// What rounding gives is a number, be it infinite.
pub proof fn rounded_is_a_number(r: u32, n: int, d: int)
    requires
        rounded(r, n, d),
    ensures
        !single::is_nan(r),
{
}

/// A finite number less itself is nothing.
pub proof fn minus_itself<A: Arithmetic>(a: u32)
    requires
        rounds::<A>(),
        single::is_finite(a),
    ensures
        minus_of::<A>(a, a) == 0,
{
    reveal(rounds);
}

/// A finite number added to an infinity, in either order, leaves the infinity.
pub proof fn plus_of_infinity<A: Arithmetic>(a: u32, b: u32)
    requires
        rounds::<A>(),
        single::is_finite(a),
        single::is_infinite(b),
    ensures
        plus_of::<A>(a, b) == b,
        plus_of::<A>(b, a) == b,
{
    reveal(rounds);
}

/// A finite number less an infinity is the other infinity, and the other way round
/// the infinity stays.
pub proof fn minus_of_infinity<A: Arithmetic>(a: u32, b: u32)
    requires
        rounds::<A>(),
        single::is_finite(a),
        single::is_infinite(b),
    ensures
        minus_of::<A>(a, b) == single::negated(b),
        minus_of::<A>(b, a) == b,
{
    reveal(rounds);
}

/// A difference with what is not a number is not a number.
pub proof fn minus_spreads_nan<A: Arithmetic>(a: u32, b: u32)
    requires
        rounds::<A>(),
        single::is_nan(a) || single::is_nan(b),
    ensures
        single::is_nan(minus_of::<A>(a, b)),
{
    reveal(rounds);
}

/// A product of an infinity and a finite number other than zero is infinite.
pub proof fn times_infinity<A: Arithmetic>(a: u32, b: u32)
    requires
        rounds::<A>(),
        single::is_finite(a),
        value(a) != 0,
        single::is_infinite(b),
    ensures
        single::is_infinite(times_of::<A>(a, b)),
        single::is_infinite(times_of::<A>(b, a)),
{
    reveal(rounds);
}

/// An infinity over a finite number is infinite.
pub proof fn infinity_over<A: Arithmetic>(a: u32, b: u32)
    requires
        rounds::<A>(),
        single::is_infinite(a),
        single::is_finite(b),
    ensures
        single::is_infinite(over_of::<A>(a, b)),
{
    reveal(rounds);
}

/// A sum that is a number is exact.
pub proof fn plus_exact<A: Arithmetic>(a: u32, b: u32, c: u32)
    requires
        rounds::<A>(),
        single::is_finite(a),
        single::is_finite(b),
        single::is_finite(c),
        value(c) == value(a) + value(b),
    ensures
        single::is_finite(plus_of::<A>(a, b)),
        value(plus_of::<A>(a, b)) == value(c),
{
    reveal(rounds);
    numbers_are_in_range(c, 1);
    closest_is_exact(plus_of::<A>(a, b), value(a) + value(b), 1, c);
}

/// A difference that is a number is exact.
pub proof fn minus_exact<A: Arithmetic>(a: u32, b: u32, c: u32)
    requires
        rounds::<A>(),
        single::is_finite(a),
        single::is_finite(b),
        single::is_finite(c),
        value(c) == value(a) - value(b),
    ensures
        single::is_finite(minus_of::<A>(a, b)),
        value(minus_of::<A>(a, b)) == value(c),
{
    reveal(rounds);
    numbers_are_in_range(c, 1);
    closest_is_exact(minus_of::<A>(a, b), value(a) - value(b), 1, c);
}

/// A product that is a number is exact.
pub proof fn times_exact<A: Arithmetic>(a: u32, b: u32, c: u32)
    requires
        rounds::<A>(),
        single::is_finite(a),
        single::is_finite(b),
        single::is_finite(c),
        value(c) * (2 * half()) == value(a) * value(b),
    ensures
        single::is_finite(times_of::<A>(a, b)),
        value(times_of::<A>(a, b)) == value(c),
{
    reveal(rounds);
    half_is_positive();
    numbers_are_in_range(c, 2 * half());
    closest_is_exact(times_of::<A>(a, b), value(a) * value(b), 2 * half(), c);
}

/// A quotient by a positive number that is a number is exact.
pub proof fn over_exact<A: Arithmetic>(a: u32, b: u32, c: u32)
    requires
        rounds::<A>(),
        single::is_finite(a),
        single::is_finite(b),
        single::is_finite(c),
        value(b) > 0,
        value(c) * value(b) == value(a) * (2 * half()),
    ensures
        single::is_finite(over_of::<A>(a, b)),
        value(over_of::<A>(a, b)) == value(c),
{
    reveal(rounds);
    numbers_are_in_range(c, value(b));
    closest_is_exact(over_of::<A>(a, b), value(a) * (2 * half()), value(b), c);
}

/// Whether a pattern is a number of `n` halves.
pub open spec fn halves(x: u32, n: int) -> bool {
    single::is_finite(x) && value(x) == n * half()
}

/// The patterns of a few numbers.
pub proof fn small_numbers()
    ensures
        halves(0, 0),
        halves(single::HALF, 1),
        halves(single::ONE, 2),
        halves(single::TWO, 4),
        halves(single::FOUR, 8),
        halves(0x3FC0_0000, 3),
        halves(0x4020_0000, 5),
        halves(0x4040_0000, 6),
        halves(0xBF00_0000, -1),
{
    lemma2_to64();
    lemma_pow2_adds(23, 125);
    lemma_pow2_unfold(126);
    lemma_pow2_unfold(127);
    lemma_pow2_unfold(128);
    let p = pow2(125) as int;
    assert(half() == 0x80_0000 * p);
    assert(size(0x3F00_0000) == 0x80_0000 * p);
    assert(size(0x3F80_0000) == 0x80_0000 * pow2(126));
    assert(size(0x4000_0000) == 0x80_0000 * pow2(127));
    assert(size(0x4080_0000) == 0x80_0000 * pow2(128));
    assert(size(0x3FC0_0000) == 0xC0_0000 * pow2(126));
    assert(size(0x4020_0000) == 0xA0_0000 * pow2(127));
    assert(size(0x4040_0000) == 0xC0_0000 * pow2(127));
}

/// Numbers of halves are ordered as the counts are.
pub proof fn halves_are_ordered(a: u32, m: int, b: u32, n: int)
    requires
        halves(a, m),
        halves(b, n),
    ensures
        single::less(a, b) == (m < n),
        single::at_most(a, b) == (m <= n),
        single::same(a, b) == (m == n),
{
    values_are_ordered(a, b);
    half_is_positive();
    let h = half();
    assert((m * h < n * h) == (m < n) && (m * h == n * h) == (m == n)) by (nonlinear_arith)
        requires
            h > 0,
    ;
}

/// A count of halves is there to be found, up to 24 bits.
pub proof fn some_halves(n: int) -> (x: u32)
    requires
        -0x100_0000 < n < 0x100_0000,
    ensures
        halves(x, n),
{
    short_multiples_are_numbers(n, 148)
}

/// Sums of halves are exact, up to 24 bits.
pub proof fn plus_halves<A: Arithmetic>(a: u32, m: int, b: u32, n: int)
    requires
        rounds::<A>(),
        halves(a, m),
        halves(b, n),
        -0x100_0000 < m + n < 0x100_0000,
    ensures
        halves(plus_of::<A>(a, b), m + n),
{
    let c = some_halves(m + n);
    let h = half();
    assert((m + n) * h == m * h + n * h) by (nonlinear_arith);
    plus_exact::<A>(a, b, c);
}

/// Differences of halves are exact, up to 24 bits.
pub proof fn minus_halves<A: Arithmetic>(a: u32, m: int, b: u32, n: int)
    requires
        rounds::<A>(),
        halves(a, m),
        halves(b, n),
        -0x100_0000 < m - n < 0x100_0000,
    ensures
        halves(minus_of::<A>(a, b), m - n),
{
    let c = some_halves(m - n);
    let h = half();
    assert((m - n) * h == m * h - n * h) by (nonlinear_arith);
    minus_exact::<A>(a, b, c);
}

/// Products of halves that are halves are exact, up to 24 bits.
pub proof fn times_halves<A: Arithmetic>(a: u32, m: int, b: u32, n: int, q: int)
    requires
        rounds::<A>(),
        halves(a, m),
        halves(b, n),
        m * n == 2 * q,
        -0x100_0000 < q < 0x100_0000,
    ensures
        halves(times_of::<A>(a, b), q),
{
    let c = some_halves(q);
    let h = half();
    assert((q * h) * (2 * h) == (m * h) * (n * h)) by (nonlinear_arith)
        requires
            m * n == 2 * q,
    ;
    times_exact::<A>(a, b, c);
}

/// A count of up to 23 bits is exact.
pub proof fn whole_halves<A: Arithmetic>(n: u64)
    requires
        rounds::<A>(),
        n < 0x80_0000,
    ensures
        halves(of_count_of::<A>(n), 2 * n),
{
    reveal(rounds);
    let c = some_halves(2 * n);
    let h = half();
    assert((2 * n) * h == n * (2 * h)) by (nonlinear_arith);
    closest_is_exact(of_count_of::<A>(n), n * (2 * h), 1, c);
}

/// An offset of up to 23 bits is exact.
pub proof fn offset_halves<A: Arithmetic>(n: i64)
    requires
        rounds::<A>(),
        -0x80_0000 < n < 0x80_0000,
    ensures
        halves(of_offset_of::<A>(n), 2 * n),
{
    reveal(rounds);
    let c = some_halves(2 * n);
    let h = half();
    assert((2 * n) * h == n * (2 * h)) by (nonlinear_arith);
    closest_is_exact(of_offset_of::<A>(n), n * (2 * h), 1, c);
}

/// The floor of a number of halves.
pub proof fn floor_halves<A: Arithmetic>(a: u32, m: int)
    requires
        rounds::<A>(),
        halves(a, m),
    ensures
        halves(floor_of::<A>(a), 2 * (m / 2)),
{
    reveal(rounds);
    half_is_positive();
    let h = half();
    let q = m / 2;
    assert((m * h) / (2 * h) == q) by (nonlinear_arith)
        requires
            h > 0,
            q == m / 2,
    ;
    assert(q * (2 * h) == (2 * q) * h) by (nonlinear_arith);
}

/// The ceiling of a number of halves.
pub proof fn ceil_halves<A: Arithmetic>(a: u32, m: int)
    requires
        rounds::<A>(),
        halves(a, m),
    ensures
        halves(ceil_of::<A>(a), 2 * -((-m) / 2)),
{
    reveal(rounds);
    half_is_positive();
    let h = half();
    let q = (-m) / 2;
    assert((-(m * h)) / (2 * h) == q) by (nonlinear_arith)
        requires
            h > 0,
            q == (-m) / 2,
    ;
    assert(-q * (2 * h) == (2 * -q) * h) by (nonlinear_arith);
}

/// A whole number becomes its own offset.
pub proof fn whole_offset<A: Arithmetic>(a: u32, n: i64)
    requires
        rounds::<A>(),
        halves(a, 2 * n),
    ensures
        to_offset_of::<A>(a) == n,
{
    reveal(rounds);
    let h = half();
    assert((2 * n) * h == n * (2 * h)) by (nonlinear_arith);
}

/// The magnitude of a number of halves.
pub proof fn magnitude_halves(a: u32, m: int)
    requires
        halves(a, m),
    ensures
        halves(single::magnitude(a), apart(m, 0)),
{
    half_is_positive();
    small_numbers();
    let h = half();
    values_are_ordered(a, 0);
    values_are_ordered(0, a);
    assert((m * h < 0) == (m < 0) && (m * h == 0) == (m == 0)) by (nonlinear_arith)
        requires
            h > 0,
    ;
    assert((-m) * h == -(m * h)) by (nonlinear_arith);
    if a >= single::SIGN {
        negated_value(a);
    }
}

/// A pattern of one is the pattern of one.
pub proof fn one_is_one(a: u32)
    requires
        halves(a, 2),
    ensures
        a == single::ONE,
{
    small_numbers();
    halves_are_ordered(a, 2, single::ONE, 2);
}

/// One leaves a number its value in a product.
pub proof fn times_one<A: Arithmetic>(a: u32)
    requires
        rounds::<A>(),
        single::is_finite(a),
    ensures
        single::is_finite(times_of::<A>(a, single::ONE)),
        single::is_finite(times_of::<A>(single::ONE, a)),
        value(times_of::<A>(a, single::ONE)) == value(a),
        value(times_of::<A>(single::ONE, a)) == value(a),
{
    small_numbers();
    let h = half();
    assert(value(a) * (2 * h) == (2 * h) * value(a)) by (nonlinear_arith);
    times_exact::<A>(a, single::ONE, a);
    times_exact::<A>(single::ONE, a, a);
}

/// Zero, of either sign, makes a product zero.
pub proof fn times_zero<A: Arithmetic>(a: u32, z: u32)
    requires
        rounds::<A>(),
        single::is_finite(a),
        single::same(z, 0),
    ensures
        single::is_finite(times_of::<A>(a, z)),
        single::is_finite(times_of::<A>(z, a)),
        value(times_of::<A>(a, z)) == 0,
        value(times_of::<A>(z, a)) == 0,
{
    small_numbers();
    values_are_ordered(z, 0);
    assert(value(a) * 0 == 0 && 0 * value(a) == 0) by (nonlinear_arith);
    times_exact::<A>(a, z, 0);
    times_exact::<A>(z, a, 0);
}

/// Zero, of either sign, leaves a number its value in a sum.
pub proof fn plus_zero<A: Arithmetic>(a: u32, z: u32)
    requires
        rounds::<A>(),
        single::is_finite(a),
        single::is_finite(z),
        value(z) == 0,
    ensures
        single::is_finite(plus_of::<A>(a, z)),
        single::is_finite(plus_of::<A>(z, a)),
        value(plus_of::<A>(a, z)) == value(a),
        value(plus_of::<A>(z, a)) == value(a),
{
    plus_exact::<A>(a, z, a);
    plus_exact::<A>(z, a, a);
}

/// One leaves a number its value as a divisor.
pub proof fn over_one<A: Arithmetic>(a: u32)
    requires
        rounds::<A>(),
        single::is_finite(a),
    ensures
        single::is_finite(over_of::<A>(a, single::ONE)),
        value(over_of::<A>(a, single::ONE)) == value(a),
{
    small_numbers();
    half_is_positive();
    over_exact::<A>(a, single::ONE, a);
}

/// A positive number over itself is one.
pub proof fn over_itself<A: Arithmetic>(a: u32)
    requires
        rounds::<A>(),
        single::is_finite(a),
        value(a) > 0,
    ensures
        over_of::<A>(a, a) == single::ONE,
{
    small_numbers();
    let h = half();
    assert((2 * h) * value(a) == value(a) * (2 * h)) by (nonlinear_arith);
    over_exact::<A>(a, a, single::ONE);
    one_is_one(over_of::<A>(a, a));
}

/// A finite difference of a larger number and a smaller one is positive.
pub proof fn difference_is_positive<A: Arithmetic>(a: u32, b: u32)
    requires
        rounds::<A>(),
        single::is_finite(a),
        single::is_finite(b),
        single::less(b, a),
        single::is_finite(minus_of::<A>(a, b)),
    ensures
        value(minus_of::<A>(a, b)) > 0,
{
    reveal(rounds);
    values_are_ordered(b, a);
    let n = value(a) - value(b);
    let r = minus_of::<A>(a, b);
    // The least positive number is closer than anything that is not positive.
    assert(value(1) == 1);
    assert(apart(value(r) * 1, n) <= apart(value(1) * 1, n));
}

/// A positive count is a positive finite number.
pub proof fn count_is_finite<A: Arithmetic>(n: u64)
    requires
        rounds::<A>(),
        n > 0,
    ensures
        single::is_finite(of_count_of::<A>(n)),
        value(of_count_of::<A>(n)) > 0,
{
    reveal(rounds);
    half_is_positive();
    small_numbers();
    let h = half();
    let r = of_count_of::<A>(n);
    assert(n * (2 * h) >= 2 * h) by (nonlinear_arith)
        requires
            n >= 1,
            h > 0,
    ;
    assert(apart(value(r) * 1, n * (2 * h)) <= apart(value(single::ONE) * 1, n * (2 * h)));
}

/// A whole number becomes its own count.
pub proof fn whole_count<A: Arithmetic>(a: u32, n: u64)
    requires
        rounds::<A>(),
        halves(a, 2 * n),
    ensures
        to_count_of::<A>(a) == n,
{
    reveal(rounds);
    let h = half();
    assert((2 * n) * h == n * (2 * h)) by (nonlinear_arith);
}

/// What is not a number makes sums and products that are not.
pub proof fn nan_spreads<A: Arithmetic>(a: u32, b: u32)
    requires
        rounds::<A>(),
        single::is_nan(a),
    ensures
        single::is_nan(plus_of::<A>(a, b)),
        single::is_nan(times_of::<A>(a, b)),
{
    reveal(rounds);
}

/// The difference of two numbers in `0..=1` is a number.
pub proof fn unit_difference<A: Arithmetic>(a: u32, b: u32)
    requires
        rounds::<A>(),
        single::is_unit(a),
        single::is_unit(b),
    ensures
        single::is_finite(minus_of::<A>(a, b)),
{
    reveal(rounds);
    small_numbers();
    values_are_ordered(0, a);
    values_are_ordered(0, b);
    values_are_ordered(a, single::ONE);
    values_are_ordered(b, single::ONE);
    values_are_ordered(single::ONE, LARGEST);
}

/// A count becomes the closest number.
pub proof fn count_is_closest<A: Arithmetic>(n: u64)
    requires
        rounds::<A>(),
    ensures
        closest(of_count_of::<A>(n), n * (2 * half()), 1),
{
    reveal(rounds);
}

/// The floor of a number is the whole number of units in it.
pub proof fn floor_is_whole<A: Arithmetic>(a: u32)
    requires
        rounds::<A>(),
        single::is_finite(a),
    ensures
        single::is_finite(floor_of::<A>(a)),
        value(floor_of::<A>(a)) == (value(a) / (2 * half())) * (2 * half()),
{
    reveal(rounds);
}

/// A finite number of up to half the largest one has a double.
pub proof fn double_of(x: u32) -> (c: u32)
    requires
        single::is_finite(x),
        apart(2 * value(x), 0) <= value(LARGEST),
    ensures
        single::is_finite(c),
        value(c) == 2 * value(x),
{
    let m = single::magnitude(x) as int;
    let (e, f) = (m / 0x80_0000, m % 0x80_0000);
    let c = if e == 0 {
        lemma2_to64();
        short_multiples_are_numbers(2 * f, 0)
    } else {
        if e == 254 {
            doubling_overflows(x);
        }
        lemma_pow2_unfold(e as nat);
        let (g, p) = (f + 0x80_0000, pow2((e - 1) as nat) as int);
        assert(2 * (g * p) == g * (2 * p)) by (nonlinear_arith);
        short_multiples_are_numbers(g, e as nat)
    };
    if signed(x) {
        negated_value(x);
        negated_value(c);
        single::negated(c)
    } else {
        c
    }
}

/// What has no double overflows when it is doubled.
pub proof fn doubling_overflows(x: u32)
    requires
        single::is_finite(x),
        single::magnitude(x) / 0x80_0000 == 254 || apart(2 * value(x), 0) > value(LARGEST),
    ensures
        apart(2 * value(x), 0) >= limit(),
        apart(2 * value(x), 0) > value(LARGEST),
{
    let m = single::magnitude(x);
    negated_value(x);
    lemma2_to64();
    lemma_pow2_pos(252);
    lemma_pow2_unfold(253);
    assert(value(LARGEST) == 0xFF_FFFF * pow2(253));
    assert(value(0x7F00_0000) == 0x80_0000 * pow2(253));
    assert(value(0x7EFF_FFFF) == 0xFF_FFFF * pow2(252));
    if m < 0x7F00_0000 {
        values_are_ordered(m, 0x7EFF_FFFF);
        values_are_ordered(0, m);
        assert(size(0) == 0);
        assert(false);
    } else {
        values_are_ordered(0x7F00_0000, m);
    }
}

/// The exponent of the largest power of two that does not exceed `m`.
pub open spec fn exponent(m: int) -> nat
    decreases m,
{
    if m <= 1 {
        0
    } else {
        1 + exponent(m / 2)
    }
}

/// `m` lies between its power of two and the next one.
proof fn exponent_holds(m: int)
    requires
        1 <= m,
    ensures
        pow2(exponent(m)) <= m < pow2(exponent(m) + 1),
    decreases m,
{
    lemma2_to64();
    if m > 1 {
        exponent_holds(m / 2);
        lemma_pow2_unfold(exponent(m));
        lemma_pow2_unfold(exponent(m) + 1);
    }
}

/// The step between the numbers just below `m` halves.
pub open spec fn step_below(m: int) -> int {
    pow2(125 + exponent(m)) as int
}

/// The step two halves further up is at most twice as wide.
pub proof fn steps_widen_slowly(m: int)
    requires
        2 <= m,
    ensures
        0 < step_below(m + 2) <= 2 * step_below(m),
{
    let (i, j) = (exponent(m), exponent(m + 2));
    exponent_holds(m);
    exponent_holds(m + 2);
    lemma_pow2_unfold(i + 2);
    if j >= i + 2 {
        if j > i + 2 {
            lemma_pow2_strictly_increases(i + 2, j);
        }
        assert(false);
    }
    lemma_pow2_unfold(125 + i + 1);
    lemma_pow2_pos(125 + j);
    if j < i + 1 {
        lemma_pow2_strictly_increases(125 + j, 125 + i + 1);
    }
}

/// Below an odd number of halves lies a number one step down, nothing comes between
/// them, and half a unit above that number lies another one.
pub proof fn below_odd_halves(m: int) -> (r: (u32, u32))
    requires
        m % 2 == 1,
        3 <= m < 0x80_0000,
    ensures
        single::is_finite(r.0),
        value(r.0) == m * half() - step_below(m),
        forall|x: u32|
            single::is_finite(x) && #[trigger] value(x) < m * half() ==> value(x) <= value(r.0),
        single::is_finite(r.1),
        value(r.1) == (m + 1) * half() - step_below(m),
        step_below(m) > 0,
{
    lemma2_to64();
    let j = exponent(m);
    exponent_holds(m);
    if j >= 23 {
        if j > 23 {
            lemma_pow2_strictly_increases(23, j);
        }
        assert(false);
    }
    assert(j >= 1);
    let k = 125 + j;
    let s = (23 - j) as nat;
    lemma_pow2_adds(s, k);
    lemma_pow2_adds(s, j);
    lemma_pow2_unfold(j);
    lemma_pow2_unfold(j + 1);
    lemma_pow2_pos(s);
    lemma_pow2_pos(k);
    let (ps, pk, pj) = (pow2(s) as int, pow2(k) as int, pow2(j) as int);
    assert(half() == ps * pk);
    assert(0x80_0000 == ps * pj);
    let top = m * ps;
    // An odd number of at least three is no power of two.
    assert(m >= pj + 1);
    assert(0x80_0000 + ps <= top && top + ps <= 0x100_0000) by (nonlinear_arith)
        requires
            pj + 1 <= m,
            m + 1 <= 2 * pj,
            top == m * ps,
            0x80_0000 == ps * pj,
            ps > 0,
    ;
    assert(m * half() == top * pk) by (nonlinear_arith)
        requires
            half() == ps * pk,
            top == m * ps,
    ;
    assert((m + 1) * half() == (top + ps) * pk) by (nonlinear_arith)
        requires
            half() == ps * pk,
            top == m * ps,
    ;
    assert((top - 1) * pk == top * pk - pk) by (nonlinear_arith);
    assert((top + ps - 1) * pk == (top + ps) * pk - pk) by (nonlinear_arith);
    let p = (k * 0x80_0000 + top) as u32;
    assert(k * 0x80_0000 + top < single::INFINITY);
    assert((k * 0x80_0000 + top) / 0x80_0000 == k + 1);
    assert((k * 0x80_0000 + top) % 0x80_0000 == top - 0x80_0000);
    assert((k * 0x80_0000 + top - 1) / 0x80_0000 == k + 1);
    assert((k * 0x80_0000 + top - 1) % 0x80_0000 == top - 1 - 0x80_0000);
    let c = (p - 1) as u32;
    assert(value(p) == m * half());
    assert(value(c) == (top - 1) * pk);
    assert forall|x: u32|
        single::is_finite(x) && #[trigger] value(x) < m * half() implies value(x) <= value(c) by {
        values_are_ordered(x, p);
        values_are_ordered(x, c);
    }
    let above = short_multiples_are_numbers(top + ps - 1, k);
    (c, above)
}

/// Whether double-precision arithmetic knows no direction, as IEEE 754 demands:
/// factors commute, and the difference of two small counts is exact, so that the
/// counts taken the other way round give the negative number.
#[verifier::opaque]
pub open spec fn mirrors<A: Arithmetic>() -> bool {
    &&& forall|a: u64, b: u64|
        double::is_finite(a) && double::is_finite(b) ==> #[trigger] times64_of::<A>(a, b)
            == times64_of::<A>(b, a)
    &&& forall|m: u64, n: u64, p: u64, q: u64|
        m < 0x20_0000_0000_0000 && n < 0x20_0000_0000_0000 && p < 0x20_0000_0000_0000 && q
            < 0x20_0000_0000_0000 && m != n && m - n == q - p ==> {
            let d = #[trigger] minus64_of::<A>(of_count64_of::<A>(m), of_count64_of::<A>(n));
            let e = #[trigger] minus64_of::<A>(of_count64_of::<A>(p), of_count64_of::<A>(q));
            double::is_finite(d) && e == double::negated(d)
        }
}

/// Small counts on opposite sides of another, at one distance, have one negative
/// square of that distance.
pub proof fn mirrored_squares<A: Arithmetic>(m: u64, n: u64, p: u64)
    requires
        mirrors::<A>(),
        m < 0x20_0000_0000_0000,
        n < 0x20_0000_0000_0000,
        p < 0x20_0000_0000_0000,
        m - n == n - p,
    ensures
        ({
            let d = minus64_of::<A>(of_count64_of::<A>(m), of_count64_of::<A>(n));
            let e = minus64_of::<A>(of_count64_of::<A>(p), of_count64_of::<A>(n));
            times64_of::<A>(double::negated(d), d) == times64_of::<A>(double::negated(e), e)
        }),
{
    if m != n {
        reveal(mirrors);
        let d = minus64_of::<A>(of_count64_of::<A>(m), of_count64_of::<A>(n));
        let e = minus64_of::<A>(of_count64_of::<A>(p), of_count64_of::<A>(n));
        assert(e == double::negated(d));
        assert(times64_of::<A>(double::negated(d), d) == times64_of::<A>(d, double::negated(d)));
    }
}

/// Whether zero, of either sign, behaves in double precision as IEEE 754 demands:
/// sums and differences of zeros are zero, a finite multiple of zero is zero, zero
/// over a positive count is zero, and a change of precision keeps zero and keeps
/// finite numbers finite on the way up.
#[verifier::opaque]
pub open spec fn keeps_zero<A: Arithmetic>() -> bool {
    &&& forall|a: u64, b: u64|
        double::same(a, 0) && double::same(b, 0) ==> double::same(
            #[trigger] plus64_of::<A>(a, b),
            0,
        )
    &&& forall|a: u64, b: u64|
        double::same(a, 0) && double::same(b, 0) ==> double::same(
            #[trigger] minus64_of::<A>(a, b),
            0,
        )
    &&& forall|a: u64, b: u64|
        double::is_finite(a) && double::same(b, 0) ==> double::same(
            #[trigger] times64_of::<A>(a, b),
            0,
        )
    &&& forall|a: u64, n: u64|
        double::same(a, 0) && n > 0 ==> double::same(
            #[trigger] over64_of::<A>(a, of_count64_of::<A>(n)),
            0,
        )
    &&& forall|a: u32| single::same(a, 0) ==> double::same(#[trigger] widen_of::<A>(a), 0)
    &&& forall|a: u32| single::is_finite(a) ==> double::is_finite(#[trigger] widen_of::<A>(a))
    &&& forall|a: u64| double::same(a, 0) ==> single::same(#[trigger] narrow_of::<A>(a), 0)
}

/// The number that a double-precision pattern without sign stands for, in units of
/// the least positive number: 52 bits of fraction under 11 bits of exponent.
pub open spec fn size64(m: int) -> int {
    let e = m / 0x10_0000_0000_0000;
    let f = m % 0x10_0000_0000_0000;
    if e == 0 {
        f
    } else {
        (f + 0x10_0000_0000_0000) * pow2((e - 1) as nat)
    }
}

/// The finite number that a double-precision pattern stands for, in units of the
/// least positive number.
pub open spec fn value64(x: u64) -> int {
    if x >= double::SIGN {
        -size64(x - double::SIGN)
    } else {
        size64(x as int)
    }
}

/// Whether a double-precision pattern is `m` times the `k`-th power of two, in units
/// of the least positive number.
pub open spec fn is_multiple64(x: u64, m: int, k: nat) -> bool {
    double::is_finite(x) && value64(x) == m * pow2(k)
}

/// Whether double-precision sums and differences are exact where they are numbers,
/// as IEEE 754 demands.
#[verifier::opaque]
pub open spec fn sums_exactly<A: Arithmetic>() -> bool {
    &&& forall|a: u64, b: u64, c: u64|
        double::is_finite(a) && double::is_finite(b) && double::is_finite(c) && #[trigger] value64(
            c,
        ) == value64(a) + value64(b) ==> double::is_finite(plus64_of::<A>(a, b)) && value64(
            #[trigger] plus64_of::<A>(a, b),
        ) == value64(c)
    &&& forall|a: u64, b: u64, c: u64|
        double::is_finite(a) && double::is_finite(b) && double::is_finite(c) && #[trigger] value64(
            c,
        ) == value64(a) - value64(b) ==> double::is_finite(minus64_of::<A>(a, b)) && value64(
            #[trigger] minus64_of::<A>(a, b),
        ) == value64(c)
}

/// A whole number of less than 53 bits, times a power of two, is a double-precision
/// number.
pub proof fn short_multiples_are_numbers64(m: int, k: nat) -> (x: u64)
    requires
        -0x20_0000_0000_0000 < m < 0x20_0000_0000_0000,
        k <= 2045,
    ensures
        is_multiple64(x, m, k),
    decreases (if m < 0 { 1nat } else { 0nat }), k,
{
    lemma2_to64();
    if m < 0 {
        let y = short_multiples_are_numbers64(-m, k);
        assert((-m) * pow2(k) == -(m * pow2(k))) by (nonlinear_arith);
        double::negated(y)
    } else if k == 0 {
        let x = m as u64;
        assert(m < 0x10_0000_0000_0000 ==> m / 0x10_0000_0000_0000 == 0);
        assert(m >= 0x10_0000_0000_0000 ==> m / 0x10_0000_0000_0000 == 1 && m
            % 0x10_0000_0000_0000 == m - 0x10_0000_0000_0000);
        assert(m * pow2(k) == m);
        x
    } else if m >= 0x10_0000_0000_0000 {
        let p = k * 0x10_0000_0000_0000 + m;
        assert(p / 0x10_0000_0000_0000 == k + 1);
        assert(p % 0x10_0000_0000_0000 == m - 0x10_0000_0000_0000);
        assert(p < double::INFINITY);
        p as u64
    } else {
        let x = short_multiples_are_numbers64(2 * m, (k - 1) as nat);
        lemma_pow2_unfold(k);
        let p = pow2((k - 1) as nat) as int;
        assert((2 * m) * p == m * (2 * p)) by (nonlinear_arith);
        x
    }
}

/// Sums of short multiples are exact.
pub proof fn plus_multiples64<A: Arithmetic>(a: u64, m: int, b: u64, n: int, k: nat)
    requires
        sums_exactly::<A>(),
        is_multiple64(a, m, k),
        is_multiple64(b, n, k),
        -0x20_0000_0000_0000 < m + n < 0x20_0000_0000_0000,
        k <= 2045,
    ensures
        is_multiple64(plus64_of::<A>(a, b), m + n, k),
{
    reveal(sums_exactly);
    let c = short_multiples_are_numbers64(m + n, k);
    let p = pow2(k) as int;
    assert((m + n) * p == m * p + n * p) by (nonlinear_arith);
    assert(value64(c) == value64(a) + value64(b));
}

/// Differences of short multiples are exact.
pub proof fn minus_multiples64<A: Arithmetic>(a: u64, m: int, b: u64, n: int, k: nat)
    requires
        sums_exactly::<A>(),
        is_multiple64(a, m, k),
        is_multiple64(b, n, k),
        -0x20_0000_0000_0000 < m - n < 0x20_0000_0000_0000,
        k <= 2045,
    ensures
        is_multiple64(minus64_of::<A>(a, b), m - n, k),
{
    reveal(sums_exactly);
    let c = short_multiples_are_numbers64(m - n, k);
    let p = pow2(k) as int;
    assert((m - n) * p == m * p - n * p) by (nonlinear_arith);
    assert(value64(c) == value64(a) - value64(b));
}

/// Zero is a multiple of every power of two.
pub proof fn zero_is_a_multiple64(k: nat)
    ensures
        is_multiple64(0, 0, k),
{
    assert(0 * pow2(k) == 0) by (nonlinear_arith);
}

/// Whether shares of counts are as IEEE 754 demands: counts, quotients by one positive
/// count and a change to single precision keep the order; a count over itself is one;
/// and zero and one survive.
#[verifier::opaque]
pub open spec fn shares_in_order<A: Arithmetic>() -> bool {
    &&& forall|m: u64, n: u64|
        m <= n ==> double::at_most(
            #[trigger] of_count64_of::<A>(m),
            #[trigger] of_count64_of::<A>(n),
        )
    &&& forall|n: u64| double::is_finite(#[trigger] of_count64_of::<A>(n))
    &&& of_count64_of::<A>(0) == 0
    &&& forall|a: u64, b: u64, n: u64|
        n > 0 && double::is_finite(a) && double::is_finite(b) && double::at_most(a, b)
            ==> double::at_most(
            #[trigger] over64_of::<A>(a, of_count64_of::<A>(n)),
            #[trigger] over64_of::<A>(b, of_count64_of::<A>(n)),
        )
    &&& forall|n: u64|
        n > 0 ==> #[trigger] over64_of::<A>(of_count64_of::<A>(n), of_count64_of::<A>(n))
            == double::ONE
    &&& forall|n: u64| n > 0 ==> #[trigger] over64_of::<A>(0, of_count64_of::<A>(n)) == 0
    &&& forall|a: u64, b: u64|
        double::at_most(a, b) ==> single::at_most(
            #[trigger] narrow_of::<A>(a),
            #[trigger] narrow_of::<A>(b),
        )
    &&& narrow_of::<A>(double::ONE) == single::ONE
    &&& narrow_of::<A>(0) == 0
}

/// The share of a smaller count in a positive one is the smaller share; shares lie
/// between zero and one, and a count's share in itself is one.
pub proof fn shares_grow<A: Arithmetic>(m: u64, k: u64, n: u64)
    requires
        shares_in_order::<A>(),
        m <= k <= n,
        0 < n,
    ensures
        ({
            let a = narrow_of::<A>(over64_of::<A>(of_count64_of::<A>(m), of_count64_of::<A>(n)));
            let b = narrow_of::<A>(over64_of::<A>(of_count64_of::<A>(k), of_count64_of::<A>(n)));
            &&& single::at_most(0, a)
            &&& single::at_most(a, b)
            &&& single::at_most(b, single::ONE)
            &&& k == n ==> b == single::ONE
        }),
{
    reveal(shares_in_order);
    let (i, j, d) = (of_count64_of::<A>(m), of_count64_of::<A>(k), of_count64_of::<A>(n));
    let (a, b) = (over64_of::<A>(i, d), over64_of::<A>(j, d));
    let (none, all) = (over64_of::<A>(0, d), over64_of::<A>(d, d));
    assert(double::at_most(of_count64_of::<A>(0), i));
    assert(double::at_most(none, a));
    assert(double::at_most(a, b));
    assert(double::at_most(b, all));
    assert(single::at_most(narrow_of::<A>(none), narrow_of::<A>(a)));
    assert(single::at_most(narrow_of::<A>(b), narrow_of::<A>(all)));
}

/// One in units of the least positive double-precision number.
pub open spec fn unit64() -> int {
    pow2(1074) as int
}

/// Whether double-precision products and quotients are exact where they are numbers,
/// every single-precision number survives the way up and back, small counts and the
/// floors of whole numbers are exact, as IEEE 754 demands, and an angle of zero has the
/// sine zero and the cosine one.
#[verifier::opaque]
pub open spec fn computes_exactly<A: Arithmetic>() -> bool {
    &&& forall|a: u64, b: u64, c: u64|
        double::is_finite(a) && double::is_finite(b) && double::is_finite(c) && (#[trigger] value64(
            c,
        )) * unit64() == value64(a) * value64(b) ==> double::is_finite(times64_of::<A>(a, b))
            && value64(#[trigger] times64_of::<A>(a, b)) == value64(c)
    &&& forall|a: u64, b: u64, c: u64|
        double::is_finite(a) && double::is_finite(b) && double::is_finite(c) && value64(b) > 0 && (
        #[trigger] value64(c)) * value64(b) == value64(a) * unit64() ==> double::is_finite(
            over64_of::<A>(a, b),
        ) && value64(#[trigger] over64_of::<A>(a, b)) == value64(c)
    &&& forall|a: u32|
        single::is_finite(a) ==> double::is_finite(#[trigger] widen_of::<A>(a)) && value64(
            widen_of::<A>(a),
        ) == value(a) * pow2(925)
    &&& forall|x: u64, a: u32|
        double::is_finite(x) && single::is_finite(a) && value64(x) == (#[trigger] value(a)) * pow2(
            925,
        ) ==> single::is_finite(narrow_of::<A>(x)) && value(#[trigger] narrow_of::<A>(x)) == value(
            a,
        )
    &&& forall|n: u64|
        n < 0x20_0000_0000_0000 ==> double::is_finite(#[trigger] of_count64_of::<A>(n)) && value64(
            of_count64_of::<A>(n),
        ) == n * unit64()
    &&& forall|a: u64, n: u64|
        double::is_finite(a) && value64(a) == #[trigger] (n * unit64())
            ==> #[trigger] to_count64_of::<A>(floor64_of::<A>(a)) == n
    &&& forall|a: u64|
        double::same(a, 0) ==> double::same(#[trigger] radians64_of::<A>(a), 0)
    &&& forall|a: u64| double::same(a, 0) ==> double::same(#[trigger] sin64_of::<A>(a), 0)
    &&& forall|a: u64| double::same(a, 0) ==> #[trigger] cos64_of::<A>(a) == double::ONE
}

/// A product that is a number is exact.
pub proof fn times_exact64<A: Arithmetic>(a: u64, b: u64, c: u64)
    requires
        computes_exactly::<A>(),
        double::is_finite(a),
        double::is_finite(b),
        double::is_finite(c),
        value64(c) * unit64() == value64(a) * value64(b),
    ensures
        double::is_finite(times64_of::<A>(a, b)),
        value64(times64_of::<A>(a, b)) == value64(c),
{
    reveal(computes_exactly);
}

/// A quotient by a positive number that is a number is exact.
pub proof fn over_exact64<A: Arithmetic>(a: u64, b: u64, c: u64)
    requires
        computes_exactly::<A>(),
        double::is_finite(a),
        double::is_finite(b),
        double::is_finite(c),
        value64(b) > 0,
        value64(c) * value64(b) == value64(a) * unit64(),
    ensures
        double::is_finite(over64_of::<A>(a, b)),
        value64(over64_of::<A>(a, b)) == value64(c),
{
    reveal(computes_exactly);
}

/// A sum that is a number is exact.
pub proof fn plus_exact64<A: Arithmetic>(a: u64, b: u64, c: u64)
    requires
        sums_exactly::<A>(),
        double::is_finite(a),
        double::is_finite(b),
        double::is_finite(c),
        value64(c) == value64(a) + value64(b),
    ensures
        double::is_finite(plus64_of::<A>(a, b)),
        value64(plus64_of::<A>(a, b)) == value64(c),
{
    reveal(sums_exactly);
}

/// A difference that is a number is exact.
pub proof fn minus_exact64<A: Arithmetic>(a: u64, b: u64, c: u64)
    requires
        sums_exactly::<A>(),
        double::is_finite(a),
        double::is_finite(b),
        double::is_finite(c),
        value64(c) == value64(a) - value64(b),
    ensures
        double::is_finite(minus64_of::<A>(a, b)),
        value64(minus64_of::<A>(a, b)) == value64(c),
{
    reveal(sums_exactly);
}

/// A single-precision number keeps its value in double precision.
pub proof fn widen_exact<A: Arithmetic>(a: u32)
    requires
        computes_exactly::<A>(),
        single::is_finite(a),
    ensures
        double::is_finite(widen_of::<A>(a)),
        value64(widen_of::<A>(a)) == value(a) * pow2(925),
{
    reveal(computes_exactly);
}

/// A number of single precision keeps its value on the way back.
pub proof fn narrow_exact<A: Arithmetic>(x: u64, a: u32)
    requires
        computes_exactly::<A>(),
        double::is_finite(x),
        single::is_finite(a),
        value64(x) == value(a) * pow2(925),
    ensures
        single::is_finite(narrow_of::<A>(x)),
        value(narrow_of::<A>(x)) == value(a),
{
    reveal(computes_exactly);
}

/// A small count is exact.
pub proof fn count_exact64<A: Arithmetic>(n: u64)
    requires
        computes_exactly::<A>(),
        n < 0x20_0000_0000_0000,
    ensures
        double::is_finite(of_count64_of::<A>(n)),
        value64(of_count64_of::<A>(n)) == n * unit64(),
{
    reveal(computes_exactly);
}

/// A whole number is its own floor.
pub proof fn whole_count64<A: Arithmetic>(a: u64, n: u64)
    requires
        computes_exactly::<A>(),
        double::is_finite(a),
        value64(a) == n * unit64(),
    ensures
        to_count64_of::<A>(floor64_of::<A>(a)) == n,
{
    reveal(computes_exactly);
}

/// No angle has no sine, and the cosine one.
pub proof fn no_angle<A: Arithmetic>(a: u64)
    requires
        computes_exactly::<A>(),
        double::same(a, 0),
    ensures
        double::same(sin64_of::<A>(radians64_of::<A>(a)), 0),
        cos64_of::<A>(radians64_of::<A>(a)) == double::ONE,
{
    reveal(computes_exactly);
}

/// The double-precision patterns of zero and one.
pub proof fn small_numbers64()
    ensures
        double::is_finite(0),
        value64(0) == 0,
        double::is_finite(double::ONE),
        value64(double::ONE) == unit64(),
        unit64() > 0,
        value(single::ONE) * pow2(925) == unit64(),
{
    lemma2_to64();
    lemma2_to64_rest();
    lemma_pow2_pos(1074);
    lemma_pow2_adds(52, 1022);
    lemma_pow2_adds(149, 925);
    lemma_pow2_unfold(149);
    small_numbers();
    assert(size64(0x3FF0_0000_0000_0000) == 0x10_0000_0000_0000 * pow2(1022));
}

proof fn size64_grows(a: int, b: int)
    requires
        0 <= a < b,
    ensures
        0 <= size64(a) < size64(b),
{
    let t = 0x10_0000_0000_0000int;
    let ea = a / t;
    let eb = b / t;
    let fa = a % t;
    let fb = b % t;
    assert(ea <= eb);
    assert(eb > 0 ==> pow2((eb - 1) as nat) > 0) by {
        lemma_pow2_pos((eb - 1) as nat);
    }
    if ea == eb {
        if ea > 0 {
            let p = pow2((ea - 1) as nat) as int;
            assert(0 <= (fa + t) * p < (fb + t) * p) by (nonlinear_arith)
                requires
                    0 <= fa < fb,
                    t > 0,
                    p > 0,
            ;
        }
    } else {
        let q = pow2((eb - 1) as nat) as int;
        assert(t * q <= (fb + t) * q) by (nonlinear_arith)
            requires
                0 <= fb,
                q > 0,
        ;
        if ea > 0 {
            let p = pow2((ea - 1) as nat) as int;
            lemma_pow2_pos((ea - 1) as nat);
            lemma_pow2_unfold(ea as nat);
            if ea < eb - 1 {
                lemma_pow2_strictly_increases(ea as nat, (eb - 1) as nat);
            }
            assert(0 <= (fa + t) * p < t * q) by (nonlinear_arith)
                requires
                    0 <= fa < t,
                    p > 0,
                    2 * p <= q,
            ;
        }
    }
}

/// Double-precision numbers and their values have one order.
pub proof fn values_are_ordered64(a: u64, b: u64)
    requires
        double::is_finite(a),
        double::is_finite(b),
    ensures
        double::less(a, b) == (value64(a) < value64(b)),
        value64(a) == value64(b) && value64(a) != 0 ==> a == b,
        value64(a) == 0 ==> a == 0 || a == double::SIGN,
{
    let ma = double::magnitude(a) as int;
    let mb = double::magnitude(b) as int;
    assert(size64(0) == 0);
    if ma > 0 {
        size64_grows(0, ma);
    }
    if mb > 0 {
        size64_grows(0, mb);
    }
    if ma < mb {
        size64_grows(ma, mb);
    }
    if mb < ma {
        size64_grows(mb, ma);
    }
}

/// The square of a single-precision number is exact in double precision, whichever
/// patterns its value has there.
pub proof fn square_exact64<A: Arithmetic>(v: u32, a: u64, b: u64)
    requires
        computes_exactly::<A>(),
        single::is_finite(v),
        double::is_finite(a),
        double::is_finite(b),
        value64(a) == value(v) * pow2(925),
        value64(b) == value(v) * pow2(925),
    ensures
        double::is_finite(times64_of::<A>(a, b)),
        value64(times64_of::<A>(a, b)) == (value(v) * value(v)) * pow2(776),
{
    let m = single::magnitude(v) as int;
    let (e, f) = (m / 0x80_0000, m % 0x80_0000);
    let (g, k) = if e == 0 {
        (f, 0nat)
    } else {
        (f + 0x80_0000, (e - 1) as nat)
    };
    lemma2_to64();
    let p = pow2(k) as int;
    assert(size(m) == g * p) by {
        if e == 0 {
            assert(g * p == g) by (nonlinear_arith)
                requires
                    p == 1,
            ;
        }
    }
    let w = value(v);
    assert(w * w == (g * g) * (p * p)) by (nonlinear_arith)
        requires
            w == g * p || w == -(g * p),
    ;
    lemma_pow2_adds(k, k);
    lemma_pow2_adds(k + k, 776);
    lemma_pow2_adds(776, 1074);
    lemma_pow2_adds(925, 925);
    assert(0 <= g * g < 0x20_0000_0000_0000) by (nonlinear_arith)
        requires
            0 <= g < 0x100_0000,
    ;
    let c = short_multiples_are_numbers64(g * g, k + k + 776);
    let (q, s, u) = (pow2(776) as int, pow2(925) as int, unit64());
    assert((g * g) * ((p * p) * q) == (w * w) * q) by (nonlinear_arith)
        requires
            w * w == (g * g) * (p * p),
    ;
    assert(value64(c) == (w * w) * q);
    assert(((w * w) * q) * u == (w * s) * (w * s)) by (nonlinear_arith)
        requires
            q * u == s * s,
    ;
    times_exact64::<A>(a, b, c);
}

/// Whether double-precision sums and differences that come to nothing are the positive
/// zero, unless the first operand is the negative one, as IEEE 754 demands.
#[verifier::opaque]
pub open spec fn vanishes_plainly<A: Arithmetic>() -> bool {
    &&& forall|a: u64, b: u64|
        double::is_finite(a) && double::is_finite(b) && a != double::SIGN && value64(a) + value64(b)
            == 0 ==> #[trigger] plus64_of::<A>(a, b) == 0
    &&& forall|a: u64, b: u64|
        double::is_finite(a) && double::is_finite(b) && a != double::SIGN && value64(a)
            == value64(b) ==> #[trigger] minus64_of::<A>(a, b) == 0
}

/// Whether a double-precision pattern is `m` times the `k`-th power of two, and not the
/// negative zero.
pub open spec fn is_plain_multiple64(x: u64, m: int, k: nat) -> bool {
    is_multiple64(x, m, k) && x != double::SIGN
}

/// Sums of short multiples are exact and plain.
pub proof fn plus_plain64<A: Arithmetic>(a: u64, m: int, b: u64, n: int, k: nat)
    requires
        sums_exactly::<A>(),
        vanishes_plainly::<A>(),
        is_plain_multiple64(a, m, k),
        is_multiple64(b, n, k),
        -0x20_0000_0000_0000 < m + n < 0x20_0000_0000_0000,
        k <= 2045,
    ensures
        is_plain_multiple64(plus64_of::<A>(a, b), m + n, k),
{
    reveal(vanishes_plainly);
    plus_multiples64::<A>(a, m, b, n, k);
    let p = pow2(k) as int;
    assert((m + n) * p == m * p + n * p) by (nonlinear_arith);
    assert(value64(double::SIGN) == 0);
}

/// Differences of short multiples are exact and plain.
pub proof fn minus_plain64<A: Arithmetic>(a: u64, m: int, b: u64, n: int, k: nat)
    requires
        sums_exactly::<A>(),
        vanishes_plainly::<A>(),
        is_plain_multiple64(a, m, k),
        is_multiple64(b, n, k),
        -0x20_0000_0000_0000 < m - n < 0x20_0000_0000_0000,
        k <= 2045,
    ensures
        is_plain_multiple64(minus64_of::<A>(a, b), m - n, k),
{
    reveal(vanishes_plainly);
    minus_multiples64::<A>(a, m, b, n, k);
    let p = pow2(k) as int;
    assert((m - n) * p == m * p - n * p) by (nonlinear_arith);
    assert(value64(double::SIGN) == 0);
}

/// A plain multiple has one pattern.
pub proof fn plain_multiples_are_one(a: u64, b: u64, m: int, k: nat)
    requires
        is_plain_multiple64(a, m, k),
        is_plain_multiple64(b, m, k),
    ensures
        a == b,
{
    values_are_ordered64(a, b);
    values_are_ordered64(b, a);
}

/// A fine step, the twentieth negative power of two, in units of the least positive
/// double-precision number.
pub open spec fn grain64() -> int {
    pow2(1054) as int
}

/// Whether results of a moderate size are as close as IEEE 754 demands: below `2^33` a
/// double-precision result is off by no more than `2^-20`, nor, for differences, products
/// and quotients, by more than a `2^52`th of it and the least positive number; below
/// `2^15` one of single precision is off by no more than `2^-9`. Floors and counts are
/// those of the number, and none where it is negative; single-precision roots are ordered
/// as their radicands are, and a root reaches every number whose square the radicand
/// reaches.
#[verifier::opaque]
pub open spec fn computes_closely<A: Arithmetic>() -> bool {
    &&& forall|a: u64, b: u64|
        double::is_finite(a) && double::is_finite(b) && apart(value64(a) + value64(b), 0)
            < 0x2_0000_0000 * unit64() ==> double::is_finite(plus64_of::<A>(a, b)) && apart(
            value64(#[trigger] plus64_of::<A>(a, b)),
            value64(a) + value64(b),
        ) <= grain64()
    &&& forall|a: u64, b: u64|
        double::is_finite(a) && double::is_finite(b) && apart(value64(a) - value64(b), 0)
            < 0x2_0000_0000 * unit64() ==> double::is_finite(minus64_of::<A>(a, b)) && apart(
            value64(#[trigger] minus64_of::<A>(a, b)),
            value64(a) - value64(b),
        ) <= grain64()
    &&& forall|a: u64, b: u64|
        double::is_finite(a) && double::is_finite(b) && apart(value64(a) * value64(b), 0)
            < 0x2_0000_0000 * unit64() * unit64() ==> double::is_finite(times64_of::<A>(a, b))
            && apart(value64(#[trigger] times64_of::<A>(a, b)) * unit64(), value64(a) * value64(b))
            <= grain64() * unit64()
    &&& forall|a: u64, b: u64|
        double::is_finite(a) && double::is_finite(b) && value64(b) > 0 && apart(value64(a), 0)
            * unit64() < 0x2_0000_0000 * unit64() * value64(b) ==> double::is_finite(
            over64_of::<A>(a, b),
        ) && apart(value64(#[trigger] over64_of::<A>(a, b)) * value64(b), value64(a) * unit64())
            <= grain64() * value64(b)
    &&& forall|a: u64, b: u64|
        double::is_finite(a) && double::is_finite(b) && apart(value64(a) - value64(b), 0)
            < 0x2_0000_0000 * unit64() ==> apart(
            value64(#[trigger] minus64_of::<A>(a, b)),
            value64(a) - value64(b),
        ) * 0x10_0000_0000_0000 <= apart(value64(a) - value64(b), 0) + 0x10_0000_0000_0000
    &&& forall|a: u64, b: u64|
        double::is_finite(a) && double::is_finite(b) && apart(value64(a) * value64(b), 0)
            < 0x2_0000_0000 * unit64() * unit64() ==> apart(
            value64(#[trigger] times64_of::<A>(a, b)) * unit64(),
            value64(a) * value64(b),
        ) * 0x10_0000_0000_0000 <= apart(value64(a) * value64(b), 0) + 0x10_0000_0000_0000 * unit64()
    &&& forall|a: u64, b: u64|
        double::is_finite(a) && double::is_finite(b) && value64(b) > 0 && apart(value64(a), 0)
            < 0x1_0000_0000_0000_0000 * value64(b) ==> double::is_finite(over64_of::<A>(a, b))
            && apart(value64(#[trigger] over64_of::<A>(a, b)) * value64(b), value64(a) * unit64())
            * 0x10_0000_0000_0000 <= apart(value64(a) * unit64(), 0) + 0x10_0000_0000_0000 * value64(b)
    &&& forall|a: u64|
        double::is_finite(a) && value64(a) < 0 ==> #[trigger] to_count64_of::<A>(
            floor64_of::<A>(a),
        ) == 0
    &&& forall|a: u64|
        double::is_finite(a) && 0 <= value64(a) < 0x2_0000_0000 * unit64() ==> {
            let r = value64(#[trigger] root64_of::<A>(a));
            &&& double::is_finite(root64_of::<A>(a))
            &&& 0 <= r
            &&& value64(a) * unit64() <= (r + grain64()) * (r + grain64())
            &&& r <= grain64() || (r - grain64()) * (r - grain64()) <= value64(a) * unit64()
        }
    &&& forall|a: u64|
        double::is_finite(a) && 0 <= value64(a) < 0x1_0000_0000_0000_0000 * unit64()
            ==> #[trigger] to_count64_of::<A>(floor64_of::<A>(a)) == value64(a) / unit64()
    &&& forall|x: u64|
        double::is_finite(x) && apart(value64(x), 0) < 0x8000 * unit64() ==> single::is_finite(
            narrow_of::<A>(x),
        ) && apart(value(#[trigger] narrow_of::<A>(x)) * pow2(925), value64(x)) <= 2048 * grain64()
    &&& forall|a: u32, b: u32|
        single::is_finite(a) && single::is_finite(b) && apart(value(a) - value(b), 0) < 0x8000 * (2
            * half()) ==> single::is_finite(minus_of::<A>(a, b)) && apart(
            value(#[trigger] minus_of::<A>(a, b)),
            value(a) - value(b),
        ) <= pow2(140)
    &&& forall|a: u32, b: u32|
        single::is_finite(a) && single::is_finite(b) && 0 <= value(a) <= value(b) ==> value(
            #[trigger] root_of::<A>(a),
        ) <= value(#[trigger] root_of::<A>(b))
    &&& forall|a: u32, c: u32|
        single::is_finite(a) && single::is_finite(c) && 0 <= #[trigger] value(c) && value(c)
            * value(c) <= value(a) * (2 * half()) ==> single::is_finite(#[trigger] root_of::<A>(a))
            && value(c) <= value(root_of::<A>(a))
    &&& forall|a: u32, n: u64|
        single::is_finite(a) && #[trigger] (n * (2 * half())) <= value(a)
            ==> n <= #[trigger] to_count_of::<A>(a)
}

/// A sum of a moderate size is close.
pub proof fn plus_close64<A: Arithmetic>(a: u64, b: u64)
    requires
        computes_closely::<A>(),
        double::is_finite(a),
        double::is_finite(b),
        apart(value64(a) + value64(b), 0) < 0x2_0000_0000 * unit64(),
    ensures
        double::is_finite(plus64_of::<A>(a, b)),
        apart(value64(plus64_of::<A>(a, b)), value64(a) + value64(b)) <= grain64(),
{
    reveal(computes_closely);
}

/// A difference of a moderate size is close.
pub proof fn minus_close64<A: Arithmetic>(a: u64, b: u64)
    requires
        computes_closely::<A>(),
        double::is_finite(a),
        double::is_finite(b),
        apart(value64(a) - value64(b), 0) < 0x2_0000_0000 * unit64(),
    ensures
        double::is_finite(minus64_of::<A>(a, b)),
        apart(value64(minus64_of::<A>(a, b)), value64(a) - value64(b)) <= grain64(),
{
    reveal(computes_closely);
}

/// A product of a moderate size is close.
pub proof fn times_close64<A: Arithmetic>(a: u64, b: u64)
    requires
        computes_closely::<A>(),
        double::is_finite(a),
        double::is_finite(b),
        apart(value64(a) * value64(b), 0) < 0x2_0000_0000 * unit64() * unit64(),
    ensures
        double::is_finite(times64_of::<A>(a, b)),
        apart(value64(times64_of::<A>(a, b)) * unit64(), value64(a) * value64(b)) <= grain64()
            * unit64(),
{
    reveal(computes_closely);
}

/// A quotient of a moderate size by a positive number is close.
pub proof fn over_close64<A: Arithmetic>(a: u64, b: u64)
    requires
        computes_closely::<A>(),
        double::is_finite(a),
        double::is_finite(b),
        value64(b) > 0,
        apart(value64(a), 0) * unit64() < 0x2_0000_0000 * unit64() * value64(b),
    ensures
        double::is_finite(over64_of::<A>(a, b)),
        apart(value64(over64_of::<A>(a, b)) * value64(b), value64(a) * unit64()) <= grain64()
            * value64(b),
{
    reveal(computes_closely);
}

/// A difference is off by a small part of it.
pub proof fn minus_fine64<A: Arithmetic>(a: u64, b: u64)
    requires
        computes_closely::<A>(),
        double::is_finite(a),
        double::is_finite(b),
        apart(value64(a) - value64(b), 0) < 0x2_0000_0000 * unit64(),
    ensures
        double::is_finite(minus64_of::<A>(a, b)),
        apart(value64(minus64_of::<A>(a, b)), value64(a) - value64(b)) * 0x10_0000_0000_0000 <= apart(
            value64(a) - value64(b),
            0,
        ) + 0x10_0000_0000_0000,
{
    reveal(computes_closely);
}

/// A product is off by a small part of it.
pub proof fn times_fine64<A: Arithmetic>(a: u64, b: u64)
    requires
        computes_closely::<A>(),
        double::is_finite(a),
        double::is_finite(b),
        apart(value64(a) * value64(b), 0) < 0x2_0000_0000 * unit64() * unit64(),
    ensures
        double::is_finite(times64_of::<A>(a, b)),
        apart(value64(times64_of::<A>(a, b)) * unit64(), value64(a) * value64(b)) * 0x10_0000_0000_0000 <= apart(
            value64(a) * value64(b),
            0,
        ) + 0x10_0000_0000_0000 * unit64(),
{
    reveal(computes_closely);
}

/// A quotient by a positive number is off by a small part of it.
pub proof fn over_fine64<A: Arithmetic>(a: u64, b: u64)
    requires
        computes_closely::<A>(),
        double::is_finite(a),
        double::is_finite(b),
        value64(b) > 0,
        apart(value64(a), 0) < 0x1_0000_0000_0000_0000 * value64(b),
    ensures
        double::is_finite(over64_of::<A>(a, b)),
        apart(value64(over64_of::<A>(a, b)) * value64(b), value64(a) * unit64()) * 0x10_0000_0000_0000 <= apart(
            value64(a) * unit64(),
            0,
        ) + 0x10_0000_0000_0000 * value64(b),
{
    reveal(computes_closely);
}

/// The root of a number of a moderate size is close.
pub proof fn root_close64<A: Arithmetic>(a: u64)
    requires
        computes_closely::<A>(),
        double::is_finite(a),
        0 <= value64(a) < 0x2_0000_0000 * unit64(),
    ensures
        ({
            let r = value64(root64_of::<A>(a));
            &&& double::is_finite(root64_of::<A>(a))
            &&& 0 <= r
            &&& value64(a) * unit64() <= (r + grain64()) * (r + grain64())
            &&& r <= grain64() || (r - grain64()) * (r - grain64()) <= value64(a) * unit64()
        }),
{
    reveal(computes_closely);
}

/// The floor of a number, as a count: none where it is negative.
pub proof fn floor_count64<A: Arithmetic>(a: u64)
    requires
        computes_closely::<A>(),
        double::is_finite(a),
        value64(a) < 0x1_0000_0000_0000_0000 * unit64(),
    ensures
        to_count64_of::<A>(floor64_of::<A>(a)) == if value64(a) < 0 {
            0
        } else {
            value64(a) / unit64()
        },
{
    reveal(computes_closely);
}

/// A number of a moderate size is close in single precision.
pub proof fn narrow_close<A: Arithmetic>(x: u64)
    requires
        computes_closely::<A>(),
        double::is_finite(x),
        apart(value64(x), 0) < 0x8000 * unit64(),
    ensures
        single::is_finite(narrow_of::<A>(x)),
        apart(value(narrow_of::<A>(x)) * pow2(925), value64(x)) <= 2048 * grain64(),
{
    reveal(computes_closely);
}

/// A single-precision difference of a moderate size is close.
pub proof fn minus_close<A: Arithmetic>(a: u32, b: u32)
    requires
        computes_closely::<A>(),
        single::is_finite(a),
        single::is_finite(b),
        apart(value(a) - value(b), 0) < 0x8000 * (2 * half()),
    ensures
        single::is_finite(minus_of::<A>(a, b)),
        apart(value(minus_of::<A>(a, b)), value(a) - value(b)) <= pow2(140),
{
    reveal(computes_closely);
}

/// A single-precision root reaches every number whose square the radicand reaches.
pub proof fn root_reaches<A: Arithmetic>(a: u32, c: u32)
    requires
        computes_closely::<A>(),
        single::is_finite(a),
        single::is_finite(c),
        0 <= value(c),
        value(c) * value(c) <= value(a) * (2 * half()),
    ensures
        single::is_finite(root_of::<A>(a)),
        value(c) <= value(root_of::<A>(a)),
{
    reveal(computes_closely);
}

/// A count reaches every whole number that the number reaches.
pub proof fn count_reaches<A: Arithmetic>(a: u32, n: u64)
    requires
        computes_closely::<A>(),
        single::is_finite(a),
        n * (2 * half()) <= value(a),
    ensures
        n <= to_count_of::<A>(a),
{
    reveal(computes_closely);
}

/// What lies between two numbers rounds to one between them.
pub proof fn rounded_between(r: u32, n: int, d: int, low: u32, high: u32)
    requires
        rounded(r, n, d),
        d > 0,
        single::is_finite(low),
        single::is_finite(high),
        value(low) * d <= n <= value(high) * d,
    ensures
        single::is_finite(r),
        value(low) <= value(r) <= value(high),
{
    rounded_is_finite(r, n, d, low, high);
    rounded_at_least(r, n, d, low);
    rounded_at_most(r, n, d, high);
    values_are_ordered(low, r);
    values_are_ordered(r, high);
}

/// A fine step, the twenty-second negative power of two, in units of the least positive
/// single-precision number.
pub open spec fn grain() -> int {
    pow2(127) as int
}

/// Four million grains are one.
pub proof fn grains()
    ensures
        grain() > 0,
        2 * half() == 0x40_0000 * grain(),
{
    lemma2_to64();
    lemma_pow2_pos(127);
    lemma_pow2_adds(22, 127);
    lemma_pow2_adds(1, 148);
}

/// A result of three at the most is off by no more than a grain.
pub proof fn rounded_close(r: u32, n: int, d: int)
    requires
        rounded(r, n, d),
        d > 0,
        apart(n, 0) <= (3 * (2 * half())) * d,
    ensures
        single::is_finite(r),
        apart(value(r) * d, n) <= grain() * d,
{
    grains();
    let g = grain();
    let gd = g * d;
    assert(gd > 0) by (nonlinear_arith)
        requires
            gd == g * d,
            g > 0,
            d > 0,
    ;
    let m = n / gd;
    assert(m * gd <= n < m * gd + gd) by (nonlinear_arith)
        requires
            m == n / gd,
            gd > 0,
    ;
    assert((3 * (0x40_0000 * g)) * d == 0xC0_0000 * gd) by (nonlinear_arith)
        requires
            gd == g * d,
    ;
    assert(-0xC0_0001 <= m <= 0xC0_0000) by (nonlinear_arith)
        requires
            m * gd <= n < m * gd + gd,
            -(0xC0_0000 * gd) <= n <= 0xC0_0000 * gd,
            gd > 0,
    ;
    let c = short_multiples_are_numbers(m, 127);
    assert((m * g) * d == m * gd) by (nonlinear_arith)
        requires
            gd == g * d,
    ;
    let four = short_multiples_are_numbers(0x80_0000, 128);
    lemma_pow2_unfold(128);
    assert(0x80_0000 * pow2(128) == 0x100_0000 * g);
    assert(value(four) * d >= apart(n, 0)) by (nonlinear_arith)
        requires
            value(four) == 0x100_0000 * g,
            apart(n, 0) <= 0xC0_0000 * gd,
            gd == g * d,
            gd > 0,
    ;
    numbers_are_in_range(four, d);
    assert(closest(r, n, d));
    assert(apart(value(r) * d, n) <= apart(value(c) * d, n));
}

/// A sum of three at the most is off by no more than a grain.
pub proof fn plus_close<A: Arithmetic>(a: u32, b: u32)
    requires
        rounds::<A>(),
        single::is_finite(a),
        single::is_finite(b),
        apart(value(a) + value(b), 0) <= 3 * (2 * half()),
    ensures
        single::is_finite(plus_of::<A>(a, b)),
        apart(value(plus_of::<A>(a, b)), value(a) + value(b)) <= grain(),
{
    plus_rounds::<A>(a, b);
    rounded_close(plus_of::<A>(a, b), value(a) + value(b), 1);
}

/// A difference of three at the most is off by no more than a grain.
pub proof fn minus_near<A: Arithmetic>(a: u32, b: u32)
    requires
        rounds::<A>(),
        single::is_finite(a),
        single::is_finite(b),
        apart(value(a) - value(b), 0) <= 3 * (2 * half()),
    ensures
        single::is_finite(minus_of::<A>(a, b)),
        apart(value(minus_of::<A>(a, b)), value(a) - value(b)) <= grain(),
{
    minus_rounds::<A>(a, b);
    rounded_close(minus_of::<A>(a, b), value(a) - value(b), 1);
}

/// A product of three at the most is off by no more than a grain.
pub proof fn times_close<A: Arithmetic>(a: u32, b: u32)
    requires
        rounds::<A>(),
        single::is_finite(a),
        single::is_finite(b),
        apart(value(a) * value(b), 0) <= (3 * (2 * half())) * (2 * half()),
    ensures
        single::is_finite(times_of::<A>(a, b)),
        apart(value(times_of::<A>(a, b)) * (2 * half()), value(a) * value(b)) <= grain() * (2
            * half()),
{
    grains();
    times_rounds::<A>(a, b);
    rounded_close(times_of::<A>(a, b), value(a) * value(b), 2 * half());
}

/// Two numbers of one value are one pattern, or both zero.
pub proof fn one_value(a: u32, b: u32)
    requires
        single::is_finite(a),
        single::is_finite(b),
        value(a) == value(b),
    ensures
        a == b || value(a) == 0,
{
    small_numbers();
    values_are_ordered(a, b);
    values_are_ordered(a, 0);
}

/// The exact result zero is zero.
proof fn rounded_zero(r: u32, d: int)
    requires
        rounded(r, 0, d),
        d > 0,
    ensures
        single::is_finite(r),
        value(r) == 0,
{
    small_numbers();
    assert(value(0) * d == 0) by (nonlinear_arith)
        requires
            value(0) == 0,
    ;
    rounded_between(r, 0, d, 0, 0);
}

/// Results of one rounding are ordered as the exact ones are.
pub proof fn rounded_order(r: u32, m: int, s: u32, n: int, d: int)
    requires
        rounded(r, m, d),
        rounded(s, n, d),
        single::is_finite(r),
        single::is_finite(s),
        d > 0,
        m < n || m == n && (r == s || m == 0),
    ensures
        value(r) <= value(s),
{
    if m < n {
        rounded_keeps_order(r, m, s, n, d);
        values_are_ordered(r, s);
    } else if r != s {
        rounded_zero(r, d);
        rounded_zero(s, d);
    }
}

/// Products by what is not negative are ordered as the other factors are.
pub proof fn times_ordered<A: Arithmetic>(h: u32, a: u32, b: u32)
    requires
        rounds::<A>(),
        single::is_finite(h),
        single::is_finite(a),
        single::is_finite(b),
        single::is_finite(times_of::<A>(h, a)),
        single::is_finite(times_of::<A>(h, b)),
        value(a) <= value(b),
    ensures
        0 <= value(h) ==> value(times_of::<A>(h, a)) <= value(times_of::<A>(h, b)),
        value(h) <= 0 ==> value(times_of::<A>(h, b)) <= value(times_of::<A>(h, a)),
{
    half_is_positive();
    let (vh, va, vb, d) = (value(h), value(a), value(b), 2 * half());
    times_rounds::<A>(h, a);
    times_rounds::<A>(h, b);
    if va == vb {
        one_value(a, b);
    }
    assert(va < vb && vh > 0 ==> vh * va < vh * vb) by (nonlinear_arith);
    assert(va < vb && vh < 0 ==> vh * vb < vh * va) by (nonlinear_arith);
    assert(vh == 0 || va == 0 ==> vh * va == 0) by (nonlinear_arith);
    assert(vh == 0 || vb == 0 ==> vh * vb == 0) by (nonlinear_arith);
    if 0 <= vh {
        rounded_order(times_of::<A>(h, a), vh * va, times_of::<A>(h, b), vh * vb, d);
    }
    if vh <= 0 {
        rounded_order(times_of::<A>(h, b), vh * vb, times_of::<A>(h, a), vh * va, d);
    }
}

/// Products by what is not negative are ordered as the first factors are.
pub proof fn times_ordered_first<A: Arithmetic>(a: u32, b: u32, h: u32)
    requires
        rounds::<A>(),
        single::is_finite(h),
        single::is_finite(a),
        single::is_finite(b),
        single::is_finite(times_of::<A>(a, h)),
        single::is_finite(times_of::<A>(b, h)),
        value(a) <= value(b),
        0 <= value(h),
    ensures
        value(times_of::<A>(a, h)) <= value(times_of::<A>(b, h)),
{
    half_is_positive();
    let (vh, va, vb, d) = (value(h), value(a), value(b), 2 * half());
    times_rounds::<A>(a, h);
    times_rounds::<A>(b, h);
    if va == vb {
        one_value(a, b);
    }
    assert(va < vb && vh > 0 ==> va * vh < vb * vh) by (nonlinear_arith);
    assert(vh == 0 || va == 0 ==> va * vh == 0) by (nonlinear_arith);
    assert(vh == 0 || vb == 0 ==> vb * vh == 0) by (nonlinear_arith);
    rounded_order(times_of::<A>(a, h), va * vh, times_of::<A>(b, h), vb * vh, d);
}

/// Sums with one number are ordered as the other terms are.
pub proof fn plus_ordered<A: Arithmetic>(h: u32, a: u32, b: u32)
    requires
        rounds::<A>(),
        single::is_finite(h),
        single::is_finite(a),
        single::is_finite(b),
        single::is_finite(plus_of::<A>(h, a)),
        single::is_finite(plus_of::<A>(h, b)),
        value(a) <= value(b),
    ensures
        value(plus_of::<A>(h, a)) <= value(plus_of::<A>(h, b)),
{
    plus_rounds::<A>(h, a);
    plus_rounds::<A>(h, b);
    if value(a) == value(b) {
        one_value(a, b);
        if a != b {
            rounded_between(plus_of::<A>(h, a), value(h), 1, h, h);
            rounded_between(plus_of::<A>(h, b), value(h), 1, h, h);
        }
    } else {
        rounded_order(
            plus_of::<A>(h, a),
            value(h) + value(a),
            plus_of::<A>(h, b),
            value(h) + value(b),
            1,
        );
    }
}

/// Differences from one number are ordered against what is taken off.
pub proof fn minus_ordered<A: Arithmetic>(h: u32, a: u32, b: u32)
    requires
        rounds::<A>(),
        single::is_finite(h),
        single::is_finite(a),
        single::is_finite(b),
        single::is_finite(minus_of::<A>(h, a)),
        single::is_finite(minus_of::<A>(h, b)),
        value(a) <= value(b),
    ensures
        value(minus_of::<A>(h, b)) <= value(minus_of::<A>(h, a)),
{
    minus_rounds::<A>(h, a);
    minus_rounds::<A>(h, b);
    if value(a) == value(b) {
        one_value(a, b);
        if a != b {
            rounded_between(minus_of::<A>(h, a), value(h), 1, h, h);
            rounded_between(minus_of::<A>(h, b), value(h), 1, h, h);
        }
    } else {
        rounded_order(
            minus_of::<A>(h, b),
            value(h) - value(b),
            minus_of::<A>(h, a),
            value(h) - value(a),
            1,
        );
    }
}

/// Quotients by one number are ordered as the numerators are, or against them where the
/// number is negative.
pub proof fn over_ordered<A: Arithmetic>(a: u32, b: u32, h: u32)
    requires
        rounds::<A>(),
        single::is_finite(h),
        single::is_finite(a),
        single::is_finite(b),
        single::is_finite(over_of::<A>(a, h)),
        single::is_finite(over_of::<A>(b, h)),
        value(a) <= value(b),
    ensures
        0 < value(h) ==> value(over_of::<A>(a, h)) <= value(over_of::<A>(b, h)),
        value(h) < 0 ==> value(over_of::<A>(b, h)) <= value(over_of::<A>(a, h)),
{
    half_is_positive();
    let (vh, va, vb, o) = (value(h), value(a), value(b), 2 * half());
    if va == vb {
        one_value(a, b);
    }
    assert(va < vb ==> va * o < vb * o) by (nonlinear_arith)
        requires
            o > 0,
    ;
    assert(va == 0 ==> va * o == 0) by (nonlinear_arith);
    assert(vb == 0 ==> vb * o == 0) by (nonlinear_arith);
    let (ra, rb) = (over_of::<A>(a, h), over_of::<A>(b, h));
    if 0 < vh {
        over_rounds::<A>(a, h);
        over_rounds::<A>(b, h);
        rounded_order(ra, va * o, rb, vb * o, vh);
    } else if vh < 0 {
        assert(rounded(ra, -(va * o), -vh) && rounded(rb, -(vb * o), -vh)) by {
            reveal(rounds);
        }
        rounded_order(rb, -(vb * o), ra, -(va * o), -vh);
    }
}

/// Roots are ordered as the radicands are.
pub proof fn roots_ordered<A: Arithmetic>(a: u32, b: u32)
    requires
        computes_closely::<A>(),
        single::is_finite(a),
        single::is_finite(b),
        0 <= value(a) <= value(b),
    ensures
        value(root_of::<A>(a)) <= value(root_of::<A>(b)),
{
    reveal(computes_closely);
}

/// Whether results in double precision, and what becomes of them in single precision, are
/// as close as IEEE 754 demands, however large or small they are up to `2^926` and
/// `2^127`: off by no more than a `2^52`th, or a `2^23`th, of themselves and the least
/// positive number. Rounding keeps order, so a sum of what is not negative is no less than
/// its terms, and a quotient of it by something no smaller lies between zero and one.
#[verifier::opaque]
pub open spec fn computes_finely<A: Arithmetic>() -> bool {
    &&& forall|a: u64, b: u64|
        double::is_finite(a) && double::is_finite(b) && apart(value64(a) + value64(b), 0) < pow2(
            2000,
        ) ==> double::is_finite(plus64_of::<A>(a, b)) && apart(
            value64(#[trigger] plus64_of::<A>(a, b)),
            value64(a) + value64(b),
        ) * 0x10_0000_0000_0000 <= apart(value64(a) + value64(b), 0) + 0x10_0000_0000_0000
    &&& forall|a: u64, b: u64|
        double::is_finite(a) && double::is_finite(b) && apart(value64(a) - value64(b), 0) < pow2(
            2000,
        ) ==> double::is_finite(minus64_of::<A>(a, b)) && apart(
            value64(#[trigger] minus64_of::<A>(a, b)),
            value64(a) - value64(b),
        ) * 0x10_0000_0000_0000 <= apart(value64(a) - value64(b), 0) + 0x10_0000_0000_0000
    &&& forall|a: u64, b: u64|
        double::is_finite(a) && double::is_finite(b) && apart(value64(a) * value64(b), 0) < pow2(
            2000,
        ) * unit64() ==> double::is_finite(times64_of::<A>(a, b)) && apart(
            value64(#[trigger] times64_of::<A>(a, b)) * unit64(),
            value64(a) * value64(b),
        ) * 0x10_0000_0000_0000 <= apart(value64(a) * value64(b), 0) + 0x10_0000_0000_0000
            * unit64()
    &&& forall|a: u64, b: u64|
        double::is_finite(a) && double::is_finite(b) && value64(b) > 0 && apart(
            value64(a) * unit64(),
            0,
        ) < pow2(2000) * value64(b) ==> double::is_finite(over64_of::<A>(a, b)) && apart(
            value64(#[trigger] over64_of::<A>(a, b)) * value64(b),
            value64(a) * unit64(),
        ) * 0x10_0000_0000_0000 <= apart(value64(a) * unit64(), 0) + 0x10_0000_0000_0000 * value64(
            b,
        )
    &&& forall|a: u64, b: u64|
        double::is_finite(a) && double::is_finite(b) && value64(a) >= 0 && value64(b) >= 0
            && double::is_finite(plus64_of::<A>(a, b)) ==> value64(
            #[trigger] plus64_of::<A>(a, b),
        ) >= value64(a)
    &&& forall|a: u64, b: u64|
        double::is_finite(a) && double::is_finite(b) && 0 <= value64(a) <= value64(b) && value64(b)
            > 0 ==> double::is_finite(over64_of::<A>(a, b)) && 0 <= value64(
            #[trigger] over64_of::<A>(a, b),
        ) <= unit64()
    &&& forall|x: u64|
        double::is_finite(x) && apart(value64(x), 0) < pow2(1201) ==> single::is_finite(
            narrow_of::<A>(x),
        ) && apart(value(#[trigger] narrow_of::<A>(x)) * pow2(925), value64(x)) * 0x80_0000
            <= apart(value64(x), 0) + 0x80_0000 * pow2(925)
}

/// How far a double-precision result of at most `m` can be off.
pub open spec fn step64(m: int) -> int {
    m / 0x10_0000_0000_0000 + 2
}

/// A sum of at most `m` is off by no more than a step.
pub proof fn plus_off64<A: Arithmetic>(a: u64, b: u64, m: int)
    requires
        computes_finely::<A>(),
        double::is_finite(a),
        double::is_finite(b),
        apart(value64(a) + value64(b), 0) <= m < pow2(2000),
    ensures
        double::is_finite(plus64_of::<A>(a, b)),
        apart(value64(plus64_of::<A>(a, b)), value64(a) + value64(b)) <= step64(m),
{
    reveal(computes_finely);
    let _ = plus64_of::<A>(a, b);
}

/// A difference of at most `m` is off by no more than a step.
pub proof fn minus_off64<A: Arithmetic>(a: u64, b: u64, m: int)
    requires
        computes_finely::<A>(),
        double::is_finite(a),
        double::is_finite(b),
        apart(value64(a) - value64(b), 0) <= m < pow2(2000),
    ensures
        double::is_finite(minus64_of::<A>(a, b)),
        apart(value64(minus64_of::<A>(a, b)), value64(a) - value64(b)) <= step64(m),
{
    reveal(computes_finely);
    let _ = minus64_of::<A>(a, b);
}

/// What a relative bound says in absolute terms.
proof fn relative_off(x: int, n: int, m: int, d: int)
    requires
        d > 0,
        0 <= m,
        apart(n, 0) <= m * d,
        x >= 0,
        x * 0x10_0000_0000_0000 <= apart(n, 0) + 0x10_0000_0000_0000 * d,
    ensures
        x <= step64(m) * d,
{
    let (q, k) = (m / 0x10_0000_0000_0000, m % 0x10_0000_0000_0000);
    assert(m * d == 0x10_0000_0000_0000 * (q * d) + k * d) by (nonlinear_arith)
        requires
            m == 0x10_0000_0000_0000 * q + k,
    ;
    assert(k * d <= 0x10_0000_0000_0000 * d) by (nonlinear_arith)
        requires
            0 <= k < 0x10_0000_0000_0000,
            d > 0,
    ;
    assert((q + 2) * d == q * d + 2 * d) by (nonlinear_arith);
}

/// A product of at most `m` is off by no more than a step.
pub proof fn times_off64<A: Arithmetic>(a: u64, b: u64, m: int)
    requires
        computes_finely::<A>(),
        double::is_finite(a),
        double::is_finite(b),
        0 <= m < pow2(2000),
        apart(value64(a) * value64(b), 0) <= m * unit64(),
    ensures
        double::is_finite(times64_of::<A>(a, b)),
        apart(value64(times64_of::<A>(a, b)) * unit64(), value64(a) * value64(b)) <= step64(m)
            * unit64(),
{
    reveal(computes_finely);
    small_numbers64();
    let (u, p) = (unit64(), pow2(2000) as int);
    assert(m * u < p * u) by (nonlinear_arith)
        requires
            m < p,
            u > 0,
    ;
    relative_off(
        apart(value64(times64_of::<A>(a, b)) * u, value64(a) * value64(b)),
        value64(a) * value64(b),
        m,
        u,
    );
}

/// A quotient of at most `m` by a positive number is off by no more than a step.
pub proof fn over_off64<A: Arithmetic>(a: u64, b: u64, m: int)
    requires
        computes_finely::<A>(),
        double::is_finite(a),
        double::is_finite(b),
        value64(b) > 0,
        0 <= m < pow2(2000),
        apart(value64(a) * unit64(), 0) <= m * value64(b),
    ensures
        double::is_finite(over64_of::<A>(a, b)),
        apart(value64(over64_of::<A>(a, b)) * value64(b), value64(a) * unit64()) <= step64(m)
            * value64(b),
{
    reveal(computes_finely);
    let (d, p) = (value64(b), pow2(2000) as int);
    assert(m * d < p * d) by (nonlinear_arith)
        requires
            m < p,
            d > 0,
    ;
    relative_off(
        apart(value64(over64_of::<A>(a, b)) * d, value64(a) * unit64()),
        value64(a) * unit64(),
        m,
        d,
    );
}

/// A difference is off by a small part of it, or by the least number.
pub proof fn minus_relative64<A: Arithmetic>(a: u64, b: u64)
    requires
        computes_finely::<A>(),
        double::is_finite(a),
        double::is_finite(b),
        apart(value64(a) - value64(b), 0) < pow2(2000),
    ensures
        double::is_finite(minus64_of::<A>(a, b)),
        apart(value64(minus64_of::<A>(a, b)), value64(a) - value64(b)) * 0x10_0000_0000_0000
            <= apart(value64(a) - value64(b), 0) + 0x10_0000_0000_0000,
{
    reveal(computes_finely);
}

/// A sum is off by a small part of it, or by the least number.
pub proof fn plus_relative64<A: Arithmetic>(a: u64, b: u64)
    requires
        computes_finely::<A>(),
        double::is_finite(a),
        double::is_finite(b),
        apart(value64(a) + value64(b), 0) < pow2(2000),
    ensures
        double::is_finite(plus64_of::<A>(a, b)),
        apart(value64(plus64_of::<A>(a, b)), value64(a) + value64(b)) * 0x10_0000_0000_0000
            <= apart(value64(a) + value64(b), 0) + 0x10_0000_0000_0000,
{
    reveal(computes_finely);
    let _ = plus64_of::<A>(a, b);
}

/// A product is off by a small part of it, or by the least number.
pub proof fn times_relative64<A: Arithmetic>(a: u64, b: u64)
    requires
        computes_finely::<A>(),
        double::is_finite(a),
        double::is_finite(b),
        apart(value64(a) * value64(b), 0) < pow2(2000) * unit64(),
    ensures
        double::is_finite(times64_of::<A>(a, b)),
        apart(value64(times64_of::<A>(a, b)) * unit64(), value64(a) * value64(b))
            * 0x10_0000_0000_0000 <= apart(value64(a) * value64(b), 0) + 0x10_0000_0000_0000
            * unit64(),
{
    reveal(computes_finely);
    let _ = times64_of::<A>(a, b);
}

/// A quotient by a positive number is off by a small part of it, or by the least number.
pub proof fn over_relative64<A: Arithmetic>(a: u64, b: u64)
    requires
        computes_finely::<A>(),
        double::is_finite(a),
        double::is_finite(b),
        value64(b) > 0,
        apart(value64(a) * unit64(), 0) < pow2(2000) * value64(b),
    ensures
        double::is_finite(over64_of::<A>(a, b)),
        apart(value64(over64_of::<A>(a, b)) * value64(b), value64(a) * unit64())
            * 0x10_0000_0000_0000 <= apart(value64(a) * unit64(), 0) + 0x10_0000_0000_0000
            * value64(b),
{
    reveal(computes_finely);
}

/// A number of double precision is off by a small part of it in single precision.
pub proof fn narrow_off<A: Arithmetic>(x: u64)
    requires
        computes_finely::<A>(),
        double::is_finite(x),
        apart(value64(x), 0) < pow2(1201),
    ensures
        single::is_finite(narrow_of::<A>(x)),
        apart(value(narrow_of::<A>(x)) * pow2(925), value64(x)) * 0x80_0000 <= apart(
            value64(x),
            0,
        ) + 0x80_0000 * pow2(925),
{
    reveal(computes_finely);
}

/// A sum of two numbers that are not negative is no less than the first.
pub proof fn plus_grows64<A: Arithmetic>(a: u64, b: u64)
    requires
        computes_finely::<A>(),
        double::is_finite(a),
        double::is_finite(b),
        value64(a) >= 0,
        value64(b) >= 0,
        double::is_finite(plus64_of::<A>(a, b)),
    ensures
        value64(plus64_of::<A>(a, b)) >= value64(a),
{
    reveal(computes_finely);
}

/// A share of what is not negative lies between zero and one.
pub proof fn over_shares64<A: Arithmetic>(a: u64, b: u64)
    requires
        computes_finely::<A>(),
        double::is_finite(a),
        double::is_finite(b),
        0 <= value64(a) <= value64(b),
        value64(b) > 0,
    ensures
        double::is_finite(over64_of::<A>(a, b)),
        0 <= value64(over64_of::<A>(a, b)) <= unit64(),
{
    reveal(computes_finely);
}

/// A finite single-precision number is a short multiple of a power of two.
pub proof fn is_short(v: u32) -> (r: (int, nat))
    requires
        single::is_finite(v),
    ensures
        value(v) == r.0 * pow2(r.1),
        -0x100_0000 < r.0 < 0x100_0000,
        r.1 <= 253,
{
    lemma2_to64();
    let m = single::magnitude(v) as int;
    let (e, f) = (m / 0x80_0000, m % 0x80_0000);
    let (s, k): (int, nat) = if e == 0 {
        (f, 0)
    } else {
        (f + 0x80_0000, (e - 1) as nat)
    };
    assert(f * pow2(0) == f) by (nonlinear_arith)
        requires
            pow2(0) == 1,
    ;
    assert(size(m) == s * pow2(k));
    if v >= single::SIGN {
        assert((-s) * pow2(k) == -(s * pow2(k))) by (nonlinear_arith);
        (-s, k)
    } else {
        (s, k)
    }
}

/// A single-precision number is small next to what double precision holds.
pub proof fn singles_are_moderate(v: u32)
    requires
        single::is_finite(v),
    ensures
        apart(value(v) * pow2(925), 0) < pow2(1202),
        pow2(1202) == 2 * pow2(1201),
        0 < pow2(1201),
{
    lemma2_to64();
    let (s, k) = is_short(v);
    lemma_pow2_adds(24, 253);
    lemma_pow2_adds(277, 925);
    lemma_pow2_unfold(1202);
    lemma_pow2_pos(1201);
    lemma_pow2_pos(k);
    lemma_pow2_pos(925);
    lemma_pow2_pos(253);
    if k < 253 {
        lemma_pow2_strictly_increases(k, 253);
    }
    let (p, q, r) = (pow2(k) as int, pow2(253) as int, pow2(925) as int);
    assert(apart(s * p, 0) < 0x100_0000 * q) by (nonlinear_arith)
        requires
            -0x100_0000 < s < 0x100_0000,
            0 < p <= q,
    ;
    let x = s * p;
    assert(apart(x * r, 0) < (0x100_0000 * q) * r) by (nonlinear_arith)
        requires
            apart(x, 0) < 0x100_0000 * q,
            r > 0,
    ;
}

/// A ceiling is a whole number.
pub proof fn ceil_is_whole<A: Arithmetic>(a: u32)
    requires
        rounds::<A>(),
        single::is_finite(a),
    ensures
        single::is_finite(ceil_of::<A>(a)),
        value(ceil_of::<A>(a)) == -((-value(a)) / (2 * half())) * (2 * half()),
{
    reveal(rounds);
}

/// How coarse single precision is around `n / d`: the least power of two, from the
/// `k`th on, that is more than a `2^23`th of it.
proof fn coarseness(n: int, d: int, k: nat) -> (r: nat)
    requires
        d > 0,
        n >= 0,
        k <= 253,
        n < (0x80_0000 * pow2(253)) * d,
        k == 0 || (0x40_0000 * pow2(k)) * d <= n,
    ensures
        r <= 253,
        n < (0x80_0000 * pow2(r)) * d,
        r == 0 || (0x40_0000 * pow2(r)) * d <= n,
    decreases 253 - k,
{
    if n < (0x80_0000 * pow2(k)) * d {
        k
    } else {
        assert(k != 253);
        lemma_pow2_unfold(k + 1);
        assert(0x40_0000 * pow2(k + 1) == 0x80_0000 * pow2(k));
        coarseness(n, d, k + 1)
    }
}

/// A result is off by a small part of it, or by the least number.
pub proof fn rounded_fine(r: u32, n: int, d: int)
    requires
        rounded(r, n, d),
        d > 0,
        apart(n, 0) < (0x80_0000 * pow2(253)) * d,
    ensures
        single::is_finite(r),
        apart(value(r) * d, n) * 0x40_0000 <= apart(n, 0) + 0x40_0000 * d,
{
    lemma2_to64();
    let k = coarseness(apart(n, 0), d, 0);
    let p = pow2(k) as int;
    lemma_pow2_pos(k);
    let pd = p * d;
    assert(pd > 0) by (nonlinear_arith)
        requires
            pd == p * d,
            p > 0,
            d > 0,
    ;
    let m = n / pd;
    assert(m * pd <= n < m * pd + pd) by (nonlinear_arith)
        requires
            m == n / pd,
            pd > 0,
    ;
    assert((0x80_0000 * p) * d == 0x80_0000 * pd && (0x40_0000 * p) * d == 0x40_0000 * pd)
        by (nonlinear_arith)
        requires
            pd == p * d,
    ;
    assert(-0x80_0001 <= m <= 0x80_0000) by (nonlinear_arith)
        requires
            m * pd <= n < m * pd + pd,
            -(0x80_0000 * pd) <= n <= 0x80_0000 * pd,
            pd > 0,
    ;
    let c = short_multiples_are_numbers(m, k);
    assert((m * p) * d == m * pd) by (nonlinear_arith)
        requires
            pd == p * d,
    ;
    if k == 0 {
        assert(pd == d) by (nonlinear_arith)
            requires
                pd == p * d,
                p == 1,
        ;
    }
    let top = short_multiples_are_numbers(0x80_0000, 253);
    numbers_are_in_range(top, d);
    assert(value(top) * d == (0x80_0000 * pow2(253)) * d);
    assert(closest(r, n, d));
    assert(apart(value(r) * d, n) <= apart(value(c) * d, n));
}

/// What single precision holds at the most, and a little less.
pub open spec fn ceiling() -> int {
    (0x80_0000 * pow2(253)) as int
}

/// One, in units of the least positive single-precision number.
pub open spec fn unit() -> int {
    2 * half()
}

/// A sum is off by a small part of it, or by the least number.
pub proof fn plus_fine<A: Arithmetic>(a: u32, b: u32)
    requires
        rounds::<A>(),
        single::is_finite(a),
        single::is_finite(b),
        apart(value(a) + value(b), 0) < ceiling(),
    ensures
        single::is_finite(plus_of::<A>(a, b)),
        apart(value(plus_of::<A>(a, b)), value(a) + value(b)) * 0x40_0000 <= apart(
            value(a) + value(b),
            0,
        ) + 0x40_0000,
{
    plus_rounds::<A>(a, b);
    rounded_fine(plus_of::<A>(a, b), value(a) + value(b), 1);
}

/// A difference is off by a small part of it, or by the least number.
pub proof fn minus_fine<A: Arithmetic>(a: u32, b: u32)
    requires
        rounds::<A>(),
        single::is_finite(a),
        single::is_finite(b),
        apart(value(a) - value(b), 0) < ceiling(),
    ensures
        single::is_finite(minus_of::<A>(a, b)),
        apart(value(minus_of::<A>(a, b)), value(a) - value(b)) * 0x40_0000 <= apart(
            value(a) - value(b),
            0,
        ) + 0x40_0000,
{
    minus_rounds::<A>(a, b);
    rounded_fine(minus_of::<A>(a, b), value(a) - value(b), 1);
}

/// A product is off by a small part of it, or by the least number.
pub proof fn times_fine<A: Arithmetic>(a: u32, b: u32)
    requires
        rounds::<A>(),
        single::is_finite(a),
        single::is_finite(b),
        apart(value(a) * value(b), 0) < ceiling() * unit(),
    ensures
        single::is_finite(times_of::<A>(a, b)),
        apart(value(times_of::<A>(a, b)) * unit(), value(a) * value(b)) * 0x40_0000 <= apart(
            value(a) * value(b),
            0,
        ) + 0x40_0000 * unit(),
{
    half_is_positive();
    times_rounds::<A>(a, b);
    rounded_fine(times_of::<A>(a, b), value(a) * value(b), 2 * half());
}

/// A quotient by a positive number is off by a small part of it, or by the least number.
pub proof fn over_fine<A: Arithmetic>(a: u32, b: u32)
    requires
        rounds::<A>(),
        single::is_finite(a),
        single::is_finite(b),
        value(b) > 0,
        apart(value(a) * unit(), 0) < ceiling() * value(b),
    ensures
        single::is_finite(over_of::<A>(a, b)),
        apart(value(over_of::<A>(a, b)) * value(b), value(a) * unit()) * 0x40_0000 <= apart(
            value(a) * unit(),
            0,
        ) + 0x40_0000 * value(b),
{
    over_rounds::<A>(a, b);
    rounded_fine(over_of::<A>(a, b), value(a) * (2 * half()), value(b));
}

/// Whether the remainder by a positive number is as IEEE 754 has it for quotients cut to whole
/// numbers: exact, of the sign of what was divided, and zero only as the remainder of a
/// multiple.
#[verifier::opaque]
pub open spec fn takes_remainders<A: Arithmetic>() -> bool {
    forall|a: u32, b: u32|
        single::is_finite(a) && single::is_finite(b) && value(b) > 0 ==> single::is_finite(
            #[trigger] remainder_of::<A>(a, b),
        ) && value(remainder_of::<A>(a, b)) == if value(a) >= 0 {
            value(a) % value(b)
        } else {
            -((-value(a)) % value(b))
        }
}

/// A remainder by a positive number is exact.
pub proof fn remainder_is_exact<A: Arithmetic>(a: u32, b: u32)
    requires
        takes_remainders::<A>(),
        single::is_finite(a),
        single::is_finite(b),
        value(b) > 0,
    ensures
        single::is_finite(remainder_of::<A>(a, b)),
        value(remainder_of::<A>(a, b)) == if value(a) >= 0 {
            value(a) % value(b)
        } else {
            -((-value(a)) % value(b))
        },
{
    reveal(takes_remainders);
}

/// Whether double-precision roots of positive numbers are as close as IEEE 754 demands: the
/// square of a root is off by no more than a `2^50`th of the radicand.
#[verifier::opaque]
pub open spec fn takes_roots<A: Arithmetic>() -> bool {
    forall|a: u64|
        double::is_finite(a) && value64(a) > 0 ==> {
            let r = value64(#[trigger] root64_of::<A>(a));
            &&& double::is_finite(root64_of::<A>(a))
            &&& r > 0
            &&& apart(r * r, value64(a) * unit64()) * 0x4_0000_0000_0000 <= value64(a) * unit64()
        }
}

/// The root of a positive number is close.
pub proof fn root_is_close<A: Arithmetic>(a: u64)
    requires
        takes_roots::<A>(),
        double::is_finite(a),
        value64(a) > 0,
    ensures
        ({
            let r = value64(root64_of::<A>(a));
            &&& double::is_finite(root64_of::<A>(a))
            &&& r > 0
            &&& apart(r * r, value64(a) * unit64()) * 0x4_0000_0000_0000 <= value64(a) * unit64()
        }),
{
    reveal(takes_roots);
}

/// Whether conversions of numbers that are not negative to counts cut them to whole ones.
#[verifier::opaque]
pub open spec fn truncates<A: Arithmetic>() -> bool {
    forall|a: u32|
        single::is_finite(a) && 0 <= value(a) < 0x1_0000_0000_0000_0000 * unit() ==> {
            let n = #[trigger] to_count_of::<A>(a) as int;
            n * unit() <= value(a) < (n + 1) * unit()
        }
}

/// A count is the whole part of a number.
pub proof fn count_is_the_whole_part<A: Arithmetic>(a: u32)
    requires
        truncates::<A>(),
        single::is_finite(a),
        0 <= value(a) < 0x1_0000_0000_0000_0000 * unit(),
    ensures
        to_count_of::<A>(a) * unit() <= value(a) < (to_count_of::<A>(a) + 1) * unit(),
{
    reveal(truncates);
}

/// A quotient is off by a small part of it, or by the least number, whatever its sign.
pub proof fn over_is_fine<A: Arithmetic>(a: u32, b: u32)
    requires
        rounds::<A>(),
        single::is_finite(a),
        single::is_finite(b),
        value(b) != 0,
        apart(value(a) * unit(), 0) < ceiling() * apart(value(b), 0),
    ensures
        single::is_finite(over_of::<A>(a, b)),
        apart(value(over_of::<A>(a, b)) * value(b), value(a) * unit()) * 0x40_0000 <= apart(
            value(a) * unit(),
            0,
        ) + 0x40_0000 * apart(value(b), 0),
{
    let r = over_of::<A>(a, b);
    if value(b) > 0 {
        over_fine::<A>(a, b);
    } else {
        reveal(rounds);
        rounded_fine(r, -(value(a) * (2 * half())), -value(b));
        let (x, y) = (value(r), value(b));
        assert(x * (-y) == -(x * y)) by (nonlinear_arith);
    }
}

/// Whether single-precision roots are as close as IEEE 754 demands: the square of a root is off
/// by no more than a `2^20`th of the radicand.
#[verifier::opaque]
pub open spec fn takes_single_roots<A: Arithmetic>() -> bool {
    forall|a: u32|
        single::is_finite(a) && value(a) >= 0 ==> {
            let r = value(#[trigger] root_of::<A>(a));
            &&& single::is_finite(root_of::<A>(a))
            &&& r >= 0
            &&& apart(r * r, value(a) * unit()) * 0x10_0000 <= value(a) * unit()
        }
}

/// The square of a root is close to the radicand.
pub proof fn root_squares<A: Arithmetic>(a: u32)
    requires
        takes_single_roots::<A>(),
        single::is_finite(a),
        value(a) >= 0,
    ensures
        ({
            let r = value(root_of::<A>(a));
            &&& single::is_finite(root_of::<A>(a))
            &&& r >= 0
            &&& apart(r * r, value(a) * unit()) * 0x10_0000 <= value(a) * unit()
        }),
{
    reveal(takes_single_roots);
}

} // verus!
