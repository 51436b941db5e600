//! What the kernels that treat every pixel on its own make of it: mixing channels, exposure,
//! encoding, tables and roll-off, of the numbers themselves and up to rounding.

use vstd::arithmetic::power2::{lemma2_to64, lemma_pow2_adds, pow2};
use vstd::prelude::*;

use crate::amounts::{moderate, room};
use crate::arith::{plus_of, power_of, times_of, Arithmetic};
use crate::bw::{dot, filtered, weighted, ColorFilter, LuminanceStandard};
use crate::encode::{GAIN, INVERSE_GAMMA, LIFT, SLOPE, THRESHOLD};
use crate::exposure::{exposed, gain_of};
use crate::raster::{inside, tabulated, Raster};
use crate::rounding::{apart, ceiling, plus_fine, rounds, size, times_fine, unit, value};
use crate::single;

verus! {

/// Whether a number is the sum of three products up to rounding, where the first factors are
/// in units of one: off by a `2^19`th of what is added up, and by a few of the least numbers.
pub open spec fn is_mixed(out: int, a: (int, int), b: (int, int), c: (int, int)) -> bool {
    apart(out * unit(), a.0 * a.1 + b.0 * b.1 + c.0 * c.1) * 0x40_0000 <= 8 * (apart(a.0 * a.1, 0)
        + apart(b.0 * b.1, 0) + apart(c.0 * c.1, 0)) + 0x200_0000 * unit()
}

/// A product is a number, and close.
pub proof fn product<A: Arithmetic>(a: u32, b: u32)
    requires
        rounds::<A>(),
        single::is_finite(a),
        single::is_finite(b),
        apart(value(a) * value(b), 0) <= moderate() * unit(),
    ensures
        single::is_finite(times_of::<A>(a, b)),
        ({
            let (p, n, o) = (value(times_of::<A>(a, b)), value(a) * value(b), unit());
            &&& apart(p * o, n) * 0x40_0000 <= apart(n, 0) + 0x40_0000 * o
            &&& apart(p, 0) * o <= 2 * apart(n, 0) + o
            &&& apart(p, 0) <= 2 * moderate() + 1
        }),
{
    room();
    let (o, m, n) = (unit(), moderate(), value(a) * value(b));
    assert(m * o < ceiling() * o) by (nonlinear_arith)
        requires
            m < ceiling(),
            o > 0,
    ;
    times_fine::<A>(a, b);
    let p = value(times_of::<A>(a, b));
    assert(apart(p, 0) * o <= 2 * apart(n, 0) + o) by (nonlinear_arith)
        requires
            apart(p * o, n) * 0x40_0000 <= apart(n, 0) + 0x40_0000 * o,
            o > 0,
    ;
    assert(apart(p, 0) <= 2 * m + 1) by (nonlinear_arith)
        requires
            apart(p, 0) * o <= 2 * apart(n, 0) + o,
            apart(n, 0) <= m * o,
            o > 0,
    ;
}

/// A sum is off, in units of a square, by a small part of its terms.
pub proof fn sum_off(r: int, a: int, b: int, x: int, y: int, o: int)
    requires
        o > 0,
        apart(r, a + b) * 0x40_0000 <= apart(a + b, 0) + 0x40_0000,
        apart(a, 0) * o <= x,
        apart(b, 0) * o <= y,
    ensures
        -(x + y + 0x40_0000 * o) <= ((r - (a + b)) * o) * 0x40_0000 <= x + y + 0x40_0000 * o,
        r * o == (r - (a + b)) * o + a * o + b * o,
        apart(r, 0) * o <= 2 * x + 2 * y + o,
{
    let f = r - (a + b);
    assert(-(apart(a, 0) * o + apart(b, 0) * o + 0x40_0000 * o) <= (f * o) * 0x40_0000 <= apart(a, 0)
        * o + apart(b, 0) * o + 0x40_0000 * o) by (nonlinear_arith)
        requires
            -(apart(a, 0) + apart(b, 0) + 0x40_0000) <= f * 0x40_0000 <= apart(a, 0) + apart(b, 0)
                + 0x40_0000,
            o > 0,
    ;
    assert(r * o == f * o + a * o + b * o) by (nonlinear_arith)
        requires
            f == r - (a + b),
    ;
    assert(apart(r, 0) * o == apart(r * o, 0) && apart(a, 0) * o == apart(a * o, 0) && apart(b, 0)
        * o == apart(b * o, 0)) by (nonlinear_arith)
        requires
            o > 0,
    ;
}

/// A weighted sum of three channels is close to the exact one.
proof fn dot_is_close<A: Arithmetic>(weights: Seq<u32>, r: u32, g: u32, b: u32)
    requires
        rounds::<A>(),
        weights.len() == 3,
        forall|i: int| 0 <= i < 3 ==> single::is_finite(#[trigger] weights[i]),
        single::is_finite(r),
        single::is_finite(g),
        single::is_finite(b),
        apart(value(weights[0]) * value(r), 0) <= moderate() * unit(),
        apart(value(weights[1]) * value(g), 0) <= moderate() * unit(),
        apart(value(weights[2]) * value(b), 0) <= moderate() * unit(),
    ensures
        single::is_finite(dot::<A>(weights, r, g, b)),
        is_mixed(
            value(dot::<A>(weights, r, g, b)),
            (value(weights[0]), value(r)),
            (value(weights[1]), value(g)),
            (value(weights[2]), value(b)),
        ),
{
    room();
    let o = unit();
    product::<A>(weights[0], r);
    product::<A>(weights[1], g);
    product::<A>(weights[2], b);
    let (p, q, s) = (
        times_of::<A>(weights[0], r),
        times_of::<A>(weights[1], g),
        times_of::<A>(weights[2], b),
    );
    let (x, y, z) = (
        apart(value(weights[0]) * value(r), 0),
        apart(value(weights[1]) * value(g), 0),
        apart(value(weights[2]) * value(b), 0),
    );
    plus_fine::<A>(p, q);
    let first = plus_of::<A>(p, q);
    sum_off(value(first), value(p), value(q), 2 * x + o, 2 * y + o, o);
    plus_fine::<A>(first, s);
    let f = value(first) - (value(p) + value(q));
    // The first sum is close enough to its terms for a bound of twice them.
    assert(apart(value(first), 0) * o <= 3 * x + 3 * y + 4 * o) by {
        assert(apart(value(first), 0) * o == apart(value(first) * o, 0)) by (nonlinear_arith)
            requires
                o > 0,
        ;
        assert(apart(value(p), 0) * o == apart(value(p) * o, 0) && apart(value(q), 0) * o == apart(
            value(q) * o,
            0,
        )) by (nonlinear_arith)
            requires
                o > 0,
        ;
    }
    sum_off(
        value(plus_of::<A>(first, s)),
        value(first),
        value(s),
        3 * x + 3 * y + 4 * o,
        2 * z + o,
        o,
    );
}

/// Mixing channels adds them up by their weights, up to rounding.
pub proof fn mixing_adds_up_weighed_channels<A: Arithmetic>(
    r: Raster<u32>,
    weights: Seq<u32>,
    y: int,
    x: int,
)
    requires
        rounds::<A>(),
        weights.len() == 3,
        r.shape.2 == 3,
        inside(r.shape, y, x, 0),
        forall|i: int|
            0 <= i < 3 ==> single::is_finite(#[trigger] weights[i]) && single::is_finite(
                r.at(y, x, i),
            ) && apart(value(weights[i]) * value(r.at(y, x, i)), 0) <= moderate() * unit(),
    ensures
        single::is_finite(weighted::<A>(r, weights).at(y, x, 0)),
        is_mixed(
            value(weighted::<A>(r, weights).at(y, x, 0)),
            (value(weights[0]), value(r.at(y, x, 0))),
            (value(weights[1]), value(r.at(y, x, 1))),
            (value(weights[2]), value(r.at(y, x, 2))),
        ),
{
    tabulated(
        (r.shape.0, r.shape.1, 1),
        |y: int, x: int, k: int|
            dot::<A>(weights, r.at(y, x, 0), r.at(y, x, 1), r.at(y, x, 2)),
    );
    assert(inside((r.shape.0, r.shape.1, 1usize), y, x, 0));
    let _ = (weights[0], weights[1], weights[2]);
    dot_is_close::<A>(weights, r.at(y, x, 0), r.at(y, x, 1), r.at(y, x, 2));
}

/// Powers of two around a `2^29`th of one.
proof fn powers()
    ensures
        unit() == 0x2000_0000 * pow2(120),
        pow2(116) * 16 == pow2(120),
        pow2(118) * 4 == pow2(120),
        pow2(119) * 2 == pow2(120),
        pow2(121) == 2 * pow2(120),
        pow2(122) == 4 * pow2(120),
        pow2(123) == 8 * pow2(120),
        pow2(124) == 16 * pow2(120),
        pow2(125) == 32 * pow2(120),
        pow2(126) == 64 * pow2(120),
        pow2(129) == 512 * pow2(120),
{
    lemma2_to64();
    lemma_pow2_adds(1, 148);
    lemma_pow2_adds(29, 120);
    lemma_pow2_adds(116, 4);
    lemma_pow2_adds(118, 2);
    lemma_pow2_adds(119, 1);
    lemma_pow2_adds(1, 120);
    lemma_pow2_adds(2, 120);
    lemma_pow2_adds(3, 120);
    lemma_pow2_adds(4, 120);
    lemma_pow2_adds(5, 120);
    lemma_pow2_adds(6, 120);
    lemma_pow2_adds(9, 120);
}

/// Whether a pattern is the number `n / d`, as close as single precision comes to it.
pub open spec fn is_fraction(x: u32, n: int, d: int) -> bool {
    single::is_finite(x) && apart(value(x) * d, n * unit()) * 0x40_0000 <= d * unit()
}

/// The weights of the luminance standards, in ten-thousandths: those of BT.601, BT.709 and
/// BT.2020 for red, green and blue.
pub proof fn luminance_weights_are_the_standards(standard: LuminanceStandard)
    ensures
        standard == LuminanceStandard::Bt601 ==> {
            &&& is_fraction(standard.coefficients()[0], 2990, 10000)
            &&& is_fraction(standard.coefficients()[1], 5870, 10000)
            &&& is_fraction(standard.coefficients()[2], 1140, 10000)
        },
        standard == LuminanceStandard::Bt709 ==> {
            &&& is_fraction(standard.coefficients()[0], 2126, 10000)
            &&& is_fraction(standard.coefficients()[1], 7152, 10000)
            &&& is_fraction(standard.coefficients()[2], 722, 10000)
        },
        standard == LuminanceStandard::Bt2020 ==> {
            &&& is_fraction(standard.coefficients()[0], 2627, 10000)
            &&& is_fraction(standard.coefficients()[1], 6780, 10000)
            &&& is_fraction(standard.coefficients()[2], 593, 10000)
        },
{
    powers();
    assert(size(0x3E99_1687) == 0x99_1687 * pow2(124));
    assert(size(0x3F16_45A2) == 0x96_45A2 * pow2(125));
    assert(size(0x3DE9_78D5) == 0xE9_78D5 * pow2(122));
    assert(size(0x3E59_B3D0) == 0xD9_B3D0 * pow2(123));
    assert(size(0x3F37_1759) == 0xB7_1759 * pow2(125));
    assert(size(0x3D93_DD98) == 0x93_DD98 * pow2(122));
    assert(size(0x3E86_809D) == 0x86_809D * pow2(124));
    assert(size(0x3F2D_9168) == 0xAD_9168 * pow2(125));
    assert(size(0x3D72_E48F) == 0xF2_E48F * pow2(121));
}

/// What the coloured filters let through of red, green and blue, in hundredths.
pub proof fn filters_pass_their_colours(filter: ColorFilter)
    ensures
        ({
            let p = filter.passes();
            let (r, g, b): (int, int, int) = match filter {
                ColorFilter::NoFilter => (100, 100, 100),
                ColorFilter::Yellow8K2 => (100, 90, 30),
                ColorFilter::Orange21 => (100, 55, 10),
                ColorFilter::Red25A => (100, 10, 2),
                ColorFilter::Green11X1 => (20, 100, 30),
                ColorFilter::Blue47C5 => (10, 30, 100),
            };
            is_fraction(p[0], r, 100) && is_fraction(p[1], g, 100) && is_fraction(p[2], b, 100)
        }),
{
    powers();
    assert(size(0x3F80_0000) == 0x80_0000 * pow2(126));
    assert(size(0x3F66_6666) == 0xE6_6666 * pow2(125));
    assert(size(0x3E99_999A) == 0x99_999A * pow2(124));
    assert(size(0x3F0C_CCCD) == 0x8C_CCCD * pow2(125));
    assert(size(0x3DCC_CCCD) == 0xCC_CCCD * pow2(122));
    assert(size(0x3CA3_D70A) == 0xA3_D70A * pow2(120));
    assert(size(0x3E4C_CCCD) == 0xCC_CCCD * pow2(123));
}

/// Behind a filter a channel weighs what the filter lets through of its weight, up to
/// rounding.
pub proof fn filters_thin_the_weights<A: Arithmetic>(
    filter: ColorFilter,
    standard: LuminanceStandard,
    i: int,
)
    requires
        rounds::<A>(),
        0 <= i < 3,
    ensures
        ({
            let w = filtered::<A>(filter, standard)[i];
            let (p, c) = (value(filter.passes()[i]), value(standard.coefficients()[i]));
            &&& single::is_finite(w)
            &&& apart(value(w) * unit(), p * c) * 0x20_0000 <= unit() * unit()
        }),
{
    room();
    filters_pass_their_colours(filter);
    luminance_weights_are_the_standards(standard);
    let o = unit();
    let (p, c) = (filter.passes()[i], standard.coefficients()[i]);
    assert(i == 0 || i == 1 || i == 2);
    let (x, y) = (value(p), value(c));
    assert(apart(x, 0) <= 2 * o && apart(y, 0) <= o);
    assert(apart(x * y, 0) <= 2 * (o * o)) by (nonlinear_arith)
        requires
            apart(x, 0) <= 2 * o,
            apart(y, 0) <= o,
    ;
    assert(2 * (o * o) < ceiling() * o) by (nonlinear_arith)
        requires
            2 * o < ceiling(),
            o > 0,
    ;
    times_fine::<A>(p, c);
    assert(apart(x, 0) * 0x100 <= 0x101 * o);
    assert(apart(x * y, 0) * 0x100 <= 0x101 * (o * o)) by (nonlinear_arith)
        requires
            apart(x, 0) * 0x100 <= 0x101 * o,
            apart(y, 0) <= o,
    ;
    assert(0x40_0000 * o * 2 <= o * o) by (nonlinear_arith)
        requires
            o >= 0x80_0000,
    ;
}

/// Exposure multiplies every sample by two to the power of the stops, up to rounding.
pub proof fn exposure_multiplies<A: Arithmetic>(
    r: Raster<u32>,
    stops: u32,
    y: int,
    x: int,
    k: int,
)
    requires
        rounds::<A>(),
        inside(r.shape, y, x, k),
        single::is_finite(r.at(y, x, k)),
        single::is_finite(power_of::<A>(single::TWO, stops)),
        apart(value(r.at(y, x, k)) * value(power_of::<A>(single::TWO, stops)), 0) <= moderate()
            * unit(),
    ensures
        ({
            let out = exposed::<A>(r, stops).at(y, x, k);
            let n = value(r.at(y, x, k)) * value(power_of::<A>(single::TWO, stops));
            &&& single::is_finite(out)
            &&& apart(value(out) * unit(), n) * 0x40_0000 <= apart(n, 0) + 0x40_0000 * unit()
        }),
{
    tabulated(
        r.shape,
        |y: int, x: int, k: int| times_of::<A>(r.at(y, x, k), gain_of::<A>(stops)),
    );
    product::<A>(r.at(y, x, k), power_of::<A>(single::TWO, stops));
}

/// The numbers of the sRGB transfer, in ten-millionths, but for the slope, in hundredths, and
/// the exponent, in twenty-fourths.
pub proof fn transfer_is_that_of_srgb()
    ensures
        is_fraction(THRESHOLD, 31308, 10_000_000),
        apart(value(SLOPE) * 100, 1292 * unit()) * 0x4_0000 <= 100 * unit(),
        is_fraction(GAIN, 1055, 1000),
        is_fraction(LIFT, 55, 1000),
        is_fraction(INVERSE_GAMMA, 10, 24),
        single::is_finite(SLOPE),
{
    powers();
    assert(size(0x3B4D_2E1C) == 0xCD_2E1C * pow2(117)) by {
        lemma_pow2_adds(117, 3);
    }
    lemma2_to64();
    lemma_pow2_adds(117, 3);
    assert(size(0x414E_B852) == 0xCE_B852 * pow2(129));
    assert(size(0x3F87_0A3D) == 0x87_0A3D * pow2(126));
    assert(size(0x3D61_47AE) == 0xE1_47AE * pow2(121));
    assert(size(0x3ED5_5555) == 0xD5_5555 * pow2(124));
}

} // verus!
