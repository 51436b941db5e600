//! Quantisation to integer codes, with optional dither.
//!
//! The dither is not random: it is a hash of the pixel's position, its channel
//! and the seed, so the same seed gives the same codes in any order of work.

use vstd::arithmetic::power2::{
    lemma2_to64, lemma_pow2_adds, lemma_pow2_pos, lemma_pow2_unfold, pow2,
};
use vstd::prelude::*;

use crate::allocation::{codes16, codes8, permitted, refusal};
use crate::amounts::{moderate, room};
use crate::arith::{
    faithful, floor, floor_of, minus, minus_of, of_count, of_count_of, plus, plus_of, times,
    times_of, to_count, to_count_of, Arithmetic,
};
use crate::error::PhaiosError;
use crate::film_grain::{hashed, pixel_hash, FIELD_SCALE};
use crate::raster::{inside, is_tabulated, tabulate, tabulated, Codes16, Codes8, Image, Raster};
use crate::rounding::{
    apart, below_odd_halves, ceiling, closest, closest_is_exact, count_is_closest, exponent,
    floor_is_whole, half, half_is_positive, halves, halves_are_ordered, minus_exact, nan_spreads,
    negated_value, plus_exact, plus_fine, plus_of_infinity, plus_rounds, plus_zero,
    rounded_at_least, rounded_at_most, rounded_is_finite, rounds, short_multiples_are_numbers,
    size, small_numbers, some_halves, step_below, steps_widen_slowly, times_exact, times_fine,
    times_one, times_zero, unit, value, values_are_ordered, whole_count,
};
use crate::single;
use crate::text::{decimal, put_decimal};

verus! {

/// Dither strategy for [`quantize_u8`] and [`quantize_u16`].
#[derive(Clone, Copy, PartialEq, Eq, Structural, Debug)]
pub enum Dither {
    /// Round to nearest.
    Off,
    /// Triangular dither of one code either way, fixed to pixel positions.
    Tpdf,
}

impl Default for Dither {
    fn default() -> (r: Self)
        ensures
            r == Dither::Off,
    {
        Dither::Off
    }
}

/// Parameters for [`quantize_u8`] and [`quantize_u16`].
#[derive(Clone, Copy, Debug)]
pub struct QuantizeParams {
    /// Dither strategy.
    pub dither: Dither,
    /// Seed of the dither pattern, not used when there is none.
    pub seed: u64,
}

impl Default for QuantizeParams {
    fn default() -> (r: Self)
        ensures
            r == (QuantizeParams { dither: Dither::Off, seed: 0 }),
    {
        QuantizeParams { dither: Dither::Off, seed: 0 }
    }
}

/// How a dither strategy prints.
pub open spec fn dither_name(dither: Dither) -> Seq<char> {
    match dither {
        Dither::Off => "Off"@,
        Dither::Tpdf => "Tpdf"@,
    }
}

impl QuantizeParams {
    /// Parameters from strategy and seed.
    pub fn new(dither: Dither, seed: u64) -> (r: Self)
        ensures
            r == (QuantizeParams { dither, seed }),
    {
        QuantizeParams { dither, seed }
    }

    /// Whether both fields match.
    pub fn __eq__(&self, other: &Self) -> (r: bool)
        ensures
            r == (*self == *other),
    {
        self.dither == other.dither && self.seed == other.seed
    }

    /// A debug representation.
    pub fn __repr__(&self) -> (r: String)
        ensures
            r@ == "QuantizeParams(dither=Dither."@ + dither_name(self.dither) + ", seed="@
                + decimal(self.seed as nat) + ")"@,
    {
        let mut out = String::from_str("QuantizeParams(dither=Dither.");
        let name: &str = match self.dither {
            Dither::Off => "Off",
            Dither::Tpdf => "Tpdf",
        };
        out.append(name);
        out.append(", seed=");
        put_decimal(&mut out, self.seed);
        out.append(")");
        out
    }
}

/// A triangular deviate on `[-1, 1]` from 64 hashed bits: two uniform numbers
/// from disjoint fields of 24 bits, centred and added.
pub open spec fn triangular<A: Arithmetic>(bits: u64) -> u32 {
    let u1 = times_of::<A>(of_count_of::<A>(bits >> 40), FIELD_SCALE);
    let u2 = times_of::<A>(of_count_of::<A>((bits >> 16) & 0xFF_FFFF), FIELD_SCALE);
    plus_of::<A>(minus_of::<A>(u1, single::HALF), minus_of::<A>(u2, single::HALF))
}

/// A triangular deviate on `[-1, 1]` from 64 hashed bits.
pub fn triangular_dither<A: Arithmetic>(bits: u64) -> (r: u32)
    requires
        faithful::<A>(),
    ensures
        r == triangular::<A>(bits),
{
    let u1: u32 = times::<A>(of_count::<A>(bits >> 40), FIELD_SCALE);
    let u2: u32 = times::<A>(of_count::<A>((bits >> 16) & 0xFF_FFFF), FIELD_SCALE);
    plus::<A>(minus::<A>(u1, single::HALF), minus::<A>(u2, single::HALF))
}

/// The code of a scaled sample, by `floor(v + 1/2)`. What is not above zero is zero,
/// and so is what is not a number; what reaches the largest code is the largest code.
pub open spec fn nearest_code<A: Arithmetic>(v: u32, max_code: u32) -> u32 {
    let up = floor_of::<A>(plus_of::<A>(v, single::HALF));
    if !single::less(0, v) {
        0
    } else if single::at_most(max_code, v) {
        max_code
    } else if single::less(max_code, up) {
        max_code
    } else {
        up
    }
}

/// A sample scaled to `0..=max_code`, dithered, and rounded to a code.
pub open spec fn quantized_sample<A: Arithmetic>(value: u32, dither: u32, max_code: u32) -> u32 {
    nearest_code::<A>(plus_of::<A>(times_of::<A>(value, max_code), dither), max_code)
}

/// Quantises one sample to a code in `0..=max_code`.
pub fn quantize_sample<A: Arithmetic>(value: u32, dither: u32, max_code: u32) -> (r: u32)
    requires
        faithful::<A>(),
    ensures
        r == quantized_sample::<A>(value, dither, max_code),
{
    let v: u32 = plus::<A>(times::<A>(value, max_code), dither);
    if !single::less(0, v) {
        return 0;
    }
    if single::at_most(max_code, v) {
        return max_code;
    }
    let rounded: u32 = floor::<A>(plus::<A>(v, single::HALF));
    if single::less(max_code, rounded) {
        max_code
    } else {
        rounded
    }
}

/// The dither at a pixel's channel: every channel has a pattern of its own.
pub open spec fn dither_at<A: Arithmetic>(params: QuantizeParams, y: int, x: int, k: int) -> u32 {
    if params.dither == Dither::Tpdf {
        triangular::<A>(
            hashed(
                params.seed ^ (k as u64).wrapping_mul(0x9E37_79B9_7F4A_7C15),
                x as u64,
                y as u64,
            ),
        )
    } else {
        0
    }
}

fn dither_for<A: Arithmetic>(params: &QuantizeParams, y: usize, x: usize, k: usize) -> (r: u32)
    requires
        faithful::<A>(),
    ensures
        r == dither_at::<A>(*params, y as int, x as int, k as int),
{
    if params.dither == Dither::Tpdf {
        triangular_dither::<A>(
            pixel_hash(
                params.seed ^ (k as u64).wrapping_mul(0x9E37_79B9_7F4A_7C15),
                x as u64,
                y as u64,
            ),
        )
    } else {
        0
    }
}

/// The pattern of 255.
pub const MAX_CODE8: u32 = 0x437F_0000;

/// The pattern of 65535.
pub const MAX_CODE16: u32 = 0x477F_FF00;

/// The eight-bit code of a sample.
pub open spec fn code8<A: Arithmetic>(value: u32, dither: u32) -> u8 {
    let n = to_count_of::<A>(quantized_sample::<A>(value, dither, MAX_CODE8));
    if n > 255 {
        255
    } else {
        n as u8
    }
}

/// The sixteen-bit code of a sample.
pub open spec fn code16<A: Arithmetic>(value: u32, dither: u32) -> u16 {
    let n = to_count_of::<A>(quantized_sample::<A>(value, dither, MAX_CODE16));
    if n > 65535 {
        65535
    } else {
        n as u16
    }
}

/// The eight-bit codes of a raster.
pub open spec fn quantized8<A: Arithmetic>(r: Raster<u32>, params: QuantizeParams) -> Raster<u8> {
    tabulate(
        r.shape,
        |y: int, x: int, k: int|
            code8::<A>(r.at(y, x, k), dither_at::<A>(params, y, x, k)),
    )
}

/// The sixteen-bit codes of a raster.
pub open spec fn quantized16<A: Arithmetic>(r: Raster<u32>, params: QuantizeParams) -> Raster<u16> {
    tabulate(
        r.shape,
        |y: int, x: int, k: int|
            code16::<A>(r.at(y, x, k), dither_at::<A>(params, y, x, k)),
    )
}

/// Quantises display-referred samples to eight-bit codes.
pub fn quantize_u8<A: Arithmetic>(img: &Image, params: &QuantizeParams) -> (r: Result<
    Codes8,
    PhaiosError,
>)
    requires
        faithful::<A>(),
    ensures
        match r {
            Ok(codes) => permitted::<u8>(img@.shape) && codes@ == quantized8::<A>(img@, *params),
            Err(e) => refusal::<u8>(img@.shape, e@),
        },
{
    let shape = img.dim();
    let make = |y: usize, x: usize, k: usize| -> (n: u8)
        requires
            faithful::<A>(),
            inside(img@.shape, y as int, x as int, k as int),
        ensures
            n == code8::<A>(
                img@.at(y as int, x as int, k as int),
                dither_at::<A>(*params, y as int, x as int, k as int),
            ),
        {
            let d: u32 = dither_for::<A>(params, y, x, k);
            let n: u64 = to_count::<A>(quantize_sample::<A>(img.cell(y, x, k), d, MAX_CODE8));
            if n > 255 {
                255
            } else {
                n as u8
            }
        };
    let r = codes8(shape, make);
    if let Ok(codes) = &r {
        proof {
            is_tabulated(
                codes@,
                |y: int, x: int, k: int|
                    code8::<A>(img@.at(y, x, k), dither_at::<A>(*params, y, x, k)),
            );
        }
    }
    r
}

/// Quantises display-referred samples to sixteen-bit codes.
pub fn quantize_u16<A: Arithmetic>(img: &Image, params: &QuantizeParams) -> (r: Result<
    Codes16,
    PhaiosError,
>)
    requires
        faithful::<A>(),
    ensures
        match r {
            Ok(codes) => permitted::<u16>(img@.shape) && codes@ == quantized16::<A>(img@, *params),
            Err(e) => refusal::<u16>(img@.shape, e@),
        },
{
    let shape = img.dim();
    let make = |y: usize, x: usize, k: usize| -> (n: u16)
        requires
            faithful::<A>(),
            inside(img@.shape, y as int, x as int, k as int),
        ensures
            n == code16::<A>(
                img@.at(y as int, x as int, k as int),
                dither_at::<A>(*params, y as int, x as int, k as int),
            ),
        {
            let d: u32 = dither_for::<A>(params, y, x, k);
            let n: u64 = to_count::<A>(quantize_sample::<A>(img.cell(y, x, k), d, MAX_CODE16));
            if n > 65535 {
                65535
            } else {
                n as u16
            }
        };
    let r = codes16(shape, make);
    if let Ok(codes) = &r {
        proof {
            is_tabulated(
                codes@,
                |y: int, x: int, k: int|
                    code16::<A>(img@.at(y, x, k), dither_at::<A>(*params, y, x, k)),
            );
        }
    }
    r
}

/// Without dither the seed does not matter.
pub proof fn undithered_ignores_seed<A: Arithmetic>(
    r: Raster<u32>,
    a: QuantizeParams,
    b: QuantizeParams,
)
    requires
        a.dither == Dither::Off,
        b.dither == Dither::Off,
    ensures
        quantized8::<A>(r, a) == quantized8::<A>(r, b),
        quantized16::<A>(r, a) == quantized16::<A>(r, b),
{
    assert(quantized8::<A>(r, a).cells =~= quantized8::<A>(r, b).cells);
    assert(quantized16::<A>(r, a).cells =~= quantized16::<A>(r, b).cells);
}

/// Without dither black is code zero, white is the largest code, and what is not a
/// number is code zero.
pub proof fn ends_hit_end_codes<A: Arithmetic>(x: u32, max_code: u32)
    requires
        rounds::<A>(),
        single::is_finite(max_code),
        single::less(0, max_code),
    ensures
        single::same(x, 0) ==> quantized_sample::<A>(x, 0, max_code) == 0,
        x == single::ONE ==> quantized_sample::<A>(x, 0, max_code) == max_code,
        single::is_nan(x) ==> quantized_sample::<A>(x, 0, max_code) == 0,
{
    small_numbers();
    let product = times_of::<A>(x, max_code);
    let v = plus_of::<A>(product, 0);
    values_are_ordered(0, max_code);
    if single::is_nan(x) {
        nan_spreads::<A>(x, max_code);
        nan_spreads::<A>(product, 0);
    } else if single::same(x, 0) {
        times_zero::<A>(max_code, x);
        plus_zero::<A>(product, 0);
        values_are_ordered(0, v);
    } else if x == single::ONE {
        times_one::<A>(max_code);
        plus_zero::<A>(product, 0);
        values_are_ordered(max_code, v);
        values_are_ordered(0, v);
    }
}

/// Where code `m` ends and the next one begins: at `m + 1/2`.
pub open spec fn upper_edge(m: int) -> int {
    (2 * m + 1) * half()
}

/// Whether `n` is the code of a scaled sample when the largest code is `top`: from
/// code 1 on the codes change at the halves between them.
pub open spec fn is_code(n: int, v: u32, top: int) -> bool {
    &&& 0 <= n <= top
    &&& single::is_nan(v) ==> n == 0
    &&& single::is_infinite(v) ==> n == (if single::less(0, v) {
        top
    } else {
        0
    })
    &&& single::is_finite(v) ==> {
        &&& n >= 1 ==> value(v) > 0
        &&& value(v) >= upper_edge(0) ==> n >= 1
        &&& forall|m: int|
            1 <= m < top ==> (value(v) >= #[trigger] upper_edge(m) <==> n >= m + 1)
    }
}

/// From code 1 on, `floor(v + 1/2)` passes the next code exactly from its edge on.
proof fn edge_is_exact<A: Arithmetic>(v: u32, m: int)
    requires
        rounds::<A>(),
        single::is_finite(v),
        1 <= m < 0x20_0000,
        closest(plus_of::<A>(v, single::HALF), value(v) + half(), 1),
    ensures
        value(v) >= upper_edge(m) <==> value(plus_of::<A>(v, single::HALF)) / (2 * half()) >= m + 1,
{
    small_numbers();
    half_is_positive();
    let h = half();
    let s = plus_of::<A>(v, single::HALF);
    plus_rounds::<A>(v, single::HALF);
    assert((2 * m + 1) * h + h == (2 * m + 2) * h) by (nonlinear_arith);
    if value(v) >= upper_edge(m) {
        let c = some_halves(2 * m + 2);
        rounded_at_least(s, value(v) + h, 1, c);
        values_are_ordered(c, s);
    } else {
        let (c, above) = below_odd_halves(2 * m + 1);
        assert(value(v) <= value(c));
        assert((2 * m + 1 + 1) * h == (2 * m + 2) * h);
        rounded_at_most(s, value(v) + h, 1, above);
        values_are_ordered(s, above);
    }
    let w = value(s);
    assert(w >= (2 * m + 2) * h <==> w / (2 * h) >= m + 1) by (nonlinear_arith)
        requires
            h > 0,
    ;
}

/// Every scaled sample has a code.
proof fn code_exists<A: Arithmetic>(v: u32, max_code: u32, top: int) -> (n: int)
    requires
        rounds::<A>(),
        halves(max_code, 2 * top),
        1 <= top < 0x20_0000,
    ensures
        is_code(n, v, top),
        halves(nearest_code::<A>(v, max_code), 2 * n),
{
    small_numbers();
    half_is_positive();
    let h = half();
    assert(forall|m: int| 0 <= m ==> #[trigger] upper_edge(m) > 0) by {
        assert forall|m: int| 0 <= m implies #[trigger] upper_edge(m) > 0 by {
            assert((2 * m + 1) * h > 0) by (nonlinear_arith)
                requires
                    m >= 0,
                    h > 0,
            ;
        }
    }
    halves_are_ordered(0, 0, max_code, 2 * top);
    if !single::less(0, v) {
        if single::is_finite(v) {
            values_are_ordered(0, v);
        }
        0
    } else if single::at_most(max_code, v) {
        if single::is_finite(v) {
            values_are_ordered(0, v);
            values_are_ordered(max_code, v);
            assert forall|m: int| 1 <= m < top implies value(v) >= #[trigger] upper_edge(m) by {
                assert((2 * m + 1) * h <= (2 * top) * h) by (nonlinear_arith)
                    requires
                        m < top,
                        h > 0,
                ;
            }
        }
        top
    } else {
        values_are_ordered(0, v);
        values_are_ordered(max_code, v);
        let s = plus_of::<A>(v, single::HALF);
        plus_rounds::<A>(v, single::HALF);
        let high = some_halves(2 * top + 1);
        assert((2 * top) * h + h == (2 * top + 1) * h) by (nonlinear_arith);
        rounded_is_finite(s, value(v) + h, 1, 0, high);
        let n = value(s) / (2 * h);
        assert(n >= 0) by (nonlinear_arith)
            requires
                n == value(s) / (2 * h),
                value(s) >= 0,
                h > 0,
        ;
        assert forall|m: int| 1 <= m < top implies (value(v) >= #[trigger] upper_edge(m) <==> n >= m
            + 1) by {
            edge_is_exact::<A>(v, m);
        }
        edge_is_exact::<A>(v, top);
        assert((2 * top) * h < (2 * top + 1) * h) by (nonlinear_arith)
            requires
                h > 0,
        ;
        assert(n <= top);
        if value(v) >= upper_edge(0) {
            assert((2 * 0 + 1) * h == h) by (nonlinear_arith);
            rounded_at_least(s, value(v) + h, 1, single::ONE);
            values_are_ordered(single::ONE, s);
            assert(n >= 1) by (nonlinear_arith)
                requires
                    n == value(s) / (2 * h),
                    value(s) >= 2 * h,
                    h > 0,
            ;
        }
        floor_is_whole::<A>(s);
        assert(n * (2 * h) == (2 * n) * h) by (nonlinear_arith);
        halves_are_ordered(max_code, 2 * top, floor_of::<A>(s), 2 * n);
        n
    }
}

/// A triangular deviate is a whole number of steps of 2 to the power -24, at least
/// -1 and below 1: the sum of two fields of 24 bits, less one.
pub proof fn dither_is_bounded<A: Arithmetic>(bits: u64)
    requires
        rounds::<A>(),
    ensures
        single::is_finite(triangular::<A>(bits)),
        -(2 * half()) <= value(triangular::<A>(bits)) <= 2 * half() - pow2(126),
        value(triangular::<A>(bits)) % pow2(125) as int == 0,
        value(triangular::<A>(bits)) == ((bits >> 40) + ((bits >> 16) & 0xFF_FFFF) - 0x100_0000)
            * pow2(125),
{
    let m = (bits >> 40) as int;
    let n = ((bits >> 16) & 0xFF_FFFF) as int;
    assert(bits >> 40 <= 0xFF_FFFF) by (bit_vector);
    assert((bits >> 16) & 0xFF_FFFF <= 0xFF_FFFF) by (bit_vector);
    small_numbers();
    half_is_positive();
    lemma2_to64();
    lemma_pow2_adds(23, 125);
    lemma_pow2_unfold(126);
    lemma_pow2_pos(125);
    let p = pow2(125) as int;
    centred_field::<A>(bits >> 40);
    centred_field::<A>((bits >> 16) & 0xFF_FFFF);
    let u1 = minus_of::<A>(times_of::<A>(of_count_of::<A>(bits >> 40), FIELD_SCALE), single::HALF);
    let u2 = minus_of::<A>(
        times_of::<A>(of_count_of::<A>((bits >> 16) & 0xFF_FFFF), FIELD_SCALE),
        single::HALF,
    );
    let k = m + n - 0x100_0000;
    assert((m - 0x80_0000) * p + (n - 0x80_0000) * p == k * p) by (nonlinear_arith)
        requires
            k == m + n - 0x100_0000,
    ;
    assert(half() == 0x80_0000 * p);
    let c = if k == -0x100_0000 {
        negated_value(single::ONE);
        assert(value(single::negated(single::ONE)) == k * p) by (nonlinear_arith)
            requires
                value(single::negated(single::ONE)) == -2 * half(),
                half() == 0x80_0000 * p,
                k == -0x100_0000,
        ;
        single::negated(single::ONE)
    } else {
        let w = short_multiples_are_numbers(k, 125);
        assert(value(w) == k * p);
        w
    };
    assert(value(u1) == (m - 0x80_0000) * p);
    assert(value(u2) == (n - 0x80_0000) * p);
    plus_exact::<A>(u1, u2, c);
    assert(value(triangular::<A>(bits)) == k * p);
    assert(-0x100_0000 * p <= k * p <= 0xFF_FFFE * p) by (nonlinear_arith)
        requires
            -0x100_0000 <= k <= 0xFF_FFFE,
            p > 0,
    ;
    assert((k * p) % p == 0) by (nonlinear_arith)
        requires
            p > 0,
    ;
}

/// A field of 24 bits, scaled to `0..1` and centred, is exact.
proof fn centred_field<A: Arithmetic>(field: u64)
    requires
        rounds::<A>(),
        field <= 0xFF_FFFF,
    ensures
        ({
            let u = minus_of::<A>(times_of::<A>(of_count_of::<A>(field), FIELD_SCALE), single::HALF);
            single::is_finite(u) && value(u) == (field - 0x80_0000) * pow2(125)
        }),
{
    small_numbers();
    lemma2_to64();
    lemma_pow2_adds(23, 125);
    lemma_pow2_unfold(149);
    lemma_pow2_adds(23, 102);
    let (p, h) = (pow2(125) as int, half());
    assert(value(FIELD_SCALE) == p) by {
        assert(size(0x3380_0000) == 0x80_0000 * pow2(102));
    }
    let n = of_count_of::<A>(field);
    let c = short_multiples_are_numbers(field as int, 149);
    count_is_closest::<A>(field);
    closest_is_exact(n, field * (2 * h), 1, c);
    let u = times_of::<A>(n, FIELD_SCALE);
    let w = short_multiples_are_numbers(field as int, 125);
    assert((field * p) * (2 * h) == (field * (2 * h)) * p) by (nonlinear_arith);
    times_exact::<A>(n, FIELD_SCALE, w);
    let z = short_multiples_are_numbers(field - 0x80_0000, 125);
    assert((field - 0x80_0000) * p == field * p - 0x80_0000 * p) by (nonlinear_arith);
    minus_exact::<A>(u, single::HALF, z);
}

/// Dither moves the code of a scaled sample by one at most.
proof fn dither_moves_a_code_by_at_most_one<A: Arithmetic>(x: u32, d: u32, max_code: u32, top: int)
    requires
        rounds::<A>(),
        halves(max_code, 2 * top),
        1 <= top < 0x10_0000,
        single::is_finite(d),
        -(2 * half()) <= value(d) <= 2 * half() - pow2(126),
    ensures
        exists|m: int, n: int|
            0 <= m <= top && 0 <= n <= top && -1 <= m - n <= 1 && #[trigger] halves(
                nearest_code::<A>(plus_of::<A>(x, d), max_code),
                2 * m,
            ) && #[trigger] halves(nearest_code::<A>(plus_of::<A>(x, 0), max_code), 2 * n),
{
    let y = plus_of::<A>(x, d);
    let v = plus_of::<A>(x, 0);
    let m = code_exists::<A>(y, max_code, top);
    let n = code_exists::<A>(v, max_code, top);
    small_numbers();
    half_is_positive();
    lemma_pow2_pos(126);
    let h = half();
    assert(halves(nearest_code::<A>(y, max_code), 2 * m));
    assert(halves(nearest_code::<A>(v, max_code), 2 * n));
    if single::is_nan(x) {
        nan_spreads::<A>(x, d);
        nan_spreads::<A>(x, 0);
    } else if single::is_infinite(x) {
        plus_of_infinity::<A>(d, x);
        plus_of_infinity::<A>(0, x);
    } else {
        plus_zero::<A>(x, 0);
        plus_rounds::<A>(x, d);
        let z = value(x) + value(d);
        if value(x) >= (2 * top + 2) * h {
            assert((2 * top + 2) * h - 2 * h == (2 * top) * h) by (nonlinear_arith);
            rounded_at_least(y, z, 1, max_code);
            code_at_the_top(m, y, max_code, top);
            values_are_ordered(max_code, v);
            code_at_the_top(n, v, max_code, top);
        } else if value(x) <= -2 * h {
            rounded_at_most(y, z, 1, 0);
            values_are_ordered(v, 0);
            if single::is_finite(y) {
                values_are_ordered(y, 0);
            }
        } else {
            let low = some_halves(-4);
            let high = some_halves(2 * top + 4);
            assert((2 * top + 2) * h + 2 * h == (2 * top + 4) * h) by (nonlinear_arith);
            rounded_is_finite(y, z, 1, low, high);
            if m >= n + 2 {
                dither_lifts_by_at_most_one(x, d, y, n);
                assert(value(y) < upper_edge(n + 1));
                assert(false);
            }
            if n >= m + 2 {
                let edge = upper_edge(m + 1);
                assert(value(v) >= edge);
                let c = some_halves(2 * m + 1);
                assert((2 * (m + 1) + 1) * h - 2 * h == (2 * m + 1) * h) by (nonlinear_arith);
                rounded_at_least(y, z, 1, c);
                values_are_ordered(c, y);
                assert(value(y) >= upper_edge(m));
                assert(false);
            }
        }
    }
}

/// A sample that reaches the largest code has it.
proof fn code_at_the_top(n: int, v: u32, max_code: u32, top: int)
    requires
        is_code(n, v, top),
        halves(max_code, 2 * top),
        single::at_most(max_code, v),
        1 <= top < 0x20_0000,
    ensures
        n == top,
{
    small_numbers();
    half_is_positive();
    let h = half();
    halves_are_ordered(0, 0, max_code, 2 * top);
    if single::is_finite(v) {
        values_are_ordered(max_code, v);
        assert((2 * (top - 1) + 1) * h <= (2 * top) * h) by (nonlinear_arith)
            requires
                h > 0,
        ;
        assert(value(v) >= upper_edge(top - 1));
    }
}

/// Dither does not lift a sample below one edge to the edge after the next.
proof fn dither_lifts_by_at_most_one(x: u32, d: u32, y: u32, n: int)
    requires
        single::is_finite(x),
        value(d) <= 2 * half() - pow2(126),
        closest(y, value(x) + value(d), 1),
        0 <= n < 0x10_0000,
        value(x) < upper_edge(n),
    ensures
        value(y) < upper_edge(n + 1),
{
    half_is_positive();
    lemma_pow2_pos(126);
    let h = half();
    let z = value(x) + value(d);
    let edge = upper_edge(n + 1);
    assert((2 * n + 1) * h + 2 * h == (2 * (n + 1) + 1) * h) by (nonlinear_arith);
    let (c, _) = below_odd_halves(2 * n + 3);
    assert(2 * (n + 1) + 1 == 2 * n + 3);
    let wide = step_below(2 * n + 3);
    assert(value(c) == edge - wide);
    if n == 0 {
        assert(exponent(3) == 1) by {
            reveal_with_fuel(exponent, 3);
        }
        assert(wide == pow2(126));
    } else {
        let narrow = step_below(2 * n + 1);
        steps_widen_slowly(2 * n + 1);
        let (b, _) = below_odd_halves(2 * n + 1);
        assert(value(x) <= value(b));
        assert(z <= edge - narrow - pow2(126));
    }
    assert(apart(value(y) * 1, z) <= apart(value(c) * 1, z));
}

/// The largest codes as numbers.
proof fn largest_codes()
    ensures
        halves(MAX_CODE8, 510),
        halves(MAX_CODE16, 131070),
{
    lemma2_to64();
    lemma_pow2_adds(16, 133);
    lemma_pow2_adds(8, 141);
    lemma_pow2_unfold(149);
    assert(size(0x437F_0000) == 0xFF_0000 * pow2(133));
    assert(size(0x477F_FF00) == 0xFF_FF00 * pow2(141));
}

/// Dither moves the codes of a sample by one at most.
proof fn codes_stay_close<A: Arithmetic>(s: u32, d: u32)
    requires
        rounds::<A>(),
        single::is_finite(d),
        -(2 * half()) <= value(d) <= 2 * half() - pow2(126),
    ensures
        -1 <= code8::<A>(s, d) - code8::<A>(s, 0) <= 1,
        -1 <= code16::<A>(s, d) - code16::<A>(s, 0) <= 1,
{
    largest_codes();
    let x8 = times_of::<A>(s, MAX_CODE8);
    dither_moves_a_code_by_at_most_one::<A>(x8, d, MAX_CODE8, 255);
    let (m, n) = choose|m: int, n: int|
        0 <= m <= 255 && 0 <= n <= 255 && -1 <= m - n <= 1 && #[trigger] halves(
            nearest_code::<A>(plus_of::<A>(x8, d), MAX_CODE8),
            2 * m,
        ) && #[trigger] halves(nearest_code::<A>(plus_of::<A>(x8, 0), MAX_CODE8), 2 * n);
    whole_count::<A>(quantized_sample::<A>(s, d, MAX_CODE8), m as u64);
    whole_count::<A>(quantized_sample::<A>(s, 0, MAX_CODE8), n as u64);
    let x16 = times_of::<A>(s, MAX_CODE16);
    dither_moves_a_code_by_at_most_one::<A>(x16, d, MAX_CODE16, 65535);
    let (m, n) = choose|m: int, n: int|
        0 <= m <= 65535 && 0 <= n <= 65535 && -1 <= m - n <= 1 && #[trigger] halves(
            nearest_code::<A>(plus_of::<A>(x16, d), MAX_CODE16),
            2 * m,
        ) && #[trigger] halves(nearest_code::<A>(plus_of::<A>(x16, 0), MAX_CODE16), 2 * n);
    whole_count::<A>(quantized_sample::<A>(s, d, MAX_CODE16), m as u64);
    whole_count::<A>(quantized_sample::<A>(s, 0, MAX_CODE16), n as u64);
}

/// Dither moves codes by one at most: it perturbs and does not distort.
pub proof fn dither_moves_codes_by_at_most_one<A: Arithmetic>(
    r: Raster<u32>,
    dithered: QuantizeParams,
    plain: QuantizeParams,
    y: int,
    x: int,
    k: int,
)
    requires
        rounds::<A>(),
        dithered.dither == Dither::Tpdf,
        plain.dither == Dither::Off,
        inside(r.shape, y, x, k),
    ensures
        -1 <= quantized8::<A>(r, dithered).at(y, x, k) - quantized8::<A>(r, plain).at(y, x, k) <= 1,
        -1 <= quantized16::<A>(r, dithered).at(y, x, k) - quantized16::<A>(r, plain).at(y, x, k)
            <= 1,
{
    let s = r.at(y, x, k);
    let d = dither_at::<A>(dithered, y, x, k);
    dither_is_bounded::<A>(
        hashed(
            dithered.seed ^ (k as u64).wrapping_mul(0x9E37_79B9_7F4A_7C15),
            x as u64,
            y as u64,
        ),
    );
    codes_stay_close::<A>(s, d);
    let coarse = |p: QuantizeParams|
        |y: int, x: int, k: int| code8::<A>(r.at(y, x, k), dither_at::<A>(p, y, x, k));
    let fine = |p: QuantizeParams|
        |y: int, x: int, k: int| code16::<A>(r.at(y, x, k), dither_at::<A>(p, y, x, k));
    tabulated(r.shape, coarse(dithered));
    tabulated(r.shape, coarse(plain));
    tabulated(r.shape, fine(dithered));
    tabulated(r.shape, fine(plain));
}

/// A number held between zero and a top.
pub open spec fn held(n: int, top: int) -> int {
    if n < 0 {
        0
    } else if n > top {
        top
    } else {
        n
    }
}

/// The code of a scaled sample is the nearest one.
proof fn nearest_is_near<A: Arithmetic>(v: u32, max_code: u32, top: int) -> (n: int)
    requires
        rounds::<A>(),
        halves(max_code, 2 * top),
        1 <= top < 0x20_0000,
        single::is_finite(v),
    ensures
        0 <= n <= top,
        halves(nearest_code::<A>(v, max_code), 2 * n),
        apart(n * unit(), held(value(v), top * unit())) <= half() + pow2(125),
{
    small_numbers();
    half_is_positive();
    lemma_pow2_pos(125);
    lemma2_to64();
    lemma_pow2_adds(24, 125);
    let (h, o, x) = (half(), unit(), value(v));
    let n = code_exists::<A>(v, max_code, top);
    assert((2 * top) * h == top * o && (2 * n) * h == n * o) by (nonlinear_arith)
        requires
            o == 2 * h,
    ;
    values_are_ordered(max_code, v);
    values_are_ordered(0, v);
    assert(top * o > 0) by (nonlinear_arith)
        requires
            top >= 1,
            o > 0,
    ;
    if x >= top * o {
        code_at_the_top(n, v, max_code, top);
    } else if x <= 0 {
        assert(n == 0);
    } else {
        assert(x < upper_edge(n)) by {
            assert((2 * n + 1) * h == (2 * n) * h + h) by (nonlinear_arith);
            if n == top {
            } else if n >= 1 {
                assert(!(n >= n + 1));
            }
        }
        assert((2 * n + 1) * h == (2 * n) * h + h) by (nonlinear_arith);
        if n >= 2 {
            assert(x >= upper_edge(n - 1));
            assert((2 * (n - 1) + 1) * h == (2 * n) * h - h) by (nonlinear_arith);
        } else if n == 1 {
            if x <= h - pow2(125) {
                let c: u32 = 0x3F7F_FFFF;
                assert(value(c) == 0xFF_FFFF * pow2(125)) by {
                    assert(size(0x3F7F_FFFF) == 0xFF_FFFF * pow2(125));
                }
                let s = plus_of::<A>(v, single::HALF);
                plus_rounds::<A>(v, single::HALF);
                lemma_pow2_adds(1, 148);
                rounded_at_most(s, x + h, 1, c);
                rounded_at_least(s, x + h, 1, 0);
                rounded_is_finite(s, x + h, 1, 0, c);
                values_are_ordered(s, c);
                values_are_ordered(0, s);
                floor_is_whole::<A>(s);
                assert(value(s) / (2 * h) == 0) by (nonlinear_arith)
                    requires
                        0 <= value(s) < 2 * h,
                ;
                let up = floor_of::<A>(s);
                values_are_ordered(max_code, up);
                assert(false);
            }
        }
    }
    n
}

/// Whether a code is the nearest to a sample scaled to codes up to `top`, moved by dither and
/// held in range: it is off by half a code at most, but for rounding.
pub open spec fn is_nearest(n: int, sample: int, dither: int, top: int) -> bool {
    apart(n * unit(), held(sample * top + dither, top * unit())) * 0x40_0000 <= 0x40_0000 * half()
        + 8 * (top * (apart(sample, 0) + unit()))
}

proof fn sample_is_near<A: Arithmetic>(s: u32, d: u32, max_code: u32, top: int) -> (n: int)
    requires
        rounds::<A>(),
        halves(max_code, 2 * top),
        1 <= top < 0x20_0000,
        single::is_finite(s),
        single::is_finite(d),
        apart(value(d), 0) <= unit(),
        0x100_0000 * apart(value(s), 0) <= moderate(),
    ensures
        0 <= n <= top,
        halves(quantized_sample::<A>(s, d, max_code), 2 * n),
        is_nearest(n, value(s), value(d), top),
{
    room();
    half_is_positive();
    let (o, x, h) = (unit(), value(s), half());
    assert(value(max_code) == top * o) by {
        assert((2 * top) * h == top * o) by (nonlinear_arith)
            requires
                o == 2 * h,
        ;
    }
    let e = x * top;
    let size = apart(x, 0) * top;
    assert(apart(e, 0) == size && size * 8 <= moderate()) by (nonlinear_arith)
        requires
            e == x * top,
            size == apart(x, 0) * top,
            1 <= top < 0x20_0000,
            0x100_0000 * apart(x, 0) <= moderate(),
    ;
    assert(x * value(max_code) == e * o) by (nonlinear_arith)
        requires
            value(max_code) == top * o,
            e == x * top,
    ;
    assert(apart(e * o, 0) == size * o && size * o <= moderate() * o) by (nonlinear_arith)
        requires
            apart(e, 0) == size,
            size * 8 <= moderate(),
            size >= 0,
            o > 0,
    ;
    assert(moderate() * o < ceiling() * o) by (nonlinear_arith)
        requires
            moderate() < ceiling(),
            o > 0,
    ;
    times_fine::<A>(s, max_code);
    let scaled = times_of::<A>(s, max_code);
    let q = value(scaled);
    assert(apart(q, e) * 0x40_0000 <= size + 0x40_0000) by (nonlinear_arith)
        requires
            apart(q * o, e * o) * 0x40_0000 <= size * o + 0x40_0000 * o,
            o > 0,
    ;
    plus_fine::<A>(scaled, d);
    let v = plus_of::<A>(scaled, d);
    let n = nearest_is_near::<A>(v, max_code, top);
    let far = top * (apart(x, 0) + o);
    assert(far == size + top * o && top * o >= o) by (nonlinear_arith)
        requires
            far == top * (apart(x, 0) + o),
            size == apart(x, 0) * top,
            top >= 1,
            o > 0,
    ;
    assert(0x40_0000 * pow2(125) * 2 <= o) by {
        lemma2_to64();
        lemma_pow2_adds(24, 125);
        lemma_pow2_adds(1, 148);
    }
    let near = value(v);
    assert(apart(near, e + value(d)) * 0x40_0000 <= 4 * far);
    assert(apart(held(near, top * o), held(e + value(d), top * o)) <= apart(near, e + value(d)));
    n
}

/// A code is the nearest to its sample: `255` or `65535` times the sample and the dither
/// together, held in range, are half a code away at most, but for rounding.
pub proof fn codes_are_nearest<A: Arithmetic>(
    r: Raster<u32>,
    params: QuantizeParams,
    y: int,
    x: int,
    k: int,
)
    requires
        rounds::<A>(),
        inside(r.shape, y, x, k),
        single::is_finite(r.at(y, x, k)),
        0x100_0000 * apart(value(r.at(y, x, k)), 0) <= moderate(),
    ensures
        ({
            let (s, d) = (value(r.at(y, x, k)), value(dither_at::<A>(params, y, x, k)));
            &&& is_nearest(quantized8::<A>(r, params).at(y, x, k) as int, s, d, 255)
            &&& is_nearest(quantized16::<A>(r, params).at(y, x, k) as int, s, d, 65535)
        }),
{
    small_numbers();
    half_is_positive();
    largest_codes();
    lemma_pow2_pos(126);
    let d = dither_at::<A>(params, y, x, k);
    if params.dither == Dither::Tpdf {
        dither_is_bounded::<A>(
            hashed(
                params.seed ^ (k as u64).wrapping_mul(0x9E37_79B9_7F4A_7C15),
                x as u64,
                y as u64,
            ),
        );
    }
    let s = r.at(y, x, k);
    tabulated(
        r.shape,
        |y: int, x: int, k: int| code8::<A>(r.at(y, x, k), dither_at::<A>(params, y, x, k)),
    );
    tabulated(
        r.shape,
        |y: int, x: int, k: int| code16::<A>(r.at(y, x, k), dither_at::<A>(params, y, x, k)),
    );
    let m = sample_is_near::<A>(s, d, MAX_CODE8, 255);
    whole_count::<A>(quantized_sample::<A>(s, d, MAX_CODE8), m as u64);
    let n = sample_is_near::<A>(s, d, MAX_CODE16, 65535);
    whole_count::<A>(quantized_sample::<A>(s, d, MAX_CODE16), n as u64);
}

} // verus!
