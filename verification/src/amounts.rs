//! What amounts do: how far sharpening, glow, local contrast and denoising move a sample.
//!
//! Each adds to a sample the amount times something: the detail over a smoothed image, or
//! light that scatters. These laws say so of the numbers themselves, up to rounding.

use vstd::arithmetic::power2::{
    lemma2_to64, lemma2_to64_rest, lemma_pow2_adds, lemma_pow2_pos, lemma_pow2_strictly_increases, pow2,
};
use vstd::prelude::*;

use crate::arith::{minus_of, over_of, plus_of, times_of, widen_of, Arithmetic};
use crate::blur::{blur_keeps_the_shape, blurred, BOX_CROSSOVER_SIGMA, THREE};
use crate::bw::weighted;
use crate::denoise::{
    combined, cross_models, denoised, denoised_channel, row_sums, self_models, smoothed_at,
    DenoiseParams,
};
use crate::evenness::{
    bells_ring, is_even, is_flat, means_keep_a_constant_image, taps_keep_a_constant_image,
};
use crate::glow::{emitted, glow_fault, glowing, scattered, GlowParams};
use crate::integral::Measure;
use crate::local_contrast::{contrasted, guided, GuidedFilterParams};
use crate::raster::{channel_of, inside, tabulated, tabulated2, within, Raster};
use crate::rounding::{
    apart, ceiling, computes_exactly, computes_finely, double_of, grain, grains, half_is_positive,
    minus_fine, minus_halves, minus_rounds, negated_value, numbers_are_in_range, one_is_one,
    one_value, over_fine, plus_fine, plus_ordered, plus_rounds, rounded_at_least, rounded_at_most,
    rounded_order, rounds, small_numbers, sums_exactly, times_close, times_fine, times_one,
    times_ordered_first, times_rounds, unit, value, values_are_ordered,
};
use crate::sharpen::{
    crisper, gate, gate_is_open_past_the_ramp, idle, sharpen_fault, sharpened, SharpenParams,
    SOFT_KNEE_SPAN,
};
use crate::single;

verus! {

/// A size that leaves room for sums and products: `2^123`.
pub open spec fn moderate() -> int {
    pow2(272) as int
}

/// Whether a number is `v + a * n` up to rounding, where `a` is in units of one: off by a
/// `2^22`th of `v`, by a `2^19`th of what is added, and by a few of the least numbers.
pub open spec fn is_moved(out: int, v: int, a: int, n: int) -> bool {
    apart(out * unit(), v * unit() + a * n) * 0x40_0000 <= apart(v, 0) * unit() + 8 * apart(a * n, 0)
        + 0x100_0000 * (apart(a, 0) + unit())
}

/// Room above what is moderate.
pub proof fn room()
    ensures
        16 * moderate() == ceiling(),
        moderate() >= 0x1_0000_0000,
        unit() >= 0x1_0000_0000,
        0x1_0000_0000 * unit() <= ceiling(),
{
    lemma2_to64();
    lemma2_to64_rest();
    lemma_pow2_adds(32, 149);
    lemma_pow2_strictly_increases(181, 276);
    lemma_pow2_adds(23, 253);
    lemma_pow2_adds(4, 272);
    lemma_pow2_adds(1, 148);
    lemma_pow2_strictly_increases(32, 272);
    lemma_pow2_strictly_increases(32, 149);
}

/// A number plus a product is off by a small part of both.
proof fn sum_with_product<A: Arithmetic>(v: u32, a: u32, d: u32)
    requires
        rounds::<A>(),
        single::is_finite(v),
        single::is_finite(a),
        single::is_finite(d),
        apart(value(v), 0) <= moderate(),
        apart(value(a) * value(d), 0) <= (2 * moderate()) * unit(),
    ensures
        ({
            let out = plus_of::<A>(v, times_of::<A>(a, d));
            &&& single::is_finite(out)
            &&& apart(value(out) * unit(), value(v) * unit() + value(a) * value(d)) * 0x40_0000
                <= apart(value(v), 0) * unit() + 3 * apart(value(a) * value(d), 0) + 0x80_0001
                * unit()
        }),
{
    room();
    let (o, k, m) = (unit(), 0x40_0000int, moderate());
    let n = value(a) * value(d);
    assert((2 * m) * o < ceiling() * o) by (nonlinear_arith)
        requires
            2 * m < ceiling(),
            o > 0,
    ;
    times_fine::<A>(a, d);
    let p = value(times_of::<A>(a, d));
    let w = apart(n, 0);
    assert(apart(p, 0) * o <= 2 * w + o) by (nonlinear_arith)
        requires
            apart(p * o, n) * 0x40_0000 <= w + 0x40_0000 * o,
            w == apart(n, 0),
            o > 0,
    ;
    assert(apart(p, 0) <= 5 * m) by (nonlinear_arith)
        requires
            apart(p, 0) * o <= 2 * w + o,
            w <= (2 * m) * o,
            m >= 1,
            o > 0,
    ;
    plus_fine::<A>(v, times_of::<A>(a, d));
    let (s, x) = (value(plus_of::<A>(v, times_of::<A>(a, d))), value(v));
    let e = s - (x + p);
    assert(-(apart(x, 0) * o + apart(p, 0) * o + k * o) <= (e * o) * k <= apart(x, 0) * o + apart(
        p,
        0,
    ) * o + k * o) by (nonlinear_arith)
        requires
            -(apart(x, 0) + apart(p, 0) + k) <= e * k <= apart(x, 0) + apart(p, 0) + k,
            o > 0,
    ;
    assert(s * o == e * o + x * o + p * o) by (nonlinear_arith)
        requires
            e == s - (x + p),
    ;
}

/// A sample plus an amount of its detail is off by a small part of both.
proof fn sample_with_detail<A: Arithmetic>(v: u32, q: u32, a: u32)
    requires
        rounds::<A>(),
        single::is_finite(v),
        single::is_finite(q),
        single::is_finite(a),
        apart(value(v), 0) <= moderate(),
        apart(value(v), value(q)) <= moderate(),
        apart(value(a), 0) <= moderate(),
        apart(value(a) * (value(v) - value(q)), 0) <= (moderate() / 2) * unit(),
    ensures
        ({
            let out = plus_of::<A>(v, times_of::<A>(a, minus_of::<A>(v, q)));
            &&& single::is_finite(out)
            &&& is_moved(value(out), value(v), value(a), value(v) - value(q))
        }),
{
    room();
    let (o, m) = (unit(), moderate());
    let d = minus_of::<A>(v, q);
    minus_fine::<A>(v, q);
    let (x, n, e) = (value(a), value(v) - value(q), value(d) - (value(v) - value(q)));
    let an = apart(x * n, 0);
    assert(x * value(d) == x * n + x * e) by (nonlinear_arith)
        requires
            e == value(d) - n,
    ;
    let (w, xa) = (apart(n, 0), apart(x, 0));
    assert(an == xa * w) by (nonlinear_arith)
        requires
            an == apart(x * n, 0),
            w == apart(n, 0),
            xa == apart(x, 0),
    ;
    assert(-(an + 0x40_0000 * xa) <= (x * e) * 0x40_0000 <= an + 0x40_0000 * xa) by (nonlinear_arith)
        requires
            -(w + 0x40_0000) <= e * 0x40_0000 <= w + 0x40_0000,
            an == xa * w,
            xa == apart(x, 0),
    ;
    assert(xa <= m * o) by (nonlinear_arith)
        requires
            xa <= m,
            o >= 1,
            m >= 0,
    ;
    assert((m / 2) * o * 2 <= m * o && (2 * m) * o == 2 * (m * o)) by (nonlinear_arith)
        requires
            o > 0,
            m >= 0,
    ;
    let ad = apart(x * value(d), 0);
    assert(ad <= 2 * an + xa);
    sum_with_product::<A>(v, a, d);
}

/// Where a detail passes whole, sharpening adds the amount times the detail over the blurred
/// image to a sample, up to rounding. Details pass whole without a threshold, and from twice
/// the threshold on.
pub proof fn sharpening_adds_the_amount_of_detail<A: Arithmetic>(
    r: Raster<u32>,
    params: SharpenParams,
    y: int,
    x: int,
    k: int,
)
    requires
        rounds::<A>(),
        sharpen_fault::<A>(params) is None,
        !idle(params),
        inside(r.shape, y, x, k),
        ({
            let (v, q) = (r.at(y, x, k), blurred::<A>(r, params.sigma).at(y, x, k));
            &&& single::is_finite(v) && apart(value(v), 0) <= moderate()
            &&& single::is_finite(q) && apart(value(v), value(q)) <= moderate()
            &&& value(params.amount) <= moderate()
            &&& apart(value(params.amount) * (value(v) - value(q)), 0) <= (moderate() / 2) * unit()
            &&& single::same(params.threshold, 0) || 2 * value(params.threshold) <= apart(
                value(v),
                value(q),
            )
        }),
    ensures
        ({
            let (v, q) = (r.at(y, x, k), blurred::<A>(r, params.sigma).at(y, x, k));
            let out = sharpened::<A>(r, params).at(y, x, k);
            &&& single::is_finite(out)
            &&& is_moved(value(out), value(v), value(params.amount), value(v) - value(q))
        }),
{
    let soft = blurred::<A>(r, params.sigma);
    let (v, q, a, t) = (r.at(y, x, k), soft.at(y, x, k), params.amount, params.threshold);
    tabulated(
        r.shape,
        |y: int, x: int, k: int| crisper::<A>(r.at(y, x, k), soft.at(y, x, k), params),
    );
    small_numbers();
    values_are_ordered(0, a);
    values_are_ordered(0, t);
    let d = minus_of::<A>(v, q);
    if !single::same(t, 0) {
        detail_reaches::<A>(v, q, t);
        gate_is_open_past_the_ramp::<A>(d, t);
    }
    assert(gate::<A>(d, t) == single::ONE);
    times_one::<A>(a);
    sample_with_detail::<A>(v, q, times_of::<A>(a, single::ONE));
}

/// A computed detail reaches twice the threshold where the exact one does.
proof fn detail_reaches<A: Arithmetic>(v: u32, q: u32, t: u32)
    requires
        rounds::<A>(),
        single::is_finite(v),
        single::is_finite(q),
        single::is_finite(t),
        0 <= value(t),
        2 * value(t) <= apart(value(v), value(q)) <= moderate(),
    ensures
        single::is_finite(minus_of::<A>(v, q)),
        value(single::magnitude(minus_of::<A>(v, q))) >= 2 * value(t),
{
    room();
    let c = double_of(t);
    let d = minus_of::<A>(v, q);
    minus_fine::<A>(v, q);
    minus_rounds::<A>(v, q);
    let n = value(v) - value(q);
    if n >= 0 {
        rounded_at_least(d, n, 1, c);
        values_are_ordered(c, d);
    } else {
        negated_value(c);
        rounded_at_most(d, n, 1, single::negated(c));
        values_are_ordered(d, single::negated(c));
    }
    small_numbers();
}

/// Twice the amount moves a number twice as far: what two amounts make of it, one the
/// double of the other, differ from each other as they should.
proof fn moves_double(out: int, far: int, v: int, a: int, n: int)
    requires
        is_moved(out, v, a, n),
        is_moved(far, v, 2 * a, n),
    ensures
        apart((far - v) * unit(), 2 * ((out - v) * unit())) * 0x40_0000 <= 3 * (apart(v, 0) * unit())
            + 32 * apart(a * n, 0) + 0x400_0000 * (apart(a, 0) + unit()),
{
    half_is_positive();
    let (o, an) = (unit(), a * n);
    assert((2 * a) * n == 2 * an) by (nonlinear_arith)
        requires
            an == a * n,
    ;
    assert((far - v) * o == far * o - v * o && (out - v) * o == out * o - v * o) by (nonlinear_arith);
}

/// Where a detail passes whole, twice the amount sharpens twice as much, up to rounding.
pub proof fn twice_the_amount_sharpens_twice<A: Arithmetic>(
    r: Raster<u32>,
    params: SharpenParams,
    double: u32,
    y: int,
    x: int,
    k: int,
)
    requires
        rounds::<A>(),
        sharpen_fault::<A>(params) is None,
        !idle(params),
        single::is_finite(double),
        value(double) == 2 * value(params.amount),
        inside(r.shape, y, x, k),
        ({
            let (v, q) = (r.at(y, x, k), blurred::<A>(r, params.sigma).at(y, x, k));
            &&& single::is_finite(v) && apart(value(v), 0) <= moderate()
            &&& single::is_finite(q) && apart(value(v), value(q)) <= moderate()
            &&& value(double) <= moderate()
            &&& apart(value(double) * (value(v) - value(q)), 0) <= (moderate() / 2) * unit()
            &&& single::same(params.threshold, 0) || 2 * value(params.threshold) <= apart(
                value(v),
                value(q),
            )
        }),
    ensures
        ({
            let (v, q) = (value(r.at(y, x, k)), value(blurred::<A>(r, params.sigma).at(y, x, k)));
            let a = value(params.amount);
            let once = value(sharpened::<A>(r, params).at(y, x, k));
            let twice = value(
                sharpened::<A>(r, SharpenParams { amount: double, ..params }).at(y, x, k),
            );
            apart((twice - v) * unit(), 2 * ((once - v) * unit())) * 0x40_0000 <= 3 * (apart(v, 0)
                * unit()) + 32 * apart(a * (v - q), 0) + 0x400_0000 * (a + unit())
        }),
{
    let other = SharpenParams { amount: double, ..params };
    let (v, q) = (value(r.at(y, x, k)), value(blurred::<A>(r, params.sigma).at(y, x, k)));
    let (a, n) = (value(params.amount), v - q);
    small_numbers();
    values_are_ordered(0, params.amount);
    values_are_ordered(0, double);
    assert((2 * a) * n == 2 * (a * n)) by (nonlinear_arith);
    sharpening_adds_the_amount_of_detail::<A>(r, params, y, x, k);
    sharpening_adds_the_amount_of_detail::<A>(r, other, y, x, k);
    moves_double(
        value(sharpened::<A>(r, params).at(y, x, k)),
        value(sharpened::<A>(r, other).at(y, x, k)),
        v,
        a,
        n,
    );
}

/// A smaller amount never sharpens more: under any threshold the sample moves no further,
/// and not to the other side.
pub proof fn a_smaller_amount_moves_no_further<A: Arithmetic>(
    r: Raster<u32>,
    params: SharpenParams,
    less: u32,
    y: int,
    x: int,
    k: int,
)
    requires
        rounds::<A>(),
        !idle(params),
        single::is_finite(params.amount),
        single::is_finite(less),
        0 < value(less) <= value(params.amount),
        inside(r.shape, y, x, k),
        ({
            let v = r.at(y, x, k);
            let d = minus_of::<A>(v, blurred::<A>(r, params.sigma).at(y, x, k));
            let open = gate::<A>(d, params.threshold);
            &&& single::is_finite(v) && single::is_finite(d) && single::is_finite(open)
            &&& value(open) >= 0
            &&& single::is_finite(times_of::<A>(params.amount, open))
            &&& single::is_finite(times_of::<A>(times_of::<A>(params.amount, open), d))
            &&& single::is_finite(sharpened::<A>(r, params).at(y, x, k))
        }),
    ensures
        ({
            let v = value(r.at(y, x, k));
            let near = value(sharpened::<A>(r, SharpenParams { amount: less, ..params }).at(y, x, k));
            let far = value(sharpened::<A>(r, params).at(y, x, k));
            v <= near <= far || far <= near <= v
        }),
{
    let other = SharpenParams { amount: less, ..params };
    let soft = blurred::<A>(r, params.sigma);
    small_numbers();
    values_are_ordered(less, 0);
    tabulated(
        r.shape,
        |y: int, x: int, k: int| crisper::<A>(r.at(y, x, k), soft.at(y, x, k), params),
    );
    tabulated(
        r.shape,
        |y: int, x: int, k: int| crisper::<A>(r.at(y, x, k), soft.at(y, x, k), other),
    );
    let v = r.at(y, x, k);
    let d = minus_of::<A>(v, soft.at(y, x, k));
    let open = gate::<A>(d, params.threshold);
    let (low, high) = (times_of::<A>(less, open), times_of::<A>(params.amount, open));
    products_shrink::<A>(less, params.amount, open);
    times_ordered_first::<A>(less, params.amount, open);
    products_shrink::<A>(low, high, d);
    let (near, far) = (times_of::<A>(low, d), times_of::<A>(high, d));
    times_ordered_second::<A>(low, high, d);
    sums_shrink::<A>(v, near, far);
    if value(d) >= 0 {
        plus_ordered::<A>(v, near, far);
    } else {
        plus_ordered::<A>(v, far, near);
    }
}

/// A product with a smaller factor is a number where the larger one is, on the same side of
/// zero.
proof fn products_shrink<A: Arithmetic>(a: u32, b: u32, h: u32)
    requires
        rounds::<A>(),
        single::is_finite(a),
        single::is_finite(b),
        single::is_finite(h),
        0 <= value(a) <= value(b),
        single::is_finite(times_of::<A>(b, h)),
    ensures
        single::is_finite(times_of::<A>(a, h)),
        value(h) >= 0 ==> value(times_of::<A>(a, h)) >= 0,
        value(h) <= 0 ==> value(times_of::<A>(a, h)) <= 0,
{
    half_is_positive();
    small_numbers();
    let (va, vb, vh, o) = (value(a), value(b), value(h), unit());
    times_rounds::<A>(a, h);
    times_rounds::<A>(b, h);
    assert(vh >= 0 ==> 0 <= va * vh <= vb * vh) by (nonlinear_arith)
        requires
            0 <= va <= vb,
    ;
    assert(vh <= 0 ==> vb * vh <= va * vh <= 0) by (nonlinear_arith)
        requires
            0 <= va <= vb,
    ;
    assert(0 * o == 0) by (nonlinear_arith);
    if vh >= 0 {
        rounded_at_least(times_of::<A>(a, h), va * vh, o, 0);
        values_are_ordered(0, times_of::<A>(a, h));
    }
    if vh <= 0 {
        rounded_at_most(times_of::<A>(a, h), va * vh, o, 0);
        values_are_ordered(times_of::<A>(a, h), 0);
    }
}

/// Products by one number are ordered as the first factors are, or against them.
proof fn times_ordered_second<A: Arithmetic>(a: u32, b: u32, h: u32)
    requires
        rounds::<A>(),
        single::is_finite(h),
        single::is_finite(a),
        single::is_finite(b),
        single::is_finite(times_of::<A>(a, h)),
        single::is_finite(times_of::<A>(b, h)),
        value(a) <= value(b),
    ensures
        0 <= value(h) ==> value(times_of::<A>(a, h)) <= value(times_of::<A>(b, h)),
        value(h) <= 0 ==> value(times_of::<A>(b, h)) <= value(times_of::<A>(a, h)),
{
    if value(h) >= 0 {
        times_ordered_first::<A>(a, b, h);
    }
    if value(h) <= 0 {
        half_is_positive();
        times_rounds::<A>(a, h);
        times_rounds::<A>(b, h);
        let (va, vb, vh) = (value(a), value(b), value(h));
        assert(vb * vh <= va * vh) by (nonlinear_arith)
            requires
                va <= vb,
                vh <= 0,
        ;
        if va == vb {
            one_value(a, b);
        }
        assert(va < vb && vh < 0 ==> vb * vh < va * vh) by (nonlinear_arith);
        assert(vh == 0 || va == 0 ==> va * vh == 0) by (nonlinear_arith);
        assert(vh == 0 || vb == 0 ==> vb * vh == 0) by (nonlinear_arith);
        rounded_order(times_of::<A>(b, h), vb * vh, times_of::<A>(a, h), va * vh, unit());
    }
}

/// A sum with less is a number where one with more is, and lies on the same side.
proof fn sums_shrink<A: Arithmetic>(v: u32, a: u32, b: u32)
    requires
        rounds::<A>(),
        single::is_finite(v),
        single::is_finite(a),
        single::is_finite(b),
        0 <= value(a) <= value(b) || value(b) <= value(a) <= 0,
        single::is_finite(plus_of::<A>(v, b)),
    ensures
        single::is_finite(plus_of::<A>(v, a)),
        value(a) >= 0 ==> value(plus_of::<A>(v, a)) >= value(v),
        value(a) <= 0 ==> value(plus_of::<A>(v, a)) <= value(v),
{
    plus_rounds::<A>(v, a);
    plus_rounds::<A>(v, b);
    let s = plus_of::<A>(v, a);
    numbers_are_in_range(v, 1);
    assert(single::is_finite(s));
    if value(a) >= 0 {
        rounded_at_least(s, value(v) + value(a), 1, v);
        values_are_ordered(v, s);
    }
    if value(a) <= 0 {
        rounded_at_most(s, value(v) + value(a), 1, v);
        values_are_ordered(s, v);
    }
}

/// The light that a sample scatters is what it exceeds the threshold by, up to rounding, and
/// none where it does not.
pub proof fn scattered_light_is_the_excess<A: Arithmetic>(v: u32, threshold: u32)
    requires
        rounds::<A>(),
        single::is_finite(v),
        single::is_finite(threshold),
        apart(value(v), value(threshold)) < ceiling(),
    ensures
        ({
            let (light, n) = (scattered::<A>(v, threshold), value(v) - value(threshold));
            &&& single::is_finite(light)
            &&& n <= 0 ==> value(light) == 0
            &&& n >= 0 ==> apart(value(light), n) * 0x40_0000 <= n + 0x40_0000
        }),
{
    small_numbers();
    let d = minus_of::<A>(v, threshold);
    minus_fine::<A>(v, threshold);
    minus_rounds::<A>(v, threshold);
    let n = value(v) - value(threshold);
    values_are_ordered(0, d);
    if n >= 0 {
        rounded_at_least(d, n, 1, 0);
    } else {
        rounded_at_most(d, n, 1, 0);
        values_are_ordered(d, 0);
    }
}

/// Glow adds to a sample the amount times the light that reaches it, up to rounding: the
/// blurred light of what exceeds the threshold.
pub proof fn glow_adds_the_amount_of_light<A: Arithmetic>(
    r: Raster<u32>,
    params: GlowParams,
    y: int,
    x: int,
    k: int,
)
    requires
        rounds::<A>(),
        !single::same(params.amount, 0),
        single::is_finite(params.amount),
        inside(r.shape, y, x, k),
        ({
            let v = r.at(y, x, k);
            let light = blurred::<A>(emitted::<A>(r, params.threshold), params.sigma).at(y, x, k);
            &&& single::is_finite(v) && apart(value(v), 0) <= moderate()
            &&& single::is_finite(light)
            &&& apart(value(params.amount) * value(light), 0) <= (2 * moderate()) * unit()
        }),
    ensures
        ({
            let v = r.at(y, x, k);
            let light = blurred::<A>(emitted::<A>(r, params.threshold), params.sigma).at(y, x, k);
            let out = glowing::<A>(r, params).at(y, x, k);
            &&& single::is_finite(out)
            &&& is_moved(value(out), value(v), value(params.amount), value(light))
        }),
{
    half_is_positive();
    let spread = blurred::<A>(emitted::<A>(r, params.threshold), params.sigma);
    tabulated(
        r.shape,
        |y: int, x: int, k: int|
            plus_of::<A>(r.at(y, x, k), times_of::<A>(params.amount, spread.at(y, x, k))),
    );
    sum_with_product::<A>(r.at(y, x, k), params.amount, spread.at(y, x, k));
}

/// Twice the amount adds twice the light, up to rounding.
pub proof fn twice_the_amount_glows_twice<A: Arithmetic>(
    r: Raster<u32>,
    params: GlowParams,
    double: u32,
    y: int,
    x: int,
    k: int,
)
    requires
        rounds::<A>(),
        !single::same(params.amount, 0),
        single::is_finite(params.amount),
        single::is_finite(double),
        value(double) == 2 * value(params.amount),
        inside(r.shape, y, x, k),
        ({
            let v = r.at(y, x, k);
            let light = blurred::<A>(emitted::<A>(r, params.threshold), params.sigma).at(y, x, k);
            &&& single::is_finite(v) && apart(value(v), 0) <= moderate()
            &&& single::is_finite(light)
            &&& apart(value(double) * value(light), 0) <= (2 * moderate()) * unit()
        }),
    ensures
        ({
            let v = value(r.at(y, x, k));
            let light = value(
                blurred::<A>(emitted::<A>(r, params.threshold), params.sigma).at(y, x, k),
            );
            let a = value(params.amount);
            let once = value(glowing::<A>(r, params).at(y, x, k));
            let twice = value(glowing::<A>(r, GlowParams { amount: double, ..params }).at(y, x, k));
            apart((twice - v) * unit(), 2 * ((once - v) * unit())) * 0x40_0000 <= 3 * (apart(v, 0)
                * unit()) + 32 * apart(a * light, 0) + 0x400_0000 * (apart(a, 0) + unit())
        }),
{
    small_numbers();
    let other = GlowParams { amount: double, ..params };
    let v = value(r.at(y, x, k));
    let light = value(blurred::<A>(emitted::<A>(r, params.threshold), params.sigma).at(y, x, k));
    let a = value(params.amount);
    values_are_ordered(params.amount, 0);
    values_are_ordered(0, params.amount);
    values_are_ordered(double, 0);
    values_are_ordered(0, double);
    assert((2 * a) * light == 2 * (a * light)) by (nonlinear_arith);
    glow_adds_the_amount_of_light::<A>(r, params, y, x, k);
    glow_adds_the_amount_of_light::<A>(r, other, y, x, k);
    moves_double(
        value(glowing::<A>(r, params).at(y, x, k)),
        value(glowing::<A>(r, other).at(y, x, k)),
        v,
        a,
        light,
    );
}

/// Local contrast adds to a sample the strength times its detail over the smoothed image,
/// up to rounding.
pub proof fn local_contrast_adds_the_strength_of_detail<A: Arithmetic>(
    r: Raster<u32>,
    params: GuidedFilterParams,
    strength: u32,
    y: int,
    x: int,
)
    requires
        rounds::<A>(),
        r.shape.2 == 1,
        inside(r.shape, y, x, 0),
        ({
            let v = r.at(y, x, 0);
            let q = guided::<A>(channel_of(r, 0), params.radius as int, params.eps).at(y, x);
            &&& single::is_finite(v) && apart(value(v), 0) <= moderate()
            &&& single::is_finite(q) && apart(value(v), value(q)) <= moderate()
            &&& single::is_finite(strength) && apart(value(strength), 0) <= moderate()
            &&& apart(value(strength) * (value(v) - value(q)), 0) <= (moderate() / 2) * unit()
        }),
    ensures
        ({
            let v = r.at(y, x, 0);
            let q = guided::<A>(channel_of(r, 0), params.radius as int, params.eps).at(y, x);
            let out = contrasted::<A>(r, params, strength).at(y, x, 0);
            &&& single::is_finite(out)
            &&& is_moved(value(out), value(v), value(strength), value(v) - value(q))
        }),
{
    let smooth = guided::<A>(channel_of(r, 0), params.radius as int, params.eps);
    tabulated(
        r.shape,
        |y: int, x: int, k: int|
            plus_of::<A>(
                r.at(y, x, 0),
                times_of::<A>(strength, minus_of::<A>(r.at(y, x, 0), smooth.at(y, x))),
            ),
    );
    sample_with_detail::<A>(r.at(y, x, 0), smooth.at(y, x), strength);
}

/// Denoising takes from a sample the amount times its detail over the smoothed image, up to
/// rounding: all of it where the amount is one.
pub proof fn denoising_removes_the_amount_of_detail<A: Arithmetic>(
    r: Raster<u32>,
    params: DenoiseParams,
    y: int,
    x: int,
    k: int,
)
    requires
        rounds::<A>(),
        inside(r.shape, y, x, k),
        ({
            let (v, q) = (r.at(y, x, k), smoothed_at::<A>(r, params, y, x, k));
            &&& single::is_finite(v) && apart(value(v), 0) <= moderate()
            &&& single::is_finite(q) && apart(value(v), value(q)) <= moderate() / 2
            &&& single::is_finite(params.amount) && 0 <= value(params.amount) <= unit()
        }),
    ensures
        ({
            let (v, q) = (r.at(y, x, k), smoothed_at::<A>(r, params, y, x, k));
            let out = denoised::<A>(r, params).at(y, x, k);
            &&& single::is_finite(out)
            &&& is_moved(value(out), value(v), -value(params.amount), value(v) - value(q))
        }),
{
    room();
    let (v, q) = (r.at(y, x, k), smoothed_at::<A>(r, params, y, x, k));
    let (a, n, m) = (value(params.amount), value(v) - value(q), moderate() / 2);
    negated_value(params.amount);
    assert(apart((-a) * n, 0) <= m * unit()) by (nonlinear_arith)
        requires
            0 <= a <= unit(),
            -m <= n <= m,
    ;
    lemma2_to64();
    lemma_pow2_adds(1, 148);
    lemma_pow2_strictly_increases(149, 272);
    sample_with_detail::<A>(v, q, single::negated(params.amount));
    let f = |y: int, x: int, k: int| denoised_channel::<A>(r, params, k).at(y, x);
    tabulated(r.shape, f);
    assert(denoised::<A>(r, params).at(y, x, k) == f(y, x, k));
    denoised_sample::<A>(r, params, y, x, k);
}

/// A denoised sample, as its smoothed value and the amount make it.
proof fn denoised_sample<A: Arithmetic>(
    r: Raster<u32>,
    params: DenoiseParams,
    y: int,
    x: int,
    k: int,
)
    requires
        inside(r.shape, y, x, k),
    ensures
        denoised_channel::<A>(r, params, k).at(y, x) == plus_of::<A>(
            r.at(y, x, k),
            times_of::<A>(
                single::negated(params.amount),
                minus_of::<A>(r.at(y, x, k), smoothed_at::<A>(r, params, y, x, k)),
            ),
        ),
{
    let eps = widen_of::<A>(times_of::<A>(params.noise_sigma, params.noise_sigma));
    let data = channel_of(r, k);
    let radius = params.radius as int;
    let part = single::negated(params.amount);
    tabulated2((r.shape.0, r.shape.1), |y: int, x: int| r.at(y, x, k));
    let (guide, models) = if r.shape.2 == 3 {
        let guide = channel_of(weighted::<A>(r, params.standard.coefficients()), 0);
        (guide, cross_models::<A>(guide, data, radius, eps))
    } else {
        (data, self_models::<A>(data, radius, eps))
    };
    let (sum_a, sum_b) = (
        row_sums::<A>(models.0, Measure::Value, radius),
        row_sums::<A>(models.1, Measure::Value, radius),
    );
    tabulated2(
        data.shape,
        |y: int, x: int| combined::<A>(sum_a, sum_b, guide, data, part, radius, y, x),
    );
    assert(within(data.shape, y, x));
    assert(data.at(y, x) == r.at(y, x, k));
}

/// A flat image glows evenly: above the threshold a value `v` becomes `v` plus the amount
/// times what it exceeds the threshold by, up to rounding.
pub proof fn a_flat_image_glows_by_its_excess<A: Arithmetic>(
    r: Raster<u32>,
    params: GlowParams,
    v: u32,
    y: int,
    x: int,
    k: int,
)
    requires
        rounds::<A>(),
        computes_finely::<A>(),
        computes_exactly::<A>(),
        sums_exactly::<A>(),
        glow_fault::<A>(params) is None,
        single::less(params.sigma, BOX_CROSSOVER_SIGMA) ==> bells_ring::<A>(params.sigma),
        !single::same(params.amount, 0),
        is_flat(r, v),
        inside(r.shape, y, x, k),
        single::is_finite(v),
        apart(value(v), 0) <= pow2(268),
        value(params.threshold) <= value(v),
        value(params.amount) * (value(v) - value(params.threshold)) <= moderate() * unit(),
        value(params.amount) <= moderate(),
    ensures
        ({
            let (a, n) = (value(params.amount), value(v) - value(params.threshold));
            let out = glowing::<A>(r, params).at(y, x, k);
            &&& single::is_finite(out)
            &&& apart(value(out) * unit(), value(v) * unit() + a * n) * 0x1_0000 <= apart(
                value(v),
                0,
            ) * unit() + a * n + 0x40_0000 * (a + unit())
        }),
{
    room();
    small_numbers();
    values_are_ordered(0, params.amount);
    values_are_ordered(0, params.threshold);
    lemma2_to64();
    lemma_pow2_adds(4, 268);
    lemma_pow2_adds(3, 1197);
    lemma_pow2_adds(1, 268);
    lemma_pow2_adds(269, 925);
    lemma_pow2_strictly_increases(1194, 1197);
    let (o, p, m) = (unit(), pow2(925) as int, moderate());
    let (a, n) = (value(params.amount), value(v) - value(params.threshold));
    let e = scattered::<A>(v, params.threshold);
    scattered_light_is_the_excess::<A>(v, params.threshold);
    let light = emitted::<A>(r, params.threshold);
    tabulated(r.shape, |y: int, x: int, k: int| scattered::<A>(r.at(y, x, k), params.threshold));
    assert(is_flat(light, e)) by {
        assert forall|y: int, x: int, k: int| inside(light.shape, y, x, k) implies #[trigger] light.at(
            y,
            x,
            k,
        ) == e by {
            assert(r.at(y, x, k) == v);
        }
    }
    let spread = blurred::<A>(light, params.sigma);
    blur_keeps_the_shape::<A>(light, params.sigma);
    assert(inside(spread.shape, y, x, k));
    if single::less(params.sigma, BOX_CROSSOVER_SIGMA) {
        let ve = value(e);
        assert(0 <= ve <= pow2(269)) by {
            values_are_ordered(0, e);
        }
        lemma_pow2_pos(925);
        assert(0 <= ve * p <= pow2(269) * p) by (nonlinear_arith)
            requires
                0 <= ve <= pow2(269),
                p > 0,
        ;
        let w = taps_keep_a_constant_image::<A>(light, params.sigma, e);
        assert(spread.at(y, x, k) == w);
    } else {
        assert(is_even(light, value(e)));
        means_keep_a_constant_image::<A>(light, params.sigma, e);
    }
    let w = value(spread.at(y, x, k));
    assert(apart(w, n) * 0x2_0000 <= n + 0x20_0000);
    let f = w - n;
    assert(a * w == a * n + a * f) by (nonlinear_arith)
        requires
            f == w - n,
    ;
    assert(-(a * n + 0x20_0000 * a) <= (a * f) * 0x2_0000 <= a * n + 0x20_0000 * a)
        by (nonlinear_arith)
        requires
            -(n + 0x20_0000) <= f * 0x2_0000 <= n + 0x20_0000,
            a >= 0,
    ;
    assert(a * n >= 0) by (nonlinear_arith)
        requires
            a >= 0,
            n >= 0,
    ;
    assert(32 * a <= (m / 4) * o && (2 * m) * o == 2 * (m * o) && (m / 4) * o <= m * o)
        by (nonlinear_arith)
        requires
            a <= m,
            o >= 0x1_0000_0000,
            m >= 0x1_0000_0000,
    ;
    glow_adds_the_amount_of_light::<A>(r, params, y, x, k);
}

/// Between the threshold and twice the threshold a detail passes by a smooth step: with `u`
/// for what it exceeds the threshold by, as a share of the threshold, `u^2 (3 - 2 u)` of it
/// passes, up to rounding. This is for thresholds of the least normal number or more.
pub proof fn details_pass_by_a_smooth_step<A: Arithmetic>(d: u32, threshold: u32)
    requires
        rounds::<A>(),
        single::is_finite(d),
        single::is_finite(threshold),
        0x100_0000 <= value(threshold) <= moderate(),
        value(threshold) <= value(single::magnitude(d)) <= 2 * value(threshold),
    ensures
        ({
            let (t, open) = (value(threshold), gate::<A>(d, threshold));
            let x = value(single::magnitude(d)) - t;
            &&& single::is_finite(open)
            &&& apart(value(open) * (t * t * t), unit() * (x * x * (3 * t - 2 * x))) * 0x40_0000 <= 64
                * (unit() * (t * t * t))
        }),
{
    room();
    small_numbers();
    grains();
    half_is_positive();
    values_are_ordered(0, threshold);
    let (o, g, t) = (unit(), grain(), value(threshold));
    let m = single::magnitude(d);
    assert(single::is_finite(m));
    let span = times_of::<A>(minus_of::<A>(SOFT_KNEE_SPAN, single::ONE), threshold);
    minus_halves::<A>(SOFT_KNEE_SPAN, 4, single::ONE, 2);
    one_is_one(minus_of::<A>(SOFT_KNEE_SPAN, single::ONE));
    times_one::<A>(threshold);
    assert(value(span) == t);
    let x = value(m) - t;
    minus_fine::<A>(m, threshold);
    let excess = minus_of::<A>(m, threshold);
    let e = value(excess);
    assert(apart(e, x) * 0x40_0000 <= 2 * t);
    assert(apart(e * o, 0) <= (2 * o) * t) by (nonlinear_arith)
        requires
            apart(e, 0) <= 2 * t,
            o > 0,
    ;
    assert((2 * o) * t < ceiling() * t) by (nonlinear_arith)
        requires
            2 * o < ceiling(),
            t > 0,
    ;
    over_fine::<A>(excess, span);
    let ratio = over_of::<A>(excess, span);
    let to = t * o;
    ratio_bounds(value(ratio), e, x, t, o);
    values_are_ordered(ratio, 0);
    values_are_ordered(single::ONE, ratio);
    let u = single::clamped(ratio, 0, single::ONE);
    let v = value(u);
    assert(0 <= v <= o && apart(v * t, x * o) * 0x40_0000 <= 6 * to) by {
        assert(0 * t == 0 && (value(ratio) < 0 ==> value(ratio) * t <= 0) && (value(ratio) > o
            ==> value(ratio) * t >= o * t) && 0 <= x * o <= o * t && o * t == to)
            by (nonlinear_arith)
            requires
                0 <= x <= t,
                t > 0,
                o > 0,
                to == t * o,
        ;
    }
    smooth_step::<A>(u);
    step_in_units(value(gate::<A>(d, threshold)), v, x, t, o, g);
}

proof fn ratio_bounds(q: int, e: int, x: int, t: int, o: int)
    requires
        t >= 0x100_0000,
        o >= 0x1_0000_0000,
        0 <= x <= t,
        apart(e, x) * 0x40_0000 <= 2 * t,
        apart(q * t, e * o) * 0x40_0000 <= apart(e * o, 0) + 0x40_0000 * t,
    ensures
        apart(q * t, x * o) * 0x40_0000 <= 6 * (t * o),
{
    let (to, f) = (t * o, e - x);
    assert(-(2 * to) <= (f * o) * 0x40_0000 <= 2 * to) by (nonlinear_arith)
        requires
            -(2 * t) <= f * 0x40_0000 <= 2 * t,
            o > 0,
            to == t * o,
    ;
    assert(e * o == x * o + f * o) by (nonlinear_arith)
        requires
            f == e - x,
    ;
    assert(0 <= x * o <= to) by (nonlinear_arith)
        requires
            0 <= x <= t,
            o > 0,
            to == t * o,
    ;
    assert(0x40_0000 * t <= to) by (nonlinear_arith)
        requires
            to == t * o,
            o >= 0x40_0000,
            t > 0,
    ;
}

/// The smooth step of a number between zero and one is close.
proof fn smooth_step<A: Arithmetic>(u: u32)
    requires
        rounds::<A>(),
        single::is_finite(u),
        0 <= value(u) <= unit(),
    ensures
        ({
            let s = times_of::<A>(
                times_of::<A>(u, u),
                minus_of::<A>(THREE, times_of::<A>(single::TWO, u)),
            );
            let (v, o) = (value(u), unit());
            &&& single::is_finite(s)
            &&& apart(value(s) * (o * o), (v * v) * (3 * o - 2 * v)) <= 16 * (grain() * (o * o))
        }),
{
    room();
    small_numbers();
    grains();
    let (o, g, v) = (unit(), grain(), value(u));
    let (vv, oo, go) = (v * v, o * o, g * o);
    assert(0 <= vv <= oo && 0 <= (2 * o) * v <= 2 * oo) by (nonlinear_arith)
        requires
            0 <= v <= o,
            vv == v * v,
            oo == o * o,
    ;
    assert((3 * o) * o == 3 * oo) by (nonlinear_arith)
        requires
            oo == o * o,
    ;
    times_close::<A>(u, u);
    let square = times_of::<A>(u, u);
    times_close::<A>(single::TWO, u);
    let twice = times_of::<A>(single::TWO, u);
    assert(apart(value(twice), 2 * v) <= g) by (nonlinear_arith)
        requires
            apart(value(twice) * o, (2 * o) * v) <= g * o,
            o > 0,
    ;
    assert(value(THREE) == 3 * o);
    minus_fine::<A>(THREE, twice);
    let rest = minus_of::<A>(THREE, twice);
    let (a, b) = (value(square), value(rest));
    assert(apart(b, 3 * o - 2 * v) <= 6 * g);
    assert(-g <= a <= o + g) by (nonlinear_arith)
        requires
            apart(a * o, vv) <= go,
            0 <= vv <= oo,
            go == g * o,
            oo == o * o,
            o > g,
            g > 0,
    ;
    step_product::<A>(square, rest, v);
}

proof fn step_product<A: Arithmetic>(square: u32, rest: u32, v: int)
    requires
        rounds::<A>(),
        single::is_finite(square),
        single::is_finite(rest),
        0 <= v <= unit(),
        apart(value(square) * unit(), v * v) <= grain() * unit(),
        -grain() <= value(square) <= unit() + grain(),
        apart(value(rest), 3 * unit() - 2 * v) <= 6 * grain(),
    ensures
        ({
            let s = times_of::<A>(square, rest);
            let o = unit();
            &&& single::is_finite(s)
            &&& apart(value(s) * (o * o), (v * v) * (3 * o - 2 * v)) <= 16 * (grain() * (o * o))
        }),
{
    room();
    grains();
    let (o, g) = (unit(), grain());
    let (a, b) = (value(square), value(rest));
    let (vv, oo, goo) = (v * v, o * o, g * (o * o));
    let ab = a * b;
    assert(0 <= vv <= oo) by (nonlinear_arith)
        requires
            0 <= v <= o,
            vv == v * v,
            oo == o * o,
    ;
    assert(-(4 * oo) <= ab <= 4 * oo) by (nonlinear_arith)
        requires
            -g <= a <= o + g,
            0 <= b <= 3 * o + 6 * g,
            100 * g <= o,
            g > 0,
            ab == a * b,
            oo == o * o,
    ;
    assert(4 * oo < ceiling() * o) by (nonlinear_arith)
        requires
            4 * o < ceiling(),
            oo == o * o,
            o > 0,
    ;
    times_fine::<A>(square, rest);
    let s = value(times_of::<A>(square, rest));
    assert(0x40_0000 * (g * o) == oo) by (nonlinear_arith)
        requires
            o == 0x40_0000 * g,
            oo == o * o,
    ;
    let f = s * o - ab;
    assert(0x40_0000 * o <= oo) by (nonlinear_arith)
        requires
            oo == o * o,
            o >= 0x40_0000,
    ;
    assert(-(5 * (g * o)) <= f <= 5 * (g * o));
    assert(-(5 * goo) <= f * o <= 5 * goo) by (nonlinear_arith)
        requires
            -(5 * (g * o)) <= f <= 5 * (g * o),
            o > 0,
            goo == g * (o * o),
    ;
    let (p, q) = (a * o - vv, b - (3 * o - 2 * v));
    let z = 3 * o - 2 * v;
    assert(ab * o == vv * z + p * b + vv * q) by (nonlinear_arith)
        requires
            ab == a * b,
            p == a * o - vv,
            q == b - z,
    ;
    assert(-(4 * goo) <= p * b <= 4 * goo) by (nonlinear_arith)
        requires
            -(g * o) <= p <= g * o,
            0 <= b <= 4 * o,
            goo == g * (o * o),
    ;
    assert(-(6 * goo) <= vv * q <= 6 * goo) by (nonlinear_arith)
        requires
            -(6 * g) <= q <= 6 * g,
            0 <= vv <= oo,
            goo == g * oo,
    ;
    assert(s * oo == f * o + ab * o) by (nonlinear_arith)
        requires
            f == s * o - ab,
            oo == o * o,
    ;
}

/// What the smooth step is in terms of the detail and the threshold.
proof fn step_in_units(s: int, v: int, x: int, t: int, o: int, g: int)
    requires
        o == 0x40_0000 * g,
        g > 0,
        t > 0,
        0 <= x <= t,
        0 <= v <= o,
        apart(v * t, x * o) * 0x40_0000 <= 6 * (t * o),
        apart(s * (o * o), (v * v) * (3 * o - 2 * v)) <= 16 * (g * (o * o)),
    ensures
        apart(s * (t * t * t), o * (x * x * (3 * t - 2 * x))) * 0x40_0000 <= 64 * (o * (t * t * t)),
{
    let (y, z, m) = (v * t, x * o, t * o);
    let ttt = t * t * t;
    let (yy, zz, mm) = (y * y, z * z, m * m);
    assert(0 <= y <= m && 0 <= z <= m) by (nonlinear_arith)
        requires
            y == v * t,
            z == x * o,
            m == t * o,
            0 <= v <= o,
            0 <= x <= t,
    ;
    // The cube at the two places.
    let (a, b) = (yy * (3 * m - 2 * y), zz * (3 * m - 2 * z));
    let d = y - z;
    let yz = y * z;
    let c = 3 * (m * (y + z)) - 2 * (yy + yz + zz);
    assert(d * (y + z) == yy - zz) by (nonlinear_arith)
        requires
            d == y - z,
            yy == y * y,
            zz == z * z,
    ;
    assert(d * (yy + yz + zz) == y * yy + y * yz + y * zz - z * yy - z * yz - z * zz)
        by (nonlinear_arith)
        requires
            d == y - z,
    ;
    assert(y * yz == z * yy && y * zz == z * yz) by (nonlinear_arith)
        requires
            yy == y * y,
            zz == z * z,
            yz == y * z,
    ;
    let (sum, w) = (y + z, yy + yz + zz);
    assert(d * (m * sum) == m * yy - m * zz) by (nonlinear_arith)
        requires
            d * sum == yy - zz,
    ;
    let ms = m * sum;
    assert(d * c == 3 * (d * ms) - 2 * (d * w)) by (nonlinear_arith)
        requires
            c == 3 * ms - 2 * w,
    ;
    assert(a == 3 * (m * yy) - 2 * (y * yy) && b == 3 * (m * zz) - 2 * (z * zz)) by (nonlinear_arith)
        requires
            a == yy * (3 * m - 2 * y),
            b == zz * (3 * m - 2 * z),
    ;
    assert(a - b == d * c);
    assert(0 <= yy <= mm && 0 <= zz <= mm && 0 <= yz <= mm && 0 <= ms <= 2 * mm) by (nonlinear_arith)
        requires
            0 <= y <= m,
            0 <= z <= m,
            yy == y * y,
            zz == z * z,
            yz == y * z,
            mm == m * m,
            ms == m * (y + z),
    ;
    let mmm = m * mm;
    assert(-(36 * mmm) <= (d * c) * 0x40_0000 <= 36 * mmm) by (nonlinear_arith)
        requires
            -(6 * m) <= d * 0x40_0000 <= 6 * m,
            -(6 * mm) <= c <= 6 * mm,
            mmm == m * mm,
    ;
    // Back to the units of one.
    let (oo, e) = (o * o, s * (o * o) - (v * v) * (3 * o - 2 * v));
    assert(((v * v) * (3 * o - 2 * v)) * ttt == a) by {
        let (vv, r) = (v * v, 3 * o - 2 * v);
        let tt = t * t;
        assert(yy == vv * tt) by (nonlinear_arith)
            requires
                yy == y * y,
                y == v * t,
                vv == v * v,
                tt == t * t,
        ;
        assert(3 * m - 2 * y == r * t) by (nonlinear_arith)
            requires
                m == t * o,
                y == v * t,
                r == 3 * o - 2 * v,
        ;
        assert((vv * r) * ttt == (vv * tt) * (r * t)) by (nonlinear_arith)
            requires
                ttt == t * t * t,
                tt == t * t,
        ;
    }
    assert(b == oo * (o * (x * x * (3 * t - 2 * x)))) by {
        let (xx, r) = (x * x, 3 * t - 2 * x);
        assert(zz == xx * oo) by (nonlinear_arith)
            requires
                zz == z * z,
                z == x * o,
                xx == x * x,
                oo == o * o,
        ;
        assert(3 * m - 2 * z == r * o) by (nonlinear_arith)
            requires
                m == t * o,
                z == x * o,
                r == 3 * t - 2 * x,
        ;
        assert((xx * oo) * (r * o) == oo * (o * (xx * r))) by (nonlinear_arith);
    }
    assert((s * oo) * ttt == ((v * v) * (3 * o - 2 * v)) * ttt + e * ttt) by (nonlinear_arith)
        requires
            e == s * oo - (v * v) * (3 * o - 2 * v),
    ;
    let goo = g * oo;
    assert(ttt > 0 && oo > 0) by (nonlinear_arith)
        requires
            ttt == t * t * t,
            t > 0,
            oo == o * o,
            o > 0,
    ;
    assert(-(16 * (goo * ttt)) <= e * ttt <= 16 * (goo * ttt)) by (nonlinear_arith)
        requires
            -(16 * goo) <= e <= 16 * goo,
            ttt > 0,
    ;
    assert(0x40_0000 * (goo * ttt) == oo * (o * ttt)) by (nonlinear_arith)
        requires
            goo == g * oo,
            o == 0x40_0000 * g,
    ;
    assert(mmm == oo * (o * ttt)) by (nonlinear_arith)
        requires
            mmm == m * mm,
            mm == m * m,
            m == t * o,
            oo == o * o,
            ttt == t * t * t,
    ;
    let (left, right) = (s * ttt, o * (x * x * (3 * t - 2 * x)));
    assert((s * oo) * ttt == oo * left) by (nonlinear_arith)
        requires
            left == s * ttt,
    ;
    let q = o * ttt;
    assert(-(52 * (oo * q)) <= (oo * left - oo * right) * 0x40_0000 <= 52 * (oo * q));
    assert(-(64 * q) <= (left - right) * 0x40_0000 <= 64 * q) by (nonlinear_arith)
        requires
            -(52 * (oo * q)) <= (oo * left - oo * right) * 0x40_0000 <= 52 * (oo * q),
            oo > 0,
            q >= 0,
    ;
}

} // verus!
