//! What single samples become: the transfer of sRGB, the pull of hues, and which pixels count
//! as hot, of the numbers themselves and up to rounding.

use vstd::prelude::*;

use crate::amounts::{moderate, room};
use crate::arith::{
    minus_of, of_count_of, over_of, plus_of, power_of, times_of, to_count_of, Arithmetic,
};
use crate::bw::{dot, hue_and_chroma, hue_weighted, pull, share, HslWeightedParams};
use crate::encode::{encoded, encoded_raster, GAIN, INVERSE_GAMMA, LIFT, SLOPE, THRESHOLD};
use crate::histogram::{slot, MAX_BINS};
use crate::hot_pixels::{median_of, neighbourhood, treated, treated_raster, HotPixelParams};
use crate::lut::{looked_up, position};
use crate::points::{product, sum_off, transfer_is_that_of_srgb};
use crate::raster::{inside, tabulated, Raster};
use crate::rounding::{
    apart, ceiling, count_is_the_whole_part, half, half_is_positive, minus_fine, minus_rounds,
    negated_value, over_fine, over_rounds, plus_fine, rounded_at_least, rounds, small_numbers,
    times_fine, times_rounds, truncates, unit, value, values_are_ordered, whole_halves,
};
use crate::single;
use crate::texture::positive_part;

verus! {

/// Encoding multiplies samples up to the threshold by 12.92, and makes `1.055 p - 0.055` of
/// those above it, where `p` is the power of the sample to one over the gamma; both up to
/// rounding.
pub proof fn encoding_follows_srgb<A: Arithmetic>(r: Raster<u32>, y: int, x: int, k: int)
    requires
        rounds::<A>(),
        inside(r.shape, y, x, k),
        single::is_finite(r.at(y, x, k)),
        0x100 * apart(value(r.at(y, x, k)), 0) <= moderate(),
        single::is_finite(power_of::<A>(r.at(y, x, k), INVERSE_GAMMA)),
        0x100 * apart(value(power_of::<A>(r.at(y, x, k), INVERSE_GAMMA)), 0) <= moderate(),
    ensures
        ({
            let (s, out) = (value(r.at(y, x, k)), value(encoded_raster::<A>(r).at(y, x, k)));
            let p = value(power_of::<A>(r.at(y, x, k), INVERSE_GAMMA));
            &&& single::is_finite(encoded_raster::<A>(r).at(y, x, k))
            &&& s <= value(THRESHOLD) ==> apart(out * 100, 1292 * s) * 0x1_0000 <= 100 * apart(s, 0)
                + 0x100_0000
            &&& s > value(THRESHOLD) ==> apart(out * 1000, 1055 * p - 55 * unit()) * 0x1_0000
                <= 1000 * (apart(p, 0) + unit())
        }),
{
    tabulated(r.shape, |y: int, x: int, k: int| encoded::<A>(r.at(y, x, k)));
    room();
    transfer_is_that_of_srgb();
    let v = r.at(y, x, k);
    let o = unit();
    values_are_ordered(v, THRESHOLD);
    if value(v) <= value(THRESHOLD) {
        let (a, b) = (value(SLOPE), value(v));
        assert(apart(a * b, 0) <= 14 * (o * apart(b, 0))) by (nonlinear_arith)
            requires
                0 <= a <= 14 * o,
                o > 0,
        ;
        assert(14 * (o * apart(b, 0)) <= moderate() * o) by (nonlinear_arith)
            requires
                0x100 * apart(b, 0) <= moderate(),
                o > 0,
        ;
        product::<A>(SLOPE, v);
        let q = value(times_of::<A>(SLOPE, v));
        let (ab, ob, d, qo) = (a * b, o * b, (a * 100 - 1292 * o) * b, q * o);
        assert(d == ab * 100 - 1292 * ob && o * apart(b, 0) == apart(ob, 0)) by (nonlinear_arith)
            requires
                d == (a * 100 - 1292 * o) * b,
                ab == a * b,
                ob == o * b,
                o > 0,
        ;
        assert(apart(d, 0) * 0x4_0000 <= 100 * apart(ob, 0)) by (nonlinear_arith)
            requires
                d == (a * 100 - 1292 * o) * b,
                ob == o * b,
                apart(a * 100, 1292 * o) * 0x4_0000 <= 100 * o,
                o > 0,
        ;
        assert(apart(qo * 100, 1292 * ob) * 0x1_0000 <= 100 * apart(ob, 0) + 0x100_0000 * o);
        assert(apart(q * 100, 1292 * b) * 0x1_0000 <= 100 * apart(b, 0) + 0x100_0000)
            by (nonlinear_arith)
            requires
                apart(qo * 100, 1292 * ob) * 0x1_0000 <= 100 * apart(ob, 0) + 0x100_0000 * o,
                qo == q * o,
                ob == o * b,
                o > 0,
        ;
    } else {
        let p = power_of::<A>(v, INVERSE_GAMMA);
        let (a, b) = (value(GAIN), value(p));
        assert(apart(a * b, 0) <= 2 * (o * apart(b, 0))) by (nonlinear_arith)
            requires
                0 <= a <= 2 * o,
                o > 0,
        ;
        assert(2 * (o * apart(b, 0)) <= moderate() * o) by (nonlinear_arith)
            requires
                0x100 * apart(b, 0) <= moderate(),
                o > 0,
        ;
        product::<A>(GAIN, p);
        let risen = times_of::<A>(GAIN, p);
        let q = value(risen);
        let (ab, ob, d, qo) = (a * b, o * b, (a * 1000 - 1055 * o) * b, q * o);
        assert(d == ab * 1000 - 1055 * ob && o * apart(b, 0) == apart(ob, 0)) by (nonlinear_arith)
            requires
                d == (a * 1000 - 1055 * o) * b,
                ab == a * b,
                ob == o * b,
                o > 0,
        ;
        assert(apart(d, 0) * 0x40_0000 <= 1000 * apart(ob, 0)) by (nonlinear_arith)
            requires
                d == (a * 1000 - 1055 * o) * b,
                ob == o * b,
                apart(a * 1000, 1055 * o) * 0x40_0000 <= 1000 * o,
                o > 0,
        ;
        assert(apart(qo, ab) * 0x40_0000 <= 2 * apart(ob, 0) + 0x40_0000 * o);
        assert(apart(qo * 1000, ab * 1000) * 0x40_0000 <= 2000 * apart(ob, 0) + 0xFA00_0000 * o);
        assert(apart(qo * 1000, 1055 * ob) * 0x40_0000 <= 3000 * apart(ob, 0) + 0xFA00_0000 * o);
        assert(apart(q * 1000, 1055 * b) * 0x40_0000 <= 3000 * apart(b, 0) + 0xFA00_0000)
            by (nonlinear_arith)
            requires
                apart(qo * 1000, 1055 * ob) * 0x40_0000 <= 3000 * apart(ob, 0) + 0xFA00_0000 * o,
                qo == q * o,
                ob == o * b,
                o > 0,
        ;
        minus_fine::<A>(risen, LIFT);
    }
}

/// What the first bands add up to, exactly: the products of weights and shares.
pub open spec fn pulled<A: Arithmetic>(weights: Seq<u32>, width: u32, hue: u32, n: int) -> int
    decreases n,
{
    if n <= 0 {
        0
    } else {
        pulled::<A>(weights, width, hue, n - 1) + value(weights[n - 1]) * value(
            share::<A>(width, hue, n - 1),
        )
    }
}

/// The sizes of those products, added up.
pub open spec fn load<A: Arithmetic>(weights: Seq<u32>, width: u32, hue: u32, n: int) -> int
    decreases n,
{
    if n <= 0 {
        0
    } else {
        load::<A>(weights, width, hue, n - 1) + apart(
            value(weights[n - 1]) * value(share::<A>(width, hue, n - 1)),
            0,
        )
    }
}

/// The bands pull on a hue by the sum of their weights times their shares, up to rounding.
pub proof fn bands_pull_by_their_weights<A: Arithmetic>(
    weights: Seq<u32>,
    width: u32,
    hue: u32,
    n: int,
)
    requires
        rounds::<A>(),
        0 <= n <= 8,
        weights.len() == 8,
        forall|i: int|
            0 <= i < n ==> single::is_finite(#[trigger] weights[i]) && single::is_finite(
                share::<A>(width, hue, i),
            ),
        0x10 * load::<A>(weights, width, hue, n) <= moderate() * unit(),
    ensures
        single::is_finite(pull::<A>(weights, width, hue, n)),
        0 <= load::<A>(weights, width, hue, n),
        apart(
            value(pull::<A>(weights, width, hue, n)) * unit(),
            pulled::<A>(weights, width, hue, n),
        ) * 0x40_0000 <= 6 * n * load::<A>(weights, width, hue, n) + 0x100_0000 * n * unit(),
        apart(pulled::<A>(weights, width, hue, n), 0) <= load::<A>(weights, width, hue, n),
    decreases n,
{
    room();
    small_numbers();
    let o = unit();
    if n > 0 {
        let before = pull::<A>(weights, width, hue, n - 1);
        let (w, s) = (weights[n - 1], share::<A>(width, hue, n - 1));
        load_grows::<A>(weights, width, hue, n - 1);
        let (old, all) = (load::<A>(weights, width, hue, n - 1), load::<A>(weights, width, hue, n));
        bands_pull_by_their_weights::<A>(weights, width, hue, n - 1);
        product::<A>(w, s);
        let term = times_of::<A>(w, s);
        let x = apart(value(w) * value(s), 0);
        let v = value(before);
        assert(apart(v, 0) * o == apart(v * o, 0)) by (nonlinear_arith)
            requires
                o > 0,
        ;
        assert(6 * (n - 1) * old <= 48 * old) by (nonlinear_arith)
            requires
                n <= 8,
                old >= 0,
        ;
        assert(0x100_0000 * (n - 1) * o <= 0x800_0000 * o) by (nonlinear_arith)
            requires
                n <= 8,
                o > 0,
        ;
        assert(apart(v, 0) * o <= 2 * old + 0x20 * o);
        assert(apart(v, 0) <= moderate() + 0x20) by (nonlinear_arith)
            requires
                apart(v, 0) * o <= 2 * old + 0x20 * o,
                2 * old <= moderate() * o,
                o > 0,
        ;
        plus_fine::<A>(before, term);
        let r = value(plus_of::<A>(before, term));
        sum_off(r, v, value(term), 2 * old + 0x20 * o, 2 * x + o, o);
        assert(6 * (n - 1) * old <= 6 * (n - 1) * all) by (nonlinear_arith)
            requires
                n >= 1,
                old <= all,
        ;
        assert(6 * n * all == 6 * (n - 1) * all + 6 * all) by (nonlinear_arith);
        assert(0x100_0000 * n * o == 0x100_0000 * (n - 1) * o + 0x100_0000 * o) by (nonlinear_arith);
    }
}

proof fn load_grows<A: Arithmetic>(weights: Seq<u32>, width: u32, hue: u32, n: int)
    ensures
        0 <= load::<A>(weights, width, hue, n),
    decreases n,
{
    if n > 0 {
        load_grows::<A>(weights, width, hue, n - 1);
    }
}

/// A hue-weighted pixel is its luminance times one plus the pull of the bands on its hue in
/// the measure of its chroma, held above zero, up to rounding.
pub proof fn hue_weighting_scales_the_luminance<A: Arithmetic>(
    params: HslWeightedParams,
    r: u32,
    g: u32,
    b: u32,
)
    requires
        rounds::<A>(),
        ({
            let width = times_of::<A>(
                times_of::<A>(single::TWO, params.sigma_deg),
                params.sigma_deg,
            );
            let (hue, chroma) = hue_and_chroma::<A>(r, g, b);
            let m = pull::<A>(params.hue_weights@, width, hue, 8);
            let l = dot::<A>(params.standard.coefficients(), r, g, b);
            &&& single::is_finite(chroma)
            &&& single::is_finite(m)
            &&& single::is_finite(l)
            &&& apart(value(m) * value(chroma), 0) <= moderate() * unit()
            &&& 0x10 * (apart(value(l), 0) * (unit() * unit() + apart(value(m) * value(chroma), 0)))
                <= moderate() * (unit() * unit())
        }),
    ensures
        ({
            let width = times_of::<A>(
                times_of::<A>(single::TWO, params.sigma_deg),
                params.sigma_deg,
            );
            let (hue, chroma) = hue_and_chroma::<A>(r, g, b);
            let m = value(pull::<A>(params.hue_weights@, width, hue, 8));
            let l = value(dot::<A>(params.standard.coefficients(), r, g, b));
            let (mc, o) = (m * value(chroma), unit());
            let out = hue_weighted::<A>(params, r, g, b);
            &&& single::is_finite(out)
            &&& apart(value(out) * (o * o), positive_part(l * (o * o + mc))) * 0x40_0000 <= 8 * (apart(
                l,
                0,
            ) * (o * o + apart(mc, 0))) + 0x100_0000 * (o * (apart(l, 0) + o))
        }),
{
    room();
    small_numbers();
    let o = unit();
    let width = times_of::<A>(times_of::<A>(single::TWO, params.sigma_deg), params.sigma_deg);
    let (hue, chroma) = hue_and_chroma::<A>(r, g, b);
    let m = pull::<A>(params.hue_weights@, width, hue, 8);
    let l = dot::<A>(params.standard.coefficients(), r, g, b);
    let mc = value(m) * value(chroma);
    product::<A>(m, chroma);
    let t = times_of::<A>(m, chroma);
    plus_fine::<A>(single::ONE, t);
    let f = plus_of::<A>(single::ONE, t);
    let x = apart(mc, 0);
    sum_off(value(f), o, value(t), o * o, 2 * x + o, o);
    let (fo, to, oo) = (value(f) * o, value(t) * o, o * o);
    let e = fo - (oo + mc);
    assert(o < oo) by (nonlinear_arith)
        requires
            oo == o * o,
            o > 1,
    ;
    assert(apart(e, 0) * 0x40_0000 <= 4 * (oo + x) + 0x80_0000 * o);
    // The product with the luminance.
    let a = value(l);
    let (af, al) = (a * value(f), apart(a, 0));
    let (whole, rest) = (a * (oo + mc), a * e);
    assert(af * o == whole + rest) by (nonlinear_arith)
        requires
            af == a * value(f),
            whole == a * (oo + mc),
            rest == a * e,
            e == value(f) * o - (oo + mc),
    ;
    let big = al * (oo + x);
    assert(apart(rest, 0) * 0x40_0000 <= 4 * big + 0x80_0000 * (o * al)) by (nonlinear_arith)
        requires
            rest == a * e,
            al == apart(a, 0),
            big == al * (oo + x),
            apart(e, 0) * 0x40_0000 <= 4 * (oo + x) + 0x80_0000 * o,
    ;
    assert(apart(whole, 0) <= big) by (nonlinear_arith)
        requires
            whole == a * (oo + mc),
            al == apart(a, 0),
            big == al * (oo + x),
            x == apart(mc, 0),
            oo >= 0,
    ;
    assert(al * oo <= big) by (nonlinear_arith)
        requires
            big == al * (oo + x),
            al >= 0,
            x >= 0,
    ;
    assert(o * al <= al * oo) by (nonlinear_arith)
        requires
            o < oo,
            al >= 0,
    ;
    assert(apart(af * o, 0) <= 8 * big);
    assert(apart(af, 0) <= moderate() * o) by (nonlinear_arith)
        requires
            apart(af * o, 0) <= 8 * big,
            0x10 * big <= moderate() * oo,
            oo == o * o,
            o > 0,
    ;
    product::<A>(l, f);
    let p = times_of::<A>(l, f);
    let po = value(p) * o;
    assert(apart(value(p) * oo, af * o) * 0x40_0000 <= apart(af * o, 0) + 0x40_0000 * oo)
        by (nonlinear_arith)
        requires
            apart(value(p) * o, af) * 0x40_0000 <= apart(af, 0) + 0x40_0000 * o,
            oo == o * o,
            o > 0,
    ;
    assert(o * (al + o) == o * al + oo) by (nonlinear_arith)
        requires
            oo == o * o,
    ;
    values_are_ordered(p, 0);
    values_are_ordered(0, p);
    let out = single::larger(p, 0);
    let n = value(p) * oo;
    assert(value(out) * oo == positive_part(n)) by (nonlinear_arith)
        requires
            value(out) == positive_part(value(p)),
            n == value(p) * oo,
            oo > 0,
    ;
    assert(apart(positive_part(n), positive_part(whole)) <= apart(n, whole));
}

/// A pixel is taken for hot, and becomes the median of its neighbourhood, where it lies further
/// from the median than the threshold and the relative share of the median's size together;
/// it stays as it is where it lies closer. Only within rounding of that limit either may come.
pub proof fn hot_pixels_stand_out<A: Arithmetic>(
    r: Raster<u32>,
    params: HotPixelParams,
    y: int,
    x: int,
    k: int,
)
    requires
        rounds::<A>(),
        inside(r.shape, y, x, k),
        single::is_finite(r.at(y, x, k)),
        single::is_finite(median_of(neighbourhood(r, y, x, k))),
        single::is_finite(params.threshold),
        single::is_finite(params.relative),
        0 <= value(params.threshold) <= moderate(),
        0 <= value(params.relative),
        apart(value(r.at(y, x, k)), 0) <= moderate(),
        apart(value(median_of(neighbourhood(r, y, x, k))), 0) <= moderate(),
        value(params.relative) * apart(value(median_of(neighbourhood(r, y, x, k))), 0) <= moderate()
            * unit(),
    ensures
        ({
            let (p, m) = (r.at(y, x, k), median_of(neighbourhood(r, y, x, k)));
            let out = treated_raster::<A>(r, params).at(y, x, k);
            let o = unit();
            let away = apart(value(p), value(m)) * o;
            let limit = value(params.threshold) * o + value(params.relative) * apart(value(m), 0);
            let slack = 4 * (away + limit) + 0x100_0000 * o;
            &&& (away - limit) * 0x40_0000 > slack ==> out == m
            &&& (limit - away) * 0x40_0000 > slack ==> out == p
        }),
{
    tabulated(r.shape, |y: int, x: int, k: int| treated::<A>(r, params, y, x, k));
    room();
    let (p, m) = (r.at(y, x, k), median_of(neighbourhood(r, y, x, k)));
    let o = unit();
    let size = single::magnitude(m);
    magnitude_is_size(m);
    product::<A>(params.relative, size);
    let part = times_of::<A>(params.relative, size);
    plus_fine::<A>(params.threshold, part);
    let limit = plus_of::<A>(params.threshold, part);
    let x1 = value(params.relative) * value(size);
    assert(x1 >= 0) by (nonlinear_arith)
        requires
            x1 == value(params.relative) * value(size),
            value(params.relative) >= 0,
            value(size) >= 0,
    ;
    let th = value(params.threshold);
    assert(th * o >= 0) by (nonlinear_arith)
        requires
            th >= 0,
            o > 0,
    ;
    sum_off(value(limit), th, value(part), th * o, 2 * x1 + o, o);
    minus_fine::<A>(p, m);
    let d = minus_of::<A>(p, m);
    magnitude_is_size(d);
    let away = apart(value(p), value(m));
    let span = value(single::magnitude(d));
    assert(apart(span, away) * 0x40_0000 <= away + 0x40_0000);
    let (so, ao, lo) = (span * o, away * o, value(limit) * o);
    assert(apart(so, ao) * 0x40_0000 <= ao + 0x40_0000 * o) by (nonlinear_arith)
        requires
            apart(span, away) * 0x40_0000 <= away + 0x40_0000,
            so == span * o,
            ao == away * o,
            o > 0,
    ;
    values_are_ordered(limit, single::magnitude(d));
    assert(value(limit) < span <==> lo < so) by (nonlinear_arith)
        requires
            so == span * o,
            lo == value(limit) * o,
            o > 0,
    ;
}

/// The magnitude of a number is its size.
proof fn magnitude_is_size(x: u32)
    requires
        single::is_finite(x),
    ensures
        single::is_finite(single::magnitude(x)),
        value(single::magnitude(x)) == apart(value(x), 0),
{
    negated_value(x);
    values_are_ordered(0, x);
}

/// Whether a place is that of a sample in a range divided into `count` parts, in units of a
/// part: `(v - min) / (max - min) * count`, off by a `2^17`th of the whole range at most.
pub open spec fn is_place(at: int, v: int, min: int, max: int, count: int) -> bool {
    apart(at * (max - min), ((v - min) * count) * unit()) * 0x2_0000 <= (count * unit()) * (max
        - min)
}

/// The place of a sample in a range.
proof fn place_is_close<A: Arithmetic>(v: u32, min: u32, max: u32, count: u64)
    requires
        rounds::<A>(),
        single::is_finite(v),
        single::is_finite(min),
        single::is_finite(max),
        value(min) <= value(v) <= value(max),
        value(max) - value(min) >= 0x1000_0000_0000,
        apart(value(min), 0) <= moderate(),
        apart(value(max), 0) <= moderate(),
        1 <= count < 0x80_0000,
    ensures
        ({
            let t = over_of::<A>(minus_of::<A>(v, min), minus_of::<A>(max, min));
            let p = times_of::<A>(t, of_count_of::<A>(count));
            &&& single::is_finite(p)
            &&& 0 <= value(p) < 0x200_0000 * unit()
            &&& is_place(value(p), value(v), value(min), value(max), count as int)
            &&& single::is_finite(of_count_of::<A>(count))
            &&& value(of_count_of::<A>(count)) == count * unit()
        }),
{
    room();
    small_numbers();
    half_is_positive();
    let (o, c) = (unit(), count as int);
    let (d, n) = (value(max) - value(min), value(v) - value(min));
    minus_fine::<A>(max, min);
    minus_fine::<A>(v, min);
    let (den, num) = (minus_of::<A>(max, min), minus_of::<A>(v, min));
    let (dd, nn) = (value(den), value(num));
    minus_rounds::<A>(v, min);
    rounded_at_least(num, n, 1, 0);
    values_are_ordered(0, num);
    assert(apart(dd, d) * 0x20_0000 <= d);
    assert(apart(nn, n) * 0x20_0000 <= d);
    let (no, od) = (nn * o, o * d);
    assert(no >= 0 && no <= 2 * od && n * o <= od) by (nonlinear_arith)
        requires
            no == nn * o,
            od == o * d,
            0 <= nn <= 2 * d,
            n <= d,
            o > 0,
    ;
    assert(2 * od <= (4 * o) * dd && (4 * o) * dd < ceiling() * dd) by (nonlinear_arith)
        requires
            od == o * d,
            d <= 2 * dd,
            dd > 0,
            4 * o < ceiling(),
            o > 0,
    ;
    over_fine::<A>(num, den);
    over_rounds::<A>(num, den);
    let quotient = over_of::<A>(num, den);
    let t = value(quotient);
    assert(no >= 0 * dd);
    rounded_at_least(quotient, nn * (2 * half()), dd, 0);
    values_are_ordered(0, quotient);
    assert(t <= 8 * o) by (nonlinear_arith)
        requires
            apart(t * dd, no) * 0x40_0000 <= no + 0x40_0000 * dd,
            0 <= no <= 2 * od,
            2 * od <= (4 * o) * dd,
            dd > 0,
            o >= 0x1_0000_0000,
    ;
    // The quotient times the exact range.
    let (td, tdd, slip) = (t * d, t * dd, t * (d - dd));
    assert(td == tdd + slip) by (nonlinear_arith)
        requires
            td == t * d,
            tdd == t * dd,
            slip == t * (d - dd),
    ;
    assert(apart(slip, 0) * 0x20_0000 <= 8 * od) by (nonlinear_arith)
        requires
            slip == t * (d - dd),
            0 <= t <= 8 * o,
            apart(dd, d) * 0x20_0000 <= d,
            od == o * d,
            o > 0,
            d > 0,
    ;
    assert(apart(no, n * o) * 0x20_0000 <= od) by (nonlinear_arith)
        requires
            no == nn * o,
            od == o * d,
            apart(nn, n) * 0x20_0000 <= d,
            o > 0,
    ;
    assert(0x40_0000 * dd <= od) by (nonlinear_arith)
        requires
            od == o * d,
            dd <= 2 * d,
            o >= 0x1_0000_0000,
            d > 0,
    ;
    assert(apart(td, n * o) * 0x20_0000 <= 12 * od);
    // Times the number of parts.
    whole_halves::<A>(count);
    let parts = of_count_of::<A>(count);
    assert(value(parts) == c * o) by {
        assert((2 * c) * half() == c * o) by (nonlinear_arith)
            requires
                o == 2 * half(),
        ;
    }
    let tc = t * c;
    assert(t * (c * o) == tc * o && 0 <= tc <= 0x800_0000 * o) by (nonlinear_arith)
        requires
            tc == t * c,
            0 <= t <= 8 * o,
            1 <= c < 0x80_0000,
    ;
    assert(apart(tc * o, 0) < ceiling() * o) by (nonlinear_arith)
        requires
            0 <= tc <= 0x800_0000 * o,
            0x1_0000_0000 * o <= ceiling(),
            o > 0,
    ;
    times_fine::<A>(quotient, parts);
    times_rounds::<A>(quotient, parts);
    let product = times_of::<A>(quotient, parts);
    let p = value(product);
    assert(0 <= tc * o) by (nonlinear_arith)
        requires
            tc >= 0,
            o > 0,
    ;
    rounded_at_least(product, t * (c * o), 2 * half(), 0);
    values_are_ordered(0, product);
    assert(apart(p, tc) * 0x40_0000 <= tc + 0x40_0000) by (nonlinear_arith)
        requires
            apart(p * o, tc * o) * 0x40_0000 <= tc * o + 0x40_0000 * o,
            tc >= 0,
            o > 0,
    ;
    finish_place(p, t, c, d, n, o);
}

proof fn finish_place(p: int, t: int, c: int, d: int, n: int, o: int)
    requires
        1 <= c < 0x80_0000,
        d >= 0x1000_0000_0000,
        0 <= n <= d,
        o >= 0x1_0000_0000,
        0 <= t <= 8 * o,
        p >= 0,
        apart(t * d, n * o) * 0x20_0000 <= 12 * (o * d),
        apart(p, t * c) * 0x40_0000 <= t * c + 0x40_0000,
    ensures
        apart(p * d, (n * c) * o) * 0x2_0000 <= (c * o) * d,
        p < 0x200_0000 * o,
{
    let (td, no, od, tc) = (t * d, n * o, o * d, t * c);
    assert(no <= od && od >= 0x1_0000_0000 * d) by (nonlinear_arith)
        requires
            no == n * o,
            od == o * d,
            n <= d,
            o >= 0x1_0000_0000,
            d > 0,
    ;
    assert(td <= 2 * od);
    assert(t <= 2 * o) by (nonlinear_arith)
        requires
            td == t * d,
            od == o * d,
            td <= 2 * od,
            d > 0,
    ;
    let (cod, tcd) = (c * od, tc * d);
    assert(tcd == c * td && apart(c * td, c * no) * 0x20_0000 <= 12 * cod && 0 <= tcd <= 2 * cod)
        by (nonlinear_arith)
        requires
            tcd == tc * d,
            tc == t * c,
            td == t * d,
            cod == c * od,
            apart(td, no) * 0x20_0000 <= 12 * od,
            0 <= td <= 2 * od,
            c >= 1,
    ;
    let pd = p * d;
    assert(apart(pd, tcd) * 0x40_0000 <= tcd + 0x40_0000 * d) by (nonlinear_arith)
        requires
            pd == p * d,
            tcd == tc * d,
            apart(p, tc) * 0x40_0000 <= tc + 0x40_0000,
            d > 0,
    ;
    assert(cod >= od) by (nonlinear_arith)
        requires
            cod == c * od,
            c >= 1,
            od >= 0,
    ;
    assert((n * c) * o == c * no && (c * o) * d == cod) by (nonlinear_arith)
        requires
            no == n * o,
            cod == c * od,
            od == o * d,
    ;
    assert(tc <= 0xFF_FFFE * o) by (nonlinear_arith)
        requires
            tc == t * c,
            0 <= t <= 2 * o,
            c <= 0x7F_FFFF,
    ;
}

/// A sample inside the range of a histogram is counted in the bin that its place in the range
/// falls into, up to rounding; the last bin holds the end of the range.
pub proof fn samples_fall_into_their_bins<A: Arithmetic>(v: u32, min: u32, max: u32, bins: u64) -> (at:
    int)
    requires
        rounds::<A>(),
        truncates::<A>(),
        single::is_finite(v),
        single::is_finite(min),
        single::is_finite(max),
        value(min) <= value(v) <= value(max),
        value(max) - value(min) >= 0x1000_0000_0000,
        apart(value(min), 0) <= moderate(),
        apart(value(max), 0) <= moderate(),
        1 <= bins <= MAX_BINS,
    ensures
        is_place(at, value(v), value(min), value(max), bins as int),
        ({
            let s = slot::<A>(v, min, max, bins as int);
            &&& 0 <= s < bins
            &&& s * unit() <= at
            &&& s < bins - 1 ==> at < (s + 1) * unit()
        }),
{
    room();
    place_is_close::<A>(v, min, max, bins);
    values_are_ordered(v, min);
    values_are_ordered(max, v);
    let t = over_of::<A>(minus_of::<A>(v, min), minus_of::<A>(max, min));
    let p = times_of::<A>(t, of_count_of::<A>(bins));
    count_is_the_whole_part::<A>(p);
    let i = to_count_of::<A>(p) as int;
    let (o, b) = (unit(), bins as int);
    if i >= b {
        assert((b - 1) * o <= i * o) by (nonlinear_arith)
            requires
                b <= i,
                o > 0,
        ;
    }
    value(p)
}

/// A sample inside the domain of a table becomes what lies between two neighbouring entries at
/// its place: by the part of the way from the one to the other, up to rounding. At the end of
/// the domain it becomes the last entry.
pub proof fn tables_are_read_between_entries<A: Arithmetic>(
    v: u32,
    lut: Seq<u32>,
    min: u32,
    max: u32,
) -> (at: int)
    requires
        rounds::<A>(),
        truncates::<A>(),
        single::is_finite(v),
        single::is_finite(min),
        single::is_finite(max),
        value(min) <= value(v) <= value(max),
        value(max) - value(min) >= 0x1000_0000_0000,
        apart(value(min), 0) <= moderate(),
        apart(value(max), 0) <= moderate(),
        2 <= lut.len() <= 0x80_0000,
        forall|i: int|
            0 <= i < lut.len() ==> single::is_finite(#[trigger] lut[i]) && 0x10 * apart(
                value(lut[i]),
                0,
            ) <= moderate(),
    ensures
        is_place(at, value(v), value(min), value(max), lut.len() - 1),
        ({
            let (o, n) = (unit(), lut.len() - 1);
            let out = looked_up::<A>(v, lut, min, max);
            &&& at >= n * o ==> out == lut[n]
            &&& at < n * o ==> {
                let i = at / o;
                let (a, b, f) = (value(lut[i]), value(lut[i + 1]), at - i * o);
                &&& 0 <= i < n
                &&& 0 <= f < o
                &&& single::is_finite(out)
                &&& apart(value(out) * o, (o - f) * a + f * b) * 0x40_0000 <= 16 * (o * (apart(a, 0)
                    + apart(b, 0))) + 0x200_0000 * o
            }
        }),
{
    room();
    small_numbers();
    half_is_positive();
    let count = (lut.len() - 1) as u64;
    place_is_close::<A>(v, min, max, count);
    let t = over_of::<A>(minus_of::<A>(v, min), minus_of::<A>(max, min));
    let p = times_of::<A>(t, of_count_of::<A>(count));
    let (at, o, n) = (value(p), unit(), count as int);
    assert(p == position::<A>(v, lut.len() as int, min, max));
    values_are_ordered(0, p);
    values_are_ordered(of_count_of::<A>(count), p);
    assert(n * o > 0) by (nonlinear_arith)
        requires
            n >= 1,
            o > 0,
    ;
    count_is_the_whole_part::<A>(p);
    let i = to_count_of::<A>(p) as int;
    let j = at / o;
    assert(i == j && 0 <= j && j * o <= at < j * o + o) by (nonlinear_arith)
        requires
            i * o <= at < (i + 1) * o,
            j == at / o,
            at >= 0,
            o > 0,
    ;
    if at < n * o {
        assert(j < n) by (nonlinear_arith)
            requires
                j * o <= at,
                at < n * o,
                o > 0,
        ;
        let (first, second) = (lut[j], lut[j + 1]);
        let (a, b, f) = (value(first), value(second), at - j * o);
        if at == 0 {
            assert(j == 0) by (nonlinear_arith)
                requires
                    j == at / o,
                    at == 0,
                    o > 0,
            ;
            assert(f == 0);
            assert((o - f) * a + f * b == a * o) by (nonlinear_arith)
                requires
                    f == 0,
            ;
            assert(o * (apart(a, 0) + apart(b, 0)) >= 0) by (nonlinear_arith)
                requires
                    o > 0,
            ;
        } else {
            whole_halves::<A>(j as u64);
            let base = of_count_of::<A>(j as u64);
            assert((2 * j) * half() == j * o) by (nonlinear_arith)
                requires
                    o == 2 * half(),
            ;
            minus_fine::<A>(p, base);
            let part = minus_of::<A>(p, base);
            blend_is_close::<A>(part, first, second, f);
        }
    }
    at
}

/// A blend of two entries is close to the exact one.
proof fn blend_is_close<A: Arithmetic>(part: u32, first: u32, second: u32, f: int)
    requires
        rounds::<A>(),
        single::is_finite(part),
        single::is_finite(first),
        single::is_finite(second),
        0 <= f < unit(),
        apart(value(part), f) * 0x40_0000 <= f + 0x40_0000,
        0x10 * apart(value(first), 0) <= moderate(),
        0x10 * apart(value(second), 0) <= moderate(),
    ensures
        ({
            let out = plus_of::<A>(
                times_of::<A>(minus_of::<A>(single::ONE, part), first),
                times_of::<A>(part, second),
            );
            let (a, b, o) = (value(first), value(second), unit());
            &&& single::is_finite(out)
            &&& apart(value(out) * o, (o - f) * a + f * b) * 0x40_0000 <= 16 * (o * (apart(a, 0)
                + apart(b, 0))) + 0x200_0000 * o
        }),
{
    room();
    small_numbers();
    let o = unit();
    let (a, b, g) = (value(first), value(second), value(part));
    minus_fine::<A>(single::ONE, part);
    let rest = minus_of::<A>(single::ONE, part);
    let w = value(rest);
    assert(apart(g, f) * 0x40_0000 <= 2 * o);
    assert(apart(w, o - f) * 0x40_0000 <= 6 * o);
    weighed::<A>(rest, first, o - f);
    weighed::<A>(part, second, f);
    let (p, q) = (times_of::<A>(rest, first), times_of::<A>(part, second));
    plus_fine::<A>(p, q);
    let (x, y) = (o * apart(a, 0), o * apart(b, 0));
    sum_off(value(plus_of::<A>(p, q)), value(p), value(q), 3 * x + 2 * o, 3 * y + 2 * o, o);
    assert(o * (apart(a, 0) + apart(b, 0)) == x + y) by (nonlinear_arith)
        requires
            x == o * apart(a, 0),
            y == o * apart(b, 0),
    ;
}

/// A product by a weight that is close is close.
proof fn weighed<A: Arithmetic>(weight: u32, entry: u32, exact: int)
    requires
        rounds::<A>(),
        single::is_finite(weight),
        single::is_finite(entry),
        0 <= exact <= unit(),
        apart(value(weight), exact) * 0x40_0000 <= 6 * unit(),
        0x10 * apart(value(entry), 0) <= moderate(),
    ensures
        ({
            let p = times_of::<A>(weight, entry);
            let (a, o) = (value(entry), unit());
            &&& single::is_finite(p)
            &&& apart(value(p), 0) <= moderate()
            &&& apart(value(p), 0) * o <= 3 * (o * apart(a, 0)) + 2 * o
            &&& apart(value(p) * o, exact * a) * 0x40_0000 <= 8 * (o * apart(a, 0)) + 0x40_0000 * o
        }),
{
    room();
    let (w, a, o) = (value(weight), value(entry), unit());
    let s = o * apart(a, 0);
    let (wa, ea) = (w * a, exact * a);
    assert(apart(wa, 0) <= 2 * s && apart(wa, ea) * 0x40_0000 <= 6 * s && apart(ea, 0) <= s)
        by (nonlinear_arith)
        requires
            wa == w * a,
            ea == exact * a,
            s == o * apart(a, 0),
            0 <= exact <= o,
            apart(w, exact) * 0x40_0000 <= 6 * o,
            o > 0,
    ;
    assert(4 * s <= moderate() * o) by (nonlinear_arith)
        requires
            s == o * apart(a, 0),
            0x10 * apart(a, 0) <= moderate(),
            o > 0,
    ;
    product::<A>(weight, entry);
    let p = value(times_of::<A>(weight, entry));
    assert(apart(p, 0) * o == apart(p * o, 0)) by (nonlinear_arith)
        requires
            o > 0,
    ;
    assert(apart(p, 0) * o <= 3 * s + 2 * o);
    assert(apart(p, 0) <= moderate()) by (nonlinear_arith)
        requires
            apart(p, 0) * o <= 3 * s + 2 * o,
            4 * s <= moderate() * o,
            moderate() >= 0x100,
            o > 0,
    ;
}

} // verus!
