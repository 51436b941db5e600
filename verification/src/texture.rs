//! What grain adds to a sample: noise of unit variance, under an envelope that is one at
//! mid-grey and falls off as a parabola towards black and white.

use vstd::arithmetic::power2::{
    lemma2_to64, lemma2_to64_rest, lemma_pow2_adds, lemma_pow2_pos, lemma_pow2_strictly_increases,
    pow2,
};
use vstd::prelude::*;

use crate::arith::{
    minus64_of, minus_of, narrow_of, of_count64_of, over64_of, plus_of, root64_of, times_of,
    Arithmetic,
};
use crate::double;
use crate::film_grain::{
    band_at, grained, grained_at, inner_radius, noise_of, normalisation_of, outer_radius,
    window_pixels, GrainParams, MIN_POSITIVE64,
};
use crate::integral::{summed, Measure};
use crate::raster::{inside, tabulated, Raster};
use crate::rounding::{
    apart, ceiling, computes_exactly, computes_finely, count_exact64, double_of, grain, grains,
    half_is_positive, minus_halves, minus_near, minus_relative64, narrow_off, one_is_one, one_value,
    over_off64, over_relative64, plus_fine, root_is_close, rounds, size64, small_numbers,
    small_numbers64, step64, takes_roots, times_exact, times_fine, times_halves, times_one, unit,
    unit64, value, value64, values_are_ordered, values_are_ordered64, LARGEST,
};
use crate::single;

verus! {

/// The size of numbers that grain is stated for: `2^40`.
pub open spec fn large() -> int {
    pow2(189) as int
}

/// A luminance cut to the range from black to white, exactly.
pub open spec fn tone(l: int) -> int {
    if l < 0 {
        0
    } else if l > unit() {
        unit()
    } else {
        l
    }
}

/// The larger of a number and zero.
pub open spec fn positive_part(n: int) -> int {
    if n < 0 {
        0
    } else {
        n
    }
}

proof fn sizes()
    ensures
        unit() == 0x40_0000 * grain(),
        grain() >= 0x1_0000_0000,
        large() == 0x100_0000_0000 * unit(),
        0x100_0000_0000 * (0x100_0000_0000 * (0x100_0000_0000 * unit())) * 16 <= ceiling(),
{
    grains();
    lemma2_to64();
    lemma2_to64_rest();
    lemma_pow2_adds(1, 148);
    lemma_pow2_adds(40, 149);
    lemma_pow2_adds(40, 189);
    lemma_pow2_adds(40, 229);
    lemma_pow2_adds(4, 269);
    lemma_pow2_adds(23, 253);
    lemma_pow2_strictly_increases(273, 276);
    lemma_pow2_strictly_increases(32, 127);
}

/// A product keeps close to the exact one: of a number that is `x / d` up to `e`, and
/// another one.
proof fn product_near<A: Arithmetic>(a: u32, y: u32, x: int, d: int, e: int)
    requires
        rounds::<A>(),
        single::is_finite(a),
        single::is_finite(y),
        d > 0,
        e >= 0,
        apart(value(a) * d, x) * 0x40_0000 <= e,
        apart(value(a) * value(y), 0) < ceiling() * unit(),
    ensures
        ({
            let p = times_of::<A>(a, y);
            &&& single::is_finite(p)
            &&& apart(value(p) * (d * unit()), x * value(y)) * 0x40_0000 <= e * apart(value(y), 0) + (
            apart(value(a), 0) * d) * apart(value(y), 0) + 0x40_0000 * (d * unit())
            &&& (apart(value(a), 0) * d) * 0x40_0000 <= apart(x, 0) * 0x40_0000 + e
        }),
{
    half_is_positive();
    times_fine::<A>(a, y);
    let (p, v, w, o) = (value(times_of::<A>(a, y)), value(a), value(y), unit());
    let (f, vw) = (p * o - v * w, v * w);
    let b = apart(v, 0) * apart(w, 0);
    assert(apart(vw, 0) == b) by (nonlinear_arith)
        requires
            vw == v * w,
            b == apart(v, 0) * apart(w, 0),
    ;
    assert(-(b * d + 0x40_0000 * (d * o)) <= (f * d) * 0x40_0000 <= b * d + 0x40_0000 * (d * o))
        by (nonlinear_arith)
        requires
            -(b + 0x40_0000 * o) <= f * 0x40_0000 <= b + 0x40_0000 * o,
            d > 0,
    ;
    assert(b * d == (apart(v, 0) * d) * apart(w, 0)) by (nonlinear_arith)
        requires
            b == apart(v, 0) * apart(w, 0),
    ;
    let g = v * d - x;
    assert(-(e * apart(w, 0)) <= (g * w) * 0x40_0000 <= e * apart(w, 0)) by (nonlinear_arith)
        requires
            -e <= g * 0x40_0000 <= e,
            e >= 0,
    ;
    assert(p * (d * o) == f * d + g * w + x * w) by (nonlinear_arith)
        requires
            f == p * o - v * w,
            g == v * d - x,
    ;
    assert(apart(v, 0) * d == apart(v * d, 0)) by (nonlinear_arith)
        requires
            d > 0,
    ;
}

/// The envelope of a tone.
spec fn envelope<A: Arithmetic>(t: u32) -> u32 {
    times_of::<A>(times_of::<A>(single::FOUR, t), minus_of::<A>(single::ONE, t))
}

/// The envelope is four times the tone and what it lacks to white, up to a few grains.
proof fn envelope_is_a_parabola<A: Arithmetic>(t: u32)
    requires
        rounds::<A>(),
        single::is_finite(t),
        0 <= value(t) <= unit(),
    ensures
        single::is_finite(envelope::<A>(t)),
        apart(value(envelope::<A>(t)) * unit(), 4 * (value(t) * (unit() - value(t)))) * 0x40_0000
            <= 8 * (unit() * unit()),
        0 <= 4 * (value(t) * (unit() - value(t))) <= unit() * unit(),
{
    sizes();
    small_numbers();
    let (o, g, n) = (unit(), grain(), value(t));
    values_are_ordered(single::ONE, 0x7F00_0000);
    let c = double_of_small(t);
    let d = double_of_small(c);
    assert(value(single::FOUR) == 4 * o);
    assert((4 * n) * o == (4 * o) * n) by (nonlinear_arith);
    times_exact::<A>(single::FOUR, t, d);
    let rise = times_of::<A>(single::FOUR, t);
    minus_near::<A>(single::ONE, t);
    let fall = minus_of::<A>(single::ONE, t);
    let (r, f, e) = (4 * n, value(fall), value(fall) - (o - n));
    assert(r * f == 4 * (n * (o - n)) + r * e) by (nonlinear_arith)
        requires
            r == 4 * n,
            e == f - (o - n),
    ;
    assert(-(4 * (o * g)) <= r * e <= 4 * (o * g)) by (nonlinear_arith)
        requires
            0 <= r <= 4 * o,
            -g <= e <= g,
    ;
    assert(0 <= 4 * (n * (o - n)) <= o * o) by (nonlinear_arith)
        requires
            0 <= n <= o,
    ;
    assert(o * o == 0x40_0000 * (o * g)) by (nonlinear_arith)
        requires
            o == 0x40_0000 * g,
    ;
    let og = o * g;
    assert(og >= o) by (nonlinear_arith)
        requires
            og == o * g,
            g >= 1,
            o > 0,
    ;
    assert(2 * (o * o) < ceiling() * o) by (nonlinear_arith)
        requires
            2 * o < ceiling(),
            o > 0,
    ;
    times_fine::<A>(rise, fall);
    assert(0x40_0000 * o <= 0x40_0000 * og);
}

/// A small number has a double.
proof fn double_of_small(t: u32) -> (c: u32)
    requires
        single::is_finite(t),
        0 <= value(t) <= 2 * unit(),
    ensures
        single::is_finite(c),
        value(c) == 2 * value(t),
{
    small_numbers();
    values_are_ordered(single::FOUR, LARGEST);
    double_of(t)
}

/// The gain of a sample's noise: intensity, envelope and normalisation, multiplied.
spec fn gain<A: Arithmetic>(l: u32, params: GrainParams) -> u32 {
    let t = single::clamped(l, 0, single::ONE);
    times_of::<A>(
        times_of::<A>(params.intensity, envelope::<A>(t)),
        normalisation_of::<A>(params.size_pixels),
    )
}

/// The gain is close to the exact product.
proof fn gain_is_close<A: Arithmetic>(l: u32, params: GrainParams)
    requires
        rounds::<A>(),
        single::is_finite(l),
        single::is_finite(params.intensity),
        apart(value(params.intensity), 0) <= large(),
        single::is_finite(normalisation_of::<A>(params.size_pixels)),
        apart(value(normalisation_of::<A>(params.size_pixels)), 0) <= large(),
    ensures
        ({
            let o = unit();
            let (i, n) = (
                value(params.intensity),
                value(normalisation_of::<A>(params.size_pixels)),
            );
            let t = tone(value(l));
            let x = (i * (4 * (t * (o - t)))) * n;
            let (oo, ooo) = (o * o, o * (o * o));
            let e = 12 * (oo * (apart(i, 0) * apart(n, 0))) + 0x40_0002 * (oo * apart(n, 0)) + 0x40_0000 * ooo;
            &&& single::is_finite(gain::<A>(l, params))
            &&& apart(value(gain::<A>(l, params)) * ooo, x) * 0x40_0000 <= e
            &&& apart(x, 0) <= oo * (apart(i, 0) * apart(n, 0))
        }),
{
    sizes();
    small_numbers();
    values_are_ordered(l, 0);
    values_are_ordered(single::ONE, l);
    let (o, m) = (unit(), 0x100_0000_0000int);
    let tt = single::clamped(l, 0, single::ONE);
    let t = tone(value(l));
    assert(value(tt) == t);
    envelope_is_a_parabola::<A>(tt);
    let env = envelope::<A>(tt);
    let norm = normalisation_of::<A>(params.size_pixels);
    let (i, n) = (value(params.intensity), value(norm));
    let (ia, na) = (apart(i, 0), apart(n, 0));
    let p = 4 * (t * (o - t));
    let (oo, ooo) = (o * o, o * (o * o));
    assert(oo > 0 && ooo > 0) by (nonlinear_arith)
        requires
            oo == o * o,
            ooo == o * oo,
            o > 0,
    ;
    // Intensity times envelope.
    let ea = apart(value(env), 0);
    assert(ea * o <= 2 * oo) by (nonlinear_arith)
        requires
            apart(value(env) * o, p) * 0x40_0000 <= 8 * oo,
            0 <= p <= oo,
            ea == apart(value(env), 0),
            o > 0,
            oo > 0,
    ;
    assert(ea <= 2 * o) by (nonlinear_arith)
        requires
            ea * o <= 2 * oo,
            oo == o * o,
            o > 0,
    ;
    assert(apart(value(env) * i, 0) <= (2 * o) * (m * o)) by (nonlinear_arith)
        requires
            ea == apart(value(env), 0),
            ea <= 2 * o,
            apart(i, 0) <= m * o,
            o > 0,
    ;
    assert((2 * o) * (m * o) < ceiling() * o) by (nonlinear_arith)
        requires
            2 * (m * o) < ceiling(),
            o > 0,
    ;
    commuted_product::<A>(params.intensity, env, p, o, 8 * oo);
    let first = times_of::<A>(params.intensity, env);
    let f = value(first);
    let e1 = 10 * (oo * ia) + 0x40_0000 * oo;
    assert((8 * oo) * ia == 8 * (oo * ia)) by (nonlinear_arith);
    assert((ea * o) * ia <= 2 * (oo * ia)) by (nonlinear_arith)
        requires
            ea * o <= 2 * oo,
            ia >= 0,
    ;
    assert(p * i == i * p) by (nonlinear_arith);
    assert(apart(f * oo, i * p) * 0x40_0000 <= e1);
    // Times the normalisation.
    assert(apart(i * p, 0) <= oo * ia) by (nonlinear_arith)
        requires
            0 <= p <= oo,
            ia == apart(i, 0),
    ;
    let fa = apart(f, 0);
    assert(oo * ia >= 0) by (nonlinear_arith)
        requires
            oo > 0,
            ia >= 0,
    ;
    assert(fa * oo == apart(f * oo, 0)) by (nonlinear_arith)
        requires
            fa == apart(f, 0),
            oo > 0,
    ;
    assert(fa * oo <= 2 * (oo * ia) + 2 * oo);
    assert(fa <= 2 * ia + 2) by (nonlinear_arith)
        requires
            fa * oo <= 2 * (oo * ia) + 2 * oo,
            oo > 0,
    ;
    assert(apart(f * n, 0) <= (4 * (m * o)) * (m * o)) by (nonlinear_arith)
        requires
            fa == apart(f, 0),
            fa <= 4 * (m * o),
            apart(n, 0) <= m * o,
            m > 0,
            o > 0,
    ;
    assert((4 * (m * o)) * (m * o) < ceiling() * o) by (nonlinear_arith)
        requires
            4 * (m * (m * o)) < ceiling(),
            o > 0,
    ;
    product_near::<A>(first, norm, i * p, oo, e1);
    assert(oo * o == ooo) by (nonlinear_arith)
        requires
            ooo == o * oo,
    ;
    let on = oo * (ia * na);
    assert(e1 * na == 10 * on + 0x40_0000 * (oo * na)) by (nonlinear_arith)
        requires
            e1 == 10 * (oo * ia) + 0x40_0000 * oo,
            on == oo * (ia * na),
    ;
    // The bound on the first product, sharper.
    gain_tail(fa, oo, ia, na, on);
    assert(apart((i * p) * n, 0) <= on) by (nonlinear_arith)
        requires
            apart(i * p, 0) <= oo * ia,
            na == apart(n, 0),
            on == oo * (ia * na),
    ;
}

proof fn gain_tail(fa: int, oo: int, ia: int, na: int, on: int)
    requires
        0 <= fa,
        0 < oo,
        0 <= ia,
        0 <= na,
        fa * oo <= 2 * (oo * ia) + 2 * oo,
        on == oo * (ia * na),
    ensures
        (fa * oo) * na <= 2 * on + 2 * (oo * na),
        on >= 0,
{
    assert((fa * oo) * na <= 2 * on + 2 * (oo * na)) by (nonlinear_arith)
        requires
            fa * oo <= 2 * (oo * ia) + 2 * oo,
            0 <= na,
            on == oo * (ia * na),
    ;
    assert(on >= 0) by (nonlinear_arith)
        requires
            on == oo * (ia * na),
            oo > 0,
            ia >= 0,
            na >= 0,
    ;
}

/// A product keeps close to the exact one, the number that is known up to an error second.
proof fn commuted_product<A: Arithmetic>(y: u32, a: u32, x: int, d: int, e: int)
    requires
        rounds::<A>(),
        single::is_finite(a),
        single::is_finite(y),
        d > 0,
        e >= 0,
        apart(value(a) * d, x) * 0x40_0000 <= e,
        apart(value(a) * value(y), 0) < ceiling() * unit(),
    ensures
        ({
            let p = times_of::<A>(y, a);
            &&& single::is_finite(p)
            &&& apart(value(p) * (d * unit()), x * value(y)) * 0x40_0000 <= e * apart(value(y), 0) + (
            apart(value(a), 0) * d) * apart(value(y), 0) + 0x40_0000 * (d * unit())
        }),
{
    half_is_positive();
    let (v, w, o) = (value(a), value(y), unit());
    assert(v * w == w * v) by (nonlinear_arith);
    times_fine::<A>(y, a);
    let p = value(times_of::<A>(y, a));
    let (f, vw) = (p * o - v * w, v * w);
    let b = apart(v, 0) * apart(w, 0);
    assert(apart(vw, 0) == b) by (nonlinear_arith)
        requires
            vw == v * w,
            b == apart(v, 0) * apart(w, 0),
    ;
    assert(-(b * d + 0x40_0000 * (d * o)) <= (f * d) * 0x40_0000 <= b * d + 0x40_0000 * (d * o))
        by (nonlinear_arith)
        requires
            -(b + 0x40_0000 * o) <= f * 0x40_0000 <= b + 0x40_0000 * o,
            d > 0,
    ;
    assert(b * d == (apart(v, 0) * d) * apart(w, 0)) by (nonlinear_arith)
        requires
            b == apart(v, 0) * apart(w, 0),
    ;
    let g = v * d - x;
    assert(-(e * apart(w, 0)) <= (g * w) * 0x40_0000 <= e * apart(w, 0)) by (nonlinear_arith)
        requires
            -e <= g * 0x40_0000 <= e,
            e >= 0,
    ;
    assert(p * (d * o) == f * d + g * w + x * w) by (nonlinear_arith)
        requires
            f == p * o - v * w,
            g == v * d - x,
    ;
}

/// Whether a grained sample is what intensity, tone and noise make of it, up to rounding: the
/// luminance plus the intensity times four times the tone times what it lacks to white
/// times the normalised noise, and zero where that is negative. It is off by a `2^22`th
/// of the luminance, a `2^18`th of what the grain is at mid-grey, and by a little more
/// where numbers vanish.
pub open spec fn is_grained(out: int, l: int, intensity: int, normalisation: int, noise: int) -> bool {
    let o = unit();
    let t = tone(l);
    let (oo, ooo, oooo) = (o * o, o * (o * o), o * (o * (o * o)));
    let added = ((intensity * (4 * (t * (o - t)))) * normalisation) * noise;
    let (i, n, b) = (apart(intensity, 0), apart(normalisation, 0), apart(noise, 0));
    apart(out * oooo, positive_part(l * oooo + added)) * 0x40_0000 <= apart(l, 0) * oooo + 16 * ((oo * (i
        * n)) * b) + 0x80_0000 * ((oo * n) * b) + 0x80_0000 * (ooo * b) + 0xC0_0000 * oooo
}

/// A grained sample is the sample plus its share of the noise, up to rounding.
pub proof fn grain_follows_the_envelope<A: Arithmetic>(
    r: Raster<u32>,
    params: GrainParams,
    y: int,
    x: int,
    k: int,
)
    requires
        rounds::<A>(),
        !single::same(params.intensity, 0),
        inside(r.shape, y, x, k),
        ({
            let table = summed::<A>(
                noise_of::<A>((r.shape.0, r.shape.1), params.seed),
                Measure::Value,
            );
            let l = r.at(y, x, k);
            let norm = normalisation_of::<A>(params.size_pixels);
            let noise = band_at::<A>(table, y, x, params.size_pixels);
            &&& single::is_finite(l) && apart(value(l), 0) <= pow2(272)
            &&& single::is_finite(params.intensity) && apart(value(params.intensity), 0) <= large()
            &&& single::is_finite(norm) && apart(value(norm), 0) <= large()
            &&& single::is_finite(noise) && apart(value(noise), 0) <= large()
        }),
    ensures
        ({
            let table = summed::<A>(
                noise_of::<A>((r.shape.0, r.shape.1), params.seed),
                Measure::Value,
            );
            let norm = normalisation_of::<A>(params.size_pixels);
            let noise = band_at::<A>(table, y, x, params.size_pixels);
            let out = grained::<A>(r, params).at(y, x, k);
            &&& single::is_finite(out)
            &&& is_grained(
                value(out),
                value(r.at(y, x, k)),
                value(params.intensity),
                value(norm),
                value(noise),
            )
        }),
{
    sizes();
    small_numbers();
    let table = summed::<A>(noise_of::<A>((r.shape.0, r.shape.1), params.seed), Measure::Value);
    tabulated(
        r.shape,
        |y: int, x: int, k: int| grained_at::<A>(r.at(y, x, k), table, y, x, params),
    );
    let l = r.at(y, x, k);
    let norm = normalisation_of::<A>(params.size_pixels);
    let noise = band_at::<A>(table, y, x, params.size_pixels);
    gain_is_close::<A>(l, params);
    let g = gain::<A>(l, params);
    let s = plus_of::<A>(l, times_of::<A>(g, noise));
    assert(grained::<A>(r, params).at(y, x, k) == single::larger(s, 0));
    let (o, m) = (unit(), 0x100_0000_0000int);
    let t = tone(value(l));
    let (i, n, b) = (value(params.intensity), value(norm), value(noise));
    let (ia, na, ba) = (apart(i, 0), apart(n, 0), apart(b, 0));
    let (oo, ooo, oooo) = (o * o, o * (o * o), o * (o * (o * o)));
    assert(oo > 0 && ooo > 0 && oooo > 0 && ooo * o == oooo) by (nonlinear_arith)
        requires
            oo == o * o,
            ooo == o * oo,
            oooo == o * ooo,
            o > 0,
    ;
    let gx = (i * (4 * (t * (o - t)))) * n;
    let (on, w) = (oo * (ia * na), oo * na);
    let e2 = 12 * on + 0x40_0002 * w + 0x40_0000 * ooo;
    gain_tail(0, oo, ia, na, on);
    assert(w >= 0) by (nonlinear_arith)
        requires
            w == oo * na,
            oo > 0,
            na >= 0,
    ;
    let ga = apart(value(g), 0);
    assert(ga * ooo == apart(value(g) * ooo, 0)) by (nonlinear_arith)
        requires
            ga == apart(value(g), 0),
            ooo > 0,
    ;
    assert(ga * ooo <= 2 * on + 2 * w + 2 * ooo);
    gain_size(ga, on, w, ooo, oo, ia, na, o, m);
    assert(apart(value(g) * b, 0) <= (6 * (m * (m * o))) * (m * o)) by (nonlinear_arith)
        requires
            ga == apart(value(g), 0),
            ga <= 6 * (m * (m * o)),
            apart(b, 0) <= m * o,
            m > 0,
            o > 0,
    ;
    assert((6 * (m * (m * o))) * (m * o) < ceiling() * o) by (nonlinear_arith)
        requires
            6 * (m * (m * (m * o))) < ceiling(),
            o > 0,
    ;
    product_near::<A>(g, noise, gx, ooo, e2);
    let p = value(times_of::<A>(g, noise));
    let added = gx * b;
    let (onb, wb, ob) = (on * ba, w * ba, ooo * ba);
    assert(e2 * ba == 12 * onb + 0x40_0002 * wb + 0x40_0000 * ob) by (nonlinear_arith)
        requires
            e2 == 12 * on + 0x40_0002 * w + 0x40_0000 * ooo,
            onb == on * ba,
            wb == w * ba,
            ob == ooo * ba,
    ;
    assert((ga * ooo) * ba <= 2 * onb + 2 * wb + 2 * ob) by (nonlinear_arith)
        requires
            ga * ooo <= 2 * on + 2 * w + 2 * ooo,
            ba >= 0,
            onb == on * ba,
            wb == w * ba,
            ob == ooo * ba,
    ;
    assert(onb >= 0 && wb >= 0 && ob >= 0) by (nonlinear_arith)
        requires
            on >= 0,
            w >= 0,
            ooo > 0,
            ba >= 0,
            onb == on * ba,
            wb == w * ba,
            ob == ooo * ba,
    ;
    assert(apart(added, 0) <= onb) by (nonlinear_arith)
        requires
            apart(gx, 0) <= on,
            added == gx * b,
            ba == apart(b, 0),
            onb == on * ba,
    ;
    assert(apart(p * oooo, added) * 0x40_0000 <= 14 * onb + 0x40_0004 * wb + 0x40_0002 * ob + 0x40_0000 * oooo);
    let pa = apart(p, 0);
    assert(pa * oooo == apart(p * oooo, 0)) by (nonlinear_arith)
        requires
            pa == apart(p, 0),
            oooo > 0,
    ;
    assert(pa * oooo <= 2 * onb + 2 * wb + 2 * ob + oooo);
    noise_size(pa, onb, wb, ob, oooo, on, w, ooo, ba, oo, ia, na, o, m);
    lemma2_to64();
    lemma_pow2_adds(4, 272);
    lemma_pow2_adds(23, 253);
    plus_fine::<A>(l, times_of::<A>(g, noise));
    let (v, ve) = (value(s), value(l));
    let f = v - (ve + p);
    let la = apart(ve, 0);
    assert(-(la * oooo + pa * oooo + 0x40_0000 * oooo) <= (f * oooo) * 0x40_0000 <= la * oooo + pa * oooo + 0x40_0000
        * oooo) by (nonlinear_arith)
        requires
            -(la + pa + 0x40_0000) <= f * 0x40_0000 <= la + pa + 0x40_0000,
            oooo > 0,
    ;
    assert(v * oooo == f * oooo + ve * oooo + p * oooo) by (nonlinear_arith)
        requires
            f == v - (ve + p),
    ;
    let all = la * oooo + 16 * onb + 0x80_0000 * wb + 0x80_0000 * ob + 0xC0_0000 * oooo;
    assert(apart(v * oooo, ve * oooo + added) * 0x40_0000 <= all);
    values_are_ordered(0, s);
    assert(v <= 0 ==> v * oooo <= 0) by (nonlinear_arith)
        requires
            oooo > 0,
    ;
    assert(v >= 0 ==> v * oooo >= 0) by (nonlinear_arith)
        requires
            oooo > 0,
    ;
    assert(0 * oooo == 0) by (nonlinear_arith);
}

/// The gain is no larger than intensity and normalisation can make it.
proof fn gain_size(ga: int, on: int, w: int, ooo: int, oo: int, ia: int, na: int, o: int, m: int)
    requires
        o > 0,
        m == 0x100_0000_0000,
        o >= m,
        oo == o * o,
        ooo == o * oo,
        on == oo * (ia * na),
        w == oo * na,
        0 <= ia <= m * o,
        0 <= na <= m * o,
        ga * ooo <= 2 * on + 2 * w + 2 * ooo,
    ensures
        ga <= 6 * (m * (m * o)),
        on <= (m * (m * o)) * ooo,
        w <= m * ooo,
{
    let q = m * (m * o);
    assert(ia * na <= (m * o) * (m * o)) by (nonlinear_arith)
        requires
            0 <= ia <= m * o,
            0 <= na <= m * o,
    ;
    assert((m * o) * (m * o) == q * o) by (nonlinear_arith)
        requires
            q == m * (m * o),
    ;
    assert(oo > 0 && ooo > 0) by (nonlinear_arith)
        requires
            o > 0,
            oo == o * o,
            ooo == o * oo,
    ;
    let z = ia * na;
    assert(on <= q * ooo) by (nonlinear_arith)
        requires
            on == oo * z,
            z <= q * o,
            ooo == o * oo,
            oo > 0,
    ;
    assert(w <= m * ooo) by (nonlinear_arith)
        requires
            w == oo * na,
            na <= m * o,
            ooo == o * oo,
            oo > 0,
    ;
    assert(q >= m) by (nonlinear_arith)
        requires
            q == m * (m * o),
            m == 0x100_0000_0000,
            o >= 1,
    ;
    assert(ga <= 6 * q) by (nonlinear_arith)
        requires
            ga * ooo <= 2 * on + 2 * w + 2 * ooo,
            on <= q * ooo,
            w <= m * ooo,
            m <= q,
            q >= 1,
            ooo > 0,
    ;
}

/// The noise added is no larger than its factors can make it.
proof fn noise_size(
    pa: int,
    onb: int,
    wb: int,
    ob: int,
    oooo: int,
    on: int,
    w: int,
    ooo: int,
    ba: int,
    oo: int,
    ia: int,
    na: int,
    o: int,
    m: int,
)
    requires
        o > 0,
        m == 0x100_0000_0000,
        ooo > 0,
        oooo == ooo * o,
        on <= (m * (m * o)) * ooo,
        w <= m * ooo,
        0 <= ba <= m * o,
        onb == on * ba,
        wb == w * ba,
        ob == ooo * ba,
        pa * oooo <= 2 * onb + 2 * wb + 2 * ob + oooo,
    ensures
        pa <= 8 * (m * (m * (m * o))),
{
    let (q, z) = (m * (m * o), m * (m * (m * o)));
    assert(onb <= z * oooo) by {
        assert(onb <= (q * ooo) * (m * o)) by (nonlinear_arith)
            requires
                onb == on * ba,
                on <= q * ooo,
                0 <= ba <= m * o,
                q * ooo >= 0,
        ;
        assert((q * ooo) * (m * o) == z * oooo) by (nonlinear_arith)
            requires
                q == m * (m * o),
                z == m * q,
                oooo == ooo * o,
        ;
    }
    assert(z >= 1 && z >= m && z >= m * m) by (nonlinear_arith)
        requires
            z == m * (m * (m * o)),
            o >= 1,
            m == 0x100_0000_0000,
    ;
    assert(wb <= (m * m) * oooo) by (nonlinear_arith)
        requires
            wb == w * ba,
            w <= m * ooo,
            0 <= ba <= m * o,
            oooo == ooo * o,
            ooo > 0,
            m > 0,
            o > 0,
    ;
    assert(ob <= m * oooo) by (nonlinear_arith)
        requires
            ob == ooo * ba,
            ba <= m * o,
            oooo == ooo * o,
            ooo > 0,
    ;
    assert(oooo > 0) by (nonlinear_arith)
        requires
            oooo == ooo * o,
            ooo > 0,
            o > 0,
    ;
    let mm = m * m;
    assert(pa <= 8 * z) by (nonlinear_arith)
        requires
            pa * oooo <= 2 * (z * oooo) + 2 * (mm * oooo) + 2 * (m * oooo) + oooo,
            z >= 1,
            z >= m,
            z >= mm,
            oooo > 0,
    ;
}

/// At mid-grey the envelope is one: the sample gets the intensity times the normalised noise,
/// with no further factor.
pub proof fn mid_grey_gets_the_whole_grain<A: Arithmetic>(
    r: Raster<u32>,
    params: GrainParams,
    y: int,
    x: int,
    k: int,
)
    requires
        rounds::<A>(),
        !single::same(params.intensity, 0),
        single::is_finite(params.intensity),
        inside(r.shape, y, x, k),
        r.at(y, x, k) == single::HALF,
    ensures
        ({
            let table = summed::<A>(
                noise_of::<A>((r.shape.0, r.shape.1), params.seed),
                Measure::Value,
            );
            grained::<A>(r, params).at(y, x, k) == single::larger(
                plus_of::<A>(
                    single::HALF,
                    times_of::<A>(
                        times_of::<A>(params.intensity, normalisation_of::<A>(params.size_pixels)),
                        band_at::<A>(table, y, x, params.size_pixels),
                    ),
                ),
                0,
            )
        }),
{
    small_numbers();
    let table = summed::<A>(noise_of::<A>((r.shape.0, r.shape.1), params.seed), Measure::Value);
    tabulated(
        r.shape,
        |y: int, x: int, k: int| grained_at::<A>(r.at(y, x, k), table, y, x, params),
    );
    let t = single::clamped(single::HALF, 0, single::ONE);
    assert(t == single::HALF);
    times_halves::<A>(single::FOUR, 8, single::HALF, 1, 4);
    minus_halves::<A>(single::ONE, 2, single::HALF, 1);
    let (rise, fall) = (
        times_of::<A>(single::FOUR, single::HALF),
        minus_of::<A>(single::ONE, single::HALF),
    );
    times_halves::<A>(rise, 4, fall, 1, 2);
    one_is_one(times_of::<A>(rise, fall));
    times_one::<A>(params.intensity);
    values_are_ordered(params.intensity, 0);
    values_are_ordered(0, params.intensity);
    one_value(times_of::<A>(params.intensity, single::ONE), params.intensity);
}

/// Whether a number is another one up to a `k`th of it.
pub open spec fn near(x: int, y: int, k: int) -> bool {
    y >= 0 && apart(x, y) * k <= y
}

/// What is near stays near under a factor.
pub proof fn near_times(x: int, y: int, z: int, k: int)
    requires
        near(x, y, k),
        z >= 0,
    ensures
        near(x * z, y * z, k),
{
    assert(apart(x * z, y * z) * k <= y * z && y * z >= 0) by (nonlinear_arith)
        requires
            apart(x, y) * k <= y,
            y >= 0,
            z >= 0,
    ;
}

/// A common factor cancels.
pub proof fn near_cancels(x: int, y: int, z: int, k: int)
    requires
        near(x * z, y * z, k),
        z > 0,
    ensures
        near(x, y, k),
{
    assert(apart(x, y) * k <= y && y >= 0) by (nonlinear_arith)
        requires
            apart(x * z, y * z) * k <= y * z,
            y * z >= 0,
            z > 0,
    ;
}

/// What is near to something near is near.
pub proof fn near_through(x: int, y: int, z: int, k: int, j: int)
    requires
        near(x, y, k),
        near(y, z, k),
        3 * j <= k,
        j >= 1,
    ensures
        near(x, z, j),
{
    let (a, b, c) = (apart(x, y), apart(y, z), apart(x, z));
    assert(y <= 2 * z) by (nonlinear_arith)
        requires
            b * k <= z,
            b == apart(y, z),
            k >= 3,
            b >= 0,
            z >= 0,
    ;
    assert(c * j <= z) by (nonlinear_arith)
        requires
            a * k <= y,
            b * k <= z,
            c <= a + b,
            y <= 2 * z,
            3 * j <= k,
            c >= 0,
            j >= 1,
    ;
}

/// Nearness goes both ways.
pub proof fn near_back(x: int, y: int, k: int)
    requires
        near(x, y, k + 1),
        k >= 1,
    ensures
        near(y, x, k),
{
    let a = apart(x, y);
    assert(a * k + a <= y) by (nonlinear_arith)
        requires
            a * (k + 1) <= y,
    ;
    assert(a * k >= 0) by (nonlinear_arith)
        requires
            a >= 0,
            k >= 1,
    ;
}

/// Squares of what is near are near.
pub proof fn near_square(x: int, y: int, k: int, j: int)
    requires
        near(x, y, k),
        3 * j <= k,
        j >= 1,
    ensures
        near(x * x, y * y, j),
{
    let a = apart(x, y);
    assert(a <= y) by (nonlinear_arith)
        requires
            a * k <= y,
            k >= 3,
            a >= 0,
            y >= 0,
    ;
    assert(apart(x * x, y * y) <= a * (3 * y)) by (nonlinear_arith)
        requires
            a == apart(x, y),
            a <= y,
            y >= 0,
    ;
    let c = apart(x * x, y * y);
    assert((a * j) * 3 <= y) by (nonlinear_arith)
        requires
            a * k <= y,
            3 * j <= k,
            a >= 0,
    ;
    assert(c * j <= y * y && y * y >= 0) by (nonlinear_arith)
        requires
            c <= a * (3 * y),
            (a * j) * 3 <= y,
            j >= 1,
            y >= 0,
            c >= 0,
    ;
}

/// The number of pixels in a window of a radius.
pub open spec fn pixels(radius: int) -> int {
    (2 * radius + 1) * (2 * radius + 1)
}

/// The normalisation gives band-passed noise of unit variance a variance of one again: the
/// difference of the means over two nested windows of `m` and `n` pixels has the variance
/// `1/m - 1/n`, and the normalisation's square times that is one, up to rounding.
pub proof fn grain_has_unit_variance<A: Arithmetic>(size: u32)
    requires
        computes_finely::<A>(),
        computes_exactly::<A>(),
        takes_roots::<A>(),
        0 <= inner_radius::<A>(size) < outer_radius::<A>(size) <= 0x8_0000,
    ensures
        ({
            let (m, n) = (pixels(inner_radius::<A>(size)), pixels(outer_radius::<A>(size)));
            let f = value(normalisation_of::<A>(size));
            &&& single::is_finite(normalisation_of::<A>(size))
            &&& near((f * f) * (n - m), (m * n) * (unit() * unit()), 0x1_0000)
        }),
{
    let (ri, ro) = (inner_radius::<A>(size), outer_radius::<A>(size));
    let (m, n) = (pixels(ri), pixels(ro));
    window_sizes(ri, ro);
    small_numbers64();
    count_exact64::<A>(m as u64);
    count_exact64::<A>(n as u64);
    let (inner, outer) = (window_pixels::<A>(ri), window_pixels::<A>(ro));
    assert(inner == of_count64_of::<A>(m as u64) && outer == of_count64_of::<A>(n as u64));
    share_of_pixels::<A>(inner, m);
    share_of_pixels::<A>(outer, n);
    let (a, b) = (over64_of::<A>(double::ONE, inner), over64_of::<A>(double::ONE, outer));
    let d = minus64_of::<A>(a, b);
    variance_is_close::<A>(a, b, m, n);
    let u = unit64();
    big_units();
    let v = value64(d);
    least_normal();
    values_are_ordered64(MIN_POSITIVE64, d);
    assert(v > pow2(60)) by {
        let mn = m * n;
        assert(v > pow2(60)) by (nonlinear_arith)
            requires
                2 * (v * mn) >= u * (n - m),
                n - m >= 1,
                0 < mn <= 0x1000_0000_0000_0000_0000_0000,
                u >= 0x1_0000_0000_0000_0000_0000_0000_0000_0000 * pow2(60),
                pow2(60) > 0,
        ;
    }
    assert(double::larger(d, MIN_POSITIVE64) == d);
    root_is_close::<A>(d);
    let root = root64_of::<A>(d);
    inverse_root::<A>(root, d, m, n);
}

/// Sizes of two nested windows.
proof fn window_sizes(ri: int, ro: int)
    requires
        0 <= ri < ro <= 0x8_0000,
    ensures
        1 <= pixels(ri) < pixels(ro) <= 0x200_0000_0000,
        pixels(ro) <= 0x20_0000 * (pixels(ro) - pixels(ri)),
        0 < pixels(ri) * pixels(ro) <= 0x1000_0000_0000_0000_0000_0000,
{
    let (a, b) = (2 * ri + 1, 2 * ro + 1);
    assert(1 <= a * a) by (nonlinear_arith)
        requires
            a >= 1,
    ;
    assert(b * b <= 0x200_0000_0000) by (nonlinear_arith)
        requires
            0 <= b <= 0x10_0001,
    ;
    assert(b * b - a * a >= 2 * b) by (nonlinear_arith)
        requires
            0 <= a,
            a + 2 <= b,
    ;
    assert(b * b <= 0x10_0001 * b) by (nonlinear_arith)
        requires
            0 <= b <= 0x10_0001,
    ;
    let (m, n) = (a * a, b * b);
    assert(0 < m * n <= 0x1000_0000_0000_0000_0000_0000) by (nonlinear_arith)
        requires
            1 <= m <= 0x200_0000_0000,
            1 <= n <= 0x200_0000_0000,
    ;
}

/// The sizes of the units of double precision.
pub proof fn big_units()
    ensures
        unit64() >= 0x1_0000_0000_0000_0000_0000_0000_0000_0000 * pow2(60),
        unit64() >= 0x1_0000_0000_0000_0000_0000_0000_0000_0000,
        pow2(60) > 0x1000,
        unit64() == unit() * pow2(925),
        pow2(925) > 0,
        unit() >= 0x1000_0000,
{
    lemma2_to64();
    lemma2_to64_rest();
    lemma_pow2_adds(64, 64);
    lemma_pow2_adds(128, 60);
    lemma_pow2_strictly_increases(188, 1074);
    lemma_pow2_strictly_increases(128, 1074);
    lemma_pow2_strictly_increases(32, 148);
    lemma_pow2_adds(1, 148);
    lemma_pow2_adds(149, 925);
    lemma_pow2_pos(925);
    lemma_pow2_pos(148);
}

proof fn least_normal()
    ensures
        double::is_finite(MIN_POSITIVE64),
        value64(MIN_POSITIVE64) < pow2(60),
{
    lemma2_to64();
    lemma2_to64_rest();
    assert(size64(0x10_0000_0000_0000) == 0x10_0000_0000_0000 * pow2(0));
}

/// One over a number of pixels is close.
proof fn share_of_pixels<A: Arithmetic>(count: u64, n: int)
    requires
        computes_finely::<A>(),
        double::is_finite(count),
        value64(count) == n * unit64(),
        1 <= n <= 0x200_0000_0000,
    ensures
        double::is_finite(over64_of::<A>(double::ONE, count)),
        near(value64(over64_of::<A>(double::ONE, count)) * n, unit64(), 0x8_0000_0000_0000),
{
    big_units();
    small_numbers64();
    let u = unit64();
    unit_is_small();
    assert(n * u > 0 && u * u <= u * (n * u)) by (nonlinear_arith)
        requires
            n >= 1,
            u > 0,
    ;
    over_off64::<A>(double::ONE, count, u);
    let (q, s) = (value64(over64_of::<A>(double::ONE, count)), step64(u));
    let qn = q * n;
    assert(apart(qn, u) <= s * n) by (nonlinear_arith)
        requires
            apart(q * (n * u), u * u) <= s * (n * u),
            qn == q * n,
            u > 0,
    ;
    finer_share::<A>(count, n, q);
}

/// The relative error of a share.
proof fn finer_share<A: Arithmetic>(count: u64, n: int, q: int)
    requires
        computes_finely::<A>(),
        double::is_finite(count),
        value64(count) == n * unit64(),
        1 <= n <= 0x200_0000_0000,
        q == value64(over64_of::<A>(double::ONE, count)),
        double::is_finite(over64_of::<A>(double::ONE, count)),
    ensures
        near(q * n, unit64(), 0x8_0000_0000_0000),
{
    big_units();
    small_numbers64();
    let u = unit64();
    unit_is_small();
    assert(u * u < pow2(2000) * (n * u)) by (nonlinear_arith)
        requires
            u < pow2(2000),
            n >= 1,
            u > 0,
    ;
    assert(n * u > 0 && u * u >= 0) by (nonlinear_arith)
        requires
            n >= 1,
            u > 0,
    ;
    over_relative64::<A>(double::ONE, count);
    let qn = q * n;
    assert(apart(qn, u) * 0x10_0000_0000_0000 <= u + 0x10_0000_0000_0000 * n) by (nonlinear_arith)
        requires
            apart(q * (n * u), u * u) * 0x10_0000_0000_0000 <= u * u + 0x10_0000_0000_0000 * (n * u),
            qn == q * n,
            u > 0,
    ;
}

/// The unit of double precision is far from its limits.
pub proof fn unit_is_small()
    ensures
        unit64() < pow2(1201),
        unit64() * 0x1000_0000_0000_0000 < pow2(1201),
        pow2(1201) < pow2(2000),
{
    lemma2_to64();
    lemma2_to64_rest();
    lemma_pow2_adds(60, 1074);
    lemma_pow2_adds(1074, 60);
    lemma_pow2_strictly_increases(1134, 1201);
    lemma_pow2_strictly_increases(1074, 1201);
    lemma_pow2_strictly_increases(1201, 2000);
}

/// The variance of the band is close.
proof fn variance_is_close<A: Arithmetic>(a: u64, b: u64, m: int, n: int)
    requires
        computes_finely::<A>(),
        double::is_finite(a),
        double::is_finite(b),
        1 <= m < n <= 0x200_0000_0000,
        n <= 0x20_0000 * (n - m),
        near(value64(a) * m, unit64(), 0x8_0000_0000_0000),
        near(value64(b) * n, unit64(), 0x8_0000_0000_0000),
    ensures
        double::is_finite(minus64_of::<A>(a, b)),
        near(
            value64(minus64_of::<A>(a, b)) * (m * n),
            unit64() * (n - m),
            0x400_0000,
        ),
        2 * (value64(minus64_of::<A>(a, b)) * (m * n)) >= unit64() * (n - m),
{
    big_units();
    unit_is_small();
    let (u, x, y) = (unit64(), value64(a), value64(b));
    assert(0 <= x <= 2 * u && 0 <= y <= 2 * u) by (nonlinear_arith)
        requires
            apart(x * m, u) * 0x8_0000_0000_0000 <= u,
            apart(y * n, u) * 0x8_0000_0000_0000 <= u,
            m >= 1,
            n >= 1,
            u > 0,
    ;
    minus_relative64::<A>(a, b);
    let d = value64(minus64_of::<A>(a, b));
    let f = d - (x - y);
    let (xm, yn, mn) = (x * m, y * n, m * n);
    assert(d * mn == xm * n - yn * m + f * mn) by (nonlinear_arith)
        requires
            f == d - (x - y),
            xm == x * m,
            yn == y * n,
            mn == m * n,
    ;
    let (un, um) = (u * n, u * m);
    near_times(xm, u, n, 0x8_0000_0000_0000);
    near_times(yn, u, m, 0x8_0000_0000_0000);
    assert(um < un && um > 0) by (nonlinear_arith)
        requires
            um == u * m,
            un == u * n,
            1 <= m < n,
            u > 0,
    ;
    assert(x * mn == xm * n && y * mn == yn * m) by (nonlinear_arith)
        requires
            xm == x * m,
            yn == y * n,
            mn == m * n,
    ;
    let xy = apart(x - y, 0);
    assert(0 < mn) by (nonlinear_arith)
        requires
            mn == m * n,
            m >= 1,
            n >= 1,
    ;
    assert(xy * mn <= x * mn + y * mn) by (nonlinear_arith)
        requires
            xy <= x + y,
            mn > 0,
    ;
    assert(-(xy * mn + 0x10_0000_0000_0000 * mn) <= (f * mn) * 0x10_0000_0000_0000 <= xy * mn
        + 0x10_0000_0000_0000 * mn) by (nonlinear_arith)
        requires
            -(xy + 0x10_0000_0000_0000) <= f * 0x10_0000_0000_0000 <= xy + 0x10_0000_0000_0000,
            mn > 0,
    ;
    assert(0x10_0000_0000_0000 * mn <= un) by (nonlinear_arith)
        requires
            mn == m * n,
            m <= 0x200_0000_0000,
            un == u * n,
            u >= 0x1_0000_0000_0000_0000_0000_0000_0000_0000,
            n >= 1,
    ;
    let g = u * (n - m);
    assert(g == un - um && un <= 0x20_0000 * g) by (nonlinear_arith)
        requires
            un == u * n,
            um == u * m,
            g == u * (n - m),
            n <= 0x20_0000 * (n - m),
            u > 0,
    ;
    assert(apart(d * mn, g) * 0x8_0000_0000_0000 <= 8 * un);
}

/// One over the root, in single precision, is close.
proof fn inverse_root<A: Arithmetic>(root: u64, d: u64, m: int, n: int)
    requires
        computes_finely::<A>(),
        double::is_finite(root),
        value64(root) > 0,
        near(
            value64(root) * value64(root),
            value64(d) * unit64(),
            0x4_0000_0000_0000,
        ),
        1 <= m < n <= 0x200_0000_0000,
        value64(d) > 0,
        near(value64(d) * (m * n), unit64() * (n - m), 0x400_0000),
        2 * (value64(d) * (m * n)) >= unit64() * (n - m),
    ensures
        ({
            let f = narrow_of::<A>(over64_of::<A>(double::ONE, root));
            &&& single::is_finite(f)
            &&& near(
                (value(f) * value(f)) * (n - m),
                (m * n) * (unit() * unit()),
                0x1_0000,
            )
        }),
{
    big_units();
    unit_is_small();
    small_numbers64();
    let (u, r, v, mn) = (unit64(), value64(root), value64(d), m * n);
    let rr = r * r;
    assert(0 < mn <= 0x1000_0000_0000_0000_0000_0000) by (nonlinear_arith)
        requires
            mn == m * n,
            1 <= m <= 0x200_0000_0000,
            1 <= n <= 0x200_0000_0000,
    ;
    assert(n - m <= mn) by (nonlinear_arith)
        requires
            mn == m * n,
            m >= 1,
            n >= 1,
    ;
    // The root lies between a `2^48`th of one and twice one.
    assert(v <= 2 * u) by (nonlinear_arith)
        requires
            apart(v * mn, u * (n - m)) * 0x400_0000 <= u * (n - m),
            n - m <= mn,
            mn >= 1,
            u > 0,
            n > m,
    ;
    assert(rr <= 4 * (u * u)) by (nonlinear_arith)
        requires
            apart(rr, v * u) * 0x4_0000_0000_0000 <= v * u,
            0 < v <= 2 * u,
            u > 0,
    ;
    assert(r <= 2 * u) by (nonlinear_arith)
        requires
            r * r <= 4 * (u * u),
            r > 0,
            u > 0,
    ;
    assert(u <= 0x4_0000_0000_0000 * r) by {
        assert(u <= v * 0x2000_0000_0000_0000_0000_0000) by (nonlinear_arith)
            requires
                2 * (v * mn) >= u * (n - m),
                n - m >= 1,
                mn <= 0x1000_0000_0000_0000_0000_0000,
                v > 0,
                u > 0,
        ;
        assert(u * u <= (0x4_0000_0000_0000 * r) * (0x4_0000_0000_0000 * r)) by (nonlinear_arith)
            requires
                u <= v * 0x2000_0000_0000_0000_0000_0000,
                apart(r * r, v * u) * 0x4_0000_0000_0000 <= v * u,
                v > 0,
                u > 0,
        ;
        let z = 0x4_0000_0000_0000 * r;
        assert(u <= z) by (nonlinear_arith)
            requires
                u * u <= z * z,
                z > 0,
                u > 0,
        ;
    }
    assert(u * u < pow2(2000) * r && u * u >= 0) by (nonlinear_arith)
        requires
            u <= 0x4_0000_0000_0000 * r,
            u * 0x1000_0000_0000_0000 < pow2(2000),
            r > 0,
            u > 0,
    ;
    over_relative64::<A>(double::ONE, root);
    let inverse = over64_of::<A>(double::ONE, root);
    let w = value64(inverse);
    let wr = w * r;
    assert(near(wr, u * u, 0x4_0000_0000_0000)) by {
        assert(0x10_0000_0000_0000 * r <= u * u) by (nonlinear_arith)
            requires
                r <= 2 * u,
                u >= 0x1_0000_0000_0000_0000_0000_0000_0000_0000,
        ;
    }
    assert(u <= 4 * w && w <= 0x10_0000_0000_0000 * u) by (nonlinear_arith)
        requires
            apart(w * r, u * u) * 0x4_0000_0000_0000 <= u * u,
            0 < r <= 2 * u,
            u <= 0x4_0000_0000_0000 * r,
            u > 0,
    ;
    narrow_off::<A>(inverse);
    let (p, o) = (pow2(925) as int, unit());
    let f = value(narrow_of::<A>(inverse));
    assert(near(f * p, w, 0x40_0000)) by {
        assert(0x80_0000 * p <= w) by (nonlinear_arith)
            requires
                u <= 4 * w,
                u == o * p,
                o >= 0x1000_0000,
                p > 0,
        ;
    }
    inverse_is_near(f, p, o, w, r, v, m, n, u);
}

proof fn inverse_is_near(f: int, p: int, o: int, w: int, r: int, v: int, m: int, n: int, u: int)
    requires
        u > 0,
        p > 0,
        o > 0,
        w > 0,
        r > 0,
        v > 0,
        1 <= m < n,
        u == o * p,
        near(f * p, w, 0x40_0000),
        near(w * r, u * u, 0x4_0000_0000_0000),
        near(r * r, v * u, 0x4_0000_0000_0000),
        near(v * (m * n), u * (n - m), 0x400_0000),
    ensures
        near((f * f) * (n - m), (m * n) * (o * o), 0x1_0000),
{
    let (ww, rr, uu, mn, g) = (w * w, r * r, u * u, m * n, n - m);
    assert(ww > 0 && uu > 0 && mn > 0) by (nonlinear_arith)
        requires
            ww == w * w,
            uu == u * u,
            mn == m * n,
            w > 0,
            u > 0,
            m >= 1,
            n >= 1,
    ;
    // The square of the inverse, times the variance.
    near_square(w * r, uu, 0x4_0000_0000_0000, 0x1000_0000_0000);
    assert((w * r) * (w * r) == rr * ww && rr * ww >= 0) by (nonlinear_arith)
        requires
            ww == w * w,
            rr == r * r,
    ;
    near_times(rr, v * u, ww, 0x4_0000_0000_0000);
    let vuw = (v * u) * ww;
    assert(vuw >= 0) by (nonlinear_arith)
        requires
            vuw == (v * u) * ww,
            v > 0,
            u > 0,
            ww > 0,
    ;
    let q = rr * ww;
    assert(near(q, vuw, 0x1000_0000_0001)) by {
        let a = apart(q, vuw);
        assert(a * 0x1000_0000_0001 <= a * 0x4_0000_0000_0000);
    }
    near_back(q, vuw, 0x1000_0000_0000);
    near_through(vuw, q, uu * uu, 0x1000_0000_0000, 0x400_0000_0000);
    let v2 = v * ww;
    let u3 = uu * u;
    assert(vuw == v2 * u && uu * uu == u3 * u) by (nonlinear_arith)
        requires
            vuw == (v * u) * ww,
            v2 == v * ww,
            u3 == uu * u,
            uu == u * u,
    ;
    near_cancels(v2, u3, u, 0x400_0000_0000);
    near_times(v2, u3, mn, 0x400_0000_0000);
    // The variance, from the windows.
    near_times(v * mn, u * g, ww, 0x400_0000);
    assert((v * mn) * ww == v2 * mn) by (nonlinear_arith)
        requires
            v2 == v * ww,
    ;
    let (s, t) = ((u * g) * ww, u3 * mn);
    let c = v2 * mn;
    near_back(c, s, 0x3FF_FFFF);
    assert(near(c, t, 0x3FF_FFFF)) by {
        let a = apart(c, t);
        assert(a * 0x3FF_FFFF <= a * 0x400_0000_0000);
    }
    near_through(s, c, t, 0x3FF_FFFF, 0x100_0000);
    let (wg, um) = (ww * g, uu * mn);
    assert(s == wg * u && t == um * u) by (nonlinear_arith)
        requires
            s == (u * g) * ww,
            wg == ww * g,
            t == u3 * mn,
            um == uu * mn,
            u3 == uu * u,
    ;
    near_cancels(wg, um, u, 0x100_0000);
    // In single precision.
    near_square(f * p, w, 0x40_0000, 0x10_0000);
    let (ff, pp) = (f * f, p * p);
    near_times((f * p) * (f * p), ww, g, 0x10_0000);
    let x = (ff * g) * pp;
    assert(((f * p) * (f * p)) * g == x) by (nonlinear_arith)
        requires
            x == (ff * g) * pp,
            ff == f * f,
            pp == p * p,
    ;
    assert(near(wg, um, 0x10_0000)) by {
        let a = apart(wg, um);
        assert(a * 0x10_0000 <= a * 0x100_0000);
    }
    near_through(x, wg, um, 0x10_0000, 0x1_0000);
    let y = mn * (o * o);
    assert(um == y * pp) by (nonlinear_arith)
        requires
            um == uu * mn,
            uu == u * u,
            u == o * p,
            y == mn * (o * o),
            pp == p * p,
    ;
    assert(pp > 0) by (nonlinear_arith)
        requires
            pp == p * p,
            p > 0,
    ;
    near_cancels(ff * g, y, pp, 0x1_0000);
}

} // verus!
