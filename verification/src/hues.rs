//! What hue and chroma are: the place of a pixel on the hexagon of colours, and how far it
//! lies from the middle, up to rounding.

use vstd::arithmetic::power2::{
    lemma2_to64, lemma2_to64_rest, lemma_pow2_adds, lemma_pow2_strictly_increases, pow2,
};
use vstd::prelude::*;

use crate::arith::{exp_of, minus_of, over_of, plus_of, remainder_of, times_of, Arithmetic};
use crate::bw::{
    band_centre, hue_and_chroma, hue_distance, share, FULL_TURN, HALF_TURN, SIX, SIXTY,
};
use crate::rounding::{
    apart, ceiling, minus_fine, minus_rounds, negated_value, over_fine, over_rounds, plus_fine,
    plus_rounds, remainder_is_exact, rounded_at_least, rounded_at_most, rounds, size,
    small_numbers, takes_remainders, times_fine, times_rounds, unit, value, values_are_ordered,
};
use crate::single;
use crate::texture::positive_part;

verus! {

/// The larger of two whole numbers.
pub open spec fn most(a: int, b: int) -> int {
    if a < b {
        b
    } else {
        a
    }
}

/// The smaller of two whole numbers.
pub open spec fn least(a: int, b: int) -> int {
    if a < b {
        a
    } else {
        b
    }
}

/// Whether a number is `base + 60 * rise / chroma` degrees, off by less than a two
/// thousandth of a degree.
pub open spec fn is_hue(hue: int, base: int, rise: int, chroma: int) -> bool {
    apart(hue * chroma, (base * chroma + 60 * rise) * unit()) * 0x40_0000 <= 2048 * (chroma * unit())
}

/// A few numbers of degrees.
proof fn degrees()
    ensures
        single::is_finite(SIXTY) && value(SIXTY) == 60 * unit(),
        single::is_finite(SIX) && value(SIX) == 6 * unit(),
        single::is_finite(FULL_TURN) && value(FULL_TURN) == 360 * unit(),
        unit() >= 0x1_0000_0000_0000_0000_0000,
        unit() * 0x1_0000_0000_0000 <= ceiling(),
{
    lemma2_to64();
    lemma2_to64_rest();
    lemma_pow2_adds(1, 148);
    lemma_pow2_adds(23, 126);
    lemma_pow2_adds(23, 253);
    lemma_pow2_adds(48, 149);
    lemma_pow2_adds(2, 126);
    lemma_pow2_adds(5, 126);
    lemma_pow2_adds(8, 126);
    lemma_pow2_adds(40, 40);
    lemma_pow2_strictly_increases(80, 149);
    lemma_pow2_strictly_increases(197, 276);
    assert(size(0x4270_0000) == 0xF0_0000 * pow2(131));
    assert(size(0x40C0_0000) == 0xC0_0000 * pow2(128));
    assert(size(0x43B4_0000) == 0xB4_0000 * pow2(134));
}

/// A quotient of a difference by the chroma is close to the exact one.
proof fn rise_is_close<A: Arithmetic>(a: u32, b: u32, delta: u32, chroma: int)
    requires
        rounds::<A>(),
        single::is_finite(a),
        single::is_finite(b),
        single::is_finite(delta),
        0x100_0000 <= chroma < ceiling(),
        apart(value(delta), chroma) * 0x40_0000 <= chroma + 0x40_0000,
        apart(value(a), value(b)) <= chroma,
    ensures
        ({
            let q = over_of::<A>(minus_of::<A>(a, b), delta);
            let n = value(a) - value(b);
            &&& single::is_finite(q)
            &&& apart(value(q) * chroma, n * unit()) * 0x40_0000 <= 8 * (chroma * unit())
            &&& apart(value(q), 0) <= 2 * unit()
            &&& n >= 0 ==> value(q) >= 0
            &&& n <= 0 ==> value(q) <= 0
        }),
{
    degrees();
    small_numbers();
    let (o, n, dl) = (unit(), value(a) - value(b), value(delta));
    minus_fine::<A>(a, b);
    minus_rounds::<A>(a, b);
    let d = minus_of::<A>(a, b);
    let x = value(d);
    if n >= 0 {
        rounded_at_least(d, n, 1, 0);
        values_are_ordered(0, d);
    }
    if n <= 0 {
        rounded_at_most(d, n, 1, 0);
        values_are_ordered(d, 0);
    }
    assert(apart(x, n) * 0x40_0000 <= 2 * chroma);
    assert(apart(dl, chroma) * 0x40_0000 <= 2 * chroma);
    assert(apart(x * o, 0) <= (2 * dl) * o) by (nonlinear_arith)
        requires
            apart(x, 0) <= 2 * dl,
            o > 0,
    ;
    assert((2 * dl) * o < ceiling() * dl) by (nonlinear_arith)
        requires
            2 * o < ceiling(),
            dl > 0,
    ;
    over_fine::<A>(d, delta);
    let r = over_of::<A>(d, delta);
    let q = value(r);
    over_rounds::<A>(d, delta);
    assert(0 * dl == 0 && (x >= 0 ==> 0 <= x * o) && (x <= 0 ==> x * o <= 0)) by (nonlinear_arith)
        requires
            o > 0,
    ;
    if n >= 0 {
        rounded_at_least(r, x * o, dl, 0);
        values_are_ordered(0, r);
    }
    if n <= 0 {
        rounded_at_most(r, x * o, dl, 0);
        values_are_ordered(r, 0);
    }
    quotient_bounds(q, x, n, dl, chroma, o);
}

proof fn quotient_bounds(q: int, x: int, n: int, dl: int, c: int, o: int)
    requires
        o >= 0x1_0000_0000_0000,
        c >= 0x100_0000,
        apart(n, 0) <= c,
        apart(x, n) * 0x40_0000 <= 2 * c,
        apart(dl, c) * 0x40_0000 <= 2 * c,
        apart(q * dl, x * o) * 0x40_0000 <= apart(x * o, 0) + 0x40_0000 * dl,
    ensures
        apart(q * c, n * o) * 0x40_0000 <= 8 * (c * o),
        apart(q, 0) <= 2 * o,
{
    let co = c * o;
    assert(apart(x * o, 0) <= co + co / 0x10_0000 + 1) by (nonlinear_arith)
        requires
            apart(x, 0) * 0x40_0000 <= 0x40_0002 * c,
            co == c * o,
            o > 0,
    ;
    assert(0x40_0000 * dl <= 0x80_0000 * c);
    assert(0x80_0000 * c <= co / 0x100_0000 + 1) by (nonlinear_arith)
        requires
            co == c * o,
            o >= 0x1_0000_0000_0000,
            c > 0,
    ;
    let f = q * dl - x * o;
    assert(-(2 * co) <= f * 0x40_0000 <= 2 * co);
    assert(co >= 0x1_0000_0000) by (nonlinear_arith)
        requires
            co == c * o,
            o >= 0x1_0000_0000_0000,
            c >= 1,
    ;
    assert(apart(q * dl, 0) <= co + co / 2);
    assert(apart(q, 0) <= 2 * o) by (nonlinear_arith)
        requires
            apart(q * dl, 0) <= co + co / 2,
            co == c * o,
            4 * dl >= 3 * c + 1,
            c > 0,
            o > 0,
    ;
    let g = c - dl;
    assert(-(4 * co) <= (q * g) * 0x40_0000 <= 4 * co) by (nonlinear_arith)
        requires
            -(2 * o) <= q <= 2 * o,
            -(2 * c) <= g * 0x40_0000 <= 2 * c,
            co == c * o,
    ;
    let h = x - n;
    assert(-(2 * co) <= (h * o) * 0x40_0000 <= 2 * co) by (nonlinear_arith)
        requires
            -(2 * c) <= h * 0x40_0000 <= 2 * c,
            o > 0,
            co == c * o,
    ;
    assert(q * c == q * dl + q * g && x * o == n * o + h * o) by (nonlinear_arith)
        requires
            g == c - dl,
            h == x - n,
    ;
}

/// Sixty times a number of sixths is as close to the exact degrees as the sixths are.
proof fn degrees_are_close<A: Arithmetic>(sixths: u32, sixth: int, chroma: int)
    requires
        rounds::<A>(),
        single::is_finite(sixths),
        apart(value(sixths), 0) <= 7 * unit(),
        chroma > 0,
        apart(value(sixths) * chroma, sixth * unit()) * 0x40_0000 <= 16 * (chroma * unit()),
    ensures
        ({
            let h = times_of::<A>(SIXTY, sixths);
            &&& single::is_finite(h)
            &&& apart(value(h), 0) <= 430 * unit()
            &&& apart(value(h) * chroma, (60 * sixth) * unit()) * 0x40_0000 <= 1400 * (chroma
                * unit())
            &&& value(sixths) >= 0 ==> value(h) >= 0
            &&& value(sixths) <= 0 ==> value(h) <= 0
        }),
{
    degrees();
    small_numbers();
    let (o, s, c) = (unit(), value(sixths), chroma);
    assert(apart((60 * o) * s, 0) <= (420 * o) * o) by (nonlinear_arith)
        requires
            apart(s, 0) <= 7 * o,
            o > 0,
    ;
    assert((420 * o) * o < ceiling() * o) by (nonlinear_arith)
        requires
            420 * o < ceiling(),
            o > 0,
    ;
    times_fine::<A>(SIXTY, sixths);
    let r = times_of::<A>(SIXTY, sixths);
    times_rounds::<A>(SIXTY, sixths);
    assert((s >= 0 ==> (60 * o) * s >= 0) && (s <= 0 ==> (60 * o) * s <= 0) && 0 * o == 0)
        by (nonlinear_arith)
        requires
            o > 0,
    ;
    if s >= 0 {
        rounded_at_least(r, (60 * o) * s, o, 0);
        values_are_ordered(0, r);
    }
    if s <= 0 {
        rounded_at_most(r, (60 * o) * s, o, 0);
        values_are_ordered(r, 0);
    }
    let h = value(r);
    let e = h - 60 * s;
    assert(-(421 * o) <= e * 0x40_0000 <= 421 * o) by (nonlinear_arith)
        requires
            apart(h * o, (60 * o) * s) * 0x40_0000 <= apart((60 * o) * s, 0) + 0x40_0000 * o,
            apart((60 * o) * s, 0) <= (420 * o) * o,
            e == h - 60 * s,
            o >= 0x40_0000,
    ;
    let co = c * o;
    assert(-(421 * co) <= (e * c) * 0x40_0000 <= 421 * co) by (nonlinear_arith)
        requires
            -(421 * o) <= e * 0x40_0000 <= 421 * o,
            c > 0,
            co == c * o,
    ;
    assert(h * c == e * c + 60 * (s * c)) by (nonlinear_arith)
        requires
            e == h - 60 * s,
    ;
    assert((60 * sixth) * o == 60 * (sixth * o)) by (nonlinear_arith);
}

/// A number of sixths moved on by two or four is as close to the exact one.
proof fn sixths_are_close<A: Arithmetic>(q: u32, base: u32, b: int, rise: int, chroma: int)
    requires
        rounds::<A>(),
        single::is_finite(q),
        single::is_finite(base),
        value(base) == b * unit(),
        b == 2 || b == 4,
        apart(rise, 0) <= chroma,
        chroma > 0,
        apart(value(q) * chroma, rise * unit()) * 0x40_0000 <= 8 * (chroma * unit()),
        apart(value(q), 0) <= 2 * unit(),
    ensures
        ({
            let s = plus_of::<A>(q, base);
            &&& single::is_finite(s)
            &&& 0 <= value(s) <= 7 * unit()
            &&& apart(value(s) * chroma, (b * chroma + rise) * unit()) * 0x40_0000 <= 16 * (chroma
                * unit())
        }),
{
    degrees();
    small_numbers();
    let (o, c, x) = (unit(), chroma, value(q));
    plus_fine::<A>(q, base);
    let r = plus_of::<A>(q, base);
    plus_rounds::<A>(q, base);
    rounded_at_least(r, x + b * o, 1, 0);
    values_are_ordered(0, r);
    let e = value(r) - (x + b * o);
    assert(-(7 * o) <= e * 0x40_0000 <= 7 * o);
    let co = c * o;
    assert(-(7 * co) <= (e * c) * 0x40_0000 <= 7 * co) by (nonlinear_arith)
        requires
            -(7 * o) <= e * 0x40_0000 <= 7 * o,
            c > 0,
            co == c * o,
    ;
    assert(value(r) * c == e * c + x * c + b * co) by (nonlinear_arith)
        requires
            e == value(r) - (x + b * o),
            co == c * o,
    ;
    assert((b * c + rise) * o == b * co + rise * o) by (nonlinear_arith)
        requires
            co == c * o,
    ;
}

/// The hue of a pixel is its place on the hexagon of colours, and its chroma the distance of
/// its largest from its smallest channel as a share of the largest, both up to rounding.
/// Channels below zero count as zero. With red the largest the hue lies within sixty degrees
/// of 0, towards yellow where green exceeds blue; with green it lies within sixty degrees of
/// 120, towards cyan where blue exceeds red; with blue it lies within sixty degrees of 240,
/// towards magenta where red exceeds green. This is for pixels whose chroma is no less than
/// the least normal number.
pub proof fn hue_is_the_place_on_the_hexagon<A: Arithmetic>(red: u32, green: u32, blue: u32)
    requires
        rounds::<A>(),
        takes_remainders::<A>(),
        single::is_finite(red),
        single::is_finite(green),
        single::is_finite(blue),
        ({
            let (r, g, b) = (
                positive_part(value(red)),
                positive_part(value(green)),
                positive_part(value(blue)),
            );
            &&& 0x100_0000 <= most(most(r, g), b) - least(least(r, g), b)
            &&& most(most(r, g), b) < ceiling()
        }),
    ensures
        ({
            let (r, g, b) = (
                positive_part(value(red)),
                positive_part(value(green)),
                positive_part(value(blue)),
            );
            let (max, min) = (most(most(r, g), b), least(least(r, g), b));
            let (c, found) = (max - min, hue_and_chroma::<A>(red, green, blue));
            let hue = value(found.0);
            &&& single::is_finite(found.0) && 0 <= hue <= 361 * unit()
            &&& r == max && g >= b ==> is_hue(hue, 0, g - b, c)
            &&& r == max && g < b ==> is_hue(hue, 360, g - b, c) || hue == 0 && is_hue(
                hue,
                0,
                g - b,
                c,
            )
            &&& r < max && g == max ==> is_hue(hue, 120, b - r, c)
            &&& r < max && g < max ==> is_hue(hue, 240, r - g, c)
            &&& single::is_finite(found.1)
            &&& apart(value(found.1) * max, c * unit()) * 0x40_0000 <= 4 * (max * unit())
        }),
{
    degrees();
    small_numbers();
    let o = unit();
    values_are_ordered(0, red);
    values_are_ordered(0, green);
    values_are_ordered(0, blue);
    let (pr, pg, pb) = (
        single::larger(red, 0),
        single::larger(green, 0),
        single::larger(blue, 0),
    );
    let (r, g, b) = (value(pr), value(pg), value(pb));
    values_are_ordered(pg, pr);
    values_are_ordered(pr, pg);
    let (rg, low) = (single::larger(pr, pg), single::smaller(pr, pg));
    values_are_ordered(pb, rg);
    values_are_ordered(pb, low);
    let (top, bottom) = (single::larger(rg, pb), single::smaller(low, pb));
    let (max, min) = (most(most(r, g), b), least(least(r, g), b));
    assert(value(top) == max && value(bottom) == min);
    let c = max - min;
    let delta = minus_of::<A>(top, bottom);
    minus_fine::<A>(top, bottom);
    values_are_ordered(0, delta);
    values_are_ordered(0, top);
    values_are_ordered(top, pr);
    values_are_ordered(pr, top);
    values_are_ordered(top, pg);
    values_are_ordered(pg, top);
    let found = hue_and_chroma::<A>(red, green, blue);
    let co = c * o;
    if r == max {
        assert(single::same(top, pr));
        rise_is_close::<A>(pg, pb, delta, c);
        let q = over_of::<A>(minus_of::<A>(pg, pb), delta);
        remainder_is_exact::<A>(q, SIX);
        let s = remainder_of::<A>(q, SIX);
        small_remainders(value(q), 6 * o);
        assert(value(s) == value(q));
        degrees_are_close::<A>(s, g - b, c);
        let h = times_of::<A>(SIXTY, s);
        values_are_ordered(h, 0);
        assert((0 * c + 60 * (g - b)) * o == (60 * (g - b)) * o) by (nonlinear_arith);
        if single::less(h, 0) {
            plus_fine::<A>(h, FULL_TURN);
            plus_rounds::<A>(h, FULL_TURN);
            let t = plus_of::<A>(h, FULL_TURN);
            hue_is_not_too_low(value(h), g - b, c, o);
            rounded_at_least(t, value(h) + 360 * o, 1, 0);
            values_are_ordered(0, t);
            let e = value(t) - (value(h) + 360 * o);
            assert(-(361 * o) <= e * 0x40_0000 <= 361 * o);
            assert(-(361 * co) <= (e * c) * 0x40_0000 <= 361 * co) by (nonlinear_arith)
                requires
                    -(361 * o) <= e * 0x40_0000 <= 361 * o,
                    c > 0,
                    co == c * o,
            ;
            assert(value(t) * c == e * c + value(h) * c + 360 * co) by (nonlinear_arith)
                requires
                    e == value(t) - (value(h) + 360 * o),
                    co == c * o,
            ;
            assert((360 * c + 60 * (g - b)) * o == 360 * co + (60 * (g - b)) * o) by (nonlinear_arith)
                requires
                    co == c * o,
            ;
        }
    } else if g == max {
        assert(single::same(top, pg) && !single::same(top, pr));
        rise_is_close::<A>(pb, pr, delta, c);
        let q = over_of::<A>(minus_of::<A>(pb, pr), delta);
        sixths_are_close::<A>(q, single::TWO, 2, b - r, c);
        let s = plus_of::<A>(q, single::TWO);
        degrees_are_close::<A>(s, 2 * c + (b - r), c);
        values_are_ordered(times_of::<A>(SIXTY, s), 0);
        assert(60 * (2 * c + (b - r)) == 120 * c + 60 * (b - r));
        hue_is_low(value(times_of::<A>(SIXTY, s)), 120, b - r, c, o);
    } else {
        assert(!single::same(top, pg) && !single::same(top, pr));
        rise_is_close::<A>(pr, pg, delta, c);
        let q = over_of::<A>(minus_of::<A>(pr, pg), delta);
        sixths_are_close::<A>(q, single::FOUR, 4, r - g, c);
        let s = plus_of::<A>(q, single::FOUR);
        degrees_are_close::<A>(s, 4 * c + (r - g), c);
        values_are_ordered(times_of::<A>(SIXTY, s), 0);
        assert(60 * (4 * c + (r - g)) == 240 * c + 60 * (r - g));
        hue_is_low(value(times_of::<A>(SIXTY, s)), 240, r - g, c, o);
    }
    if r == max {
        hue_is_low_red(value(found.0), g - b, c, o);
    }
    chroma_is_close::<A>(delta, top, c, max);
}

proof fn small_remainders(q: int, m: int)
    requires
        m > 0,
        -m < q < m,
    ensures
        q >= 0 ==> q % m == q,
        q < 0 ==> -((-q) % m) == q,
{
    if q >= 0 {
        vstd::arithmetic::div_mod::lemma_small_mod(q as nat, m as nat);
    } else {
        vstd::arithmetic::div_mod::lemma_small_mod((-q) as nat, m as nat);
    }
}

proof fn hue_is_not_too_low(h: int, rise: int, c: int, o: int)
    requires
        c > 0,
        o > 0,
        -c <= rise,
        apart(h * c, (60 * rise) * o) * 0x40_0000 <= 1400 * (c * o),
    ensures
        -(61 * o) <= h,
{
    let co = c * o;
    assert((60 * rise) * o >= -(60 * co)) by (nonlinear_arith)
        requires
            -c <= rise,
            o > 0,
            co == c * o,
    ;
    assert(co > 0) by (nonlinear_arith)
        requires
            c > 0,
            o > 0,
            co == c * o,
    ;
    assert(-(61 * o) <= h) by (nonlinear_arith)
        requires
            h * c >= -(61 * co),
            co == c * o,
            c > 0,
            o > 0,
    ;
}

proof fn hue_is_low(h: int, base: int, rise: int, c: int, o: int)
    requires
        c > 0,
        o > 0,
        base <= 240,
        rise <= c,
        apart(h * c, (base * c + 60 * rise) * o) * 0x40_0000 <= 2048 * (c * o),
    ensures
        h <= 361 * o,
{
    let co = c * o;
    assert((base * c + 60 * rise) * o <= 300 * co) by (nonlinear_arith)
        requires
            base <= 240,
            rise <= c,
            c > 0,
            o > 0,
            co == c * o,
    ;
    assert(co > 0) by (nonlinear_arith)
        requires
            c > 0,
            o > 0,
            co == c * o,
    ;
    assert(h <= 361 * o) by (nonlinear_arith)
        requires
            h * c <= 301 * co,
            co == c * o,
            c > 0,
            o > 0,
    ;
}

proof fn hue_is_low_red(h: int, rise: int, c: int, o: int)
    requires
        c > 0,
        o > 0,
        rise <= c,
        apart(h * c, (0 * c + 60 * rise) * o) * 0x40_0000 <= 2048 * (c * o) || rise <= 0 && apart(
            h * c,
            (360 * c + 60 * rise) * o,
        ) * 0x40_0000 <= 2048 * (c * o),
    ensures
        h <= 361 * o,
{
    let co = c * o;
    assert((0 * c + 60 * rise) * o <= 60 * co) by (nonlinear_arith)
        requires
            rise <= c,
            c > 0,
            o > 0,
            co == c * o,
    ;
    assert(rise <= 0 ==> (360 * c + 60 * rise) * o <= 360 * co) by (nonlinear_arith)
        requires
            c > 0,
            o > 0,
            co == c * o,
    ;
    assert(co > 0) by (nonlinear_arith)
        requires
            c > 0,
            o > 0,
            co == c * o,
    ;
    assert(h <= 361 * o) by (nonlinear_arith)
        requires
            h * c <= 361 * co,
            co == c * o,
            c > 0,
            o > 0,
    ;
}

/// The chroma as a share of the largest channel.
proof fn chroma_is_close<A: Arithmetic>(delta: u32, top: u32, c: int, max: int)
    requires
        rounds::<A>(),
        single::is_finite(delta),
        single::is_finite(top),
        value(top) == max,
        0x100_0000 <= c <= max < ceiling(),
        apart(value(delta), c) * 0x40_0000 <= c + 0x40_0000,
    ensures
        single::is_finite(over_of::<A>(delta, top)),
        apart(value(over_of::<A>(delta, top)) * max, c * unit()) * 0x40_0000 <= 4 * (max * unit()),
{
    degrees();
    let (o, d) = (unit(), value(delta));
    let mo = max * o;
    assert(apart(d * o, 0) <= (2 * o) * max) by (nonlinear_arith)
        requires
            apart(d, 0) <= 2 * max,
            o > 0,
    ;
    assert((2 * o) * max < ceiling() * max) by (nonlinear_arith)
        requires
            2 * o < ceiling(),
            max > 0,
    ;
    over_fine::<A>(delta, top);
    let e = d - c;
    assert(-(2 * mo) <= (e * o) * 0x40_0000 <= 2 * mo) by (nonlinear_arith)
        requires
            -(2 * max) <= e * 0x40_0000 <= 2 * max,
            o > 0,
            mo == max * o,
    ;
    assert(d * o == c * o + e * o) by (nonlinear_arith)
        requires
            e == d - c,
    ;
    assert(0 <= c * o <= mo) by (nonlinear_arith)
        requires
            0 <= c <= max,
            o > 0,
            mo == max * o,
    ;
    assert(0x40_0000 * max <= mo / 0x100_0000 + 1) by (nonlinear_arith)
        requires
            mo == max * o,
            o >= 0x1_0000_0000_0000,
            max > 0,
    ;
    assert(mo >= 0x1_0000_0000) by (nonlinear_arith)
        requires
            mo == max * o,
            o >= 0x1_0000_0000_0000,
            max >= 1,
    ;
}

/// The distance of two places on a circle of 360 degrees that are less than a turn apart.
pub open spec fn around(a: int, b: int) -> int {
    least(apart(a, b), apart(apart(a, b), 360 * unit()))
}

/// The distance of a hue from the centre of a band is that around the circle, off by less
/// than a four thousandth of a degree.
pub proof fn hues_lie_on_a_circle<A: Arithmetic>(hue: u32, centre: u32)
    requires
        rounds::<A>(),
        takes_remainders::<A>(),
        single::is_finite(hue),
        single::is_finite(centre),
        0 <= value(hue) <= 361 * unit(),
        0 <= value(centre) <= 360 * unit(),
    ensures
        ({
            let d = hue_distance::<A>(hue, centre);
            &&& single::is_finite(d)
            &&& 0 <= value(d) <= 181 * unit()
            &&& apart(value(d), around(value(hue), value(centre))) * 0x40_0000 <= 1024 * unit()
        }),
{
    degrees();
    small_numbers();
    half_turn();
    let o = unit();
    let n = apart(value(hue), value(centre));
    minus_fine::<A>(hue, centre);
    let difference = minus_of::<A>(hue, centre);
    let m = single::magnitude(difference);
    values_are_ordered(difference, 0);
    values_are_ordered(0, difference);
    assert(single::is_finite(m) && value(m) == apart(value(difference), 0));
    assert(apart(value(m), n) * 0x40_0000 <= 362 * o);
    remainder_is_exact::<A>(m, FULL_TURN);
    let d = remainder_of::<A>(m, FULL_TURN);
    let full = 360 * o;
    if value(m) < full {
        small_remainders(value(m), full);
    } else {
        vstd::arithmetic::div_mod::lemma_fundamental_div_mod_converse(
            value(m),
            full,
            1,
            value(m) - full,
        );
    }
    values_are_ordered(HALF_TURN, d);
    if single::less(HALF_TURN, d) {
        minus_fine::<A>(FULL_TURN, d);
        minus_rounds::<A>(FULL_TURN, d);
        let r = minus_of::<A>(FULL_TURN, d);
        rounded_at_least(r, full - value(d), 1, 0);
        values_are_ordered(0, r);
    }
}

proof fn half_turn()
    ensures
        single::is_finite(HALF_TURN) && value(HALF_TURN) == 180 * unit(),
{
    lemma2_to64();
    lemma_pow2_adds(1, 148);
    lemma_pow2_adds(23, 126);
    lemma_pow2_adds(7, 126);
    assert(size(0x4334_0000) == 0xB4_0000 * pow2(133));
}

/// The centres of the bands: red, orange, yellow, green, aqua, blue, purple and magenta.
pub proof fn bands_are_centred_on_colours(band: int)
    requires
        0 <= band < 8,
    ensures
        single::is_finite(band_centre(band)),
        value(band_centre(band)) == seq![0int, 30, 60, 120, 180, 240, 270, 300][band] * unit(),
{
    degrees();
    half_turn();
    small_numbers();
    lemma2_to64();
    lemma_pow2_adds(1, 148);
    lemma_pow2_adds(23, 126);
    lemma_pow2_adds(4, 126);
    lemma_pow2_adds(6, 126);
    lemma_pow2_adds(7, 126);
    lemma_pow2_adds(8, 126);
    assert(size(0x41F0_0000) == 0xF0_0000 * pow2(130));
    assert(size(0x42F0_0000) == 0xF0_0000 * pow2(132));
    assert(size(0x4370_0000) == 0xF0_0000 * pow2(133));
    assert(size(0x4387_0000) == 0x87_0000 * pow2(134));
    assert(size(0x4396_0000) == 0x96_0000 * pow2(134));
    assert(0 * unit() == 0) by (nonlinear_arith);
    assert(band == 0 || band == 1 || band == 2 || band == 3 || band == 4 || band == 5 || band == 6
        || band == 7);
}

/// The share of a band in a hue is the exponential of minus the square of the hue's distance
/// from the band's centre, over twice the square of sigma; the exponent is given, up to
/// rounding.
pub proof fn bands_fade_with_the_square_of_the_distance<A: Arithmetic>(
    sigma: u32,
    hue: u32,
    band: int,
) -> (e: u32)
    requires
        rounds::<A>(),
        single::is_finite(sigma),
        unit() <= 0x1000 * value(sigma),
        value(sigma) <= 0x10_0000 * unit(),
        single::is_finite(hue_distance::<A>(hue, band_centre(band))),
        0 <= value(hue_distance::<A>(hue, band_centre(band))) <= 181 * unit(),
    ensures
        share::<A>(
            times_of::<A>(times_of::<A>(single::TWO, sigma), sigma),
            hue,
            band,
        ) == exp_of::<A>(e),
        single::is_finite(e),
        ({
            let (s, d, o) = (value(sigma), value(hue_distance::<A>(hue, band_centre(band))), unit());
            apart(value(e) * (2 * (s * s)), -((d * d) * o)) * 0x8_0000 <= 8 * ((d * d) * o)
                + 0x100_0000 * (s * s + o * o)
        }),
{
    degrees();
    small_numbers();
    let (o, s) = (unit(), value(sigma));
    let dist = hue_distance::<A>(hue, band_centre(band));
    let d = value(dist);
    let (oo, ss, dd) = (o * o, s * s, d * d);
    assert(value(single::TWO) == 2 * o);
    assert(0 <= (2 * o) * s <= (2 * (0x10_0000 * o)) * o) by (nonlinear_arith)
        requires
            0 < s <= 0x10_0000 * o,
            o > 0,
    ;
    assert((2 * (0x10_0000 * o)) * o < ceiling() * o) by (nonlinear_arith)
        requires
            2 * (0x10_0000 * o) < ceiling(),
            o > 0,
    ;
    times_fine::<A>(single::TWO, sigma);
    let twice = times_of::<A>(single::TWO, sigma);
    let w = value(twice);
    assert(apart(w, 2 * s) * 0x40_0000 <= 2 * s + 0x40_0000) by (nonlinear_arith)
        requires
            apart(w * o, (2 * o) * s) * 0x40_0000 <= apart((2 * o) * s, 0) + 0x40_0000 * o,
            (2 * o) * s >= 0,
            o > 0,
    ;
    assert(apart(w, 2 * s) * 0x40_0000 <= 3 * s);
    let f = w - 2 * s;
    assert(w * s == 2 * ss + f * s) by (nonlinear_arith)
        requires
            f == w - 2 * s,
            ss == s * s,
    ;
    assert(-(3 * ss) <= (f * s) * 0x40_0000 <= 3 * ss) by (nonlinear_arith)
        requires
            -(3 * s) <= f * 0x40_0000 <= 3 * s,
            s > 0,
            ss == s * s,
    ;
    assert(0 < ss <= (0x100_0000_0000 * o) * o && oo <= 0x100_0000 * ss && 0x40_0000 * o <= oo
        / 0x100_0000_0000) by (nonlinear_arith)
        requires
            0 < s <= 0x10_0000 * o,
            o <= 0x1000 * s,
            ss == s * s,
            oo == o * o,
            o >= 0x1_0000_0000_0000_0000_0000,
    ;
    assert((4 * (0x100_0000_0000 * o)) * o < ceiling() * o) by (nonlinear_arith)
        requires
            4 * (0x100_0000_0000 * o) < ceiling(),
            o > 0,
    ;
    assert(apart(w * s, 0) <= (4 * (0x100_0000_0000 * o)) * o) by {
        assert((4 * (0x100_0000_0000 * o)) * o == 4 * ((0x100_0000_0000 * o) * o))
            by (nonlinear_arith);
    }
    times_fine::<A>(twice, sigma);
    let tss = times_of::<A>(twice, sigma);
    let t = value(tss);
    let to = t * o;
    assert(apart(to, 2 * ss) * 0x40_0000 <= 8 * ss);
    assert(t > 0) by (nonlinear_arith)
        requires
            to == t * o,
            to >= ss,
            ss > 0,
            o > 0,
    ;
    assert(0 <= dd <= 32768 * oo) by (nonlinear_arith)
        requires
            0 <= d <= 181 * o,
            dd == d * d,
            oo == o * o,
    ;
    negated_value(dist);
    assert((-d) * d == -dd) by (nonlinear_arith)
        requires
            dd == d * d,
    ;
    assert(32768 * oo < ceiling() * o) by (nonlinear_arith)
        requires
            32768 * o < ceiling(),
            oo == o * o,
            o > 0,
    ;
    times_fine::<A>(single::negated(dist), dist);
    let square = times_of::<A>(single::negated(dist), dist);
    let p = value(square);
    let po = p * o;
    assert(apart(po, -dd) * 0x40_0000 <= dd + 0x40_0000 * o);
    assert(apart(po, 0) <= 0x1_0000 * oo);
    assert(0x1_0000 * oo < ceiling() * t) by (nonlinear_arith)
        requires
            oo <= 0x100_0000 * ss,
            ss <= t * o,
            0x100_0000_0000 * o < ceiling(),
            t > 0,
            o > 0,
    ;
    over_fine::<A>(square, tss);
    let e = over_of::<A>(square, tss);
    exponent_in_units(value(e), t, to, po, dd, ss, o, oo);
    e
}

proof fn exponent_in_units(e: int, t: int, to: int, po: int, dd: int, ss: int, o: int, oo: int)
    requires
        o > 0,
        oo == o * o,
        t > 0,
        to == t * o,
        ss > 0,
        dd >= 0,
        apart(to, 2 * ss) * 0x40_0000 <= 8 * ss,
        apart(po, -dd) * 0x40_0000 <= dd + 0x40_0000 * o,
        apart(e * t, po) * 0x40_0000 <= apart(po, 0) + 0x40_0000 * t,
    ensures
        apart(e * (2 * ss), -(dd * o)) * 0x8_0000 <= 8 * (dd * o) + 0x100_0000 * (ss + oo),
{
    let ddo = dd * o;
    let (a, b, c) = (e * t - po, po + dd, to - 2 * ss);
    let et = e * t;
    assert(apart(po, 0) <= 2 * dd + 2 * o);
    assert(apart(et, 0) <= 4 * dd + 4 * o + 2 * t);
    assert(ddo >= 0) by (nonlinear_arith)
        requires
            ddo == dd * o,
            dd >= 0,
            o > 0,
    ;
    // The exponent times the square, from the exponent times its divisor.
    assert(e * (2 * ss) == et * o - e * c) by (nonlinear_arith)
        requires
            c == to - 2 * ss,
            to == t * o,
            et == e * t,
    ;
    assert(et * o == a * o + b * o - ddo) by (nonlinear_arith)
        requires
            a == et - po,
            b == po + dd,
            ddo == dd * o,
    ;
    assert(-(2 * ddo + 2 * oo + 0x40_0000 * to) <= (a * o) * 0x40_0000 <= 2 * ddo + 2 * oo
        + 0x40_0000 * to) by (nonlinear_arith)
        requires
            -(2 * dd + 2 * o + 0x40_0000 * t) <= a * 0x40_0000 <= 2 * dd + 2 * o + 0x40_0000 * t,
            o > 0,
            ddo == dd * o,
            oo == o * o,
            to == t * o,
    ;
    assert(-(ddo + 0x40_0000 * oo) <= (b * o) * 0x40_0000 <= ddo + 0x40_0000 * oo)
        by (nonlinear_arith)
        requires
            -(dd + 0x40_0000 * o) <= b * 0x40_0000 <= dd + 0x40_0000 * o,
            o > 0,
            ddo == dd * o,
            oo == o * o,
    ;
    let ea = apart(e, 0);
    assert(ea * ss <= ea * to) by (nonlinear_arith)
        requires
            ss <= to,
            ea >= 0,
    ;
    assert(ea * to == apart(et, 0) * o) by (nonlinear_arith)
        requires
            ea == apart(e, 0),
            to == t * o,
            et == e * t,
            t > 0,
    ;
    assert(apart(et, 0) * o <= 4 * ddo + 4 * oo + 2 * to) by (nonlinear_arith)
        requires
            apart(et, 0) <= 4 * dd + 4 * o + 2 * t,
            o > 0,
            ddo == dd * o,
            oo == o * o,
            to == t * o,
    ;
    assert(-(8 * (ea * ss)) <= (e * c) * 0x40_0000 <= 8 * (ea * ss)) by (nonlinear_arith)
        requires
            -(8 * ss) <= c * 0x40_0000 <= 8 * ss,
            ea == apart(e, 0),
            ss > 0,
    ;
    assert(to <= 3 * ss);
    assert(oo > 0) by (nonlinear_arith)
        requires
            oo == o * o,
            o > 0,
    ;
}

} // verus!
