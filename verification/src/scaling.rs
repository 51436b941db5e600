//! Where resizing looks and how much it weighs what it finds there, up to rounding.

use vstd::prelude::*;

use crate::amounts::room;
use crate::arith::{minus_of, of_count_of, of_offset_of, over_of, plus_of, times_of, Arithmetic};
use crate::cubics::{keys, profile_is_close, sizes};
use crate::geometry::{axis_scale, centre_of, filter_eval_of, tap_weight, ResizeFilter};
use crate::rounding::{
    apart, ceiling, grain, half, half_is_positive, minus_fine, minus_rounds, negated_value,
    offset_halves, over_fine, plus_fine, plus_halves, rounded_at_least, rounded_at_most, rounds,
    small_numbers, times_fine, unit, value, values_are_ordered, whole_halves,
};
use crate::single;
use crate::texture::positive_part;

verus! {

/// Pixels keep their centres: place `i` of an axis of `to` pixels, whose centre lies `i + 1/2`
/// pixels from its start, is taken from `(i + 1/2) * from / to` pixels from the start of an axis
/// of `from` pixels, and places count from the centre of the first pixel. In halves of a pixel,
/// off by a `2^18`th of the place at most.
pub proof fn places_are_centred<A: Arithmetic>(from: u64, to: u64, i: u64)
    requires
        rounds::<A>(),
        1 <= from < 0x40_0000,
        1 <= to < 0x40_0000,
        i < to,
    ensures
        ({
            let c = centre_of::<A>(axis_scale::<A>(from as int, to as int), i as int);
            &&& single::is_finite(c)
            &&& apart(value(c) * (2 * to), ((2 * i + 1) * from - to) * unit()) * 0x40_0000 <= 16 * (((2
                * i + 1) * from + to) * unit())
        }),
{
    room();
    small_numbers();
    half_is_positive();
    let (o, h) = (unit(), half());
    let (f, t, j) = (from as int, to as int, 2 * i + 1);
    whole_halves::<A>(from);
    whole_halves::<A>(to);
    whole_halves::<A>(i);
    plus_halves::<A>(of_count_of::<A>(i), 2 * i, single::HALF, 1);
    let (source, target) = (of_count_of::<A>(from), of_count_of::<A>(to));
    let place = plus_of::<A>(of_count_of::<A>(i), single::HALF);
    assert((2 * f) * h == f * o && (2 * t) * h == t * o) by (nonlinear_arith)
        requires
            o == 2 * h,
    ;
    assert(t * o > 0 && f * o > 0 && apart((f * o) * o, 0) < ceiling() * (t * o)) by (nonlinear_arith)
        requires
            1 <= f < 0x40_0000,
            t >= 1,
            o >= 0x1_0000_0000,
            0x1_0000_0000 * o <= ceiling(),
    ;
    over_fine::<A>(source, target);
    let scale = over_of::<A>(source, target);
    let s = value(scale);
    let (st, fo) = (s * t, f * o);
    assert(apart(st, fo) * 0x40_0000 <= fo + 0x40_0000 * t) by (nonlinear_arith)
        requires
            apart(s * (t * o), (f * o) * o) * 0x40_0000 <= (f * o) * o + 0x40_0000 * (t * o),
            st == s * t,
            fo == f * o,
            o > 0,
    ;
    assert(fo >= o) by (nonlinear_arith)
        requires
            fo == f * o,
            f >= 1,
            o > 0,
    ;
    assert(0 <= st <= 2 * fo);
    assert(0 <= s <= 2 * fo) by (nonlinear_arith)
        requires
            st == s * t,
            0 <= st <= 2 * fo,
            t >= 1,
    ;
    // The place, scaled.
    let js = j * s;
    assert((j * h) * s == js * h && 0 <= js <= 0x100_0000 * fo) by (nonlinear_arith)
        requires
            js == j * s,
            1 <= j < 0x80_0000,
            0 <= s <= 2 * fo,
    ;
    assert(js <= 0x4000_0000_0000 * o) by (nonlinear_arith)
        requires
            js <= 0x100_0000 * fo,
            fo == f * o,
            f < 0x40_0000,
            o > 0,
    ;
    sizes();
    assert(0 <= js * h < ceiling() * o) by (nonlinear_arith)
        requires
            0 <= js <= 0x4000_0000_0000 * o,
            o == 2 * h,
            0x1_0000_0000_0000 * o <= ceiling(),
            h > 0,
    ;
    times_fine::<A>(place, scale);
    let p = value(times_of::<A>(place, scale));
    assert(apart(2 * p, js) * 0x40_0000 <= js + 0x80_0000) by (nonlinear_arith)
        requires
            apart(p * o, js * h) * 0x40_0000 <= js * h + 0x40_0000 * o,
            o == 2 * h,
            h > 0,
    ;
    minus_fine::<A>(times_of::<A>(place, scale), single::HALF);
    let c = value(centre_of::<A>(scale, i as int));
    assert(apart(2 * c, js - o) * 0x40_0000 <= 4 * js + 2 * o + 0x100_0000);
    // In parts of the target.
    let (jst, jfo, to_) = (j * st, j * fo, t * o);
    assert(js * t == jst && apart(jst, jfo) * 0x40_0000 <= jfo + 0x40_0000 * (j * t) && jst <= 2 * jfo)
        by (nonlinear_arith)
        requires
            js == j * s,
            jst == j * st,
            jfo == j * fo,
            st == s * t,
            apart(st, fo) * 0x40_0000 <= fo + 0x40_0000 * t,
            st <= 2 * fo,
            j >= 1,
    ;
    let ct = c * (2 * t);
    assert(apart(ct, jst - to_) * 0x40_0000 <= 4 * jst + 2 * to_ + 0x100_0000 * t) by (nonlinear_arith)
        requires
            ct == c * (2 * t),
            jst == js * t,
            to_ == t * o,
            apart(2 * c, js - o) * 0x40_0000 <= 4 * js + 2 * o + 0x100_0000,
            t >= 1,
    ;
    assert(0x40_0000 * (j * t) <= jfo) by (nonlinear_arith)
        requires
            jfo == j * fo,
            fo >= o,
            o >= 0x1000_0000_0000 * 1,
            t < 0x40_0000,
            j >= 1,
    ;
    assert(0x100_0000 * t <= to_) by (nonlinear_arith)
        requires
            to_ == t * o,
            o >= 0x1_0000_0000,
            t >= 1,
    ;
    let jf = j * f;
    assert((jf - t) * o == jfo - to_ && (jf + t) * o == jfo + to_) by (nonlinear_arith)
        requires
            jf == j * f,
            jfo == j * fo,
            fo == f * o,
            to_ == t * o,
    ;
    assert((2 * i + 1) * from == jf);
}

/// A tap weighs what the filter's profile is at its distance from the centre, in units of the
/// scale where the image shrinks: one within half a unit for the area filter, one less the
/// distance for the bilinear filter, and the cubic of Catmull and Rom.
pub proof fn taps_weigh_by_distance<A: Arithmetic>(
    filter: ResizeFilter,
    scale: u32,
    centre: u32,
    k: i64,
) -> (t: int)
    requires
        rounds::<A>(),
        single::is_finite(scale),
        single::is_finite(centre),
        0 < value(scale) <= 0x40_0000 * unit(),
        apart(value(centre), 0) <= 0x100_0000 * unit(),
        -0x40_0000 <= k <= 0x40_0000,
        filter == ResizeFilter::Area ==> value(scale) <= unit(),
    ensures
        ({
            let o = unit();
            let m = if value(scale) <= o {
                o
            } else {
                value(scale)
            };
            let d = apart(k * o, value(centre));
            let w = value(tap_weight::<A>(filter, scale, centre, k as int));
            &&& t >= 0
            &&& apart(t * m, d * o) * 0x40_0000 <= 4 * (d * o) + 0x100_0000 * m
            &&& single::is_finite(tap_weight::<A>(filter, scale, centre, k as int))
            &&& match filter {
                ResizeFilter::Area => w == (if 2 * t <= o {
                    o
                } else {
                    0
                }),
                ResizeFilter::Bilinear => apart(w, positive_part(o - t)) * 0x40_0000 <= o
                    + 0x40_0000,
                ResizeFilter::CatmullRom => apart((2 * w) * (o * o), keys(t)) <= 88 * (grain() * (o
                    * o)),
            }
        }),
{
    room();
    sizes();
    small_numbers();
    half_is_positive();
    let (o, c) = (unit(), value(centre));
    offset_halves::<A>(k);
    let at = of_offset_of::<A>(k);
    assert((2 * k) * half() == k * o && -0x40_0000 * o <= k * o <= 0x40_0000 * o) by (nonlinear_arith)
        requires
            o == 2 * half(),
            -0x40_0000 <= k <= 0x40_0000,
            o > 0,
    ;
    values_are_ordered(scale, single::ONE);
    values_are_ordered(single::ONE, scale);
    let unit_ = single::larger(scale, single::ONE);
    let m = value(unit_);
    assert(m == if value(scale) <= o {
        o
    } else {
        value(scale)
    });
    minus_fine::<A>(at, centre);
    let gap = minus_of::<A>(at, centre);
    let (g, e) = (value(gap), k * o - c);
    let d = apart(k * o, c);
    assert(apart(g, 0) <= 0x400_0000 * o);
    let (go, eo) = (g * o, d * o);
    assert(apart(go, 0) <= (0x400_0000 * o) * m && (0x400_0000 * o) * m < ceiling() * m)
        by (nonlinear_arith)
        requires
            go == g * o,
            apart(g, 0) <= 0x400_0000 * o,
            o <= m,
            0x1_0000_0000 * o <= ceiling(),
            o > 0,
    ;
    over_fine::<A>(gap, unit_);
    let ratio = over_of::<A>(gap, unit_);
    let q = value(ratio);
    negated_value(ratio);
    values_are_ordered(0, ratio);
    let size = single::magnitude(ratio);
    let t = apart(q, 0);
    assert(single::is_finite(size) && value(size) == t);
    assert(t * m == apart(q * m, 0) && apart(go, 0) == apart(g, 0) * o) by (nonlinear_arith)
        requires
            t == apart(q, 0),
            go == g * o,
            m > 0,
            o > 0,
    ;
    let gs = apart(g, 0);
    assert(apart(gs, d) * 0x40_0000 <= d + 0x40_0000);
    assert(apart(gs * o, eo) * 0x40_0000 <= eo + 0x40_0000 * o) by (nonlinear_arith)
        requires
            apart(gs, d) * 0x40_0000 <= d + 0x40_0000,
            eo == d * o,
            o > 0,
    ;
    assert(apart(t * m, eo) * 0x40_0000 <= 4 * eo + 0x100_0000 * m);
    assert(t <= 0x1000_0000 * o) by (nonlinear_arith)
        requires
            apart(t * m, eo) * 0x40_0000 <= 4 * eo + 0x100_0000 * m,
            eo == d * o,
            0 <= d <= 0x400_0000 * o,
            o <= m,
            o >= 0x1_0000_0000,
            t >= 0,
    ;
    assert(tap_weight::<A>(filter, scale, centre, k as int) == filter_eval_of::<A>(filter, ratio));
    values_are_ordered(size, single::HALF);
    values_are_ordered(size, single::ONE);
    values_are_ordered(size, single::TWO);
    match filter {
        ResizeFilter::Area => {},
        ResizeFilter::Bilinear => {
            minus_fine::<A>(single::ONE, size);
            minus_rounds::<A>(single::ONE, size);
            let rest = minus_of::<A>(single::ONE, size);
            if t <= o {
                rounded_at_least(rest, o - t, 1, 0);
            } else {
                rounded_at_most(rest, o - t, 1, 0);
            }
            values_are_ordered(rest, 0);
            values_are_ordered(0, rest);
        },
        ResizeFilter::CatmullRom => {
            assert(single::magnitude(size) == size);
            assert(filter_eval_of::<A>(filter, ratio) == filter_eval_of::<A>(filter, size));
            if t <= 2 * o {
                profile_is_close::<A>(size, t);
            }
            if t >= 2 * o {
                keys_vanish(t);
                assert(filter_eval_of::<A>(filter, size) == 0);
                assert((2 * 0) * (o * o) == 0) by (nonlinear_arith);
                assert(grain() * (o * o) >= 0) by (nonlinear_arith)
                    requires
                        grain() >= 0,
                ;
            }
        },
    }
    t
}

/// The cubic vanishes from two on.
proof fn keys_vanish(t: int)
    requires
        t >= 2 * unit(),
    ensures
        keys(t) == 0,
{
    let o = unit();
    room();
    if t == 2 * o {
        let oo = o * o;
        assert((5 * o - t) * t == 6 * oo) by (nonlinear_arith)
            requires
                t == 2 * o,
                oo == o * o,
        ;
        assert((6 * oo - 8 * oo) * t == -4 * (oo * o)) by (nonlinear_arith)
            requires
                t == 2 * o,
        ;
    }
}

/// How much two stretches have in common.
pub open spec fn common(a: (int, int), b: (int, int)) -> int {
    let low = if a.0 <= b.0 {
        b.0
    } else {
        a.0
    };
    let high = if a.1 <= b.1 {
        a.1
    } else {
        b.1
    };
    positive_part(high - low)
}

/// Where the image shrinks, a tap of the area filter weighs what its pixel has in common with
/// the stretch of the output pixel, as long as the scale around the centre; in halves of a
/// pixel and up to rounding.
pub proof fn area_taps_weigh_what_they_share<A: Arithmetic>(scale: u32, centre: u32, k: i64)
    requires
        rounds::<A>(),
        single::is_finite(scale),
        single::is_finite(centre),
        unit() < value(scale) <= 0x40_0000 * unit(),
        apart(value(centre), 0) <= 0x100_0000 * unit(),
        -0x40_0000 <= k <= 0x40_0000,
    ensures
        ({
            let (o, c, s) = (unit(), value(centre), value(scale));
            let w = tap_weight::<A>(ResizeFilter::Area, scale, centre, k as int);
            &&& single::is_finite(w)
            &&& apart(2 * value(w), common((2 * (k * o) - o, 2 * (k * o) + o), (2 * c - s, 2 * c + s)))
                * 0x40_0000 <= 17 * (apart(c, 0) + s + apart(k * o, 0))
        }),
{
    room();
    sizes();
    small_numbers();
    half_is_positive();
    let (o, c, s, h) = (unit(), value(centre), value(scale), half());
    offset_halves::<A>(k);
    let at = of_offset_of::<A>(k);
    assert((2 * k) * h == k * o && -0x40_0000 * o <= k * o <= 0x40_0000 * o) by (nonlinear_arith)
        requires
            o == 2 * h,
            -0x40_0000 <= k <= 0x40_0000,
            o > 0,
    ;
    values_are_ordered(single::ONE, scale);
    assert(0 < s * h < ceiling() * o) by (nonlinear_arith)
        requires
            0 < s <= 0x40_0000 * o,
            o == 2 * h,
            0x1_0000_0000 * o <= ceiling(),
            h > 0,
    ;
    times_fine::<A>(scale, single::HALF);
    let radius = times_of::<A>(scale, single::HALF);
    let r = value(radius);
    assert(apart(2 * r, s) * 0x40_0000 <= s + 0x80_0000) by (nonlinear_arith)
        requires
            apart(r * o, s * h) * 0x40_0000 <= s * h + 0x40_0000 * o,
            o == 2 * h,
            h > 0,
    ;
    let all = apart(c, 0) + s + apart(k * o, 0);
    ends_are_close::<A>(at, single::HALF, o, all);
    ends_are_close::<A>(centre, radius, s, all);
    let (a, b) = (minus_of::<A>(at, single::HALF), plus_of::<A>(at, single::HALF));
    let (p, q) = (minus_of::<A>(centre, radius), plus_of::<A>(centre, radius));
    stretches_are_close(
        (2 * value(a), 2 * value(b)),
        (2 * value(p), 2 * value(q)),
        (2 * (k * o) - o, 2 * (k * o) + o),
        (2 * c - s, 2 * c + s),
        5 * all,
    );
    shared_part_is_close::<A>(a, b, p, q, all);
}

/// The ends of a stretch around a place are close.
proof fn ends_are_close<A: Arithmetic>(place: u32, radius: u32, length: int, all: int)
    requires
        rounds::<A>(),
        single::is_finite(place),
        single::is_finite(radius),
        apart(value(place), 0) + length <= all,
        unit() <= length,
        all <= 0x1000_0000 * unit(),
        apart(2 * value(radius), length) * 0x40_0000 <= length + 0x80_0000,
    ensures
        ({
            let (a, b) = (minus_of::<A>(place, radius), plus_of::<A>(place, radius));
            &&& single::is_finite(a)
            &&& single::is_finite(b)
            &&& apart(2 * value(a), 2 * value(place) - length) * 0x40_0000 <= 5 * all
            &&& apart(2 * value(b), 2 * value(place) + length) * 0x40_0000 <= 5 * all
            &&& apart(2 * value(a), 0) <= 3 * all
            &&& apart(2 * value(b), 0) <= 3 * all
        }),
{
    room();
    minus_fine::<A>(place, radius);
    plus_fine::<A>(place, radius);
}

/// What two computed stretches have in common is close.
proof fn shared_part_is_close<A: Arithmetic>(a: u32, b: u32, p: u32, q: u32, all: int)
    requires
        rounds::<A>(),
        single::is_finite(a),
        single::is_finite(b),
        single::is_finite(p),
        single::is_finite(q),
        apart(2 * value(a), 0) <= 3 * all,
        apart(2 * value(b), 0) <= 3 * all,
        apart(2 * value(p), 0) <= 3 * all,
        apart(2 * value(q), 0) <= 3 * all,
        unit() <= all <= 0x1000_0000 * unit(),
    ensures
        ({
            let w = single::larger(
                minus_of::<A>(single::smaller(b, q), single::larger(a, p)),
                0,
            );
            &&& single::is_finite(w)
            &&& apart(
                2 * value(w),
                common((2 * value(a), 2 * value(b)), (2 * value(p), 2 * value(q))),
            ) * 0x40_0000 <= 7 * all
        }),
{
    room();
    small_numbers();
    values_are_ordered(p, a);
    values_are_ordered(q, b);
    let (lo, hi) = (single::larger(a, p), single::smaller(b, q));
    minus_fine::<A>(hi, lo);
    let w = minus_of::<A>(hi, lo);
    values_are_ordered(0, w);
}

/// What two stretches have in common changes by what their ends change at most.
proof fn stretches_are_close(a: (int, int), b: (int, int), c: (int, int), d: (int, int), e: int)
    requires
        apart(a.0, c.0) * 0x40_0000 <= e,
        apart(a.1, c.1) * 0x40_0000 <= e,
        apart(b.0, d.0) * 0x40_0000 <= e,
        apart(b.1, d.1) * 0x40_0000 <= e,
    ensures
        apart(common(a, b), common(c, d)) * 0x40_0000 <= 2 * e,
{
}

} // verus!
