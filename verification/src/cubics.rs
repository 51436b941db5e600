//! The cubic of Keys, exactly and as it is computed.

use vstd::arithmetic::power2::{
    lemma2_to64, lemma2_to64_rest, lemma_pow2_adds, lemma_pow2_strictly_increases, pow2,
};
use vstd::prelude::*;

use crate::arith::{minus_of, plus_of, times_of, Arithmetic};
use crate::geometry::{catmull_weights_of, filter_eval_of, ResizeFilter};
use crate::rounding::{
    apart, ceiling, grain, grains, half, half_is_positive, minus_near, minus_rounds, plus_close,
    plus_rounds, rounded_between, rounds, small_numbers, times_close, times_fine, unit, value,
    values_are_ordered,
};
use crate::single;

verus! {

/// The cubic of Keys with the coefficient of Catmull and Rom at a distance, in units of two
/// cubes of one: `(3 d^3 - 5 d^2 + 2) / 2` up to one, and `(-d^3 + 5 d^2 - 8 d + 4) / 2`
/// from there up to two.
pub open spec fn keys(d: int) -> int {
    let o = unit();
    if d <= o {
        (3 * d - 5 * o) * d * d + 2 * (o * o * o)
    } else if d <= 2 * o {
        (((5 * o - d) * d - 8 * (o * o)) * d) + 4 * (o * o * o)
    } else {
        0
    }
}

/// The sizes of the units.
pub proof fn sizes()
    ensures
        unit() == 0x40_0000 * grain(),
        unit() == 2 * half(),
        grain() >= 0x1_0000_0000,
        unit() * 0x1_0000_0000_0000 <= ceiling(),
        0x100_0000 * pow2(252) == ceiling(),
{
    grains();
    lemma2_to64();
    lemma2_to64_rest();
    lemma_pow2_adds(1, 148);
    lemma_pow2_adds(48, 149);
    lemma_pow2_adds(23, 253);
    lemma_pow2_adds(24, 252);
    lemma_pow2_strictly_increases(197, 276);
    lemma_pow2_strictly_increases(32, 127);
}

/// The cubic changes slowly between places within one piece of it.
proof fn keys_change_slowly(a: int, b: int, e: int)
    requires
        apart(a, b) <= e,
        0 <= a <= unit() && 0 <= b <= unit() || unit() <= a <= 2 * unit() && unit() <= b <= 2 * unit(),
    ensures
        apart(keys(a), keys(b)) <= 12 * ((unit() * unit()) * e),
{
    half_is_positive();
    let o = unit();
    let oo = o * o;
    let d = a - b;
    assert(o * o * o == oo * o) by (nonlinear_arith)
        requires
            oo == o * o,
    ;
    keys_at_one(o);
    if a <= o && b <= o && !(a == o && b > o) && !(b == o && a > o) {
        let (aa, ab, bb) = (a * a, a * b, b * b);
        let f = 3 * (aa + ab + bb) - 5 * (o * (a + b));
        differences_of_powers(a, b);
        assert((3 * a - 5 * o) * a * a == 3 * (a * aa) - 5 * (o * aa)) by (nonlinear_arith)
            requires
                aa == a * a,
        ;
        assert((3 * b - 5 * o) * b * b == 3 * (b * bb) - 5 * (o * bb)) by (nonlinear_arith)
            requires
                bb == b * b,
        ;
        let s = a + b;
        assert(d * (o * s) == o * aa - o * bb) by (nonlinear_arith)
            requires
                d * s == aa - bb,
        ;
        let (c, os) = (aa + ab + bb, o * s);
        assert(d * f == 3 * (d * c) - 5 * (d * os)) by (nonlinear_arith)
            requires
                f == 3 * c - 5 * os,
        ;
        squares_below(a, b, o, oo, 0);
        assert(0 <= os <= 2 * oo) by (nonlinear_arith)
            requires
                os == o * s,
                0 <= s <= 2 * o,
                oo == o * o,
        ;
        slope_times_step(d, f, e, oo);
    } else {
        let (aa, ab, bb) = (a * a, a * b, b * b);
        let f = 5 * (o * (a + b)) - (aa + ab + bb) - 8 * oo;
        differences_of_powers(a, b);
        assert(((5 * o - a) * a - 8 * oo) * a == 5 * (o * aa) - a * aa - 8 * (oo * a))
            by (nonlinear_arith)
            requires
                aa == a * a,
        ;
        assert(((5 * o - b) * b - 8 * oo) * b == 5 * (o * bb) - b * bb - 8 * (oo * b))
            by (nonlinear_arith)
            requires
                bb == b * b,
        ;
        let s = a + b;
        assert(d * (o * s) == o * aa - o * bb) by (nonlinear_arith)
            requires
                d * s == aa - bb,
        ;
        assert(d * oo == oo * a - oo * b) by (nonlinear_arith)
            requires
                d == a - b,
        ;
        let (c, os) = (aa + ab + bb, o * s);
        assert(d * f == 5 * (d * os) - d * c - 8 * (d * oo)) by (nonlinear_arith)
            requires
                f == 5 * os - c - 8 * oo,
        ;
        assert((2 * o) * (2 * o) == 4 * oo) by (nonlinear_arith)
            requires
                oo == o * o,
        ;
        squares_below(a, b, 2 * o, 4 * oo, o);
        assert(2 * oo <= os <= 4 * oo) by (nonlinear_arith)
            requires
                os == o * s,
                2 * o <= s <= 4 * o,
                oo == o * o,
        ;
        slope_times_step(d, f, e, oo);
    }
}

/// Squares and cubes differ by multiples of what their roots differ by.
proof fn differences_of_powers(a: int, b: int)
    ensures
        (a - b) * (a + b) == a * a - b * b,
        (a - b) * (a * a + a * b + b * b) == a * (a * a) - b * (b * b),
{
    let (d, aa, ab, bb) = (a - b, a * a, a * b, b * b);
    assert(d * (a + b) == aa - bb) by (nonlinear_arith)
        requires
            d == a - b,
            aa == a * a,
            bb == b * b,
    ;
    assert(d * (aa + ab + bb) == a * aa + a * ab + a * bb - b * aa - b * ab - b * bb)
        by (nonlinear_arith)
        requires
            d == a - b,
    ;
    assert(a * ab == b * aa && a * bb == b * ab) by (nonlinear_arith)
        requires
            aa == a * a,
            ab == a * b,
            bb == b * b,
    ;
}

/// Products of numbers in a range are in the range of the squares.
proof fn squares_below(a: int, b: int, m: int, mm: int, n: int)
    requires
        0 <= n <= a <= m,
        n <= b <= m,
        mm == m * m,
    ensures
        n * n <= a * a <= mm,
        n * n <= a * b <= mm,
        n * n <= b * b <= mm,
{
    assert(n * n <= a * a <= m * m) by (nonlinear_arith)
        requires
            0 <= n <= a <= m,
    ;
    assert(n * n <= a * b <= m * m) by (nonlinear_arith)
        requires
            0 <= n <= a <= m,
            n <= b <= m,
    ;
    assert(n * n <= b * b <= m * m) by (nonlinear_arith)
        requires
            0 <= n <= b <= m,
    ;
}

proof fn slope_times_step(d: int, f: int, e: int, oo: int)
    requires
        -e <= d <= e,
        -(12 * oo) <= f <= 12 * oo,
        oo >= 0,
    ensures
        -(12 * (oo * e)) <= d * f <= 12 * (oo * e),
{
    assert(-(12 * (oo * e)) <= d * f <= 12 * (oo * e)) by (nonlinear_arith)
        requires
            -e <= d <= e,
            -(12 * oo) <= f <= 12 * oo,
            oo >= 0,
    ;
}

/// Both pieces of the cubic are zero at one.
proof fn keys_at_one(o: int)
    ensures
        (3 * o - 5 * o) * o * o + 2 * (o * o * o) == 0,
        (((5 * o - o) * o - 8 * (o * o)) * o) + 4 * (o * o * o) == 0,
{
    let (oo, ooo) = (o * o, o * o * o);
    assert((3 * o - 5 * o) * o * o == -(2 * ooo)) by (nonlinear_arith)
        requires
            ooo == o * o * o,
    ;
    assert(((5 * o - o) * o - 8 * oo) * o == -(4 * ooo)) by (nonlinear_arith)
        requires
            ooo == o * o * o,
            oo == o * o,
    ;
}

/// A product of two numbers that are known up to errors.
proof fn product_off(p: int, a: int, x: int, b: int, e: int, f: int, o: int)
    requires
        o > 0,
        0 <= b <= 2 * o,
        e >= 0,
        apart(p * o, a * b) <= f * o,
        apart(2 * a, x) <= e,
    ensures
        apart((2 * p) * o, x * b) <= (2 * e + 2 * f) * o,
{
    let d = 2 * a - x;
    assert((2 * a) * b == x * b + d * b) by (nonlinear_arith)
        requires
            d == 2 * a - x,
    ;
    assert(-((2 * e) * o) <= d * b <= (2 * e) * o) by (nonlinear_arith)
        requires
            -e <= d <= e,
            0 <= b <= 2 * o,
            o > 0,
    ;
    assert((2 * a) * b == 2 * (a * b) && (2 * p) * o == 2 * (p * o)) by (nonlinear_arith);
    assert((2 * e + 2 * f) * o == (2 * e) * o + 2 * (f * o)) by (nonlinear_arith);
}

/// The first piece of the cubic is close.
proof fn inner_piece<A: Arithmetic>(t: u32)
    requires
        rounds::<A>(),
        single::is_finite(t),
        0 <= value(t) <= unit(),
        single::magnitude(t) == t,
    ensures
        ({
            let w = filter_eval_of::<A>(ResizeFilter::CatmullRom, t);
            &&& single::is_finite(w)
            &&& apart((2 * value(w)) * (unit() * unit()), keys(value(t))) <= 32 * (grain() * (unit()
                * unit()))
        }),
{
    sizes();
    small_numbers();
    let (o, g, h, d) = (unit(), grain(), half(), value(t));
    values_are_ordered(single::ONE, t);
    let (three, five) = (0x3FC0_0000u32, 0x4020_0000u32);
    assert(0 <= (3 * h) * d <= (3 * o) * o) by (nonlinear_arith)
        requires
            0 <= d <= o,
            o == 2 * h,
            h > 0,
    ;
    times_close::<A>(three, t);
    let first = times_of::<A>(three, t);
    let a = value(first);
    assert(apart(2 * a, 3 * d) <= 2 * g) by (nonlinear_arith)
        requires
            apart(a * o, (3 * h) * d) <= g * o,
            o == 2 * h,
            h > 0,
    ;
    minus_near::<A>(first, five);
    let p = minus_of::<A>(first, five);
    let x = 3 * d - 5 * o;
    assert(apart(2 * value(p), x) <= 4 * g);
    assert(apart(value(p) * d, 0) <= (3 * o) * o) by (nonlinear_arith)
        requires
            apart(value(p), 0) <= 3 * o,
            0 <= d <= o,
    ;
    times_close::<A>(p, t);
    let q = times_of::<A>(p, t);
    product_off(value(q), value(p), x, d, 4 * g, g, o);
    let xd = x * d;
    assert(-(5 * (o * o)) <= xd <= 0) by (nonlinear_arith)
        requires
            xd == x * d,
            0 <= d <= o,
            -(5 * o) <= x <= 0,
    ;
    assert(apart(2 * value(q), 0) <= 6 * o) by (nonlinear_arith)
        requires
            apart((2 * value(q)) * o, xd) <= (2 * (4 * g) + 2 * g) * o,
            -(5 * (o * o)) <= xd <= 0,
            o >= 0x40_0000 * g,
            g > 0,
    ;
    assert(apart(value(q) * d, 0) <= (3 * o) * o) by (nonlinear_arith)
        requires
            apart(value(q), 0) <= 3 * o,
            0 <= d <= o,
    ;
    times_close::<A>(q, t);
    let r = times_of::<A>(q, t);
    let (go, goo, oo) = (g * o, g * (o * o), o * o);
    assert(oo > 0) by (nonlinear_arith)
        requires
            oo == o * o,
            o > 0,
    ;
    assert(goo == go * o) by (nonlinear_arith)
        requires
            go == g * o,
            goo == g * (o * o),
    ;
    assert((2 * (4 * g) + 2 * g) * o == 10 * go) by (nonlinear_arith)
        requires
            go == g * o,
    ;
    // Twice the product, times the square of one.
    let y = (2 * value(q)) * o - xd;
    let xdd = xd * d;
    assert((value(q) * d) * (2 * o) == xdd + y * d) by (nonlinear_arith)
        requires
            y == (2 * value(q)) * o - xd,
            xdd == xd * d,
    ;
    assert(-(10 * goo) <= y * d <= 10 * goo) by (nonlinear_arith)
        requires
            -(10 * go) <= y <= 10 * go,
            0 <= d <= o,
            goo == go * o,
    ;
    let z = value(r) * o - value(q) * d;
    assert(-(2 * goo) <= z * (2 * o) <= 2 * goo) by (nonlinear_arith)
        requires
            -go <= z <= go,
            goo == go * o,
            o > 0,
    ;
    assert((2 * value(r)) * oo == z * (2 * o) + (value(q) * d) * (2 * o)) by (nonlinear_arith)
        requires
            z == value(r) * o - value(q) * d,
            oo == o * o,
    ;
    assert(apart((2 * value(r)) * oo, xdd) <= 12 * goo);
    assert(-(5 * (oo * o)) <= xdd <= 0) by (nonlinear_arith)
        requires
            xdd == xd * d,
            -(5 * oo) <= xd <= 0,
            0 <= d <= o,
    ;
    assert(apart(value(r), 0) <= 3 * o && value(r) <= o) by (nonlinear_arith)
        requires
            apart((2 * value(r)) * oo, xdd) <= 12 * goo,
            -(5 * (oo * o)) <= xdd <= 0,
            goo == g * oo,
            o >= 0x40_0000 * g,
            oo > 0,
            g > 0,
    ;
    plus_close::<A>(r, single::ONE);
    let w = plus_of::<A>(r, single::ONE);
    let e = value(w) - (value(r) + o);
    assert(-(2 * goo) <= (2 * e) * oo <= 2 * goo) by (nonlinear_arith)
        requires
            -g <= e <= g,
            goo == g * oo,
            oo > 0,
    ;
    assert((2 * value(w)) * oo == (2 * e) * oo + (2 * value(r)) * oo + 2 * (o * o * o))
        by (nonlinear_arith)
        requires
            e == value(w) - (value(r) + o),
            oo == o * o,
    ;
    assert((3 * d - 5 * o) * d * d == xdd) by (nonlinear_arith)
        requires
            x == 3 * d - 5 * o,
            xd == x * d,
            xdd == xd * d,
    ;
}

/// The second piece of the cubic is close.
proof fn outer_piece<A: Arithmetic>(t: u32)
    requires
        rounds::<A>(),
        single::is_finite(t),
        unit() < value(t) <= 2 * unit(),
        single::magnitude(t) == t,
    ensures
        ({
            let w = filter_eval_of::<A>(ResizeFilter::CatmullRom, t);
            &&& single::is_finite(w)
            &&& apart((2 * value(w)) * (unit() * unit()), keys(value(t))) <= 64 * (grain() * (unit()
                * unit()))
        }),
{
    sizes();
    small_numbers();
    let (o, g, h, d) = (unit(), grain(), half(), value(t));
    let (go, goo, oo) = (g * o, g * (o * o), o * o);
    assert(oo > 0 && goo > 0) by (nonlinear_arith)
        requires
            oo == o * o,
            o > 0,
            g > 0,
            goo == g * oo,
    ;
    assert(goo == go * o) by (nonlinear_arith)
        requires
            go == g * o,
            goo == g * (o * o),
    ;
    values_are_ordered(single::ONE, t);
    values_are_ordered(t, single::TWO);
    let (minus, five) = (0xBF00_0000u32, 0x4020_0000u32);
    if !single::less(t, single::TWO) {
        let (a, b) = (2 * o, o * o * o);
        assert(((5 * o - a) * a - 8 * (o * o)) * a + 4 * b == 0) by (nonlinear_arith)
            requires
                a == 2 * o,
                b == o * o * o,
        ;
        assert((2 * 0) * oo == 0) by (nonlinear_arith);
    } else {
        assert(apart((-h) * d, 0) <= (3 * o) * o) by (nonlinear_arith)
            requires
                0 <= d <= 2 * o,
                o == 2 * h,
                h > 0,
        ;
        times_close::<A>(minus, t);
        let first = times_of::<A>(minus, t);
        let a = value(first);
        assert(apart(2 * a, -d) <= 2 * g) by (nonlinear_arith)
            requires
                apart(a * o, (-h) * d) <= g * o,
                o == 2 * h,
                h > 0,
        ;
        plus_close::<A>(first, five);
        let p = plus_of::<A>(first, five);
        let x = 5 * o - d;
        assert(apart(2 * value(p), x) <= 4 * g);
        outer_tail::<A>(t, p, x);
    }
}

proof fn outer_tail<A: Arithmetic>(t: u32, p: u32, x: int)
    requires
        rounds::<A>(),
        single::is_finite(t),
        single::is_finite(p),
        unit() < value(t) <= 2 * unit(),
        x == 5 * unit() - value(t),
        apart(2 * value(p), x) <= 4 * grain(),
    ensures
        ({
            let q = minus_of::<A>(times_of::<A>(p, t), single::FOUR);
            let w = plus_of::<A>(times_of::<A>(q, t), single::TWO);
            &&& single::is_finite(w)
            &&& apart(
                (2 * value(w)) * (unit() * unit()),
                ((x * value(t) - 8 * (unit() * unit())) * value(t)) + 4 * (unit() * unit() * unit()),
            ) <= 64 * (grain() * (unit() * unit()))
        }),
{
    sizes();
    small_numbers();
    let (o, g, d) = (unit(), grain(), value(t));
    let (go, goo, oo) = (g * o, g * (o * o), o * o);
    assert(oo > 0 && goo > 0) by (nonlinear_arith)
        requires
            oo == o * o,
            o > 0,
            g > 0,
            goo == g * oo,
    ;
    assert(goo == go * o) by (nonlinear_arith)
        requires
            go == g * o,
            goo == g * (o * o),
    ;
    let xd = x * d;
    // The product lies between four and six squares of one.
    assert(4 * oo <= xd <= 6 * oo) by (nonlinear_arith)
        requires
            xd == (5 * o - d) * d,
            o <= d <= 2 * o,
            oo == o * o,
    ;
    let v = value(p);
    let y = 2 * v - x;
    assert(2 * (v * d) == xd + y * d) by (nonlinear_arith)
        requires
            xd == x * d,
            y == 2 * v - x,
    ;
    assert(-(8 * go) <= y * d <= 8 * go) by (nonlinear_arith)
        requires
            -(4 * g) <= y <= 4 * g,
            0 <= d <= 2 * o,
            go == g * o,
    ;
    assert(0x40_0000 * go == oo) by (nonlinear_arith)
        requires
            o == 0x40_0000 * g,
            go == g * o,
            oo == o * o,
    ;
    assert(apart(v * d, 0) <= 4 * oo);
    assert(4 * oo < ceiling() * o) by (nonlinear_arith)
        requires
            4 * o < ceiling(),
            oo == o * o,
            o > 0,
    ;
    times_fine::<A>(p, t);
    let m = times_of::<A>(p, t);
    assert(0x40_0000 * o <= oo) by (nonlinear_arith)
        requires
            oo == o * o,
            o >= 0x40_0000,
    ;
    assert(apart(2 * (value(m) * o), xd) <= 18 * go);
    assert(apart(value(m), 0) <= 4 * o && value(m) >= o) by (nonlinear_arith)
        requires
            apart(2 * (value(m) * o), xd) <= 18 * go,
            4 * oo <= xd <= 6 * oo,
            0x40_0000 * go == oo,
            oo == o * o,
            o > 0,
            go > 0,
    ;
    minus_near::<A>(m, single::FOUR);
    let q = minus_of::<A>(m, single::FOUR);
    let b = value(q);
    let f = b - (value(m) - 4 * o);
    assert(2 * (b * o) == 2 * (value(m) * o) - 8 * oo + 2 * (f * o)) by (nonlinear_arith)
        requires
            f == b - (value(m) - 4 * o),
            oo == o * o,
    ;
    assert(-go <= f * o <= go) by (nonlinear_arith)
        requires
            -g <= f <= g,
            o > 0,
            go == g * o,
    ;
    let u = xd - 8 * oo;
    assert(apart(2 * (b * o), u) <= 20 * go);
    assert(apart(b, 0) <= 3 * o && apart(2 * b, 0) <= 5 * o) by (nonlinear_arith)
        requires
            apart(2 * (b * o), u) <= 20 * go,
            -(4 * oo) <= u <= -(2 * oo),
            0x40_0000 * go == oo,
            oo == o * o,
            o > 0,
    ;
    let ud = u * d;
    cubic_tail_is_small(d, o, ud, oo);
    let z = 2 * (b * o) - u;
    assert((b * d) * (2 * o) == ud + z * d) by (nonlinear_arith)
        requires
            z == 2 * (b * o) - u,
            ud == u * d,
    ;
    assert(-(40 * goo) <= z * d <= 40 * goo) by (nonlinear_arith)
        requires
            -(20 * go) <= z <= 20 * go,
            0 <= d <= 2 * o,
            goo == go * o,
    ;
    assert(40 * goo <= oo * o) by (nonlinear_arith)
        requires
            goo == go * o,
            0x40_0000 * go == oo,
            o > 0,
            go > 0,
    ;
    assert(apart(b * d, 0) <= (3 * o) * o) by (nonlinear_arith)
        requires
            apart((b * d) * (2 * o), 0) <= 6 * (oo * o),
            oo == o * o,
            o > 0,
    ;
    times_close::<A>(q, t);
    let r = times_of::<A>(q, t);
    let c = value(r);
    let s = c * o - b * d;
    assert((2 * c) * oo == s * (2 * o) + (b * d) * (2 * o)) by (nonlinear_arith)
        requires
            s == c * o - b * d,
            oo == o * o,
    ;
    assert(-(2 * goo) <= s * (2 * o) <= 2 * goo) by (nonlinear_arith)
        requires
            -go <= s <= go,
            goo == go * o,
            o > 0,
    ;
    assert(apart((2 * c) * oo, ud) <= 42 * goo);
    assert(-(4 * o) <= c <= o) by (nonlinear_arith)
        requires
            apart((2 * c) * oo, ud) <= 42 * goo,
            -(5 * (oo * o)) <= ud <= 0,
            42 * goo <= 2 * (oo * o),
            oo > 0,
            o > 0,
    ;
    plus_close::<A>(r, single::TWO);
    let w = plus_of::<A>(r, single::TWO);
    let k = value(w) - (c + 2 * o);
    assert(-(2 * goo) <= (2 * k) * oo <= 2 * goo) by (nonlinear_arith)
        requires
            -g <= k <= g,
            goo == g * oo,
            oo > 0,
    ;
    assert((2 * value(w)) * oo == (2 * k) * oo + (2 * c) * oo + 4 * (o * o * o)) by (nonlinear_arith)
        requires
            k == value(w) - (c + 2 * o),
            oo == o * o,
    ;
}

/// Between one and two the third-order part of the cubic lies between minus five and zero.
proof fn cubic_tail_is_small(d: int, o: int, ud: int, oo: int)
    requires
        o > 0,
        o <= d <= 2 * o,
        oo == o * o,
        ud == ((5 * o - d) * d - 8 * oo) * d,
    ensures
        -(5 * (oo * o)) <= ud <= -(4 * (oo * o)),
        oo * o > 0,
{
    let (a, b) = (d - o, 2 * o - d);
    // Four cubes of one more, it is the product of the distance from one and of the
    // square of that from two, turned over.
    let bb = b * b;
    assert(bb == 4 * oo - 4 * (o * d) + d * d) by (nonlinear_arith)
        requires
            bb == b * b,
            b == 2 * o - d,
            oo == o * o,
    ;
    let (od, dd) = (o * d, d * d);
    assert(ud == 5 * (o * dd) - dd * d - 8 * (oo * d)) by (nonlinear_arith)
        requires
            ud == ((5 * o - d) * d - 8 * oo) * d,
            dd == d * d,
    ;
    assert(a * bb == 4 * (oo * d) - 4 * (od * d) + dd * d - 4 * (oo * o) + 4 * (od * o) - dd * o)
        by (nonlinear_arith)
        requires
            bb == 4 * oo - 4 * od + dd,
            a == d - o,
    ;
    assert(od * d == o * dd && od * o == oo * d && dd * o == o * dd) by (nonlinear_arith)
        requires
            od == o * d,
            dd == d * d,
            oo == o * o,
    ;
    assert(ud + 4 * (oo * o) == -(a * bb));
    assert(oo * o > 0) by (nonlinear_arith)
        requires
            oo == o * o,
            o > 0,
    ;
    assert(0 <= a * bb <= oo * o) by (nonlinear_arith)
        requires
            0 <= a <= o,
            0 <= b <= o,
            bb == b * b,
            oo == o * o,
    ;
}

/// A pattern that is not negative is its own magnitude, but for the second zero.
proof fn own_magnitude(t: u32)
    requires
        single::is_finite(t),
        value(t) >= 0,
    ensures
        single::is_finite(single::magnitude(t)),
        value(single::magnitude(t)) == value(t),
        single::magnitude(single::magnitude(t)) == single::magnitude(t),
{
    small_numbers();
    values_are_ordered(t, 0);
    values_are_ordered(0, t);
}

/// The profile of the cubic at a computed distance is close to the exact one at a distance
/// nearby.
pub proof fn profile_is_close<A: Arithmetic>(t: u32, d: int)
    requires
        rounds::<A>(),
        single::is_finite(t),
        apart(value(t), d) <= 2 * grain(),
        0 <= value(t) <= unit() && 0 <= d <= unit() || unit() <= value(t) <= 2 * unit() && unit()
            <= d <= 2 * unit(),
    ensures
        ({
            let w = filter_eval_of::<A>(ResizeFilter::CatmullRom, t);
            &&& single::is_finite(w)
            &&& apart((2 * value(w)) * (unit() * unit()), keys(d)) <= 88 * (grain() * (unit()
                * unit()))
        }),
{
    sizes();
    own_magnitude(t);
    let m = single::magnitude(t);
    assert(filter_eval_of::<A>(ResizeFilter::CatmullRom, t) == filter_eval_of::<A>(
        ResizeFilter::CatmullRom,
        m,
    ));
    keys_change_slowly(value(t), d, 2 * grain());
    let (g, oo) = (grain(), unit() * unit());
    assert(12 * (oo * (2 * g)) == 24 * (g * oo)) by (nonlinear_arith);
    assert(g * oo >= 0) by (nonlinear_arith)
        requires
            g > 0,
            oo == unit() * unit(),
    ;
    if value(t) <= unit() {
        inner_piece::<A>(m);
    } else {
        outer_piece::<A>(m);
    }
}

/// The distances of the four taps around a place.
pub open spec fn tap_distance(t: int, j: int) -> int {
    if j == 0 {
        t + unit()
    } else if j == 1 {
        t
    } else if j == 2 {
        unit() - t
    } else {
        2 * unit() - t
    }
}

/// The cubic is no larger than one, and its sum over four taps is small.
pub proof fn keys_are_bounded(t: int, j: int)
    requires
        0 <= t <= unit(),
        0 <= j < 4,
    ensures
        apart(keys(tap_distance(t, j)), 0) <= 2 * (unit() * unit() * unit()),
{
    half_is_positive();
    let (o, d) = (unit(), tap_distance(t, j));
    let (oo, ooo) = (o * o, o * o * o);
    assert(oo * o == ooo && oo > 0 && ooo > 0) by (nonlinear_arith)
        requires
            oo == o * o,
            ooo == o * o * o,
            o > 0,
    ;
    if d <= o {
        let x = (3 * d - 5 * o) * d * d;
        assert(-(2 * ooo) <= x <= 0) by {
            let (a, dd) = (o - d, d * d);
            // Two cubes of one more, it is a product of distances.
            assert(x == (3 * d - 5 * o) * dd) by (nonlinear_arith)
                requires
                    x == (3 * d - 5 * o) * d * d,
                    dd == d * d,
            ;
            assert(x <= 0) by (nonlinear_arith)
                requires
                    x == (3 * d - 5 * o) * dd,
                    0 <= d <= o,
                    dd == d * d,
            ;
            let od = o * d;
            assert(x + 2 * ooo == a * (2 * oo + 2 * od - 3 * dd)) by (nonlinear_arith)
                requires
                    x == (3 * d - 5 * o) * dd,
                    dd == d * d,
                    od == o * d,
                    oo == o * o,
                    ooo == oo * o,
                    a == o - d,
            ;
            assert(dd <= od && dd <= oo) by (nonlinear_arith)
                requires
                    dd == d * d,
                    od == o * d,
                    oo == o * o,
                    0 <= d <= o,
            ;
            let z = 2 * oo + 2 * od - 3 * dd;
            assert(a * z >= 0) by (nonlinear_arith)
                requires
                    a >= 0,
                    z >= 0,
            ;
        }
    } else {
        let u = ((5 * o - d) * d - 8 * oo) * d;
        cubic_tail_is_small(d, o, u, oo);
    }
}

/// The four weights around a computed fraction are close to those around the exact one.
pub proof fn weights_are_close<A: Arithmetic>(f: u32, t: int)
    requires
        rounds::<A>(),
        single::is_finite(f),
        0 <= value(f) <= unit(),
        0 <= t <= unit(),
        apart(value(f), t) <= grain(),
    ensures
        forall|j: int|
            0 <= j < 4 ==> {
                let w = #[trigger] catmull_weights_of::<A>(f)[j];
                &&& single::is_finite(w)
                &&& apart((2 * value(w)) * (unit() * unit()), keys(tap_distance(t, j))) <= 88 * (
                grain() * (unit() * unit()))
            },
{
    sizes();
    small_numbers();
    let o = unit();
    let (one, two) = (single::ONE, single::TWO);
    plus_close::<A>(f, one);
    plus_rounds::<A>(f, one);
    rounded_between(plus_of::<A>(f, one), value(f) + o, 1, one, two);
    minus_near::<A>(one, f);
    minus_rounds::<A>(one, f);
    rounded_between(minus_of::<A>(one, f), o - value(f), 1, 0, one);
    minus_near::<A>(two, f);
    minus_rounds::<A>(two, f);
    rounded_between(minus_of::<A>(two, f), 2 * o - value(f), 1, one, two);
    profile_is_close::<A>(plus_of::<A>(f, one), t + o);
    profile_is_close::<A>(f, t);
    profile_is_close::<A>(minus_of::<A>(one, f), o - t);
    profile_is_close::<A>(minus_of::<A>(two, f), 2 * o - t);
    assert forall|j: int| 0 <= j < 4 implies {
        let w = #[trigger] catmull_weights_of::<A>(f)[j];
        &&& single::is_finite(w)
        &&& apart((2 * value(w)) * (unit() * unit()), keys(tap_distance(t, j))) <= 88 * (grain() * (
        unit() * unit()))
    } by {
        assert(j == 0 || j == 1 || j == 2 || j == 3);
    }
}

} // verus!
