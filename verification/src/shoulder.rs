//! What the shoulder of the highlight roll-off is: the point of a quadratic curve that lies
//! above the sample, up to rounding.

use vstd::arithmetic::power2::{lemma2_to64, lemma_pow2_adds, lemma_pow2_strictly_increases};
use vstd::prelude::*;

use crate::amounts::room;
use crate::arith::{minus_of, over_of, plus_of, root_of, times_of, Arithmetic};
use crate::cubics::sizes;
use crate::highlight_rolloff::{curve_parameter, rolled};
use crate::rounding::{
    apart, ceiling, minus_fine, negated_value, over_is_fine, plus_fine, root_squares, rounds,
    small_numbers, takes_single_roots, times_fine, unit, value, values_are_ordered,
};
use crate::single;

verus! {

/// A product by a small factor is close.
proof fn scaled<A: Arithmetic>(factor: u32, f: int, x: u32)
    requires
        rounds::<A>(),
        single::is_finite(factor),
        single::is_finite(x),
        value(factor) == f * unit(),
        1 <= f <= 4,
        apart(value(x), 0) <= 0x1000_0000 * unit(),
    ensures
        single::is_finite(times_of::<A>(factor, x)),
        apart(value(times_of::<A>(factor, x)), f * value(x)) * 0x40_0000 <= 4 * apart(value(x), 0)
            + 0x40_0000,
{
    room();
    let (o, v) = (unit(), value(x));
    let fv = f * v;
    assert((f * o) * v == fv * o && apart(fv, 0) <= 4 * apart(v, 0) && apart(fv * o, 0) == apart(
        fv,
        0,
    ) * o) by (nonlinear_arith)
        requires
            fv == f * v,
            1 <= f <= 4,
            o > 0,
    ;
    assert(apart(fv, 0) * o < ceiling() * o) by (nonlinear_arith)
        requires
            apart(fv, 0) <= 0x4000_0000 * o,
            0x1_0000_0000 * o <= ceiling(),
            o > 0,
    ;
    times_fine::<A>(factor, x);
    let p = value(times_of::<A>(factor, x));
    assert(apart(p, fv) * 0x40_0000 <= apart(fv, 0) + 0x40_0000) by (nonlinear_arith)
        requires
            apart(p * o, fv * o) * 0x40_0000 <= apart(fv, 0) * o + 0x40_0000 * o,
            o > 0,
    ;
}

/// A product of two close factors is close.
proof fn close_product<A: Arithmetic>(x: u32, a: int, y: u32, b: int, e: int, m: int)
    requires
        rounds::<A>(),
        single::is_finite(x),
        single::is_finite(y),
        apart(value(x), 0) <= m,
        apart(value(y), 0) <= m,
        apart(a, 0) <= m,
        apart(value(x), a) * 0x40_0000 <= e,
        apart(value(y), b) * 0x40_0000 <= e,
        unit() <= m <= 0x1000_0000 * unit(),
        0 <= e,
    ensures
        single::is_finite(times_of::<A>(x, y)),
        apart(value(times_of::<A>(x, y)) * unit(), a * b) * 0x40_0000 <= 2 * (m * e) + 2 * (m * m),
        apart(value(times_of::<A>(x, y)), 0) * unit() <= 3 * (m * m),
{
    room();
    let (o, p, q) = (unit(), value(x), value(y));
    let (pq, mm, me, ab) = (p * q, m * m, m * e, a * b);
    assert(apart(pq, 0) <= mm && mm >= m * o) by (nonlinear_arith)
        requires
            pq == p * q,
            mm == m * m,
            apart(p, 0) <= m,
            apart(q, 0) <= m,
            o <= m,
            o > 0,
    ;
    wide_room();
    assert(mm < ceiling() * o) by (nonlinear_arith)
        requires
            mm == m * m,
            0 < m <= 0x1000_0000 * o,
            0x1_0000_0000 * (0x1_0000_0000 * o) <= ceiling(),
            o > 0,
    ;
    times_fine::<A>(x, y);
    let r = value(times_of::<A>(x, y));
    let (d1, d2) = ((p - a) * q, a * (q - b));
    assert(pq - ab == d1 + d2) by (nonlinear_arith)
        requires
            pq == p * q,
            ab == a * b,
            d1 == (p - a) * q,
            d2 == a * (q - b),
    ;
    assert(apart(d1, 0) * 0x40_0000 <= me && apart(d2, 0) * 0x40_0000 <= me) by (nonlinear_arith)
        requires
            d1 == (p - a) * q,
            d2 == a * (q - b),
            apart(p, a) * 0x40_0000 <= e,
            apart(q, b) * 0x40_0000 <= e,
            apart(q, 0) <= m,
            apart(a, 0) <= m,
            me == m * e,
    ;
    assert(0x40_0000 * o <= mm) by (nonlinear_arith)
        requires
            mm >= m * o,
            m >= 0x1_0000_0000,
            o > 0,
    ;
    assert(apart(r, 0) * o == apart(r * o, 0)) by (nonlinear_arith)
        requires
            o > 0,
    ;
}

/// Between the knee and the white point a sample becomes `1 - (1 - knee) (1 - t)^2`, up to
/// rounding, where `t` is the parameter of the curve.
pub proof fn the_shoulder_is_a_parabola<A: Arithmetic>(x: u32, knee: u32, white: u32)
    requires
        rounds::<A>(),
        single::is_finite(x),
        single::is_finite(knee),
        single::is_finite(white),
        0 <= value(knee) <= unit(),
        value(knee) < value(x) < value(white),
        single::is_finite(curve_parameter::<A>(x, knee, white)),
        apart(value(curve_parameter::<A>(x, knee, white)), 0) <= 2 * unit(),
    ensures
        ({
            let (o, k, t) = (unit(), value(knee), value(curve_parameter::<A>(x, knee, white)));
            let out = rolled::<A>(x, knee, white);
            &&& single::is_finite(out)
            &&& apart((o - value(out)) * (o * o), (o - k) * ((o - t) * (o - t))) * 0x40_0000 <= 0x400
                * (o * o * o)
        }),
{
    room();
    small_numbers();
    let (o, k) = (unit(), value(knee));
    values_are_ordered(knee, x);
    values_are_ordered(white, x);
    let parameter = curve_parameter::<A>(x, knee, white);
    let t = value(parameter);
    minus_fine::<A>(single::ONE, parameter);
    minus_fine::<A>(single::ONE, knee);
    let (rest, slope) = (minus_of::<A>(single::ONE, parameter), minus_of::<A>(single::ONE, knee));
    let m = 4 * o;
    wide_room();
    close_product::<A>(slope, o - k, rest, o - t, 4 * o, m);
    let first = times_of::<A>(slope, rest);
    let oo = o * o;
    assert(m * (4 * o) == 16 * oo && m * m == 16 * oo) by (nonlinear_arith)
        requires
            m == 4 * o,
            oo == o * o,
    ;
    let ab = (o - k) * (o - t);
    let f = value(first);
    let fo = f * o;
    assert(apart(fo, ab) * 0x40_0000 <= 64 * oo);
    assert(apart(ab, 0) <= 3 * oo) by (nonlinear_arith)
        requires
            ab == (o - k) * (o - t),
            0 <= k <= o,
            apart(t, 0) <= 2 * o,
            oo == o * o,
    ;
    assert(apart(f, 0) <= 4 * o) by (nonlinear_arith)
        requires
            fo == f * o,
            apart(fo, ab) * 0x40_0000 <= 64 * oo,
            apart(ab, 0) <= 3 * oo,
            oo == o * o,
            o > 0,
    ;
    // The second factor.
    let r = value(rest);
    let fr = f * r;
    assert(apart(fr, 0) <= 16 * oo) by (nonlinear_arith)
        requires
            fr == f * r,
            apart(f, 0) <= 4 * o,
            apart(r, 0) <= 4 * o,
            oo == o * o,
    ;
    assert(16 * oo < ceiling() * o) by (nonlinear_arith)
        requires
            oo == o * o,
            16 * o < ceiling(),
            o > 0,
    ;
    times_fine::<A>(first, rest);
    let second = times_of::<A>(first, rest);
    let s = value(second);
    assert(apart(s, 0) <= 20 * o) by (nonlinear_arith)
        requires
            apart(s * o, fr) * 0x40_0000 <= apart(fr, 0) + 0x40_0000 * o,
            apart(fr, 0) <= 16 * oo,
            oo == o * o,
            o >= 0x1_0000_0000,
    ;
    minus_fine::<A>(single::ONE, second);
    let out = rolled::<A>(x, knee, white);
    assert(out == minus_of::<A>(single::ONE, second));
    let g = o - value(out);
    assert(apart(g, s) * 0x40_0000 <= 22 * o);
    // Everything in cubes of one.
    let (goo, so, fro, abr, ooo) = (g * oo, s * o, fr * o, ab * (o - t), oo * o);
    assert(apart(goo, so * o) * 0x40_0000 <= 22 * ooo) by (nonlinear_arith)
        requires
            apart(g, s) * 0x40_0000 <= 22 * o,
            goo == g * oo,
            so == s * o,
            ooo == oo * o,
            oo == o * o,
            o > 0,
    ;
    assert(apart(so * o, fro) * 0x40_0000 <= 17 * ooo) by (nonlinear_arith)
        requires
            apart(so, fr) * 0x40_0000 <= apart(fr, 0) + 0x40_0000 * o,
            apart(fr, 0) <= 16 * oo,
            0x40_0000 * o <= oo,
            fro == fr * o,
            ooo == oo * o,
            o > 0,
    ;
    let (d1, d2) = ((fo - ab) * r, ab * (r - (o - t)));
    assert(fro - abr == d1 + d2) by (nonlinear_arith)
        requires
            fro == fr * o,
            fr == f * r,
            fo == f * o,
            abr == ab * (o - t),
            d1 == (fo - ab) * r,
            d2 == ab * (r - (o - t)),
    ;
    assert(apart(d1, 0) * 0x40_0000 <= 256 * ooo && apart(d2, 0) * 0x40_0000 <= 12 * ooo)
        by (nonlinear_arith)
        requires
            d1 == (fo - ab) * r,
            d2 == ab * (r - (o - t)),
            apart(fo, ab) * 0x40_0000 <= 64 * oo,
            apart(r, 0) <= 4 * o,
            apart(ab, 0) <= 3 * oo,
            apart(r, o - t) * 0x40_0000 <= 4 * o,
            ooo == oo * o,
            oo >= 0,
            o > 0,
    ;
    assert(abr == (o - k) * ((o - t) * (o - t))) by (nonlinear_arith)
        requires
            abr == ab * (o - t),
            ab == (o - k) * (o - t),
    ;
    assert(0 <= ooo) by (nonlinear_arith)
        requires
            ooo == oo * o,
            oo == o * o,
            o > 0,
    ;
}

/// The squares that fit.
proof fn wide_room()
    ensures
        0x1_0000_0000 * (0x1_0000_0000 * unit()) <= ceiling(),
        0x40_0000 * unit() <= unit() * unit(),
{
    room();
    sizes();
    lemma2_to64();
    lemma_pow2_adds(64, 149);
    lemma_pow2_adds(1, 148);
    lemma_pow2_strictly_increases(213, 276);
    lemma_pow2_adds(23, 253);
    let o = unit();
    assert(0x40_0000 * o <= o * o) by (nonlinear_arith)
        requires
            o >= 0x40_0000,
    ;
}

/// The parameter of the curve solves its quadratic: with the white point `w`, the knee `k` and
/// the curve `x = k + 2 (1 - k) t + (w + k - 2) t^2`, the derivative at `t`, which is
/// `2 (1 - k) + 2 (w + k - 2) t`, squares to the discriminant
/// `4 (1 - k)^2 + 4 (w + k - 2) (x - k)`, up to rounding. This is for curves that are not
/// straight.
pub proof fn the_parameter_solves_the_quadratic<A: Arithmetic>(x: u32, knee: u32, white: u32)
    requires
        rounds::<A>(),
        takes_single_roots::<A>(),
        single::is_finite(x),
        single::is_finite(knee),
        single::is_finite(white),
        0 <= value(knee) <= unit(),
        unit() <= value(white) <= 0x10_0000 * unit(),
        value(knee) < value(x) < value(white),
        apart(value(white) + value(knee), 2 * unit()) * 0x1_0000 >= value(white) + 2 * unit(),
        apart(value(curve_parameter::<A>(x, knee, white)), 0) <= 2 * unit(),
        single::is_finite(curve_parameter::<A>(x, knee, white)),
    ensures
        ({
            let (o, k, w) = (unit(), value(knee), value(white));
            let t = value(curve_parameter::<A>(x, knee, white));
            let (a, b, c) = (w + k - 2 * o, 2 * (o - k), value(x) - k);
            let (rise, all) = (2 * (a * t) + b * o, w + 2 * o);
            apart(rise * rise, (b * b + 4 * (a * c)) * (o * o)) * 0x400 <= (all * all) * (o * o)
        }),
{
    room();
    wide_room();
    small_numbers();
    let (o, k, w) = (unit(), value(knee), value(white));
    let (a, b, c) = (w + k - 2 * o, 2 * (o - k), value(x) - k);
    let s = w + 2 * o;
    // The coefficients.
    plus_fine::<A>(white, knee);
    let sum = plus_of::<A>(white, knee);
    minus_fine::<A>(sum, single::TWO);
    let ca = minus_of::<A>(sum, single::TWO);
    let va = value(ca);
    assert(apart(va, a) * 0x40_0000 <= 4 * s);
    minus_fine::<A>(single::ONE, knee);
    let room_ = minus_of::<A>(single::ONE, knee);
    scaled::<A>(single::TWO, 2, room_);
    let cb = times_of::<A>(single::TWO, room_);
    let vb = value(cb);
    assert(apart(vb, b) * 0x40_0000 <= 4 * s);
    minus_fine::<A>(knee, x);
    let cc = minus_of::<A>(knee, x);
    let vc = value(cc);
    assert(apart(vc, -c) * 0x40_0000 <= 2 * s);
    values_are_ordered(ca, 0);
    values_are_ordered(0, ca);
    assert(va != 0);
    // The discriminant.
    let m = 8 * s;
    close_product::<A>(cb, b, cb, b, 4 * s, m);
    scaled::<A>(single::FOUR, 4, ca);
    let four = times_of::<A>(single::FOUR, ca);
    assert(apart(value(four), 4 * a) * 0x40_0000 <= 24 * s);
    close_product::<A>(four, 4 * a, cc, -c, 24 * s, m);
    let (b2, p) = (times_of::<A>(cb, cb), times_of::<A>(four, cc));
    let ss = s * s;
    assert(m * (4 * s) == 32 * ss && m * m == 64 * ss && m * (24 * s) == 192 * ss)
        by (nonlinear_arith)
        requires
            m == 8 * s,
            ss == s * s,
    ;
    let (bb, ac) = (b * b, a * c);
    assert((4 * a) * (-c) == -(4 * ac)) by (nonlinear_arith)
        requires
            ac == a * c,
    ;
    let (vb2, vp) = (value(b2), value(p));
    assert(apart(vb2, 0) <= 0x2_0000_0000_0000 * o && apart(vp, 0) <= 0x2_0000_0000_0000 * o) by {
        assert(ss <= (0x10_0004 * o) * s) by (nonlinear_arith)
            requires
                ss == s * s,
                0 < s <= 0x10_0004 * o,
        ;
        assert(apart(vb2, 0) <= 0x1000_0000 * s && apart(vp, 0) <= 0x1000_0000 * s)
            by (nonlinear_arith)
            requires
                apart(vb2, 0) * o <= 192 * ss,
                apart(vp, 0) * o <= 192 * ss,
                ss <= (0x10_0004 * o) * s,
                o > 0,
                s > 0,
        ;
    }
    minus_fine::<A>(b2, p);
    let disc = minus_of::<A>(b2, p);
    let vd = value(disc);
    let whole = bb + 4 * ac;
    assert(0x40_0000 * o <= ss) by (nonlinear_arith)
        requires
            ss == s * s,
            s >= o,
            o >= 0x40_0000,
    ;
    discriminant_is_close(vd, vb2, vp, bb, ac, ss, o);
    discriminant_is_positive(k, w, value(x), o);
    assert(bb <= ss && apart(ac, 0) <= ss) by (nonlinear_arith)
        requires
            bb == b * b,
            ac == a * c,
            ss == s * s,
            0 <= b <= s,
            apart(a, 0) <= s,
            0 <= c <= s,
    ;
    assert(whole >= 0);
    root_is_close::<A>(disc, whole, ss, s);
    let root = root_of::<A>(single::larger(disc, 0));
    let r = value(root);
    parameter_is_close::<A>(x, knee, white, ca, cb, root, whole);
}

/// The derivative at a parameter that is computed from close coefficients and a close root
/// squares to the discriminant.
proof fn parameter_is_close<A: Arithmetic>(
    x: u32,
    knee: u32,
    white: u32,
    ca: u32,
    cb: u32,
    root: u32,
    whole: int,
)
    requires
        rounds::<A>(),
        single::is_finite(ca),
        single::is_finite(cb),
        single::is_finite(root),
        0 <= value(knee) <= unit(),
        unit() <= value(white) <= 0x10_0000 * unit(),
        apart(value(white) + value(knee), 2 * unit()) * 0x1_0000 >= value(white) + 2 * unit(),
        apart(value(ca), value(white) + value(knee) - 2 * unit()) * 0x40_0000 <= 4 * (value(white)
            + 2 * unit()),
        apart(value(cb), 2 * (unit() - value(knee))) * 0x40_0000 <= 4 * (value(white) + 2 * unit()),
        0 <= value(root) <= 3 * (value(white) + 2 * unit()),
        apart(value(root) * value(root), whole) * 0x40_0000 <= 0x820 * ((value(white) + 2 * unit())
            * (value(white) + 2 * unit())),
        curve_parameter::<A>(x, knee, white) == over_of::<A>(
            plus_of::<A>(single::negated(cb), root),
            times_of::<A>(single::TWO, ca),
        ),
        apart(value(curve_parameter::<A>(x, knee, white)), 0) <= 2 * unit(),
    ensures
        ({
            let (o, k, w) = (unit(), value(knee), value(white));
            let t = value(curve_parameter::<A>(x, knee, white));
            let (a, b) = (w + k - 2 * o, 2 * (o - k));
            let (rise, all) = (2 * (a * t) + b * o, w + 2 * o);
            apart(rise * rise, whole * (o * o)) * 0x400 <= (all * all) * (o * o)
        }),
{
    room();
    wide_room();
    small_numbers();
    let (o, k, w) = (unit(), value(knee), value(white));
    let (a, b) = (w + k - 2 * o, 2 * (o - k));
    let s = w + 2 * o;
    let ss = s * s;
    let (va, vb, r) = (value(ca), value(cb), value(root));
    negated_value(cb);
    let minus_b = single::negated(cb);
    plus_fine::<A>(minus_b, root);
    let top = plus_of::<A>(minus_b, root);
    let vq = value(top);
    assert(apart(vq, r - vb) * 0x40_0000 <= 8 * s);
    scaled::<A>(single::TWO, 2, ca);
    let two = times_of::<A>(single::TWO, ca);
    let vt = value(two);
    assert(apart(vt, 2 * a) * 0x40_0000 <= 20 * s);
    let so = s * o;
    assert(apart(vq * o, 0) <= 8 * so && 8 * so < ceiling() * apart(vt, 0)) by (nonlinear_arith)
        requires
            apart(vq, 0) <= 8 * s,
            so == s * o,
            apart(vt, 0) * 0x2_0000 >= s,
            0x1_0000_0000 * o <= ceiling(),
            s > 0,
            o > 0,
    ;
    over_is_fine::<A>(top, two);
    let t = value(curve_parameter::<A>(x, knee, white));
    assert(curve_parameter::<A>(x, knee, white) == over_of::<A>(top, two));
    let tt = t * vt;
    assert(0x40_0000 * apart(vt, 0) <= so) by (nonlinear_arith)
        requires
            apart(vt, 0) <= 4 * s,
            so == s * o,
            o >= 0x1_0000_0000,
            s > 0,
    ;
    assert(apart(tt, vq * o) * 0x40_0000 <= 9 * so);
    rise_is_close(t, a, b, vb, vq, vt, r, s, o);
    let rise = 2 * (a * t) + b * o;
    assert(0 <= r * o <= 3 * so) by (nonlinear_arith)
        requires
            0 <= r <= 3 * s,
            so == s * o,
            o > 0,
    ;
    squares_are_close(rise, r * o, s, o);
    let oo = o * o;
    let (ro2, ssoo) = ((r * o) * (r * o), ss * oo);
    assert(ro2 == (r * r) * oo && apart((r * r) * oo, whole * oo) * 0x40_0000 <= 0x820 * ssoo
        && so * so == ssoo) by (nonlinear_arith)
        requires
            ro2 == (r * o) * (r * o),
            oo == o * o,
            ssoo == ss * oo,
            ss == s * s,
            so == s * o,
            apart(r * r, whole) * 0x40_0000 <= 0x820 * ss,
    ;
}

/// The root of a discriminant that is close is close.
proof fn root_is_close<A: Arithmetic>(disc: u32, whole: int, ss: int, s: int)
    requires
        takes_single_roots::<A>(),
        single::is_finite(disc),
        0 <= whole <= 5 * ss,
        ss == s * s,
        s > 0,
        apart(value(disc) * unit(), whole) * 0x40_0000 <= 0x800 * ss,
    ensures
        ({
            let r = value(root_of::<A>(single::larger(disc, 0)));
            &&& single::is_finite(root_of::<A>(single::larger(disc, 0)))
            &&& 0 <= r <= 3 * s
            &&& apart(r * r, whole) * 0x40_0000 <= 0x820 * ss
        }),
{
    room();
    small_numbers();
    let o = unit();
    let held = single::larger(disc, 0);
    values_are_ordered(0, disc);
    let (vl, vd) = (value(held), value(disc));
    assert(vl == if vd > 0 {
        vd
    } else {
        0
    });
    assert(vd <= 0 ==> vd * o <= 0 && vl * o == 0) by (nonlinear_arith)
        requires
            vd <= 0 ==> vl == 0,
            o > 0,
    ;
    assert(apart(vl * o, whole) * 0x40_0000 <= 0x800 * ss);
    root_squares::<A>(held);
    let r = value(root_of::<A>(held));
    assert(apart(r * r, whole) * 0x40_0000 <= 0x820 * ss);
    assert(r <= 3 * s) by (nonlinear_arith)
        requires
            r >= 0,
            r * r <= 7 * ss,
            ss == s * s,
            s > 0,
    ;
}

/// The discriminant is close.
proof fn discriminant_is_close(vd: int, b2: int, p: int, bb: int, ac: int, ss: int, o: int)
    requires
        o > 0,
        apart(b2 * o, bb) * 0x40_0000 <= 192 * ss,
        apart(p * o, -(4 * ac)) * 0x40_0000 <= 512 * ss,
        apart(b2, 0) * o <= 192 * ss,
        apart(p, 0) * o <= 192 * ss,
        apart(vd, b2 - p) * 0x40_0000 <= apart(b2 - p, 0) + 0x40_0000,
        0x40_0000 * o <= ss,
    ensures
        apart(vd * o, bb + 4 * ac) * 0x40_0000 <= 0x800 * ss,
{
    let e = vd - (b2 - p);
    let (x, y) = (apart(b2, 0), apart(p, 0));
    assert(apart(e * o, 0) * 0x40_0000 <= x * o + y * o + 0x40_0000 * o) by (nonlinear_arith)
        requires
            apart(e, 0) * 0x40_0000 <= x + y + 0x40_0000,
            o > 0,
    ;
    assert(vd * o == e * o + b2 * o - p * o) by (nonlinear_arith)
        requires
            e == vd - (b2 - p),
    ;
}

/// The exact discriminant is not negative before the white point.
proof fn discriminant_is_positive(k: int, w: int, x: int, o: int)
    requires
        0 <= k <= o <= w,
        k < x < w,
    ensures
        (2 * (o - k)) * (2 * (o - k)) + 4 * ((w + k - 2 * o) * (x - k)) >= 0,
{
    let (u, v, c) = (o - k, w - o, x - k);
    let a = v - u;
    assert(a * c >= v * v - u * u || a * c >= 0) by (nonlinear_arith)
        requires
            a == v - u,
            0 <= c <= u + v,
            u >= 0,
            v >= 0,
    ;
    assert((2 * u) * (2 * u) == 4 * (u * u) && v * v >= 0 && u * u >= 0) by (nonlinear_arith);
    assert(w + k - 2 * o == a);
}

/// The derivative at the parameter is close to the root.
proof fn rise_is_close(t: int, a: int, b: int, vb: int, vq: int, vt: int, r: int, s: int, o: int)
    requires
        o > 0,
        s > 0,
        apart(t, 0) <= 2 * o,
        apart(vt, 2 * a) * 0x40_0000 <= 20 * s,
        apart(t * vt, vq * o) * 0x40_0000 <= 9 * (s * o),
        apart(vq, r - vb) * 0x40_0000 <= 8 * s,
        apart(vb, b) * 0x40_0000 <= 4 * s,
    ensures
        apart(2 * (a * t) + b * o, r * o) * 0x40_0000 <= 64 * (s * o),
{
    let so = s * o;
    let (d1, d2, d3) = (t * (2 * a - vt), (vq - (r - vb)) * o, (b - vb) * o);
    assert(2 * (a * t) + b * o - r * o == d1 + (t * vt - vq * o) + d2 + d3) by (nonlinear_arith)
        requires
            d1 == t * (2 * a - vt),
            d2 == (vq - (r - vb)) * o,
            d3 == (b - vb) * o,
    ;
    assert(apart(d1, 0) * 0x40_0000 <= 40 * so) by (nonlinear_arith)
        requires
            d1 == t * (2 * a - vt),
            apart(t, 0) <= 2 * o,
            apart(vt, 2 * a) * 0x40_0000 <= 20 * s,
            so == s * o,
            o > 0,
    ;
    assert(apart(d2, 0) * 0x40_0000 <= 8 * so && apart(d3, 0) * 0x40_0000 <= 4 * so)
        by (nonlinear_arith)
        requires
            d2 == (vq - (r - vb)) * o,
            d3 == (b - vb) * o,
            apart(vq, r - vb) * 0x40_0000 <= 8 * s,
            apart(vb, b) * 0x40_0000 <= 4 * s,
            so == s * o,
            o > 0,
    ;
}

/// Squares of close numbers are close.
proof fn squares_are_close(x: int, y: int, s: int, o: int)
    requires
        o > 0,
        s > 0,
        apart(x, y) * 0x40_0000 <= 64 * (s * o),
        0 <= y <= 3 * (s * o),
    ensures
        apart(x * x, y * y) * 0x40_0000 <= 448 * ((s * o) * (s * o)),
{
    let so = s * o;
    assert(so > 0) by (nonlinear_arith)
        requires
            so == s * o,
            s > 0,
            o > 0,
    ;
    let (d, e) = (x - y, x + y);
    assert(x * x - y * y == d * e) by (nonlinear_arith)
        requires
            d == x - y,
            e == x + y,
    ;
    assert(apart(e, 0) <= 7 * so);
    assert(apart(d * e, 0) * 0x40_0000 <= 448 * (so * so)) by (nonlinear_arith)
        requires
            apart(d, 0) * 0x40_0000 <= 64 * so,
            apart(e, 0) <= 7 * so,
            so > 0,
    ;
}

} // verus!
