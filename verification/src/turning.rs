//! Where a straightened frame lies in its source.
//!
//! An upright rectangle of extents `x` and `y` fits a frame of extents `w` and `h` that
//! is turned by an angle of sine `s` and cosine `c` where `x c + y s <= w` and
//! `x s + y c <= h`. Straightening cuts to such a rectangle, up to rounding. The points
//! at which pixels are sampled lie half a pixel inside its border, and they lie inside
//! the source however the arithmetic rounds.

use vstd::arithmetic::power2::{
    lemma2_to64, lemma2_to64_rest, lemma_pow2_adds, lemma_pow2_pos, pow2,
};
use vstd::prelude::*;

use crate::arith::{
    cos64_of, floor64_of, minus64_of, of_count64_of, over64_of, radians64_of, sin64_of, times64_of,
    to_count64_of, widen_of, Arithmetic,
};
use crate::double;
use crate::geometry::{straighten_fault, straightened_extents, whole, HALF64, TWO64};
use crate::rounding::{
    apart, computes_closely, computes_exactly, count_exact64, floor_count64, minus_fine64,
    over_fine64, size64, times_fine64, unit64, value64, values_are_ordered64,
};

verus! {

/// The sine of an angle in degrees, without its sign.
pub open spec fn sine<A: Arithmetic>(degrees: u32) -> u64 {
    double::magnitude(sin64_of::<A>(radians64_of::<A>(widen_of::<A>(degrees))))
}

/// The cosine of an angle in degrees, without its sign.
pub open spec fn cosine<A: Arithmetic>(degrees: u32) -> u64 {
    double::magnitude(cos64_of::<A>(radians64_of::<A>(widen_of::<A>(degrees))))
}

/// Whether two numbers are the sine and cosine of a turn by half a right angle at the
/// most: neither is negative, the sine does not exceed the cosine nor the cosine one, and
/// their squares add up to one but for a `2^48`th.
pub open spec fn is_turn(s: int, c: int) -> bool {
    let u = unit64();
    &&& 0 <= s <= c <= u
    &&& apart(s * s + c * c, u * u) * 0x1_0000_0000_0000 <= u * u
}

/// Whether a frame is so long, for its turn, that only its long sides hold the
/// rectangle.
pub open spec fn is_long<A: Arithmetic>(in_h: int, in_w: int, degrees: u32) -> bool {
    let w = of_count64_of::<A>(in_w as u64);
    let h = of_count64_of::<A>(in_h as u64);
    let (short, long) = if double::at_most(w, h) {
        (w, h)
    } else {
        (h, w)
    };
    double::at_most(
        short,
        times64_of::<A>(
            times64_of::<A>(times64_of::<A>(TWO64, sine::<A>(degrees)), cosine::<A>(degrees)),
            long,
        ),
    )
}

/// A part in `2^52` of one.
spec fn part() -> int {
    pow2(1022) as int
}

proof fn parts()
    ensures
        part() >= 0x1_0000_0000_0000_0000,
        unit64() == 0x10_0000_0000_0000 * part(),
        double::is_finite(TWO64),
        value64(TWO64) == 2 * unit64(),
        double::is_finite(HALF64),
        2 * value64(HALF64) == unit64(),
{
    lemma2_to64();
    lemma2_to64_rest();
    lemma_pow2_adds(52, 1022);
    lemma_pow2_adds(64, 958);
    lemma_pow2_adds(1, 1022);
    lemma_pow2_adds(1, 1021);
    lemma_pow2_pos(958);
    let p = pow2(958) as int;
    assert(0x1_0000_0000_0000_0000 * p >= 0x1_0000_0000_0000_0000);
    assert(size64(0x4000_0000_0000_0000) == 0x10_0000_0000_0000 * pow2(1023));
    assert(size64(0x3FE0_0000_0000_0000) == 0x10_0000_0000_0000 * pow2(1021));
}

proof fn squares_order(x: int, y: int)
    requires
        0 <= x,
        0 <= y,
        x * x <= y * y,
    ensures
        x <= y,
{
    assert(x <= y) by (nonlinear_arith)
        requires
            0 <= x,
            0 <= y,
            x * x <= y * y,
    ;
}

/// Sine and cosine of a turn add up to three quarters at least.
proof fn turns_are_wide(s: int, c: int)
    requires
        is_turn(s, c),
        unit64() > 0,
    ensures
        4 * (s + c) >= 3 * unit64(),
        s * s + c * c <= 2 * (unit64() * unit64()),
{
    let u = unit64();
    assert(u * u > 0) by (nonlinear_arith)
        requires
            u > 0,
    ;
    assert((4 * (s + c)) * (4 * (s + c)) >= 16 * (s * s + c * c)) by (nonlinear_arith)
        requires
            0 <= s,
            0 <= c,
    ;
    assert((3 * u) * (3 * u) == 9 * (u * u)) by (nonlinear_arith);
    squares_order(3 * u, 4 * (s + c));
}

/// Two crossed constraints hold at once where the sides come from both: the first of
/// them, with a rim of one pixel to spare.
proof fn crossed_fits(
    w: int,
    h: int,
    s: int,
    c: int,
    d: int,
    n1: int,
    n2: int,
    x: int,
    y: int,
    p: int,
    u: int,
)
    requires
        p >= 0x1_0000_0000_0000_0000,
        u == 0x10_0000_0000_0000 * p,
        1 <= w <= 0x20_0000,
        1 <= h <= 0x20_0000,
        0 <= s <= c <= u,
        4 * (s + c) >= 3 * u,
        (c * c - s * s) * 0x100_0000 >= u * u,
        apart(d * u, c * c - s * s) <= 5 * (p * u),
        apart(n1, w * c - h * s) <= 0x100_0000 * p,
        apart(n2, h * c - w * s) <= 0x100_0000 * p,
        (x * u) * d <= n1 * u + 0x80_0000 * (p * u) + d,
        (y * u) * d <= n2 * u + 0x80_0000 * (p * u) + d,
    ensures
        (x - 1) * c + (y - 1) * s <= w * u,
{
    let f = c * c - s * s;
    let r = c + s;
    let m = x * c + y * s;
    assert(d >= 0x800_0000 * p) by (nonlinear_arith)
        requires
            d * u >= f - 5 * (p * u),
            f * 0x100_0000 >= u * u,
            u == 0x10_0000_0000_0000 * p,
            p >= 1,
    ;
    assert(((x * u) * d) * c + ((y * u) * d) * s <= (n1 * u) * c + (n2 * u) * s + (0x80_0000 * (p
        * u) + d) * r) by (nonlinear_arith)
        requires
            (x * u) * d <= n1 * u + 0x80_0000 * (p * u) + d,
            (y * u) * d <= n2 * u + 0x80_0000 * (p * u) + d,
            0 <= s,
            0 <= c,
            r == c + s,
    ;
    assert(((x * u) * d) * c == (u * d) * (x * c)) by (nonlinear_arith);
    assert(((y * u) * d) * s == (u * d) * (y * s)) by (nonlinear_arith);
    assert((u * d) * m == (u * d) * (x * c) + (u * d) * (y * s)) by (nonlinear_arith)
        requires
            m == x * c + y * s,
    ;
    let b = 0x100_0000 * p;
    assert(n1 * c <= (w * c - h * s + b) * c) by (nonlinear_arith)
        requires
            n1 <= w * c - h * s + b,
            0 <= c,
    ;
    assert(n2 * s <= (h * c - w * s + b) * s) by (nonlinear_arith)
        requires
            n2 <= h * c - w * s + b,
            0 <= s,
    ;
    assert((w * c - h * s + b) * c == w * (c * c) - h * (s * c) + b * c) by (nonlinear_arith);
    assert((h * c - w * s + b) * s == h * (s * c) - w * (s * s) + b * s) by (nonlinear_arith);
    assert(w * f == w * (c * c) - w * (s * s)) by (nonlinear_arith)
        requires
            f == c * c - s * s,
    ;
    assert(b * r == b * c + b * s) by (nonlinear_arith)
        requires
            r == c + s,
    ;
    assert((n1 * u) * c + (n2 * u) * s <= (w * f) * u + ((0x100_0000 * p) * r) * u)
        by (nonlinear_arith)
        requires
            n1 * c + n2 * s <= w * f + (0x100_0000 * p) * r,
            u > 0,
    ;
    assert((w * f) * u <= (w * u) * (u * d) + (w * u) * (5 * (p * u))) by (nonlinear_arith)
        requires
            f <= d * u + 5 * (p * u),
            w >= 1,
            u > 0,
    ;
    let pu = p * u;
    assert(pu > 0) by (nonlinear_arith)
        requires
            pu == p * u,
            p > 0,
            u > 0,
    ;
    assert((w * u) * (5 * pu) <= (0x200_0000 * pu) * r) by (nonlinear_arith)
        requires
            w <= 0x20_0000,
            4 * r >= 3 * u,
            pu > 0,
            u > 0,
    ;
    assert(((0x100_0000 * p) * r) * u == (0x100_0000 * pu) * r) by (nonlinear_arith)
        requires
            pu == p * u,
    ;
    assert((0x80_0000 * pu + d) * r == (0x80_0000 * pu) * r + d * r) by (nonlinear_arith);
    assert((0x200_0000 * pu) * r + (0x100_0000 * pu) * r + (0x80_0000 * pu) * r <= (0x400_0000 * pu)
        * r) by (nonlinear_arith)
        requires
            pu > 0,
            r >= 0,
    ;
    assert((0x400_0000 * pu) * r + d * r <= (u * d) * r) by (nonlinear_arith)
        requires
            d >= 0x800_0000 * p,
            pu == p * u,
            u >= 2,
            p > 0,
            r >= 0,
    ;
    let e = u * d;
    assert(e > 0) by (nonlinear_arith)
        requires
            e == u * d,
            u > 0,
            d >= 0x800_0000 * p,
            p > 0,
    ;
    assert(e * m <= e * (w * u) + e * r) by (nonlinear_arith)
        requires
            e * m <= (w * u) * e + e * r,
    ;
    assert(m <= w * u + r) by (nonlinear_arith)
        requires
            e * m <= e * (w * u) + e * r,
            e > 0,
    ;
    assert((x - 1) * c + (y - 1) * s == m - r) by (nonlinear_arith)
        requires
            m == x * c + y * s,
            r == c + s,
    ;
}

/// What three rounded products in a row leave of a long side: little more than the exact
/// product.
proof fn long_bounds(s: int, c: int, g: int, a: int, b: int, z: int, u: int, k: int)
    requires
        k == 0x10_0000_0000_0000,
        u > 0,
        0 <= s,
        0 <= c <= u,
        1 <= g,
        k * a <= (k + 1) * (2 * s) + k,
        k * (b * u) <= (k + 1) * (a * c) + k * u,
        k * z <= (k + 1) * (b * g) + k,
    ensures
        k * (z * u) <= (2 * k + 9) * (g * (s * c)) + (8 * k) * (g * u),
{
    let sc = s * c;
    assert(k * (a * c) <= (k + 1) * (2 * sc) + k * c) by (nonlinear_arith)
        requires
            k * a <= (k + 1) * (2 * s) + k,
            0 <= c,
            sc == s * c,
    ;
    assert(0 <= sc) by (nonlinear_arith)
        requires
            sc == s * c,
            0 <= s,
            0 <= c,
    ;
    let bu = b * u;
    assert(k * (k * bu) <= (k + 1) * (k * (a * c)) + k * (k * u)) by (nonlinear_arith)
        requires
            k * bu <= (k + 1) * (a * c) + k * u,
            k > 0,
    ;
    assert(k * (k * bu) <= ((k + 1) * (k + 1)) * (2 * sc) + (3 * (k * k)) * u) by {
        assert((k + 1) * (k * (a * c)) <= (k + 1) * ((k + 1) * (2 * sc) + k * c))
            by (nonlinear_arith)
            requires
                k * (a * c) <= (k + 1) * (2 * sc) + k * c,
                k > 0,
        ;
        assert((k + 1) * ((k + 1) * (2 * sc) + k * c) == ((k + 1) * (k + 1)) * (2 * sc) + ((k + 1)
            * k) * c) by (nonlinear_arith);
        assert(((k + 1) * k) * c <= (2 * (k * k)) * u) by (nonlinear_arith)
            requires
                0 <= c <= u,
                k >= 1,
        ;
        assert(k * (k * u) == (k * k) * u) by (nonlinear_arith);
        assert((2 * (k * k)) * u + (k * k) * u == (3 * (k * k)) * u) by (nonlinear_arith);
    }
    assert((k + 1) * (k + 1) <= k * k + 3 * k) by (nonlinear_arith)
        requires
            k >= 1,
    ;
    assert(((k + 1) * (k + 1)) * (2 * sc) <= (k * k + 3 * k) * (2 * sc)) by (nonlinear_arith)
        requires
            (k + 1) * (k + 1) <= k * k + 3 * k,
            0 <= sc,
    ;
    assert((k * k + 3 * k) * (2 * sc) == k * ((2 * k + 6) * sc)) by (nonlinear_arith);
    assert((3 * (k * k)) * u == k * ((3 * k) * u)) by (nonlinear_arith);
    assert(k * bu <= (2 * k + 6) * sc + (3 * k) * u) by (nonlinear_arith)
        requires
            k * (k * bu) <= k * ((2 * k + 6) * sc) + k * ((3 * k) * u),
            k > 0,
    ;
    // The last product, by the long side.
    assert(k * (z * u) <= (k + 1) * (g * bu) + k * u) by (nonlinear_arith)
        requires
            k * z <= (k + 1) * (b * g) + k,
            bu == b * u,
            u > 0,
    ;
    assert(k * ((k + 1) * (g * bu)) == ((k + 1) * g) * (k * bu)) by (nonlinear_arith);
    assert(((k + 1) * g) * (k * bu) <= ((k + 1) * g) * ((2 * k + 6) * sc + (3 * k) * u))
        by (nonlinear_arith)
        requires
            k * bu <= (2 * k + 6) * sc + (3 * k) * u,
            (k + 1) * g >= 0,
    ;
    let (ma, mb) = ((2 * k + 6) * sc, (3 * k) * u);
    assert(((k + 1) * g) * (ma + mb) == ((k + 1) * g) * ma + ((k + 1) * g) * mb)
        by (nonlinear_arith);
    assert(((k + 1) * g) * ((2 * k + 6) * sc) == ((k + 1) * (2 * k + 6)) * (g * sc))
        by (nonlinear_arith);
    assert(((k + 1) * g) * ((3 * k) * u) == ((k + 1) * (3 * k)) * (g * u)) by (nonlinear_arith);
    let (gs, gu) = (g * sc, g * u);
    assert(gs >= 0 && gu >= u) by (nonlinear_arith)
        requires
            gs == g * sc,
            gu == g * u,
            g >= 1,
            sc >= 0,
            u > 0,
    ;
    assert((k + 1) * (2 * k + 6) <= k * (2 * k + 9) && (k + 1) * (3 * k) <= k * (4 * k))
        by (nonlinear_arith)
        requires
            k >= 6,
    ;
    assert(((k + 1) * (2 * k + 6)) * gs <= (k * (2 * k + 9)) * gs) by (nonlinear_arith)
        requires
            (k + 1) * (2 * k + 6) <= k * (2 * k + 9),
            gs >= 0,
    ;
    assert(((k + 1) * (3 * k)) * gu <= (k * (4 * k)) * gu) by (nonlinear_arith)
        requires
            (k + 1) * (3 * k) <= k * (4 * k),
            gu >= 0,
    ;
    assert((k * (2 * k + 9)) * gs == k * ((2 * k + 9) * gs)) by (nonlinear_arith);
    assert((k * (4 * k)) * gu == k * ((4 * k) * gu)) by (nonlinear_arith);
    assert((k + 1) * (g * bu) <= (2 * k + 9) * gs + (4 * k) * gu) by (nonlinear_arith)
        requires
            k * ((k + 1) * (g * bu)) <= k * ((2 * k + 9) * gs) + k * ((4 * k) * gu),
            k > 0,
    ;
    assert((4 * k) * gu + k * u <= (8 * k) * gu) by (nonlinear_arith)
        requires
            gu >= u,
            u > 0,
            k > 0,
    ;
}

/// Where only the long sides hold the rectangle, its sides are halves of the short side
/// over cosine and sine: it fits with a rim of one pixel to spare.
proof fn halves_fit(
    p: int,
    g: int,
    s: int,
    c: int,
    xv: int,
    yv: int,
    x: int,
    y: int,
    e: int,
    u: int,
)
    requires
        e >= 0x1_0000_0000_0000_0000,
        u == 0x10_0000_0000_0000 * e,
        u == unit64(),
        1 <= p <= g <= 0x20_0000,
        0 < s <= c,
        is_turn(s, c),
        x * u <= xv,
        y * u <= yv,
        2 * (xv * c) <= p * (u * u) + (6 * p) * (e * u),
        2 * (yv * s) <= p * (u * u) + (6 * p) * (e * u),
        0x10_0000_0000_0000 * (p * (u * u)) <= 0x20_0000_0000_0009 * (g * (s * c))
            + 0x80_0000_0000_0000 * (g * u),
    ensures
        (x - 1) * c + (y - 1) * s <= p * u,
        (x - 1) * s + (y - 1) * c <= g * u,
{
    let k: int = 0x10_0000_0000_0000;
    let r = s + c;
    let uu = u * u;
    let eu = e * u;
    turns_are_wide(s, c);
    assert(uu == k * eu && eu > 0) by (nonlinear_arith)
        requires
            uu == u * u,
            eu == e * u,
            u == k * e,
            k > 0,
            e > 0,
    ;
    assert(4 * (u * r) >= 3 * uu) by (nonlinear_arith)
        requires
            4 * r >= 3 * u,
            uu == u * u,
            u > 0,
    ;
    assert((6 * p) * eu <= 0xC0_0000 * eu) by (nonlinear_arith)
        requires
            p <= 0x20_0000,
            eu > 0,
    ;
    // The short side.
    let m = x * c + y * s;
    assert(u * m <= xv * c + yv * s) by (nonlinear_arith)
        requires
            m == x * c + y * s,
            x * u <= xv,
            y * u <= yv,
            0 <= s,
            0 <= c,
    ;
    assert(p * uu == u * (p * u)) by (nonlinear_arith)
        requires
            uu == u * u,
    ;
    assert(m <= p * u + r) by (nonlinear_arith)
        requires
            u * m <= u * (p * u) + u * r,
            u > 0,
    ;
    assert((x - 1) * c + (y - 1) * s == m - r) by (nonlinear_arith)
        requires
            m == x * c + y * s,
            r == s + c,
    ;
    // The long side.
    let n = xv * s + yv * c;
    let sc = s * c;
    let (ss, cc) = (s * s, c * c);
    let t = ss + cc;
    assert(sc > 0 && ss >= 0 && cc >= 0) by (nonlinear_arith)
        requires
            sc == s * c,
            ss == s * s,
            cc == c * c,
            s > 0,
            c > 0,
    ;
    assert(n * sc == (xv * c) * ss + (yv * s) * cc) by (nonlinear_arith)
        requires
            n == xv * s + yv * c,
            sc == s * c,
            ss == s * s,
            cc == c * c,
    ;
    let b = p * uu + (6 * p) * eu;
    assert(2 * (n * sc) <= b * t) by (nonlinear_arith)
        requires
            n * sc == (xv * c) * ss + (yv * s) * cc,
            2 * (xv * c) <= b,
            2 * (yv * s) <= b,
            ss >= 0,
            cc >= 0,
            t == ss + cc,
    ;
    let pu = p * uu;
    assert(k * b == (k + 6) * pu) by (nonlinear_arith)
        requires
            b == pu + (6 * p) * eu,
            pu == p * uu,
            uu == k * eu,
    ;
    let gs = g * sc;
    long_is_long(p, g, gs, u, e);
    assert(k * (k * b) == (k + 6) * (k * pu)) by (nonlinear_arith)
        requires
            k * b == (k + 6) * pu,
    ;
    assert(k * pu <= (2 * k + 10) * gs) by (nonlinear_arith)
        requires
            k == 0x10_0000_0000_0000,
            0x10_0000_0000_0000 * pu <= 0x20_0000_0000_000A * gs,
    ;
    assert((k + 6) * (k * pu) <= (k + 6) * ((2 * k + 10) * gs)) by (nonlinear_arith)
        requires
            k * pu <= (2 * k + 10) * gs,
            k > 0,
    ;
    assert((k + 6) * ((2 * k + 10) * gs) == ((k + 6) * (2 * k + 10)) * gs) by (nonlinear_arith);
    assert((k + 6) * (2 * k + 10) <= 2 * (k * (k + 12))) by (nonlinear_arith)
        requires
            k >= 30,
    ;
    assert(((k + 6) * (2 * k + 10)) * gs <= (2 * (k * (k + 12))) * gs) by (nonlinear_arith)
        requires
            (k + 6) * (2 * k + 10) <= 2 * (k * (k + 12)),
            gs >= 0,
    ;
    assert((2 * (k * (k + 12))) * gs == k * (2 * ((k + 12) * gs))) by (nonlinear_arith);
    assert(k * b <= 2 * ((k + 12) * gs)) by (nonlinear_arith)
        requires
            k * (k * b) <= k * (2 * ((k + 12) * gs)),
            k > 0,
    ;
    assert(k * (2 * (n * sc)) <= (k * b) * t) by (nonlinear_arith)
        requires
            2 * (n * sc) <= b * t,
            k > 0,
    ;
    assert((k * b) * t <= (2 * ((k + 12) * gs)) * t) by (nonlinear_arith)
        requires
            k * b <= 2 * ((k + 12) * gs),
            t >= 0,
    ;
    assert((2 * ((k + 12) * gs)) * t == (2 * sc) * (((k + 12) * g) * t)) by (nonlinear_arith)
        requires
            gs == g * sc,
    ;
    assert(k * (2 * (n * sc)) == (2 * sc) * (k * n)) by (nonlinear_arith);
    assert(k * n <= ((k + 12) * g) * t) by (nonlinear_arith)
        requires
            (2 * sc) * (k * n) <= (2 * sc) * (((k + 12) * g) * t),
            sc > 0,
    ;
    assert(0x10_0000_0000_0000 * n <= (0x10_0000_0000_000C * g) * t) by (nonlinear_arith)
        requires
            k == 0x10_0000_0000_0000,
            k * n <= ((k + 12) * g) * t,
    ;
    long_side(n, g, t, uu);
    let o = x * s + y * c;
    assert(u * o <= n) by (nonlinear_arith)
        requires
            o == x * s + y * c,
            x * u <= xv,
            y * u <= yv,
            n == xv * s + yv * c,
            0 <= s,
            0 <= c,
    ;
    assert(g * uu == u * (g * u)) by (nonlinear_arith)
        requires
            uu == u * u,
    ;
    assert(o <= g * u + r) by (nonlinear_arith)
        requires
            u * o <= u * (g * u) + u * r,
            u > 0,
    ;
    assert((x - 1) * s + (y - 1) * c == o - r) by (nonlinear_arith)
        requires
            o == x * s + y * c,
            r == s + c,
    ;
}

/// A long side is long in whole numbers too.
proof fn long_is_long(p: int, g: int, gs: int, u: int, e: int)
    requires
        e >= 0x1_0000_0000_0000_0000,
        u == 0x10_0000_0000_0000 * e,
        1 <= p,
        1 <= g <= 0x20_0000,
        0x10_0000_0000_0000 * (p * (u * u)) <= 0x20_0000_0000_0009 * gs + 0x80_0000_0000_0000 * (g
            * u),
    ensures
        gs >= 0,
        0x10_0000_0000_0000 * (p * (u * u)) <= 0x20_0000_0000_000A * gs,
{
    let uu = u * u;
    let gu = g * u;
    assert(p * uu >= uu) by (nonlinear_arith)
        requires
            p >= 1,
            uu == u * u,
    ;
    assert(0 <= gu <= 0x20_0000 * u) by (nonlinear_arith)
        requires
            gu == g * u,
            1 <= g <= 0x20_0000,
            u > 0,
    ;
    assert(uu >= 0x1_0000_0000_0000_0000_0000_0000 * u) by (nonlinear_arith)
        requires
            uu == u * u,
            u >= 0x1_0000_0000_0000_0000_0000_0000,
    ;
}

/// A part in `2^40` of a side is less than half a pixel.
proof fn long_side(n: int, g: int, t: int, uu: int)
    requires
        1 <= g <= 0x20_0000,
        uu > 0,
        t * 0x100_0000_0000 <= 0x100_0000_0001 * uu,
        0x10_0000_0000_0000 * n <= (0x10_0000_0000_000C * g) * t,
    ensures
        2 * n <= 2 * (g * uu) + uu,
{
    let gu = g * uu;
    let gt = g * t;
    assert(gt * 0x100_0000_0000 <= 0x100_0000_0001 * gu) by (nonlinear_arith)
        requires
            t * 0x100_0000_0000 <= 0x100_0000_0001 * uu,
            gt == g * t,
            gu == g * uu,
            g >= 1,
    ;
    assert((0x10_0000_0000_000C * g) * t == 0x10_0000_0000_000C * gt) by (nonlinear_arith)
        requires
            gt == g * t,
    ;
    assert(0 < gu <= 0x20_0000 * uu) by (nonlinear_arith)
        requires
            gu == g * uu,
            1 <= g <= 0x20_0000,
            uu > 0,
    ;
}

/// A product of at most `m` is off by no more than `m` parts and the least number.
proof fn product_off(v: int, n: int, m: int, p: int, u: int)
    requires
        p > 0,
        u == 0x10_0000_0000_0000 * p,
        0 <= m,
        0 <= n <= m * (u * u),
        apart(v * u, n) * 0x10_0000_0000_0000 <= apart(n, 0) + 0x10_0000_0000_0000 * u,
    ensures
        apart(v * u, n) <= (m * p + 1) * u,
{
    let mp = m * p;
    assert(m * (u * u) == 0x10_0000_0000_0000 * (mp * u)) by (nonlinear_arith)
        requires
            mp == m * p,
            u == 0x10_0000_0000_0000 * p,
    ;
    assert((mp + 1) * u == mp * u + u) by (nonlinear_arith);
}

/// The product of a side and a sine or cosine.
proof fn side_off<A: Arithmetic>(a: u64, b: u64, w: int)
    requires
        computes_closely::<A>(),
        1 <= w <= 0x20_0000,
        double::is_finite(a),
        double::is_finite(b),
        value64(a) == w * unit64(),
        0 <= value64(b) <= unit64(),
    ensures
        double::is_finite(times64_of::<A>(a, b)),
        apart(value64(times64_of::<A>(a, b)), w * value64(b)) <= w * part() + 1,
{
    let (u, p, c) = (unit64(), part(), value64(b));
    parts();
    let n = (w * u) * c;
    assert(0 <= n <= w * (u * u)) by (nonlinear_arith)
        requires
            n == (w * u) * c,
            1 <= w,
            0 <= c <= u,
    ;
    assert(w * (u * u) < 0x2_0000_0000 * u * u) by (nonlinear_arith)
        requires
            w <= 0x20_0000,
            u > 0,
    ;
    times_fine64::<A>(a, b);
    let v = value64(times64_of::<A>(a, b));
    product_off(v, n, w, p, u);
    let off = w * p + 1;
    assert(n == (w * c) * u) by (nonlinear_arith)
        requires
            n == (w * u) * c,
    ;
    let wc = w * c;
    assert(apart(v, wc) <= off) by (nonlinear_arith)
        requires
            apart(v * u, wc * u) <= off * u,
            u > 0,
    ;
}

/// The square of a sine or cosine.
proof fn square_off<A: Arithmetic>(a: u64)
    requires
        computes_closely::<A>(),
        double::is_finite(a),
        0 <= value64(a) <= unit64(),
    ensures
        double::is_finite(times64_of::<A>(a, a)),
        apart(value64(times64_of::<A>(a, a)) * unit64(), value64(a) * value64(a)) <= (part() + 1)
            * unit64(),
        -(part() + 1) <= value64(times64_of::<A>(a, a)) <= unit64() + part() + 1,
{
    let (u, p, c) = (unit64(), part(), value64(a));
    parts();
    let n = c * c;
    assert(0 <= n <= 1 * (u * u)) by (nonlinear_arith)
        requires
            n == c * c,
            0 <= c <= u,
    ;
    assert(1 * (u * u) < 0x2_0000_0000 * u * u) by (nonlinear_arith)
        requires
            u > 0,
    ;
    times_fine64::<A>(a, a);
    let v = value64(times64_of::<A>(a, a));
    product_off(v, n, 1, p, u);
    assert(-(p + 1) <= v <= u + p + 1) by (nonlinear_arith)
        requires
            apart(v * u, n) <= (p + 1) * u,
            0 <= n <= u * u,
            u > 0,
    ;
}

/// A difference of at most `m` is off by no more than `m` parts and the least number.
proof fn difference_off<A: Arithmetic>(a: u64, b: u64, m: int)
    requires
        computes_closely::<A>(),
        double::is_finite(a),
        double::is_finite(b),
        0 <= m < 0x2_0000_0000,
        apart(value64(a) - value64(b), 0) <= m * unit64(),
    ensures
        double::is_finite(minus64_of::<A>(a, b)),
        apart(value64(minus64_of::<A>(a, b)), value64(a) - value64(b)) <= m * part() + 1,
{
    let (u, p) = (unit64(), part());
    parts();
    assert(m * u < 0x2_0000_0000 * u) by (nonlinear_arith)
        requires
            m < 0x2_0000_0000,
            u > 0,
    ;
    minus_fine64::<A>(a, b);
    assert(m * u == 0x10_0000_0000_0000 * (m * p)) by (nonlinear_arith)
        requires
            u == 0x10_0000_0000_0000 * p,
    ;
}

/// A length cut to whole pixels, some of them, does not exceed it.
proof fn whole_is_within<A: Arithmetic>(length: u64, x: int)
    requires
        computes_closely::<A>(),
        double::is_finite(length),
        value64(length) < 0x1_0000_0000_0000_0000 * unit64(),
        x == whole::<A>(length),
        x >= 1,
    ensures
        x * unit64() <= value64(length),
{
    let (u, v) = (unit64(), value64(length));
    parts();
    floor_count64::<A>(length);
    let n = to_count64_of::<A>(floor64_of::<A>(length)) as int;
    assert(n * u <= v) by (nonlinear_arith)
        requires
            n == v / u,
            u > 0,
    ;
    assert(x * u <= n * u) by (nonlinear_arith)
        requires
            x <= n,
            u > 0,
    ;
}

/// A numerator of a crossed side is close.
proof fn numerator_off<A: Arithmetic>(a: u64, b: u64, s: u64, c: u64, w: int, h: int)
    requires
        computes_closely::<A>(),
        1 <= w <= 0x20_0000,
        1 <= h <= 0x20_0000,
        double::is_finite(a),
        double::is_finite(b),
        double::is_finite(s),
        double::is_finite(c),
        value64(a) == w * unit64(),
        value64(b) == h * unit64(),
        0 <= value64(s) <= unit64(),
        0 <= value64(c) <= unit64(),
    ensures
        ({
            let n = minus64_of::<A>(times64_of::<A>(a, c), times64_of::<A>(b, s));
            &&& double::is_finite(n)
            &&& apart(value64(n), w * value64(c) - h * value64(s)) <= 0x100_0000 * part()
            &&& apart(value64(n), 0) <= 0x80_0000 * unit64()
        }),
{
    let (u, p) = (unit64(), part());
    parts();
    side_off::<A>(a, c, w);
    side_off::<A>(b, s, h);
    let (cv, sv) = (value64(c), value64(s));
    assert(0 <= w * cv <= 0x20_0000 * u && 0 <= h * sv <= 0x20_0000 * u) by (nonlinear_arith)
        requires
            1 <= w <= 0x20_0000,
            1 <= h <= 0x20_0000,
            0 <= cv <= u,
            0 <= sv <= u,
    ;
    assert(w * p <= 0x20_0000 * p && h * p <= 0x20_0000 * p) by (nonlinear_arith)
        requires
            w <= 0x20_0000,
            h <= 0x20_0000,
            p > 0,
    ;
    difference_off::<A>(times64_of::<A>(a, c), times64_of::<A>(b, s), 0x50_0000);
}

/// A quotient of a numerator by what the turn leaves is close, and cut to whole pixels it
/// stays within.
proof fn crossed_side<A: Arithmetic>(n: u64, d: u64, x: int)
    requires
        computes_closely::<A>(),
        double::is_finite(n),
        double::is_finite(d),
        apart(value64(n), 0) <= 0x80_0000 * unit64(),
        value64(d) >= 0x800_0000 * part(),
        x == whole::<A>(over64_of::<A>(n, d)),
        x >= 1,
    ensures
        (x * unit64()) * value64(d) <= value64(n) * unit64() + 0x80_0000 * (part() * unit64())
            + value64(d),
        value64(over64_of::<A>(n, d)) * value64(d) >= value64(n) * unit64() - 0x80_0000 * (part()
            * unit64()) - value64(d),
        double::is_finite(over64_of::<A>(n, d)),
        value64(over64_of::<A>(n, d)) < 0x1_0000_0000_0000_0000 * unit64(),
{
    let (u, p, nv, dv) = (unit64(), part(), value64(n), value64(d));
    parts();
    over_fine64::<A>(n, d);
    let q = value64(over64_of::<A>(n, d));
    assert(apart(nv * u, 0) <= 0x80_0000 * (u * u)) by (nonlinear_arith)
        requires
            apart(nv, 0) <= 0x80_0000 * u,
            u > 0,
    ;
    assert(u * u == 0x10_0000_0000_0000 * (p * u)) by (nonlinear_arith)
        requires
            u == 0x10_0000_0000_0000 * p,
    ;
    assert(q * dv <= nv * u + 0x80_0000 * (p * u) + dv);
    assert(q < 0x1_0000_0000_0000_0000 * u) by (nonlinear_arith)
        requires
            q * dv <= nv * u + 0x80_0000 * (p * u) + dv,
            nv * u <= 0x80_0000 * (u * u),
            u * u == 0x10_0000_0000_0000 * (p * u),
            dv >= 0x800_0000 * p,
            p > 0,
            u == 0x10_0000_0000_0000 * p,
    ;
    whole_is_within::<A>(over64_of::<A>(n, d), x);
    assert((x * u) * dv <= q * dv) by (nonlinear_arith)
        requires
            x * u <= q,
            dv > 0,
    ;
}

/// A product is at most a little more than the exact one.
proof fn product_at_most<A: Arithmetic>(a: u64, b: u64)
    requires
        computes_closely::<A>(),
        double::is_finite(a),
        double::is_finite(b),
        apart(value64(a) * value64(b), 0) < 0x2_0000_0000 * unit64() * unit64(),
    ensures
        ({
            let v = value64(times64_of::<A>(a, b));
            let n = value64(a) * value64(b);
            &&& double::is_finite(times64_of::<A>(a, b))
            &&& 0x10_0000_0000_0000 * (v * unit64()) <= 0x10_0000_0000_0000 * n + apart(n, 0)
                + 0x10_0000_0000_0000 * unit64()
            &&& 0x10_0000_0000_0000 * (v * unit64()) >= 0x10_0000_0000_0000 * n - apart(n, 0)
                - 0x10_0000_0000_0000 * unit64()
        }),
{
    times_fine64::<A>(a, b);
}

/// What it means that a frame is long: the exact product holds it too, or nearly so.
proof fn long_holds<A: Arithmetic>(sine: u64, cosine: u64, short: u64, long: u64, p: int, g: int)
    requires
        computes_closely::<A>(),
        double::is_finite(sine),
        double::is_finite(cosine),
        double::is_finite(short),
        double::is_finite(long),
        is_turn(value64(sine), value64(cosine)),
        1 <= p <= g <= 0x20_0000,
        value64(short) == p * unit64(),
        value64(long) == g * unit64(),
        double::at_most(
            short,
            times64_of::<A>(times64_of::<A>(times64_of::<A>(TWO64, sine), cosine), long),
        ),
    ensures
        0x10_0000_0000_0000 * (p * (unit64() * unit64())) <= 0x20_0000_0000_0009 * (g * (value64(
            sine,
        ) * value64(cosine))) + 0x80_0000_0000_0000 * (g * unit64()),
{
    let (u, e, s, c) = (unit64(), part(), value64(sine), value64(cosine));
    let k: int = 0x10_0000_0000_0000;
    parts();
    assert(0 <= (2 * u) * s < 0x2_0000_0000 * u * u) by (nonlinear_arith)
        requires
            0 <= s <= u,
            u > 0,
    ;
    product_at_most::<A>(TWO64, sine);
    let a = value64(times64_of::<A>(TWO64, sine));
    assert(k * a <= (k + 1) * (2 * s) + k) by (nonlinear_arith)
        requires
            k * (a * u) <= k * ((2 * u) * s) + (2 * u) * s + k * u,
            u > 0,
    ;
    assert(a >= -2) by (nonlinear_arith)
        requires
            k * (a * u) >= k * ((2 * u) * s) - (2 * u) * s - k * u,
            k == 0x10_0000_0000_0000,
            0 <= s,
            u > 0,
    ;
    assert(-2 <= a <= 3 * u);
    assert(-(2 * u) <= a * c <= 3 * (u * u) && -(2 * (u * u)) <= -(2 * u)) by (nonlinear_arith)
        requires
            -2 <= a <= 3 * u,
            0 <= c <= u,
            u >= 1,
    ;
    assert(3 * (u * u) < 0x2_0000_0000 * u * u) by (nonlinear_arith)
        requires
            u > 0,
    ;
    product_at_most::<A>(times64_of::<A>(TWO64, sine), cosine);
    let b = value64(times64_of::<A>(times64_of::<A>(TWO64, sine), cosine));
    let ac = a * c;
    assert(b <= 7 * u && b >= -5) by (nonlinear_arith)
        requires
            k * (b * u) <= k * ac + apart(ac, 0) + k * u,
            k * (b * u) >= k * ac - apart(ac, 0) - k * u,
            -(2 * u) <= ac <= 3 * (u * u),
            k == 0x10_0000_0000_0000,
            u >= 1,
    ;
    if ac < 0 {
        assert(a * c >= -(2 * u));
    }
    assert(apart(b * (g * u), 0) <= 0x100_0000 * (u * u)) by (nonlinear_arith)
        requires
            -5 <= b <= 7 * u,
            1 <= g <= 0x20_0000,
            u >= 5,
    ;
    assert(0x100_0000 * (u * u) < 0x2_0000_0000 * u * u) by (nonlinear_arith)
        requires
            u > 0,
    ;
    product_at_most::<A>(times64_of::<A>(times64_of::<A>(TWO64, sine), cosine), long);
    let last = times64_of::<A>(times64_of::<A>(times64_of::<A>(TWO64, sine), cosine), long);
    let z = value64(last);
    values_are_ordered64(last, short);
    assert(p * u <= z);
    let bg = b * g;
    assert(b * (g * u) == bg * u) by (nonlinear_arith)
        requires
            bg == b * g,
    ;
    let n = bg * u;
    assert(k * z <= k * bg + apart(bg, 0) + k) by (nonlinear_arith)
        requires
            k * (z * u) <= k * (bg * u) + apart(bg * u, 0) + k * u,
            u > 0,
    ;
    assert(bg > 0) by {
        assert(p * u >= u) by (nonlinear_arith)
            requires
                p >= 1,
                u > 0,
        ;
        if bg <= 0 {
            assert(bg >= -0xA0_0000) by (nonlinear_arith)
                requires
                    bg == b * g,
                    b >= -5,
                    1 <= g <= 0x20_0000,
            ;
        }
    }
    assert(b > 0) by (nonlinear_arith)
        requires
            bg > 0,
            bg == b * g,
            g >= 1,
    ;
    assert(ac > 0) by {
        if ac <= 0 {
            assert(k * (b * u) <= 2 * u + k * u);
            assert(b <= 2) by (nonlinear_arith)
                requires
                    k * (b * u) <= 2 * u + k * u,
                    k == 0x10_0000_0000_0000,
                    u > 0,
            ;
            assert(bg <= 0x40_0000) by (nonlinear_arith)
                requires
                    bg == b * g,
                    b <= 2,
                    1 <= g <= 0x20_0000,
            ;
            assert(p * u >= u) by (nonlinear_arith)
                requires
                    p >= 1,
                    u > 0,
            ;
        }
    }
    assert(k * (b * u) <= (k + 1) * (a * c) + k * u) by (nonlinear_arith)
        requires
            k * (b * u) <= k * ac + ac + k * u,
            ac == a * c,
    ;
    assert(k * z <= (k + 1) * (b * g) + k) by (nonlinear_arith)
        requires
            k * z <= k * bg + bg + k,
            bg == b * g,
    ;
    long_bounds(s, c, g, a, b, z, u, k);
    let gs = g * (s * c);
    let gu = g * u;
    assert(k * (p * (u * u)) <= k * (z * u)) by (nonlinear_arith)
        requires
            p * u <= z,
            u > 0,
            k > 0,
    ;
    assert((2 * k + 9) * gs == 0x20_0000_0000_0009 * gs && (8 * k) * gu == 0x80_0000_0000_0000 * gu
        && k * (p * (u * u)) == 0x10_0000_0000_0000 * (p * (u * u))) by (nonlinear_arith)
        requires
            k == 0x10_0000_0000_0000,
    ;
}

/// Half the short side over a sine or cosine, cut to whole pixels, is close.
proof fn half_side<A: Arithmetic>(half: u64, b: u64, p: int, x: int)
    requires
        computes_closely::<A>(),
        double::is_finite(half),
        double::is_finite(b),
        1 <= p <= 0x20_0000,
        0 <= 2 * value64(half) <= p * unit64() + p * part() + 2,
        value64(b) <= unit64(),
        value64(b) * 0x1_0000_0000 >= unit64(),
        x == whole::<A>(over64_of::<A>(half, b)),
        x >= 1,
    ensures
        ({
            let q = value64(over64_of::<A>(half, b));
            &&& x * unit64() <= q < 0x1_0000_0000_0000_0000 * unit64()
            &&& 2 * (q * value64(b)) <= p * (unit64() * unit64()) + (6 * p) * (part() * unit64())
        }),
{
    let (u, e, n, c) = (unit64(), part(), value64(half), value64(b));
    parts();
    let (pu, pe) = (p * u, p * e);
    assert(u <= pu <= 0x20_0000 * u && e <= pe <= 0x20_0000 * e) by (nonlinear_arith)
        requires
            pu == p * u,
            pe == p * e,
            1 <= p <= 0x20_0000,
            u > 0,
            e > 0,
    ;
    over_fine64::<A>(half, b);
    let q = value64(over64_of::<A>(half, b));
    let nu = n * u;
    assert(2 * nu <= pu * u + pe * u + 2 * u && 0 <= nu) by (nonlinear_arith)
        requires
            nu == n * u,
            0 <= 2 * n <= pu + pe + 2,
            u > 0,
    ;
    let (eu, pu2) = (e * u, p * (u * u));
    assert(pu * u == pu2 && pe * u == p * eu && pu2 == 0x10_0000_0000_0000 * (p * eu))
        by (nonlinear_arith)
        requires
            pu == p * u,
            pe == p * e,
            eu == e * u,
            pu2 == p * (u * u),
            u == 0x10_0000_0000_0000 * e,
    ;
    assert(p * eu >= eu && eu >= 0x1_0000_0000_0000_0000 * u && (6 * p) * eu == 6 * (p * eu))
        by (nonlinear_arith)
        requires
            p >= 1,
            eu == e * u,
            e >= 0x1_0000_0000_0000_0000,
            u > 0,
    ;
    assert(2 * (q * c) <= pu2 + 6 * (p * eu));
    assert(q < 0x1_0000_0000_0000_0000 * u) by (nonlinear_arith)
        requires
            2 * (q * c) <= pu2 + 6 * (p * eu),
            pu2 == 0x10_0000_0000_0000 * (p * eu),
            pu2 == p * (u * u),
            1 <= p <= 0x20_0000,
            c * 0x1_0000_0000 >= u,
            u > 0,
    ;
    whole_is_within::<A>(over64_of::<A>(half, b), x);
}

/// Half the short side.
proof fn half_of_side<A: Arithmetic>(short: u64, p: int)
    requires
        computes_closely::<A>(),
        double::is_finite(short),
        1 <= p <= 0x20_0000,
        value64(short) == p * unit64(),
    ensures
        double::is_finite(times64_of::<A>(HALF64, short)),
        0 <= 2 * value64(times64_of::<A>(HALF64, short)) <= p * unit64() + p * part() + 2,
        2 * value64(times64_of::<A>(HALF64, short)) >= p * unit64() - p * part() - 2,
{
    let (u, e, v) = (unit64(), part(), value64(HALF64));
    parts();
    let k: int = 0x10_0000_0000_0000;
    let n = v * (p * u);
    let pu = p * u;
    assert(2 * n == pu * u) by (nonlinear_arith)
        requires
            n == v * pu,
            2 * v == u,
    ;
    assert(u <= pu <= 0x20_0000 * u) by (nonlinear_arith)
        requires
            pu == p * u,
            1 <= p <= 0x20_0000,
            u > 0,
    ;
    assert(u * u <= pu * u <= 0x20_0000 * (u * u) && 0x20_0000 * (u * u) < 0x2_0000_0000 * u * u)
        by (nonlinear_arith)
        requires
            u <= pu <= 0x20_0000 * u,
            u > 0,
    ;
    product_at_most::<A>(HALF64, short);
    let h = value64(times64_of::<A>(HALF64, short));
    assert(2 * (k * h) <= (k + 1) * pu + 2 * k) by (nonlinear_arith)
        requires
            k * (h * u) <= k * n + n + k * u,
            2 * n == pu * u,
            u > 0,
    ;
    assert(2 * (k * h) >= (k - 1) * pu - 2 * k) by (nonlinear_arith)
        requires
            k * (h * u) >= k * n - n - k * u,
            2 * n == pu * u,
            u > 0,
    ;
    assert((k - 1) * pu == k * pu - pu) by (nonlinear_arith);
    assert(pu == k * (p * e)) by (nonlinear_arith)
        requires
            pu == p * u,
            u == k * e,
    ;
    assert((k + 1) * pu == k * pu + pu) by (nonlinear_arith);
    assert(u * u >= 0x1_0000_0000_0000_0000 * u) by (nonlinear_arith)
        requires
            u >= 0x1_0000_0000_0000_0000,
    ;
    assert(h >= 0) by (nonlinear_arith)
        requires
            k * (h * u) >= k * n - n - k * u,
            2 * n >= 0x1_0000_0000_0000_0000 * u,
            k == 0x10_0000_0000_0000,
            u > 0,
    ;
}

/// A frame that is long for its turn is not turned by next to nothing.
proof fn long_turns(p: int, g: int, s: int, c: int)
    requires
        1 <= p,
        1 <= g <= 0x20_0000,
        is_turn(s, c),
        0x10_0000_0000_0000 * (p * (unit64() * unit64())) <= 0x20_0000_0000_0009 * (g * (s * c))
            + 0x80_0000_0000_0000 * (g * unit64()),
    ensures
        s > 0,
        s * 0x100_0000 >= unit64(),
        c * 0x100_0000 >= unit64(),
{
    let u = unit64();
    let gs = g * (s * c);
    parts();
    turns_are_wide(s, c);
    long_is_long(p, g, gs, u, part());
    let uu = u * u;
    assert(p * uu >= uu) by (nonlinear_arith)
        requires
            p >= 1,
            uu == u * u,
    ;
    assert(gs <= 0x20_0000 * (s * u)) by (nonlinear_arith)
        requires
            gs == g * (s * c),
            1 <= g <= 0x20_0000,
            0 <= s,
            0 <= c <= u,
    ;
    let su = s * u;
    assert(s * 0x100_0000 >= u) by (nonlinear_arith)
        requires
            0x100_0000 * su >= uu,
            su == s * u,
            uu == u * u,
            u > 0,
    ;
}

/// Every pixel of a straightened frame is sampled inside its source: the outermost sample
/// points, which lie half a pixel inside the corners, map within the frame. Of sine and
/// cosine this asks that they be those of a turn, and, but where only the long sides hold
/// the rectangle, that they differ.
pub proof fn sample_points_lie_inside<A: Arithmetic>(in_h: int, in_w: int, degrees: u32)
    requires
        computes_exactly::<A>(),
        computes_closely::<A>(),
        1 <= in_h <= 0x20_0000,
        1 <= in_w <= 0x20_0000,
        double::is_finite(sine::<A>(degrees)),
        double::is_finite(cosine::<A>(degrees)),
        is_turn(value64(sine::<A>(degrees)), value64(cosine::<A>(degrees))),
        is_long::<A>(in_h, in_w, degrees) || (value64(cosine::<A>(degrees)) * value64(
            cosine::<A>(degrees),
        ) - value64(sine::<A>(degrees)) * value64(sine::<A>(degrees))) * 0x100_0000 >= unit64()
            * unit64(),
        straighten_fault::<A>(in_h, in_w, degrees) is None,
    ensures
        ({
            let (y, x) = straightened_extents::<A>(in_h, in_w, degrees);
            let (s, c) = (value64(sine::<A>(degrees)), value64(cosine::<A>(degrees)));
            &&& (x - 1) * c + (y - 1) * s <= in_w * unit64()
            &&& (x - 1) * s + (y - 1) * c <= in_h * unit64()
        }),
{
    let (u, e) = (unit64(), part());
    let (sp, cp) = (sine::<A>(degrees), cosine::<A>(degrees));
    let (s, c) = (value64(sp), value64(cp));
    parts();
    turns_are_wide(s, c);
    count_exact64::<A>(in_w as u64);
    count_exact64::<A>(in_h as u64);
    let (w, h) = (of_count64_of::<A>(in_w as u64), of_count64_of::<A>(in_h as u64));
    let (y, x) = straightened_extents::<A>(in_h, in_w, degrees);
    values_are_ordered64(h, w);
    assert(double::at_most(w, h) == (in_w <= in_h)) by {
        assert((in_h * u < in_w * u) == (in_h < in_w)) by (nonlinear_arith)
            requires
                u > 0,
        ;
    }
    if is_long::<A>(in_h, in_w, degrees) {
        if in_w <= in_h {
            let half = times64_of::<A>(HALF64, w);
            long_holds::<A>(sp, cp, w, h, in_w, in_h);
            long_turns(in_w, in_h, s, c);
            half_of_side::<A>(w, in_w);
            half_side::<A>(half, cp, in_w, x);
            half_side::<A>(half, sp, in_w, y);
            halves_fit(
                in_w,
                in_h,
                s,
                c,
                value64(over64_of::<A>(half, cp)),
                value64(over64_of::<A>(half, sp)),
                x,
                y,
                e,
                u,
            );
        } else {
            let half = times64_of::<A>(HALF64, h);
            long_holds::<A>(sp, cp, h, w, in_h, in_w);
            long_turns(in_h, in_w, s, c);
            half_of_side::<A>(h, in_h);
            half_side::<A>(half, cp, in_h, y);
            half_side::<A>(half, sp, in_h, x);
            halves_fit(
                in_h,
                in_w,
                s,
                c,
                value64(over64_of::<A>(half, cp)),
                value64(over64_of::<A>(half, sp)),
                y,
                x,
                e,
                u,
            );
        }
    } else {
        let (cc, ss) = (times64_of::<A>(cp, cp), times64_of::<A>(sp, sp));
        square_off::<A>(cp);
        square_off::<A>(sp);
        difference_off::<A>(cc, ss, 2);
        let d = minus64_of::<A>(cc, ss);
        let (dv, f) = (value64(d), c * c - s * s);
        rest_off(dv, value64(cc), value64(ss), c * c, s * s, e, u);
        let n1 = minus64_of::<A>(times64_of::<A>(w, cp), times64_of::<A>(h, sp));
        let n2 = minus64_of::<A>(times64_of::<A>(h, cp), times64_of::<A>(w, sp));
        numerator_off::<A>(w, h, sp, cp, in_w, in_h);
        numerator_off::<A>(h, w, sp, cp, in_h, in_w);
        crossed_side::<A>(n1, d, x);
        crossed_side::<A>(n2, d, y);
        crossed_fits(in_w, in_h, s, c, dv, value64(n1), value64(n2), x, y, e, u);
        crossed_fits(in_h, in_w, s, c, dv, value64(n2), value64(n1), y, x, e, u);
    }
}

/// What the turn leaves, the difference of the squares, is close and not too small.
proof fn rest_off(d: int, a: int, b: int, cc: int, ss: int, p: int, u: int)
    requires
        p >= 0x1_0000_0000_0000_0000,
        u == 0x10_0000_0000_0000 * p,
        apart(a * u, cc) <= (p + 1) * u,
        apart(b * u, ss) <= (p + 1) * u,
        apart(d, a - b) <= 2 * p + 1,
        (cc - ss) * 0x100_0000 >= u * u,
    ensures
        apart(d * u, cc - ss) <= 5 * (p * u),
        d >= 0x800_0000 * p,
{
    let pu = p * u;
    assert((p + 1) * u == pu + u) by (nonlinear_arith)
        requires
            pu == p * u,
    ;
    assert(apart(d * u, a * u - b * u) <= 2 * pu + u) by (nonlinear_arith)
        requires
            apart(d, a - b) <= 2 * p + 1,
            pu == p * u,
            u > 0,
    ;
    assert(pu >= 3 * u && u * u == 0x10_0000_0000_0000 * pu) by (nonlinear_arith)
        requires
            pu == p * u,
            p >= 3,
            u == 0x10_0000_0000_0000 * p,
    ;
    assert(d >= 0x800_0000 * p) by (nonlinear_arith)
        requires
            d * u >= 0x800_0000 * pu,
            pu == p * u,
            u > 0,
    ;
}

/// Two numbers of a bounded sum have a bounded product.
proof fn product_of_sum(a: int, b: int, m: int)
    requires
        0 <= a,
        0 <= b,
        a + b <= m,
    ensures
        4 * (a * b) <= m * m,
{
    assert(4 * (a * b) <= (a + b) * (a + b)) by (nonlinear_arith);
    assert((a + b) * (a + b) <= m * m) by (nonlinear_arith)
        requires
            0 <= a,
            0 <= b,
            a + b <= m,
    ;
}

/// A number times a weighted sum.
proof fn weighed(n: int, a: int, b: int, c: int, s: int)
    ensures
        n * (a * c + b * s) == a * (n * c) + b * (n * s),
{
    assert(n * (a * c + b * s) == n * (a * c) + n * (b * s)) by (nonlinear_arith);
    assert(n * (a * c) == a * (n * c)) by (nonlinear_arith);
    assert(n * (b * s) == b * (n * s)) by (nonlinear_arith);
}

proof fn spread_out(a: int, x: int, y: int)
    ensures
        a * (x + y) == a * x + a * y,
        a * (x - y) == a * x - a * y,
{
    assert(a * (x + y) == a * x + a * y) by (nonlinear_arith);
    assert(a * (x - y) == a * x - a * y) by (nonlinear_arith);
}

/// The numerators of the crossing in terms of the frame.
proof fn numerators(w: int, h: int, s: int, c: int)
    ensures
        ({
            let (n1, n2) = (w * c - h * s, h * c - w * s);
            let (f, t, sc) = (c * c - s * s, s * s + c * c, s * c);
            &&& n1 * c == w * (c * c) - h * sc
            &&& n1 * s == w * sc - h * (s * s)
            &&& n2 * c == h * (c * c) - w * sc
            &&& n2 * s == h * sc - w * (s * s)
            &&& n1 * c - n2 * s == w * t - 2 * (h * sc)
            &&& n2 * c - n1 * s == h * t - 2 * (w * sc)
            &&& n1 * c + n2 * s == w * f
            &&& n1 * s + n2 * c == h * f
        }),
{
    let (f, t, sc) = (c * c - s * s, s * s + c * c, s * c);
    assert((w * c - h * s) * c == w * (c * c) - h * (s * c)) by (nonlinear_arith);
    assert((w * c - h * s) * s == w * (s * c) - h * (s * s)) by (nonlinear_arith);
    assert((h * c - w * s) * c == h * (c * c) - w * (s * c)) by (nonlinear_arith);
    assert((h * c - w * s) * s == h * (s * c) - w * (s * s)) by (nonlinear_arith);
    spread_out(w, s * s, c * c);
    spread_out(h, s * s, c * c);
    spread_out(w, c * c, s * s);
    spread_out(h, c * c, s * s);
}

/// Where both constraints bind, no rectangle that meets them has a larger area than the
/// one at which they cross.
proof fn crossing_is_largest(w: int, h: int, s: int, c: int, x: int, y: int, u: int)
    requires
        0 <= s < c,
        1 <= w,
        1 <= h,
        0 <= x,
        0 <= y,
        x * c + y * s <= w * u,
        x * s + y * c <= h * u,
        w * (s * s + c * c) >= 2 * (h * (s * c)),
        h * (s * s + c * c) >= 2 * (w * (s * c)),
        u > 0,
    ensures
        ({
            let f = c * c - s * s;
            let (n1, n2) = (w * c - h * s, h * c - w * s);
            &&& 0 <= n1
            &&& 0 <= n2
            &&& (x * y) * (f * f) <= (n1 * n2) * (u * u)
        }),
{
    let f = c * c - s * s;
    let t = s * s + c * c;
    let sc = s * c;
    let (n1, n2) = (w * c - h * s, h * c - w * s);
    let a = h * t - 2 * (w * sc);
    let b = w * t - 2 * (h * sc);
    let a1 = a * c + b * s;
    let a2 = a * s + b * c;
    numerators(w, h, s, c);
    assert(f > 0 && sc >= 0) by (nonlinear_arith)
        requires
            f == c * c - s * s,
            sc == s * c,
            0 <= s < c,
    ;
    assert(t > 2 * sc && t > 0) by (nonlinear_arith)
        requires
            t == s * s + c * c,
            sc == s * c,
            0 <= s < c,
    ;
    assert(a + b > 0) by (nonlinear_arith)
        requires
            a == h * t - 2 * (w * sc),
            b == w * t - 2 * (h * sc),
            t > 2 * sc,
            1 <= w,
            1 <= h,
    ;
    assert(a1 > 0 && a2 > 0) by {
        assert(a * c >= 0 && b * s >= 0 && a * s >= 0 && b * c >= 0) by (nonlinear_arith)
            requires
                a >= 0,
                b >= 0,
                s >= 0,
                c > 0,
        ;
        if s > 0 {
            assert(a > 0 ==> a * c > 0 && a * s > 0) by (nonlinear_arith)
                requires
                    s > 0,
                    c > 0,
            ;
            assert(b > 0 ==> b * c > 0 && b * s > 0) by (nonlinear_arith)
                requires
                    s > 0,
                    c > 0,
            ;
        } else {
            assert(w * sc == 0 && h * sc == 0) by (nonlinear_arith)
                requires
                    s == 0,
                    sc == s * c,
            ;
            assert(h * t > 0 && w * t > 0) by (nonlinear_arith)
                requires
                    h >= 1,
                    w >= 1,
                    t > 0,
            ;
            assert(a * c > 0 && b * c > 0) by (nonlinear_arith)
                requires
                    a > 0,
                    b > 0,
                    c > 0,
            ;
        }
    }
    let (p1, p2) = (n1 * a1, n2 * a2);
    weighed(n1, a, b, c, s);
    weighed(n2, a, b, s, c);
    spread_out(a, n1 * c, n2 * s);
    spread_out(b, n1 * s, n2 * c);
    assert(a * b == b * a) by (nonlinear_arith);
    assert(b * (n1 * s - n2 * c) == -(b * a)) by (nonlinear_arith)
        requires
            n1 * s - n2 * c == -a,
    ;
    let m = a * w + b * h;
    assert(a * (w * f) + b * (h * f) == m * f) by (nonlinear_arith)
        requires
            m == a * w + b * h,
    ;
    assert(p1 == p2 && 2 * p1 == m * f);
    assert(m >= 0) by (nonlinear_arith)
        requires
            m == a * w + b * h,
            a >= 0,
            b >= 0,
            w >= 1,
            h >= 1,
    ;
    assert(p1 >= 0) by (nonlinear_arith)
        requires
            2 * p1 == m * f,
            m >= 0,
            f > 0,
    ;
    assert(n1 >= 0) by (nonlinear_arith)
        requires
            n1 * a1 >= 0,
            a1 > 0,
    ;
    assert(n2 >= 0) by (nonlinear_arith)
        requires
            n2 * a2 >= 0,
            a2 > 0,
    ;
    // Any rectangle that fits.
    let (q1, q2) = (x * a1, y * a2);
    assert(q1 >= 0 && q2 >= 0) by (nonlinear_arith)
        requires
            q1 == x * a1,
            q2 == y * a2,
            x >= 0,
            y >= 0,
            a1 > 0,
            a2 > 0,
    ;
    weighed(x, a, b, c, s);
    weighed(y, a, b, s, c);
    spread_out(a, x * c, y * s);
    spread_out(b, x * s, y * c);
    let (k1, k2) = (x * c + y * s, x * s + y * c);
    assert(a * k1 <= a * (w * u)) by (nonlinear_arith)
        requires
            a >= 0,
            k1 <= w * u,
    ;
    assert(b * k2 <= b * (h * u)) by (nonlinear_arith)
        requires
            b >= 0,
            k2 <= h * u,
    ;
    assert(a * (w * u) + b * (h * u) == m * u) by (nonlinear_arith)
        requires
            m == a * w + b * h,
    ;
    let mu = m * u;
    product_of_sum(q1, q2, mu);
    let (qq, ff, uu, aa) = (q1 * q2, f * f, u * u, a1 * a2);
    assert(4 * (qq * ff) <= (mu * mu) * ff) by (nonlinear_arith)
        requires
            4 * qq <= mu * mu,
            ff == f * f,
    ;
    let mf = m * f;
    assert((mu * mu) * ff == (mf * mf) * uu) by (nonlinear_arith)
        requires
            mu == m * u,
            mf == m * f,
            ff == f * f,
            uu == u * u,
    ;
    assert(mf * mf == 4 * (p1 * p2)) by (nonlinear_arith)
        requires
            2 * p1 == mf,
            p1 == p2,
    ;
    let pp = p1 * p2;
    assert((4 * pp) * uu == 4 * (pp * uu)) by (nonlinear_arith);
    let (xy, nn) = (x * y, n1 * n2);
    assert(qq == xy * aa) by (nonlinear_arith)
        requires
            qq == (x * a1) * (y * a2),
            xy == x * y,
            aa == a1 * a2,
    ;
    assert(pp == nn * aa) by (nonlinear_arith)
        requires
            pp == (n1 * a1) * (n2 * a2),
            nn == n1 * n2,
            aa == a1 * a2,
    ;
    assert((xy * aa) * ff == aa * (xy * ff)) by (nonlinear_arith);
    assert((nn * aa) * uu == aa * (nn * uu)) by (nonlinear_arith);
    assert(aa > 0) by (nonlinear_arith)
        requires
            aa == a1 * a2,
            a1 > 0,
            a2 > 0,
    ;
    assert(xy * ff <= nn * uu) by (nonlinear_arith)
        requires
            aa * (xy * ff) <= aa * (nn * uu),
            aa > 0,
    ;
}

/// What three rounded products in a row leave of a long side: little less than the exact
/// product.
proof fn short_bounds(s: int, c: int, g: int, a: int, b: int, z: int, u: int, k: int)
    requires
        k == 0x10_0000_0000_0000,
        u > 0,
        0 <= s,
        0 <= c <= u,
        1 <= g,
        k * a >= (k - 1) * (2 * s) - k,
        k * (b * u) >= (k - 1) * (a * c) - (2 * k) * u,
        k * z >= (k - 1) * (b * g) - k - 10 * g,
    ensures
        k * (z * u) >= (2 * k - 6) * (g * (s * c)) - (16 * k) * (g * u),
{
    let sc = s * c;
    let ac = a * c;
    let bu = b * u;
    assert(k * ac >= (k - 1) * (2 * sc) - k * c) by (nonlinear_arith)
        requires
            k * a >= (k - 1) * (2 * s) - k,
            0 <= c,
            sc == s * c,
            ac == a * c,
    ;
    assert(0 <= sc) by (nonlinear_arith)
        requires
            sc == s * c,
            0 <= s,
            0 <= c,
    ;
    assert(k * (k * bu) >= (k - 1) * (k * ac) - (2 * (k * k)) * u) by (nonlinear_arith)
        requires
            k * bu >= (k - 1) * ac - (2 * k) * u,
            k > 0,
    ;
    assert((k - 1) * (k * ac) >= (k - 1) * ((k - 1) * (2 * sc) - k * u)) by (nonlinear_arith)
        requires
            k * ac >= (k - 1) * (2 * sc) - k * c,
            k * c <= k * u,
            k > 1,
    ;
    assert((k - 1) * ((k - 1) * (2 * sc) - k * u) == ((k - 1) * (k - 1)) * (2 * sc) - ((k - 1) * k)
        * u) by (nonlinear_arith);
    assert(((k - 1) * (k - 1)) * (2 * sc) >= (k * (k - 2)) * (2 * sc)) by (nonlinear_arith)
        requires
            0 <= sc,
            k > 2,
    ;
    assert(((k - 1) * k) * u <= (k * k) * u) by (nonlinear_arith)
        requires
            u > 0,
            k > 0,
    ;
    assert((k * (k - 2)) * (2 * sc) == k * ((2 * k - 4) * sc)) by (nonlinear_arith);
    assert((k * k) * u + (2 * (k * k)) * u == k * ((3 * k) * u)) by (nonlinear_arith);
    assert(k * bu >= (2 * k - 4) * sc - (3 * k) * u) by (nonlinear_arith)
        requires
            k * (k * bu) >= k * ((2 * k - 4) * sc) - k * ((3 * k) * u),
            k > 0,
    ;
    // The last product, by the long side.
    let (gs, gu) = (g * sc, g * u);
    assert(gs >= 0 && gu >= u) by (nonlinear_arith)
        requires
            gs == g * sc,
            gu == g * u,
            g >= 1,
            sc >= 0,
            u > 0,
    ;
    let gb = g * bu;
    let bg = b * g;
    assert((k * z) * u >= ((k - 1) * bg - k - 10 * g) * u) by (nonlinear_arith)
        requires
            k * z >= (k - 1) * bg - k - 10 * g,
            u > 0,
    ;
    assert(((k - 1) * bg - k - 10 * g) * u == (k - 1) * (bg * u) - k * u - 10 * (g * u))
        by (nonlinear_arith);
    assert(bg * u == gb) by (nonlinear_arith)
        requires
            bg == b * g,
            bu == b * u,
            gb == g * bu,
    ;
    assert((k * z) * u == k * (z * u)) by (nonlinear_arith);
    assert(k * gb >= (2 * k - 4) * gs - (3 * k) * gu) by (nonlinear_arith)
        requires
            k * bu >= (2 * k - 4) * sc - (3 * k) * u,
            gb == g * bu,
            gs == g * sc,
            gu == g * u,
            g >= 1,
    ;
    assert(k * ((k - 1) * gb) >= (k - 1) * ((2 * k - 4) * gs - (3 * k) * gu)) by (nonlinear_arith)
        requires
            k * gb >= (2 * k - 4) * gs - (3 * k) * gu,
            k > 1,
    ;
    assert((k - 1) * ((2 * k - 4) * gs - (3 * k) * gu) == ((k - 1) * (2 * k - 4)) * gs - ((k - 1)
        * (3 * k)) * gu) by (nonlinear_arith);
    assert(((k - 1) * (2 * k - 4)) * gs >= (k * (2 * k - 6)) * gs) by (nonlinear_arith)
        requires
            gs >= 0,
            k > 2,
    ;
    assert(((k - 1) * (3 * k)) * gu <= (k * (3 * k)) * gu) by (nonlinear_arith)
        requires
            gu >= 0,
            k > 2,
    ;
    assert((k * (2 * k - 6)) * gs == k * ((2 * k - 6) * gs)) by (nonlinear_arith);
    assert((k * (3 * k)) * gu == k * ((3 * k) * gu)) by (nonlinear_arith);
    assert((k - 1) * gb >= (2 * k - 6) * gs - (3 * k) * gu) by (nonlinear_arith)
        requires
            k * ((k - 1) * gb) >= k * ((2 * k - 6) * gs) - k * ((3 * k) * gu),
            k > 0,
    ;
    assert((3 * k) * gu + k * u + 10 * gu <= (16 * k) * gu) by (nonlinear_arith)
        requires
            gu >= u,
            u > 0,
            k >= 10,
    ;
}

/// What it means that a frame is not long: the exact product does not hold it, or barely.
proof fn short_holds<A: Arithmetic>(sine: u64, cosine: u64, short: u64, long: u64, p: int, g: int)
    requires
        computes_closely::<A>(),
        double::is_finite(sine),
        double::is_finite(cosine),
        double::is_finite(short),
        double::is_finite(long),
        is_turn(value64(sine), value64(cosine)),
        1 <= p <= g <= 0x20_0000,
        value64(short) == p * unit64(),
        value64(long) == g * unit64(),
        !double::at_most(
            short,
            times64_of::<A>(times64_of::<A>(times64_of::<A>(TWO64, sine), cosine), long),
        ),
    ensures
        0x10_0000_0000_0000 * (p * (unit64() * unit64())) >= 0x1F_FFFF_FFFF_FFFA * (g * (value64(
            sine,
        ) * value64(cosine))) - 0x100_0000_0000_0000 * (g * unit64()),
{
    let (u, e, s, c) = (unit64(), part(), value64(sine), value64(cosine));
    let k: int = 0x10_0000_0000_0000;
    parts();
    assert(0 <= (2 * u) * s < 0x2_0000_0000 * u * u) by (nonlinear_arith)
        requires
            0 <= s <= u,
            u > 0,
    ;
    product_at_most::<A>(TWO64, sine);
    let a = value64(times64_of::<A>(TWO64, sine));
    assert(k * a <= (k + 1) * (2 * s) + k && k * a >= (k - 1) * (2 * s) - k) by (nonlinear_arith)
        requires
            k * (a * u) <= k * ((2 * u) * s) + (2 * u) * s + k * u,
            k * (a * u) >= k * ((2 * u) * s) - (2 * u) * s - k * u,
            u > 0,
    ;
    assert(-2 <= a <= 3 * u);
    assert(-(2 * u) <= a * c <= 3 * (u * u) && -(2 * (u * u)) <= -(2 * u)) by (nonlinear_arith)
        requires
            -2 <= a <= 3 * u,
            0 <= c <= u,
            u >= 1,
    ;
    assert(3 * (u * u) < 0x2_0000_0000 * u * u) by (nonlinear_arith)
        requires
            u > 0,
    ;
    product_at_most::<A>(times64_of::<A>(TWO64, sine), cosine);
    let b = value64(times64_of::<A>(times64_of::<A>(TWO64, sine), cosine));
    let ac = a * c;
    assert(b <= 7 * u && b >= -5) by (nonlinear_arith)
        requires
            k * (b * u) <= k * ac + apart(ac, 0) + k * u,
            k * (b * u) >= k * ac - apart(ac, 0) - k * u,
            -(2 * u) <= ac <= 3 * (u * u),
            k == 0x10_0000_0000_0000,
            u >= 1,
    ;
    assert(k * (b * u) >= (k - 1) * (a * c) - (2 * k) * u) by (nonlinear_arith)
        requires
            k * (b * u) >= k * ac - apart(ac, 0) - k * u,
            -(2 * u) <= ac,
            ac == a * c,
            k == 0x10_0000_0000_0000,
            u >= 1,
    ;
    assert(apart(b * (g * u), 0) <= 0x100_0000 * (u * u)) by (nonlinear_arith)
        requires
            -5 <= b <= 7 * u,
            1 <= g <= 0x20_0000,
            u >= 5,
    ;
    assert(0x100_0000 * (u * u) < 0x2_0000_0000 * u * u) by (nonlinear_arith)
        requires
            u > 0,
    ;
    product_at_most::<A>(times64_of::<A>(times64_of::<A>(TWO64, sine), cosine), long);
    let last = times64_of::<A>(times64_of::<A>(times64_of::<A>(TWO64, sine), cosine), long);
    let z = value64(last);
    values_are_ordered64(last, short);
    assert(z < p * u);
    let bg = b * g;
    assert(b * (g * u) == bg * u) by (nonlinear_arith)
        requires
            bg == b * g,
    ;
    assert(k * z >= k * bg - apart(bg, 0) - k) by (nonlinear_arith)
        requires
            k * (z * u) >= k * (bg * u) - apart(bg * u, 0) - k * u,
            u > 0,
    ;
    assert(bg >= -5 * g) by (nonlinear_arith)
        requires
            bg == b * g,
            b >= -5,
            1 <= g,
    ;
    assert((k - 1) * bg == k * bg - bg) by (nonlinear_arith);
    assert(apart(bg, 0) <= bg + 10 * g);
    short_bounds(s, c, g, a, b, z, u, k);
    let gs = g * (s * c);
    let gu = g * u;
    assert(k * (p * (u * u)) >= k * (z * u)) by (nonlinear_arith)
        requires
            z < p * u,
            u > 0,
            k > 0,
    ;
    assert((2 * k - 6) * gs == 0x1F_FFFF_FFFF_FFFA * gs && (16 * k) * gu == 0x100_0000_0000_0000 * gu
        && k * (p * (u * u)) == 0x10_0000_0000_0000 * (p * (u * u))) by (nonlinear_arith)
        requires
            k == 0x10_0000_0000_0000,
    ;
}

/// A length cut to whole pixels leaves less than one of them.
proof fn whole_is_near<A: Arithmetic>(length: u64, x: int)
    requires
        computes_closely::<A>(),
        double::is_finite(length),
        value64(length) < 0x1_0000_0000_0000_0000 * unit64(),
        x == whole::<A>(length),
        1 <= x < 0x1000_0000,
    ensures
        value64(length) < (x + 1) * unit64(),
{
    let (u, v) = (unit64(), value64(length));
    parts();
    floor_count64::<A>(length);
    let n = to_count64_of::<A>(floor64_of::<A>(length)) as int;
    assert(n == x);
    assert(v < (n + 1) * u) by (nonlinear_arith)
        requires
            n == v / u,
            u > 0,
    ;
}

/// Where the short side is all but too short for both constraints, no rectangle that
/// meets the one it gives is larger than the crossing by more than a quarter of a pixel.
proof fn crossing_is_nearly_largest(
    p: int,
    g: int,
    s: int,
    c: int,
    x: int,
    y: int,
    u: int,
)
    requires
        u == unit64(),
        u >= 0x1_0000_0000_0000_0000_0000_0000,
        0 < s < c,
        is_turn(s, c),
        1 <= p <= g <= 0x20_0000,
        0 <= x,
        0 <= y,
        x * c + y * s <= p * u,
        (c * c - s * s) * 0x100_0000 >= u * u,
        p * (s * s + c * c) < 2 * (g * (s * c)),
        0x10_0000_0000_0000 * (p * (u * u)) >= 0x1F_FFFF_FFFF_FFFA * (g * (s * c))
            - 0x100_0000_0000_0000 * (g * u),
    ensures
        ({
            let f = c * c - s * s;
            let (n1, n2) = (p * c - g * s, g * c - p * s);
            &&& 0 <= n1
            &&& 0 <= n2
            &&& 4 * ((x * y) * (f * f)) <= 4 * ((n1 * n2) * (u * u)) + f * f
        }),
{
    let f = c * c - s * s;
    let t = s * s + c * c;
    let sc = s * c;
    let uu = u * u;
    let (n1, n2) = (p * c - g * s, g * c - p * s);
    let b = 2 * (g * sc) - p * t;
    numerators(p, g, s, c);
    let (gs, gu, pt, pu) = (g * sc, g * u, p * t, p * uu);
    assert(uu >= 0x1_0000_0000_0000_0000_0000_0000 * u) by (nonlinear_arith)
        requires
            uu == u * u,
            u >= 0x1_0000_0000_0000_0000_0000_0000,
    ;
    assert(0 <= gu <= 0x20_0000 * u) by (nonlinear_arith)
        requires
            gu == g * u,
            1 <= g <= 0x20_0000,
            u > 0,
    ;
    assert(pu >= uu) by (nonlinear_arith)
        requires
            pu == p * uu,
            p >= 1,
            uu > 0,
    ;
    assert(pt * 0x1_0000_0000_0000 >= pu * 0xFFFF_FFFF_FFFF) by (nonlinear_arith)
        requires
            pt == p * t,
            pu == p * uu,
            t * 0x1_0000_0000_0000 >= uu * 0xFFFF_FFFF_FFFF,
            p >= 1,
    ;
    // How far the short side falls short.
    assert(0 < b && b * 0x8000_0000_0000 <= 2 * pu);
    // How wide the turn is.
    assert(0x80_0000 * sc >= pu) by (nonlinear_arith)
        requires
            4 * gs >= pu,
            gs == g * sc,
            1 <= g <= 0x20_0000,
            sc >= 0,
    ;
    let ff = f * f;
    let bb = b * b;
    assert(f > 0 && sc > 0) by (nonlinear_arith)
        requires
            f * 0x100_0000 >= uu,
            uu > 0,
            0x80_0000 * sc >= pu,
            pu > 0,
    ;
    assert(ff * 0x1_0000_0000_0000 >= uu * uu) by (nonlinear_arith)
        requires
            f * 0x100_0000 >= uu,
            uu > 0,
            ff == f * f,
    ;
    gap_is_small(b, pu, sc, ff, uu, p);
    // The two terms at the crossing.
    let (k1, k2) = (n1 * c, n2 * s);
    assert(4 * (k1 * k2) == (k1 + k2) * (k1 + k2) - (k1 - k2) * (k1 - k2)) by (nonlinear_arith);
    let pf = p * f;
    assert((k1 - k2) * (k1 - k2) == bb) by (nonlinear_arith)
        requires
            k1 - k2 == -b,
            bb == b * b,
    ;
    let nn = n1 * n2;
    assert(k1 * k2 == sc * nn) by (nonlinear_arith)
        requires
            k1 == n1 * c,
            k2 == n2 * s,
            sc == s * c,
            nn == n1 * n2,
    ;
    // Any rectangle that fits.
    let (q1, q2) = (x * c, y * s);
    assert(q1 >= 0 && q2 >= 0) by (nonlinear_arith)
        requires
            q1 == x * c,
            q2 == y * s,
            x >= 0,
            y >= 0,
            c > 0,
            s > 0,
    ;
    product_of_sum(q1, q2, p * u);
    let xy = x * y;
    assert(q1 * q2 == sc * xy) by (nonlinear_arith)
        requires
            q1 == x * c,
            q2 == y * s,
            sc == s * c,
            xy == x * y,
    ;
    assert((4 * (sc * xy)) * ff <= ((p * u) * (p * u)) * ff) by (nonlinear_arith)
        requires
            4 * (sc * xy) <= (p * u) * (p * u),
            ff >= 0,
    ;
    assert(((p * u) * (p * u)) * ff == (pf * pf) * uu) by (nonlinear_arith)
        requires
            pf == p * f,
            ff == f * f,
            uu == u * u,
    ;
    assert(pf * pf == 4 * (sc * nn) + bb);
    assert((4 * (sc * nn) + bb) * uu == sc * (4 * (nn * uu)) + bb * uu) by (nonlinear_arith);
    assert((4 * (sc * xy)) * ff == sc * (4 * (xy * ff))) by (nonlinear_arith);
    assert(4 * (xy * ff) <= 4 * (nn * uu) + ff) by (nonlinear_arith)
        requires
            sc * (4 * (xy * ff)) <= sc * (4 * (nn * uu)) + bb * uu,
            bb * uu <= sc * ff,
            sc > 0,
    ;
    // Both numerators are positive.
    assert(k1 + k2 == pf);
    assert(0 <= b < pf) by {
        assert(pf * 0x100_0000 >= pu) by (nonlinear_arith)
            requires
                pf == p * f,
                pu == p * uu,
                f * 0x100_0000 >= uu,
                p >= 1,
        ;
    }
    assert(k1 >= 0 && k2 >= 0);
    assert(n1 >= 0 && n2 >= 0) by (nonlinear_arith)
        requires
            n1 * c >= 0,
            n2 * s >= 0,
            c > 0,
            s > 0,
    ;
}

proof fn gap_is_small(b: int, pu: int, sc: int, ff: int, uu: int, p: int)
    requires
        0 < b,
        b * 0x8000_0000_0000 <= 2 * pu,
        pu == p * uu,
        1 <= p <= 0x20_0000,
        uu > 0,
        0x80_0000 * sc >= pu,
        ff * 0x1_0000_0000_0000 >= uu * uu,
    ensures
        (b * b) * uu <= sc * ff,
{
    let k: int = 0x4000_0000_0000;
    assert((k * b) * (k * b) <= pu * pu) by (nonlinear_arith)
        requires
            0 <= k * b <= pu,
    ;
    assert((k * b) * (k * b) == (k * k) * (b * b)) by (nonlinear_arith);
    assert(pu * pu <= pu * (0x20_0000 * uu)) by (nonlinear_arith)
        requires
            pu == p * uu,
            p <= 0x20_0000,
            uu > 0,
            pu > 0,
    ;
    let (u2, bb) = (uu * uu, b * b);
    assert((0x80_0000 * sc) * (ff * 0x1_0000_0000_0000) >= pu * u2) by (nonlinear_arith)
        requires
            0x80_0000 * sc >= pu,
            ff * 0x1_0000_0000_0000 >= u2,
            pu > 0,
            u2 >= 0,
    ;
    assert(u2 >= 0) by (nonlinear_arith)
        requires
            u2 == uu * uu,
    ;
    assert((0x80_0000 * sc) * (ff * 0x1_0000_0000_0000) == 0x80_0000_0000_0000_0000 * (sc * ff))
        by (nonlinear_arith);
    let q: int = 0x1000_0000_0000_0000_0000_0000;
    assert(q * bb <= 0x20_0000 * (pu * uu)) by (nonlinear_arith)
        requires
            (k * k) * bb <= pu * (0x20_0000 * uu),
            k == 0x4000_0000_0000,
            q == 0x1000_0000_0000_0000_0000_0000,
    ;
    assert(q * (bb * uu) <= 0x20_0000 * (pu * u2)) by (nonlinear_arith)
        requires
            q * bb <= 0x20_0000 * (pu * uu),
            u2 == uu * uu,
            uu > 0,
    ;
    let (bu, sf) = (bb * uu, sc * ff);
    assert(bu <= sf) by (nonlinear_arith)
        requires
            q * bu <= 0x20_0000 * (0x80_0000_0000_0000_0000 * sf),
            q == 0x1000_0000_0000_0000_0000_0000,
    ;
}

/// A side at the crossing, cut to whole pixels, reaches the exact one but for two.
proof fn crossed_reaches(
    w: int,
    h: int,
    s: int,
    c: int,
    d: int,
    n: int,
    q: int,
    x: int,
    p: int,
    u: int,
)
    requires
        p >= 0x1_0000_0000_0000_0000,
        u == 0x10_0000_0000_0000 * p,
        (c * c - s * s) * 0x100_0000 >= u * u,
        apart(d * u, c * c - s * s) <= 5 * (p * u),
        d >= 0x800_0000 * p,
        apart(n, w * c - h * s) <= 0x100_0000 * p,
        q * d >= n * u - 0x80_0000 * (p * u) - d,
        q < (x + 1) * u,
        1 <= x <= 0x60_0000,
    ensures
        (x + 2) * (c * c - s * s) >= (w * c - h * s) * u,
{
    let f = c * c - s * s;
    let m = w * c - h * s;
    let (pu, ud) = (p * u, d * u);
    assert(((x + 1) * u) * d >= q * d) by (nonlinear_arith)
        requires
            q < (x + 1) * u,
            d > 0,
    ;
    assert(((x + 1) * u) * d == (x + 1) * ud) by (nonlinear_arith)
        requires
            ud == d * u,
    ;
    assert(n * u >= m * u - 0x100_0000 * pu) by (nonlinear_arith)
        requires
            n >= m - 0x100_0000 * p,
            pu == p * u,
            u > 0,
    ;
    assert((x + 2) * f >= (x + 2) * (ud - 5 * pu)) by (nonlinear_arith)
        requires
            f >= ud - 5 * pu,
            x >= 1,
    ;
    assert((x + 2) * (ud - 5 * pu) == (x + 1) * ud + ud - 5 * ((x + 2) * pu)) by (nonlinear_arith);
    assert((x + 2) * pu <= 0x60_0002 * pu && pu > 0) by (nonlinear_arith)
        requires
            x <= 0x60_0000,
            pu == p * u,
            p > 0,
            u > 0,
    ;
    assert(ud >= 0x800_0000 * pu && 2 * d <= ud) by (nonlinear_arith)
        requires
            ud == d * u,
            pu == p * u,
            d >= 0x800_0000 * p,
            u >= 2,
            d > 0,
    ;
}

/// Half the short side over a sine or cosine, cut to whole pixels, reaches the exact one
/// but for two.
proof fn half_reaches<A: Arithmetic>(half: u64, b: u64, p: int, x: int)
    requires
        computes_closely::<A>(),
        double::is_finite(half),
        double::is_finite(b),
        1 <= p <= 0x20_0000,
        p * unit64() - p * part() - 2 <= 2 * value64(half) <= p * unit64() + p * part() + 2,
        value64(b) <= unit64(),
        value64(b) * 0x100_0000 >= unit64(),
        value64(over64_of::<A>(half, b)) < 0x1_0000_0000_0000_0000 * unit64(),
        x == whole::<A>(over64_of::<A>(half, b)),
        1 <= x < 0x1000_0000,
    ensures
        (x + 2) * (2 * value64(b)) >= p * unit64(),
{
    let (u, e, n, c) = (unit64(), part(), value64(half), value64(b));
    parts();
    let (pu, pe) = (p * u, p * e);
    assert(u <= pu <= 0x20_0000 * u && e <= pe <= 0x20_0000 * e) by (nonlinear_arith)
        requires
            pu == p * u,
            pe == p * e,
            1 <= p <= 0x20_0000,
            u > 0,
            e > 0,
    ;
    over_fine64::<A>(half, b);
    let q = value64(over64_of::<A>(half, b));
    let nu = n * u;
    assert(2 * nu <= pu * u + pe * u + 2 * u && 2 * nu >= pu * u - pe * u - 2 * u && 0 <= nu)
        by (nonlinear_arith)
        requires
            nu == n * u,
            pu - pe - 2 <= 2 * n <= pu + pe + 2,
            0 <= n,
            u > 0,
    ;
    let (eu, pu2) = (e * u, p * (u * u));
    assert(pu * u == pu2 && pe * u == p * eu && pu2 == 0x10_0000_0000_0000 * (p * eu))
        by (nonlinear_arith)
        requires
            pu == p * u,
            pe == p * e,
            eu == e * u,
            pu2 == p * (u * u),
            u == 0x10_0000_0000_0000 * e,
    ;
    assert(p * eu >= eu && eu >= 0x1_0000_0000_0000_0000 * u && p * eu <= 0x20_0000 * eu)
        by (nonlinear_arith)
        requires
            1 <= p <= 0x20_0000,
            eu == e * u,
            e >= 0x1_0000_0000_0000_0000,
            u > 0,
    ;
    assert(2 * (q * c) >= pu2 - 6 * (p * eu));
    whole_is_near::<A>(over64_of::<A>(half, b), x);
    assert(((x + 1) * u) * c >= q * c) by (nonlinear_arith)
        requires
            q < (x + 1) * u,
            c > 0,
    ;
    let cu = c * u;
    assert(((x + 1) * u) * c == (x + 1) * cu) by (nonlinear_arith)
        requires
            cu == c * u,
    ;
    assert(cu * 0x100_0000 >= 0x10_0000_0000_0000 * eu) by (nonlinear_arith)
        requires
            cu == c * u,
            c * 0x100_0000 >= u,
            eu == e * u,
            u == 0x10_0000_0000_0000 * e,
            u > 0,
    ;
    assert((x + 2) * cu == (x + 1) * cu + cu) by (nonlinear_arith);
    assert(((x + 2) * (2 * c)) * u == 2 * ((x + 2) * cu)) by (nonlinear_arith)
        requires
            cu == c * u,
    ;
    let r = (x + 2) * (2 * c);
    assert(r >= pu) by (nonlinear_arith)
        requires
            r * u >= pu * u,
            u > 0,
    ;
}

/// No rectangle of halves is larger.
proof fn halves_are_largest(p: int, s: int, c: int, x: int, y: int, i: int, j: int, u: int)
    requires
        0 < s,
        0 < c,
        0 <= i,
        0 <= j,
        0 <= x,
        0 <= y,
        0 <= p * u,
        i * c + j * s <= p * u,
        (x + 2) * (2 * c) >= p * u,
        (y + 2) * (2 * s) >= p * u,
    ensures
        i * j <= (x + 2) * (y + 2),
{
    let (q1, q2, m) = (i * c, j * s, p * u);
    assert(q1 >= 0 && q2 >= 0) by (nonlinear_arith)
        requires
            q1 == i * c,
            q2 == j * s,
            i >= 0,
            j >= 0,
            c > 0,
            s > 0,
    ;
    product_of_sum(q1, q2, m);
    let (r1, r2) = ((x + 2) * (2 * c), (y + 2) * (2 * s));
    assert(m * m <= r1 * r2) by (nonlinear_arith)
        requires
            0 <= m <= r1,
            m <= r2,
    ;
    let (sc, k, l) = (s * c, i * j, (x + 2) * (y + 2));
    assert(q1 * q2 == sc * k) by (nonlinear_arith)
        requires
            q1 == i * c,
            q2 == j * s,
            sc == s * c,
            k == i * j,
    ;
    assert(r1 * r2 == sc * (4 * l)) by (nonlinear_arith)
        requires
            r1 == (x + 2) * (2 * c),
            r2 == (y + 2) * (2 * s),
            sc == s * c,
            l == (x + 2) * (y + 2),
    ;
    assert(sc > 0) by (nonlinear_arith)
        requires
            sc == s * c,
            s > 0,
            c > 0,
    ;
    assert(k <= l) by (nonlinear_arith)
        requires
            4 * (sc * k) <= sc * (4 * l),
            sc > 0,
    ;
}

/// From the area at the crossing to the one in whole pixels.
proof fn crossed_area(n1: int, n2: int, f: int, x: int, y: int, i: int, j: int, u: int)
    requires
        f > 0,
        u > 0,
        0 <= n1,
        0 <= n2,
        0 <= x,
        0 <= y,
        4 * ((i * j) * (f * f)) <= 4 * ((n1 * n2) * (u * u)) + f * f,
        (x + 2) * f >= n1 * u,
        (y + 2) * f >= n2 * u,
    ensures
        i * j <= (x + 2) * (y + 2),
{
    let (a, b) = (n1 * u, n2 * u);
    let (r1, r2) = ((x + 2) * f, (y + 2) * f);
    assert(a >= 0 && b >= 0) by (nonlinear_arith)
        requires
            a == n1 * u,
            b == n2 * u,
            n1 >= 0,
            n2 >= 0,
            u > 0,
    ;
    assert(a * b <= r1 * r2) by (nonlinear_arith)
        requires
            0 <= a <= r1,
            0 <= b <= r2,
    ;
    let (k, l, ff) = (i * j, (x + 2) * (y + 2), f * f);
    assert(a * b == (n1 * n2) * (u * u)) by (nonlinear_arith)
        requires
            a == n1 * u,
            b == n2 * u,
    ;
    assert(r1 * r2 == l * ff) by (nonlinear_arith)
        requires
            r1 == (x + 2) * f,
            r2 == (y + 2) * f,
            l == (x + 2) * (y + 2),
            ff == f * f,
    ;
    assert(ff > 0) by (nonlinear_arith)
        requires
            ff == f * f,
            f > 0,
    ;
    assert(k <= l) by (nonlinear_arith)
        requires
            4 * (k * ff) <= 4 * (l * ff) + ff,
            ff > 0,
    ;
}

/// Half the short side over the cosine does not exceed it.
proof fn short_half_within(p: int, c: int, q: int, x: int, e: int, u: int)
    requires
        e > 0,
        u == 0x10_0000_0000_0000 * e,
        1 <= p,
        8 * c >= 5 * u,
        1 <= x,
        x * u <= q,
        2 * (q * c) <= p * (u * u) + (6 * p) * (e * u),
    ensures
        x <= p,
{
    let (uu, eu) = (u * u, e * u);
    assert(uu == 0x10_0000_0000_0000 * eu && eu > 0) by (nonlinear_arith)
        requires
            uu == u * u,
            eu == e * u,
            u == 0x10_0000_0000_0000 * e,
            e > 0,
    ;
    assert(8 * (q * c) >= 5 * (q * u)) by (nonlinear_arith)
        requires
            8 * c >= 5 * u,
            q >= 0,
    ;
    assert(q >= 0 && q * u >= x * uu) by (nonlinear_arith)
        requires
            x * u <= q,
            uu == u * u,
            u > 0,
            x >= 1,
    ;
    let (pu, xu) = (p * uu, x * uu);
    assert(24 * ((6 * p) * eu) <= 144 * (p * eu) && pu == 0x10_0000_0000_0000 * (p * eu) && p * eu > 0
        && (6 * p) * eu == 6 * (p * eu)) by (nonlinear_arith)
        requires
            pu == p * uu,
            uu == 0x10_0000_0000_0000 * eu,
            p >= 1,
            eu > 0,
    ;
    assert(5 * xu <= 5 * pu);
    assert(x <= p) by (nonlinear_arith)
        requires
            x * uu <= p * uu,
            uu > 0,
    ;
}

/// Half the short side over the sine does not exceed the long side.
proof fn long_half_within(p: int, g: int, s: int, c: int, q: int, y: int, e: int, u: int)
    requires
        e >= 0x1_0000_0000_0000_0000,
        u == 0x10_0000_0000_0000 * e,
        1 <= p <= g <= 0x20_0000,
        0 < s,
        0 <= c <= u,
        s * 0x100_0000 >= u,
        1 <= y,
        y * u <= q,
        2 * (q * s) <= p * (u * u) + (6 * p) * (e * u),
        0x10_0000_0000_0000 * (p * (u * u)) <= 0x20_0000_0000_0009 * (g * (s * c))
            + 0x80_0000_0000_0000 * (g * u),
    ensures
        y <= g,
{
    let (uu, eu, su) = (u * u, e * u, s * u);
    let (pu, pe, gs, gu) = (p * uu, p * eu, g * (s * c), g * u);
    assert(q * s >= y * su) by (nonlinear_arith)
        requires
            y * u <= q,
            su == s * u,
            s > 0,
    ;
    assert((6 * p) * eu == 6 * pe && 0 < pe <= 0x20_0000 * eu && eu >= 0x1_0000_0000_0000_0000 * u)
        by (nonlinear_arith)
        requires
            pe == p * eu,
            1 <= p <= 0x20_0000,
            eu == e * u,
            e >= 0x1_0000_0000_0000_0000,
            u > 0,
    ;
    assert(gs <= g * su) by (nonlinear_arith)
        requires
            gs == g * (s * c),
            su == s * u,
            0 <= c <= u,
            g >= 1,
            s > 0,
    ;
    assert(su * 0x100_0000 >= 0x10_0000_0000_0000 * eu) by (nonlinear_arith)
        requires
            su == s * u,
            s * 0x100_0000 >= u,
            eu == e * u,
            u == 0x10_0000_0000_0000 * e,
            u > 0,
    ;
    assert(0 <= gu <= 0x20_0000 * u) by (nonlinear_arith)
        requires
            gu == g * u,
            1 <= g <= 0x20_0000,
            u > 0,
    ;
    if y >= g + 1 {
        let gsu = g * su;
        assert(y * su >= gsu + su && gsu <= 0x20_0000 * su) by (nonlinear_arith)
            requires
                y >= g + 1,
                gsu == g * su,
                g <= 0x20_0000,
                su > 0,
        ;
        assert(false);
    }
}

/// A side at the crossing exceeds the frame's by less than a pixel, before it is cut.
proof fn crossed_within(
    w: int,
    h: int,
    s: int,
    c: int,
    d: int,
    n: int,
    x: int,
    p: int,
    u: int,
)
    requires
        p >= 0x1_0000_0000_0000_0000,
        u == 0x10_0000_0000_0000 * p,
        u == unit64(),
        is_turn(s, c),
        1 <= w <= 0x20_0000,
        1 <= h <= 0x20_0000,
        (c * c - s * s) * 0x100_0000 >= u * u,
        apart(d * u, c * c - s * s) <= 5 * (p * u),
        d >= 0x800_0000 * p,
        apart(n, w * c - h * s) <= 0x100_0000 * p,
        (x * u) * d <= n * u + 0x80_0000 * (p * u) + d,
        w <= h || 0x10_0000_0000_0000 * (h * (u * u)) >= 0x1F_FFFF_FFFF_FFFA * (w * (s * c))
            - 0x100_0000_0000_0000 * (w * u),
    ensures
        x <= w,
{
    let f = c * c - s * s;
    let m = w * c - h * s;
    let (pu, ud, uu) = (p * u, d * u, u * u);
    assert(uu == 0x10_0000_0000_0000 * pu && pu > 0) by (nonlinear_arith)
        requires
            uu == u * u,
            pu == p * u,
            u == 0x10_0000_0000_0000 * p,
            p > 0,
    ;
    excess_is_small(w, h, s, c, u);
    assert(n * u <= m * u + 0x100_0000 * pu) by (nonlinear_arith)
        requires
            n <= m + 0x100_0000 * p,
            pu == p * u,
            u > 0,
    ;
    assert((x * u) * d == x * ud) by (nonlinear_arith)
        requires
            ud == d * u,
    ;
    assert(0x100_0000 * d <= ud && d > 0) by (nonlinear_arith)
        requires
            ud == d * u,
            u >= 0x100_0000,
            d >= 0x800_0000 * p,
            p > 0,
    ;
    if x >= w + 1 {
        assert(x * ud >= (w + 1) * ud) by (nonlinear_arith)
            requires
                x >= w + 1,
                ud > 0,
        ;
        assert((w + 1) * ud >= (w + 1) * (f - 5 * pu)) by (nonlinear_arith)
            requires
                ud >= f - 5 * pu,
                w >= 1,
        ;
        assert((w + 1) * (f - 5 * pu) == w * f + f - 5 * ((w + 1) * pu)) by (nonlinear_arith);
        assert((w + 1) * pu <= 0x20_0001 * pu) by (nonlinear_arith)
            requires
                w <= 0x20_0000,
                pu > 0,
        ;
        assert(false);
    }
}

/// How far the exact side at the crossing exceeds the frame's: by little, if at all.
proof fn excess_is_small(w: int, h: int, s: int, c: int, u: int)
    requires
        u == unit64(),
        u >= 0x1_0000_0000_0000_0000_0000_0000,
        is_turn(s, c),
        1 <= w <= 0x20_0000,
        1 <= h,
        (c * c - s * s) * 0x100_0000 >= u * u,
        w <= h || 0x10_0000_0000_0000 * (h * (u * u)) >= 0x1F_FFFF_FFFF_FFFA * (w * (s * c))
            - 0x100_0000_0000_0000 * (w * u),
    ensures
        2 * ((w * c - h * s) * u) <= 2 * (w * (c * c - s * s)) + (c * c - s * s),
{
    let (uu, cc, ss, sc, cu, su) = (u * u, c * c, s * s, s * c, c * u, s * u);
    let f = cc - ss;
    let e = (w * c - h * s) * u - w * f;
    assert((w * c - h * s) * u == w * cu - h * su) by (nonlinear_arith)
        requires
            cu == c * u,
            su == s * u,
    ;
    assert(w * f == w * cc - w * ss) by (nonlinear_arith)
        requires
            f == cc - ss,
    ;
    assert(0 <= sc && 0 <= su <= cu <= uu && 0 <= ss && 0 <= cc) by (nonlinear_arith)
        requires
            0 <= s <= c <= u,
            sc == s * c,
            su == s * u,
            cu == c * u,
            uu == u * u,
            ss == s * s,
            cc == c * c,
    ;
    assert(2 * sc <= ss + cc) by (nonlinear_arith)
        requires
            sc == s * c,
            ss == s * s,
            cc == c * c,
    ;
    assert(uu >= 0x1_0000_0000_0000_0000_0000_0000 * u) by (nonlinear_arith)
        requires
            uu == u * u,
            u >= 0x1_0000_0000_0000_0000_0000_0000,
    ;
    if e > 0 {
        if w <= h {
            // By the short side itself.
            assert(h * su >= w * su) by (nonlinear_arith)
                requires
                    h >= w,
                    su >= 0,
            ;
            let k = cu - su - cc + ss;
            assert(e <= w * k) by {
                spread_out(w, cu - su, cc - ss);
                spread_out(w, cu, su);
                spread_out(w, cc, ss);
                assert(w * k == w * (cu - su) - w * (cc - ss)) by (nonlinear_arith)
                    requires
                        k == cu - su - cc + ss,
                ;
            }
            // (c - s) (u - c - s), where c + s is at least one, or nearly so.
            let (i, j) = (c - s, u - c - s);
            assert(k == i * j) by (nonlinear_arith)
                requires
                    k == c * u - s * u - c * c + s * s,
                    i == c - s,
                    j == u - c - s,
            ;
            assert(j * 0x1_0000_0000_0000 <= u) by (nonlinear_arith)
                requires
                    j == u - c - s,
                    0 <= s <= c,
                    u > 0,
                    (s * s + c * c) * 0x1_0000_0000_0000 >= u * u * 0xFFFF_FFFF_FFFF,
            ;
            assert(k * 0x1_0000_0000_0000 <= uu) by (nonlinear_arith)
                requires
                    k == i * j,
                    j * 0x1_0000_0000_0000 <= u,
                    0 <= i <= u,
                    uu == u * u,
            ;
            assert((w * k) * 0x1_0000_0000_0000 <= 0x20_0000 * uu) by (nonlinear_arith)
                requires
                    1 <= w <= 0x20_0000,
                    k * 0x1_0000_0000_0000 <= uu,
                    uu >= 0,
            ;
        } else {
            excess_of_the_long(w, h, s, c, u, e);
        }
    }
}

/// The long side exceeds by little.
proof fn excess_of_the_long(w: int, h: int, s: int, c: int, u: int, e: int)
    requires
        u == unit64(),
        u >= 0x1_0000_0000_0000_0000_0000_0000,
        is_turn(s, c),
        1 <= w <= 0x20_0000,
        1 <= h,
        e == (w * c - h * s) * u - w * (c * c - s * s),
        0x10_0000_0000_0000 * (h * (u * u)) >= 0x1F_FFFF_FFFF_FFFA * (w * (s * c))
            - 0x100_0000_0000_0000 * (w * u),
    ensures
        e * 0x200_0000 <= u * u,
{
    let (uu, cc, ss, sc) = (u * u, c * c, s * s, s * c);
    let f = cc - ss;
    let g = uu - ss - cc;
    let z = 2 * (w * sc) - h * uu;
    let q = c * uu - 2 * (ss * c) - f * u;
    // The excess, times the unit, in two parts.
    assert(e * u == (w * c) * uu - (h * s) * uu - (w * f) * u) by (nonlinear_arith)
        requires
            e == (w * c - h * s) * u - w * f,
            uu == u * u,
    ;
    spread_out(w, c * uu - 2 * (ss * c), f * u);
    spread_out(w, c * uu, 2 * (ss * c));
    assert(w * (c * uu) == (w * c) * uu) by (nonlinear_arith);
    assert(w * (2 * (ss * c)) == 2 * ((w * ss) * c)) by (nonlinear_arith);
    assert(w * (f * u) == (w * f) * u) by (nonlinear_arith);
    assert(z * s == 2 * ((w * sc) * s) - (h * s) * uu) by (nonlinear_arith)
        requires
            z == 2 * (w * sc) - h * uu,
    ;
    assert((w * sc) * s == (w * ss) * c) by (nonlinear_arith)
        requires
            sc == s * c,
            ss == s * s,
    ;
    assert(e * u == w * q + z * s);
    // The first part.
    let (i, j) = (u - c, uu - 2 * cc);
    assert(i * j == u * uu - 2 * (u * cc) - c * uu + 2 * (c * cc)) by (nonlinear_arith)
        requires
            i == u - c,
            j == uu - 2 * cc,
    ;
    assert(ss * c == c * uu - c * cc - g * c && ss * u == u * uu - u * cc - g * u)
        by (nonlinear_arith)
        requires
            ss == uu - cc - g,
    ;
    assert(f * u == u * cc - ss * u) by (nonlinear_arith)
        requires
            f == cc - ss,
    ;
    assert(q == i * j + 2 * (g * c) - g * u);
    let v = apart(g, 0);
    assert(cc >= ss) by (nonlinear_arith)
        requires
            0 <= s <= c,
            cc == c * c,
            ss == s * s,
    ;
    assert(j <= v);
    let k = 2 * c - u;
    assert(2 * (g * c) - g * u == g * k) by (nonlinear_arith)
        requires
            k == 2 * c - u,
    ;
    assert(i * j <= u * v && g * k <= u * v) by (nonlinear_arith)
        requires
            0 <= i <= u,
            j <= v,
            0 <= v,
            -v <= g <= v,
            -u <= k <= u,
    ;
    assert(w * q <= (2 * w) * (u * v)) by (nonlinear_arith)
        requires
            q <= 2 * (u * v),
            w >= 1,
    ;
    let uv = u * v;
    assert((2 * w) * uv <= 0x40_0000 * uv) by (nonlinear_arith)
        requires
            1 <= w <= 0x20_0000,
            uv >= 0,
    ;
    assert(uv >= 0) by (nonlinear_arith)
        requires
            uv == u * v,
            u > 0,
            v >= 0,
    ;
    assert(uv * 0x1_0000_0000_0000 <= u * uu) by (nonlinear_arith)
        requires
            uv == u * v,
            v * 0x1_0000_0000_0000 <= uu,
            u > 0,
    ;
    // The second part.
    let wsc = w * sc;
    assert(0 <= wsc <= 0x20_0000 * uu) by (nonlinear_arith)
        requires
            wsc == w * sc,
            sc == s * c,
            1 <= w <= 0x20_0000,
            0 <= s <= c <= u,
            uu == u * u,
    ;
    assert(w * u <= 0x20_0000 * u) by (nonlinear_arith)
        requires
            w <= 0x20_0000,
            u > 0,
    ;
    assert(uu >= 0x1_0000_0000_0000_0000_0000_0000 * u) by (nonlinear_arith)
        requires
            uu == u * u,
            u >= 0x1_0000_0000_0000_0000_0000_0000,
    ;
    assert(z * 0x1000_0000 <= uu);
    assert((z * s) * 0x1000_0000 <= u * uu) by (nonlinear_arith)
        requires
            z * 0x1000_0000 <= uu,
            0 <= s <= u,
            uu >= 0,
    ;
    assert(e * 0x200_0000 <= uu) by (nonlinear_arith)
        requires
            (e * u) * 0x200_0000 <= u * uu,
            u > 0,
    ;
}

/// The largest rectangle: both sides of a straightened frame stay within the source's,
/// and no upright rectangle of whole pixels that fits the turned frame has a larger area
/// than the straightened frame with a rim of one pixel around it.
pub proof fn the_rectangle_is_the_largest<A: Arithmetic>(
    in_h: int,
    in_w: int,
    degrees: u32,
    i: int,
    j: int,
)
    requires
        computes_exactly::<A>(),
        computes_closely::<A>(),
        1 <= in_h <= 0x20_0000,
        1 <= in_w <= 0x20_0000,
        double::is_finite(sine::<A>(degrees)),
        double::is_finite(cosine::<A>(degrees)),
        is_turn(value64(sine::<A>(degrees)), value64(cosine::<A>(degrees))),
        is_long::<A>(in_h, in_w, degrees) || (value64(cosine::<A>(degrees)) * value64(
            cosine::<A>(degrees),
        ) - value64(sine::<A>(degrees)) * value64(sine::<A>(degrees))) * 0x100_0000 >= unit64()
            * unit64(),
        straighten_fault::<A>(in_h, in_w, degrees) is None,
    ensures
        ({
            let (y, x) = straightened_extents::<A>(in_h, in_w, degrees);
            let (s, c) = (value64(sine::<A>(degrees)), value64(cosine::<A>(degrees)));
            &&& x <= in_w
            &&& y <= in_h
            &&& 0 <= i && 0 <= j && i * c + j * s <= in_w * unit64() && i * s + j * c <= in_h
                * unit64() ==> i * j <= (x + 2) * (y + 2)
        }),
{
    let (u, e) = (unit64(), part());
    let (sp, cp) = (sine::<A>(degrees), cosine::<A>(degrees));
    let (s, c) = (value64(sp), value64(cp));
    parts();
    sample_points_lie_inside::<A>(in_h, in_w, degrees);
    turns_are_wide(s, c);
    cosines_are_wide(s, c);
    count_exact64::<A>(in_w as u64);
    count_exact64::<A>(in_h as u64);
    let (w, h) = (of_count64_of::<A>(in_w as u64), of_count64_of::<A>(in_h as u64));
    let (y, x) = straightened_extents::<A>(in_h, in_w, degrees);
    values_are_ordered64(h, w);
    assert(double::at_most(w, h) == (in_w <= in_h)) by {
        assert((in_h * u < in_w * u) == (in_h < in_w)) by (nonlinear_arith)
            requires
                u > 0,
        ;
    }
    let fits = 0 <= i && 0 <= j && i * c + j * s <= in_w * u && i * s + j * c <= in_h * u;
    if is_long::<A>(in_h, in_w, degrees) {
        if in_w <= in_h {
            let half = times64_of::<A>(HALF64, w);
            long_holds::<A>(sp, cp, w, h, in_w, in_h);
            long_turns(in_w, in_h, s, c);
            half_of_side::<A>(w, in_w);
            half_side::<A>(half, cp, in_w, x);
            half_side::<A>(half, sp, in_w, y);
            let (qx, qy) = (value64(over64_of::<A>(half, cp)), value64(over64_of::<A>(half, sp)));
            short_half_within(in_w, c, qx, x, e, u);
            long_half_within(in_w, in_h, s, c, qy, y, e, u);
            half_reaches::<A>(half, cp, in_w, x);
            half_reaches::<A>(half, sp, in_w, y);
            if fits {
                halves_are_largest(in_w, s, c, x, y, i, j, u);
            }
        } else {
            let half = times64_of::<A>(HALF64, h);
            long_holds::<A>(sp, cp, h, w, in_h, in_w);
            long_turns(in_h, in_w, s, c);
            half_of_side::<A>(h, in_h);
            half_side::<A>(half, cp, in_h, y);
            half_side::<A>(half, sp, in_h, x);
            let (qy, qx) = (value64(over64_of::<A>(half, cp)), value64(over64_of::<A>(half, sp)));
            short_half_within(in_h, c, qy, y, e, u);
            long_half_within(in_h, in_w, s, c, qx, x, e, u);
            half_reaches::<A>(half, cp, in_h, y);
            half_reaches::<A>(half, sp, in_h, x);
            if fits {
                halves_are_largest(in_h, s, c, y, x, j, i, u);
                assert(j * i == i * j && (y + 2) * (x + 2) == (x + 2) * (y + 2)) by (nonlinear_arith);
            }
        }
    } else {
        let (cc, ss) = (times64_of::<A>(cp, cp), times64_of::<A>(sp, sp));
        square_off::<A>(cp);
        square_off::<A>(sp);
        difference_off::<A>(cc, ss, 2);
        let d = minus64_of::<A>(cc, ss);
        let dv = value64(d);
        rest_off(dv, value64(cc), value64(ss), c * c, s * s, e, u);
        let n1 = minus64_of::<A>(times64_of::<A>(w, cp), times64_of::<A>(h, sp));
        let n2 = minus64_of::<A>(times64_of::<A>(h, cp), times64_of::<A>(w, sp));
        numerator_off::<A>(w, h, sp, cp, in_w, in_h);
        numerator_off::<A>(h, w, sp, cp, in_h, in_w);
        crossed_side::<A>(n1, d, x);
        crossed_side::<A>(n2, d, y);
        if in_w <= in_h {
            short_holds::<A>(sp, cp, w, h, in_w, in_h);
        } else {
            short_holds::<A>(sp, cp, h, w, in_h, in_w);
        }
        crossed_within(in_w, in_h, s, c, dv, value64(n1), x, e, u);
        crossed_within(in_h, in_w, s, c, dv, value64(n2), y, e, u);
        let (q1, q2) = (over64_of::<A>(n1, d), over64_of::<A>(n2, d));
        whole_is_near::<A>(q1, x);
        whole_is_near::<A>(q2, y);
        crossed_reaches(in_w, in_h, s, c, dv, value64(n1), value64(q1), x, e, u);
        crossed_reaches(in_h, in_w, s, c, dv, value64(n2), value64(q2), y, e, u);
        if fits {
            crossed_is_largest(in_w, in_h, s, c, x, y, i, j, u);
        }
    }
}

/// The cosine of a turn by half a right angle at the most is five eighths at least.
proof fn cosines_are_wide(s: int, c: int)
    requires
        is_turn(s, c),
        unit64() > 0,
    ensures
        8 * c >= 5 * unit64(),
{
    let u = unit64();
    assert((8 * c) * (8 * c) >= 32 * (s * s + c * c)) by (nonlinear_arith)
        requires
            0 <= s <= c,
    ;
    assert((5 * u) * (5 * u) == 25 * (u * u)) by (nonlinear_arith);
    assert(u * u > 0) by (nonlinear_arith)
        requires
            u > 0,
    ;
    squares_order(5 * u, 8 * c);
}

/// No rectangle is larger than the crossing, in whole pixels.
proof fn crossed_is_largest(
    w: int,
    h: int,
    s: int,
    c: int,
    x: int,
    y: int,
    i: int,
    j: int,
    u: int,
)
    requires
        u == unit64(),
        u >= 0x1_0000_0000_0000_0000_0000_0000,
        is_turn(s, c),
        1 <= w <= 0x20_0000,
        1 <= h <= 0x20_0000,
        0 <= i,
        0 <= j,
        0 <= x,
        0 <= y,
        i * c + j * s <= w * u,
        i * s + j * c <= h * u,
        (c * c - s * s) * 0x100_0000 >= u * u,
        w <= h ==> 0x10_0000_0000_0000 * (w * (u * u)) >= 0x1F_FFFF_FFFF_FFFA * (h * (s * c))
            - 0x100_0000_0000_0000 * (h * u),
        w > h ==> 0x10_0000_0000_0000 * (h * (u * u)) >= 0x1F_FFFF_FFFF_FFFA * (w * (s * c))
            - 0x100_0000_0000_0000 * (w * u),
        (x + 2) * (c * c - s * s) >= (w * c - h * s) * u,
        (y + 2) * (c * c - s * s) >= (h * c - w * s) * u,
    ensures
        i * j <= (x + 2) * (y + 2),
{
    let f = c * c - s * s;
    let t = s * s + c * c;
    let sc = s * c;
    let (n1, n2) = (w * c - h * s, h * c - w * s);
    assert(u * u > 0) by (nonlinear_arith)
        requires
            u > 0,
    ;
    assert(s < c) by (nonlinear_arith)
        requires
            f > 0,
            f == c * c - s * s,
            0 <= s <= c,
    ;
    assert(t >= 2 * sc && sc >= 0) by (nonlinear_arith)
        requires
            t == s * s + c * c,
            sc == s * c,
            0 <= s <= c,
    ;
    assert(f * f >= 0) by (nonlinear_arith);
    assert(w >= h ==> w * t >= 2 * (h * sc)) by (nonlinear_arith)
        requires
            t >= 2 * sc,
            sc >= 0,
            h >= 1,
    ;
    assert(h >= w ==> h * t >= 2 * (w * sc)) by (nonlinear_arith)
        requires
            t >= 2 * sc,
            sc >= 0,
            w >= 1,
    ;
    if w * t >= 2 * (h * sc) && h * t >= 2 * (w * sc) {
        crossing_is_largest(w, h, s, c, i, j, u);
    } else {
        assert(s > 0) by {
            if s == 0 {
                assert(h * sc == 0 && w * sc == 0 && w * t >= 0 && h * t >= 0) by (nonlinear_arith)
                    requires
                        sc == s * c,
                        s == 0,
                        t >= 2 * sc,
                        w >= 1,
                        h >= 1,
                ;
            }
        }
        if w < h {
            crossing_is_nearly_largest(w, h, s, c, i, j, u);
        } else {
            crossing_is_nearly_largest(h, w, s, c, j, i, u);
            assert(j * i == i * j && n2 * n1 == n1 * n2) by (nonlinear_arith);
        }
    }
    crossed_area(n1, n2, f, x, y, i, j, u);
}

} // verus!
