//! What straightening does: it turns the image about its middle.
//!
//! Each sample of a straightened image is the cubic interpolation of the source at the
//! sample's own place, turned about the centres of the two frames; both up to rounding.

use vstd::prelude::*;

use crate::arith::{
    floor_of, minus_of, narrow_of, of_count_of, plus_of, radians64_of, sin64_of, cos64_of, times_of,
    to_offset_of, widen_of, Arithmetic,
};
use crate::cubics::{keys, keys_are_bounded, sizes, tap_distance, weights_are_close};
use crate::geometry::{
    block_taps, catmull_weights_of, row_taps, straightened, straightened_at, straightened_extents,
};
use crate::raster::{inside, nearest, tabulated, Raster};
use crate::rounding::{
    apart, ceiling, floor_is_whole, grain, half, minus_fine, minus_halves, minus_near, minus_rounds,
    negated_value, plus_fine, plus_halves, rounded_between, rounds, small_numbers, times_fine,
    times_halves, unit, value, whole_halves, whole_offset,
};
use crate::single;

verus! {

/// The cubic along a row: its four samples around a place `t` past column `ix`, weighed.
pub open spec fn cubic_row(r: Raster<u32>, y: int, k: int, ix: int, t: int) -> int {
    let (w, o) = (r.shape.1 as int, unit());
    keys(t + o) * value(r.at(y, nearest(ix - 1, w), k)) + keys(t) * value(
        r.at(y, nearest(ix, w), k),
    ) + keys(o - t) * value(r.at(y, nearest(ix + 1, w), k)) + keys(2 * o - t) * value(
        r.at(y, nearest(ix + 2, w), k),
    )
}

/// The cubic across rows: the sixteen samples around a place, weighed. Samples beyond the
/// frame are those of its edge.
pub open spec fn cubic_at(r: Raster<u32>, k: int, at: (int, int)) -> int {
    let (h, o) = (r.shape.0 as int, unit());
    let (iy, ty) = (at.0 / o, at.0 % o);
    let (ix, tx) = (at.1 / o, at.1 % o);
    keys(ty + o) * cubic_row(r, nearest(iy - 1, h), k, ix, tx) + keys(ty) * cubic_row(
        r,
        nearest(iy, h),
        k,
        ix,
        tx,
    ) + keys(o - ty) * cubic_row(r, nearest(iy + 1, h), k, ix, tx) + keys(2 * o - ty) * cubic_row(
        r,
        nearest(iy + 2, h),
        k,
        ix,
        tx,
    )
}

/// An offset turned by an angle of a given sine and cosine: down and across.
pub open spec fn turned(sin: int, cos: int, dy: int, dx: int) -> (int, int) {
    (cos * dy - sin * dx, cos * dx + sin * dy)
}

/// A turn keeps distances, up to the square of its sine and cosine, which is one; and steps
/// down and across stay at right angles and of one length.
pub proof fn a_turn_keeps_distances(sin: int, cos: int, dy: int, dx: int)
    ensures
        ({
            let (y, x) = turned(sin, cos, dy, dx);
            y * y + x * x == (sin * sin + cos * cos) * (dy * dy + dx * dx)
        }),
        ({
            let (down, across) = (turned(sin, cos, 1, 0), turned(sin, cos, 0, 1));
            &&& down.0 * across.0 + down.1 * across.1 == 0
            &&& down.0 * down.0 + down.1 * down.1 == sin * sin + cos * cos
            &&& across.0 * across.0 + across.1 * across.1 == sin * sin + cos * cos
        }),
{
    let (a, b, c, d) = (cos * dy, sin * dx, cos * dx, sin * dy);
    assert((a - b) * (a - b) + (c + d) * (c + d) == a * a - 2 * (a * b) + b * b + c * c + 2 * (c * d)
        + d * d) by (nonlinear_arith);
    assert(a * b == c * d) by (nonlinear_arith)
        requires
            a == cos * dy,
            b == sin * dx,
            c == cos * dx,
            d == sin * dy,
    ;
    let (ss, cc, yy, xx) = (sin * sin, cos * cos, dy * dy, dx * dx);
    assert(a * a == cc * yy) by (nonlinear_arith)
        requires
            a == cos * dy,
            cc == cos * cos,
            yy == dy * dy,
    ;
    assert(b * b == ss * xx) by (nonlinear_arith)
        requires
            b == sin * dx,
            ss == sin * sin,
            xx == dx * dx,
    ;
    assert(c * c == cc * xx) by (nonlinear_arith)
        requires
            c == cos * dx,
            cc == cos * cos,
            xx == dx * dx,
    ;
    assert(d * d == ss * yy) by (nonlinear_arith)
        requires
            d == sin * dy,
            ss == sin * sin,
            yy == dy * dy,
    ;
    assert((ss + cc) * (yy + xx) == ss * yy + ss * xx + cc * yy + cc * xx) by (nonlinear_arith);
    assert(cos * 1 == cos && cos * 0 == 0 && sin * 1 == sin && sin * 0 == 0);
    assert(cos * (0 - sin) + (0 + sin) * cos == 0) by (nonlinear_arith);
    assert((0 - sin) * (0 - sin) == sin * sin) by (nonlinear_arith);
}

/// One more term of a weighted sum.
proof fn term_adds<A: Arithmetic>(acc: u32, exact: int, e: int, m: int, w: u32, v: u32, b: int)
    requires
        rounds::<A>(),
        single::is_finite(acc),
        single::is_finite(w),
        single::is_finite(v),
        b >= 0,
        m >= 0,
        e >= 0,
        apart(value(acc), 0) <= m,
        apart(value(w), 0) <= 2 * unit(),
        apart(value(v), 0) <= b,
        m + 4 * b + 16 < ceiling(),
        apart(value(acc) * unit(), exact) * 0x40_0000 <= e,
    ensures
        ({
            let s = plus_of::<A>(acc, times_of::<A>(w, v));
            &&& single::is_finite(s)
            &&& apart(value(s), 0) <= m + m / 0x10_0000 + 4 * b + 4
            &&& apart(value(s) * unit(), exact + value(w) * value(v)) * 0x40_0000 <= e + (m + 5 * b
                + 0x80_0004) * unit()
        }),
{
    sizes();
    let o = unit();
    let (x, y, wv) = (value(w), value(v), value(w) * value(v));
    assert(apart(wv, 0) <= (2 * b) * o) by (nonlinear_arith)
        requires
            wv == x * y,
            apart(x, 0) <= 2 * o,
            apart(y, 0) <= b,
            o > 0,
    ;
    assert((2 * b) * o < ceiling() * o) by (nonlinear_arith)
        requires
            2 * b < ceiling(),
            o > 0,
    ;
    times_fine::<A>(w, v);
    let p = value(times_of::<A>(w, v));
    assert(apart(p, 0) <= 2 * b + b / 0x10_0000 + 2) by (nonlinear_arith)
        requires
            apart(p * o, wv) * 0x40_0000 <= apart(wv, 0) + 0x40_0000 * o,
            apart(wv, 0) <= (2 * b) * o,
            o > 0,
            b >= 0,
    ;
    plus_fine::<A>(acc, times_of::<A>(w, v));
    let s = value(plus_of::<A>(acc, times_of::<A>(w, v)));
    let f = s - (value(acc) + p);
    let n = m + 3 * b + 4 + 0x40_0000;
    assert(-(n * o) <= (f * o) * 0x40_0000 <= n * o) by (nonlinear_arith)
        requires
            -n <= f * 0x40_0000 <= n,
            o > 0,
    ;
    assert(s * o == f * o + value(acc) * o + p * o) by (nonlinear_arith)
        requires
            f == s - (value(acc) + p),
    ;
    assert((m + 5 * b + 0x80_0004) * o == n * o + (2 * b) * o + 0x40_0000 * o) by (nonlinear_arith)
        requires
            n == m + 3 * b + 4 + 0x40_0000,
    ;
}

/// A sum of four weighed numbers, as it is computed.
spec fn four_terms<A: Arithmetic>(w: Seq<u32>, v: Seq<u32>) -> u32 {
    plus_of::<A>(
        plus_of::<A>(
            plus_of::<A>(
                plus_of::<A>(0, times_of::<A>(w[0], v[0])),
                times_of::<A>(w[1], v[1]),
            ),
            times_of::<A>(w[2], v[2]),
        ),
        times_of::<A>(w[3], v[3]),
    )
}

/// A sum of four weighed numbers is close to the exact one.
proof fn four_terms_are_close<A: Arithmetic>(w: Seq<u32>, v: Seq<u32>, b: int)
    requires
        rounds::<A>(),
        forall|j: int|
            0 <= j < 4 ==> single::is_finite(#[trigger] w[j]) && apart(value(w[j]), 0) <= 2 * unit(),
        forall|j: int|
            0 <= j < 4 ==> single::is_finite(#[trigger] v[j]) && apart(value(v[j]), 0) <= b,
        0x40_0000 <= b,
        64 * b < ceiling(),
    ensures
        single::is_finite(four_terms::<A>(w, v)),
        apart(value(four_terms::<A>(w, v)), 0) <= 20 * b,
        apart(
            value(four_terms::<A>(w, v)) * unit(),
            value(w[0]) * value(v[0]) + value(w[1]) * value(v[1]) + value(w[2]) * value(v[2])
                + value(w[3]) * value(v[3]),
        ) * 0x40_0000 <= 64 * (b * unit()),
{
    sizes();
    small_numbers();
    let o = unit();
    let t = |j: int| times_of::<A>(w[j], v[j]);
    let s0 = plus_of::<A>(0, t(0));
    let s1 = plus_of::<A>(s0, t(1));
    let s2 = plus_of::<A>(s1, t(2));
    let (x0, x1, x2) = (
        value(w[0]) * value(v[0]),
        value(w[1]) * value(v[1]),
        value(w[2]) * value(v[2]),
    );
    let bo = b * o;
    assert(0 * o == 0) by (nonlinear_arith);
    term_adds::<A>(0, 0, 0, 0, w[0], v[0], b);
    assert((0 + 5 * b + 0x80_0004) * o <= 8 * bo) by (nonlinear_arith)
        requires
            0x40_0000 <= b,
            bo == b * o,
            o > 0,
    ;
    term_adds::<A>(s0, x0, 8 * bo, 5 * b, w[1], v[1], b);
    assert((5 * b + 5 * b + 0x80_0004) * o <= 13 * bo) by (nonlinear_arith)
        requires
            0x40_0000 <= b,
            bo == b * o,
            o > 0,
    ;
    term_adds::<A>(s1, x0 + x1, 21 * bo, 10 * b, w[2], v[2], b);
    assert((10 * b + 5 * b + 0x80_0004) * o <= 18 * bo) by (nonlinear_arith)
        requires
            0x40_0000 <= b,
            bo == b * o,
            o > 0,
    ;
    term_adds::<A>(s2, x0 + x1 + x2, 39 * bo, 15 * b, w[3], v[3], b);
    assert((15 * b + 5 * b + 0x80_0004) * o <= 23 * bo) by (nonlinear_arith)
        requires
            0x40_0000 <= b,
            bo == b * o,
            o > 0,
    ;
}

/// One weighed number, the weight and the number each known up to an error.
proof fn weighed_is_close(w: int, key: int, v: int, x: int, b: int, d: int, e: int)
    requires
        apart((2 * w) * (unit() * unit()), key) <= 88 * (grain() * (unit() * unit())),
        apart(key, 0) <= 2 * (unit() * unit() * unit()),
        apart(v, 0) <= b,
        d > 0,
        e >= 0,
        apart(v * d, x) * 0x40_0000 <= e,
    ensures
        apart(((w * v) * (2 * (unit() * unit()))) * d, key * x) * 0x40_0000 <= 88 * (((unit() * unit()
            * unit()) * b) * d) + 2 * ((unit() * unit() * unit()) * e),
{
    sizes();
    let (o, g) = (unit(), grain());
    let (oo, ooo) = (o * o, o * o * o);
    let (p, q) = ((2 * w) * oo - key, v * d - x);
    let vd = v * d;
    assert(((w * v) * (2 * oo)) * d == ((2 * w) * oo) * vd) by (nonlinear_arith)
        requires
            vd == v * d,
    ;
    assert(((2 * w) * oo) * vd == p * vd + key * x + key * q) by (nonlinear_arith)
        requires
            p == (2 * w) * oo - key,
            q == vd - x,
    ;
    let goo = g * oo;
    assert(0x40_0000 * goo == ooo) by (nonlinear_arith)
        requires
            goo == g * oo,
            oo == o * o,
            ooo == o * o * o,
            o == 0x40_0000 * g,
    ;
    assert(oo > 0 && goo > 0) by (nonlinear_arith)
        requires
            oo == o * o,
            goo == g * oo,
            o > 0,
            g > 0,
    ;
    let bd = b * d;
    assert(-bd <= vd <= bd) by (nonlinear_arith)
        requires
            vd == v * d,
            bd == b * d,
            -b <= v <= b,
            d > 0,
    ;
    assert(-(88 * (goo * bd)) <= p * vd <= 88 * (goo * bd)) by (nonlinear_arith)
        requires
            -(88 * goo) <= p <= 88 * goo,
            -bd <= vd <= bd,
            goo > 0,
    ;
    assert(0x40_0000 * (goo * bd) == (ooo * b) * d) by (nonlinear_arith)
        requires
            0x40_0000 * goo == ooo,
            bd == b * d,
    ;
    assert(-(2 * (ooo * e)) <= (key * q) * 0x40_0000 <= 2 * (ooo * e)) by (nonlinear_arith)
        requires
            -(2 * ooo) <= key <= 2 * ooo,
            -e <= q * 0x40_0000 <= e,
    ;
}

/// Four weighed numbers, added up, are close to the exact sum.
proof fn four_weighed<A: Arithmetic>(
    w: Seq<u32>,
    t: int,
    v: Seq<u32>,
    x: Seq<int>,
    b: int,
    d: int,
    e: int,
)
    requires
        rounds::<A>(),
        0 <= t <= unit(),
        forall|j: int|
            0 <= j < 4 ==> single::is_finite(#[trigger] w[j]) && apart(
                (2 * value(w[j])) * (unit() * unit()),
                keys(tap_distance(t, j)),
            ) <= 88 * (grain() * (unit() * unit())),
        forall|j: int|
            0 <= j < 4 ==> single::is_finite(#[trigger] v[j]) && apart(value(v[j]), 0) <= b && apart(
                value(v[j]) * d,
                x[j],
            ) * 0x40_0000 <= e,
        0x40_0000 <= b,
        64 * b < ceiling(),
        d > 0,
        e >= 0,
    ensures
        ({
            let ooo = unit() * unit() * unit();
            let s = four_terms::<A>(w, v);
            &&& single::is_finite(s)
            &&& apart(value(s), 0) <= 20 * b
            &&& apart(
                value(s) * ((2 * ooo) * d),
                keys(tap_distance(t, 0)) * x[0] + keys(tap_distance(t, 1)) * x[1] + keys(
                    tap_distance(t, 2),
                ) * x[2] + keys(tap_distance(t, 3)) * x[3],
            ) * 0x40_0000 <= 480 * ((ooo * b) * d) + 8 * (ooo * e)
        }),
{
    sizes();
    let (o, g) = (unit(), grain());
    let (oo, ooo) = (o * o, o * o * o);
    assert(oo > 0 && oo * o == ooo) by (nonlinear_arith)
        requires
            oo == o * o,
            ooo == o * o * o,
            o > 0,
    ;
    assert forall|j: int| 0 <= j < 4 implies single::is_finite(#[trigger] w[j]) && apart(
        value(w[j]),
        0,
    ) <= 2 * unit() by {
        keys_are_bounded(t, j);
        let n = value(w[j]);
        assert(apart(n, 0) <= 2 * o) by (nonlinear_arith)
            requires
                apart((2 * n) * oo, 0) <= 2 * (oo * o) + 88 * (g * oo),
                o >= 88 * g,
                oo > 0,
        ;
    }
    four_terms_are_close::<A>(w, v, b);
    let term = |j: int| ((value(w[j]) * value(v[j])) * (2 * oo)) * d;
    assert forall|j: int| 0 <= j < 4 implies apart(
        #[trigger] term(j),
        keys(tap_distance(t, j)) * x[j],
    ) * 0x40_0000 <= 88 * ((ooo * b) * d) + 2 * (ooo * e) by {
        keys_are_bounded(t, j);
        weighed_is_close(value(w[j]), keys(tap_distance(t, j)), value(v[j]), x[j], b, d, e);
    }
    let p = |j: int| value(w[j]) * value(v[j]);
    let sum = p(0) + p(1) + p(2) + p(3);
    let n = value(four_terms::<A>(w, v));
    let f = n * o - sum;
    let c = (2 * oo) * d;
    assert(c > 0) by (nonlinear_arith)
        requires
            c == (2 * oo) * d,
            oo > 0,
            d > 0,
    ;
    assert(term(0) == p(0) * c && term(1) == p(1) * c && term(2) == p(2) * c && term(3) == p(3) * c) by {
        assert forall|j: int| #[trigger] term(j) == p(j) * c by {
            let z = p(j);
            assert((z * (2 * oo)) * d == z * ((2 * oo) * d)) by (nonlinear_arith);
        }
    }
    assert(n * ((2 * ooo) * d) == (n * o) * c) by (nonlinear_arith)
        requires
            c == (2 * oo) * d,
            ooo == oo * o,
    ;
    assert((n * o) * c == f * c + p(0) * c + p(1) * c + p(2) * c + p(3) * c) by {
        let (a0, a1, a2, a3, no) = (p(0), p(1), p(2), p(3), n * o);
        assert(no * c == f * c + a0 * c + a1 * c + a2 * c + a3 * c) by (nonlinear_arith)
            requires
                f == no - (a0 + a1 + a2 + a3),
        ;
    }
    let bo = b * o;
    assert(-(64 * (bo * c)) <= (f * c) * 0x40_0000 <= 64 * (bo * c)) by (nonlinear_arith)
        requires
            -(64 * bo) <= f * 0x40_0000 <= 64 * bo,
            c > 0,
    ;
    assert(bo * c == 2 * ((ooo * b) * d)) by (nonlinear_arith)
        requires
            bo == b * o,
            c == (2 * oo) * d,
            ooo == oo * o,
    ;
}

/// Whether the samples of a channel are finite numbers of at most `b`.
pub open spec fn is_limited(r: Raster<u32>, k: int, b: int) -> bool {
    forall|y: int, x: int|
        inside(r.shape, y, x, k) ==> single::is_finite(#[trigger] r.at(y, x, k)) && apart(
            value(r.at(y, x, k)),
            0,
        ) <= b
}

/// A row of four taps is close to the cubic along the row.
proof fn row_is_close<A: Arithmetic>(
    r: Raster<u32>,
    y: int,
    k: int,
    ix: int,
    weights: Seq<u32>,
    t: int,
    b: int,
)
    requires
        rounds::<A>(),
        0 <= t <= unit(),
        0 <= y < r.shape.0,
        0 < r.shape.1,
        0 <= k < r.shape.2,
        is_limited(r, k, b),
        0x40_0000 <= b,
        64 * b < ceiling(),
        forall|j: int|
            0 <= j < 4 ==> single::is_finite(#[trigger] weights[j]) && apart(
                (2 * value(weights[j])) * (unit() * unit()),
                keys(tap_distance(t, j)),
            ) <= 88 * (grain() * (unit() * unit())),
    ensures
        ({
            let ooo = unit() * unit() * unit();
            let row = row_taps::<A>(r, y, k, ix, weights, 4);
            &&& single::is_finite(row)
            &&& apart(value(row), 0) <= 5 * b
            &&& apart(value(row) * (2 * ooo), cubic_row(r, y, k, ix, t)) * 0x40_0000 <= 480 * (ooo
                * b)
        }),
{
    sizes();
    let w = r.shape.1 as int;
    let ooo = unit() * unit() * unit();
    let at = |j: int| r.at(y, nearest(ix - 1 + j, w), k);
    let v = Seq::new(4, at);
    let x = Seq::new(4, |j: int| value(at(j)));
    assert forall|j: int| 0 <= j < 4 implies single::is_finite(#[trigger] v[j]) && apart(
        value(v[j]),
        0,
    ) <= b && apart(value(v[j]) * 1, x[j]) * 0x40_0000 <= 0 by {
        assert(inside(r.shape, y, nearest(ix - 1 + j, w), k));
    }
    four_weighed::<A>(weights, t, v, x, b, 1, 0);
    reveal_with_fuel(row_taps, 5);
    assert(row_taps::<A>(r, y, k, ix, weights, 4) == four_terms::<A>(weights, v));
    assert((2 * ooo) * 1 == 2 * ooo && (ooo * b) * 1 == ooo * b && ooo * 0 == 0);
    let n = value(row_taps::<A>(r, y, k, ix, weights, 4));
    let q = |j: int| keys(tap_distance(t, j)) * x[j];
    assert(ooo > 0) by (nonlinear_arith)
        requires
            ooo == unit() * unit() * unit(),
            unit() > 0,
    ;
    assert forall|j: int| 0 <= j < 4 implies apart(#[trigger] q(j), 0) <= 2 * (ooo * b) by {
        keys_are_bounded(t, j);
        assert(apart(value(v[j]), 0) <= b);
        let (key, z) = (keys(tap_distance(t, j)), x[j]);
        assert(apart(key * z, 0) <= 2 * (ooo * b)) by (nonlinear_arith)
            requires
                apart(key, 0) <= 2 * ooo,
                apart(z, 0) <= b,
                ooo > 0,
        ;
    }
    assert(cubic_row(r, y, k, ix, t) == q(0) + q(1) + q(2) + q(3));
    assert(apart(n * (2 * ooo), 0) <= 9 * (ooo * b)) by {
        assert(ooo * b >= 0) by (nonlinear_arith)
            requires
                ooo > 0,
                b >= 0,
        ;
    }
    assert(apart(n, 0) <= 5 * b) by (nonlinear_arith)
        requires
            apart(n * (2 * ooo), 0) <= 9 * (ooo * b),
            ooo > 0,
            b >= 0,
    ;
}

/// A block of sixteen taps is close to the cubic at the place.
proof fn block_is_close<A: Arithmetic>(
    r: Raster<u32>,
    k: int,
    iy: int,
    ix: int,
    fy: u32,
    ty: int,
    fx: u32,
    tx: int,
    b: int,
)
    requires
        rounds::<A>(),
        0 < r.shape.0,
        0 < r.shape.1,
        0 <= k < r.shape.2,
        is_limited(r, k, b),
        0x40_0000 <= b,
        0x400 * b < ceiling(),
        single::is_finite(fy),
        single::is_finite(fx),
        0 <= value(fy) <= unit(),
        0 <= value(fx) <= unit(),
        0 <= ty < unit(),
        0 <= tx < unit(),
        apart(value(fy), ty) <= grain(),
        apart(value(fx), tx) <= grain(),
    ensures
        ({
            let cube = unit() * unit() * unit();
            let out = block_taps::<A>(
                r,
                k,
                iy,
                ix,
                catmull_weights_of::<A>(fy),
                catmull_weights_of::<A>(fx),
                4,
            );
            &&& single::is_finite(out)
            &&& apart(
                value(out) * ((2 * cube) * (2 * cube)),
                cubic_at(r, k, (iy * unit() + ty, ix * unit() + tx)),
            ) * 0x40_0000 <= 8640 * ((cube * cube) * b)
        }),
{
    sizes();
    let (o, h) = (unit(), r.shape.0 as int);
    let cube = o * o * o;
    let (wy, wx) = (catmull_weights_of::<A>(fy), catmull_weights_of::<A>(fx));
    weights_are_close::<A>(fy, ty);
    weights_are_close::<A>(fx, tx);
    let line = |j: int| nearest(iy - 1 + j, h);
    let v = Seq::new(4, |j: int| row_taps::<A>(r, line(j), k, ix, wx, 4));
    let x = Seq::new(4, |j: int| cubic_row(r, line(j), k, ix, tx));
    assert(cube > 0) by (nonlinear_arith)
        requires
            cube == o * o * o,
            o > 0,
    ;
    assert(480 * (cube * b) >= 0) by (nonlinear_arith)
        requires
            cube > 0,
            b >= 0,
    ;
    assert forall|j: int| 0 <= j < 4 implies single::is_finite(#[trigger] v[j]) && apart(
        value(v[j]),
        0,
    ) <= 5 * b && apart(value(v[j]) * (2 * cube), x[j]) * 0x40_0000 <= 480 * (cube * b) by {
        row_is_close::<A>(r, line(j), k, ix, wx, tx, b);
    }
    four_weighed::<A>(wy, ty, v, x, 5 * b, 2 * cube, 480 * (cube * b));
    reveal_with_fuel(block_taps, 5);
    assert(block_taps::<A>(r, k, iy, ix, wy, wx, 4) == four_terms::<A>(wy, v));
    whole_and_part(iy, ty, o);
    whole_and_part(ix, tx, o);
    assert((cube * (5 * b)) * (2 * cube) == 10 * ((cube * cube) * b)) by (nonlinear_arith);
    assert(cube * (480 * (cube * b)) == 480 * ((cube * cube) * b)) by (nonlinear_arith);
}

proof fn whole_and_part(i: int, t: int, o: int)
    requires
        0 <= t < o,
    ensures
        (i * o + t) / o == i,
        (i * o + t) % o == t,
{
    vstd::arithmetic::div_mod::lemma_fundamental_div_mod_converse(i * o + t, o, i, t);
}

/// A coordinate of a turned place, as it is computed from the offsets and the middle.
spec fn computed_place<A: Arithmetic>(a: u32, dx: u32, b: u32, dy: u32, middle: u32) -> u32 {
    minus_of::<A>(
        plus_of::<A>(plus_of::<A>(times_of::<A>(a, dx), times_of::<A>(b, dy)), middle),
        single::HALF,
    )
}

/// A coordinate of a turned place is close to the exact one.
proof fn place_is_close<A: Arithmetic>(
    a: u32,
    dx: u32,
    mx: int,
    b: u32,
    dy: u32,
    my: int,
    middle: u32,
    n: int,
    size: int,
)
    requires
        rounds::<A>(),
        single::is_finite(a),
        single::is_finite(b),
        apart(value(a), 0) <= unit(),
        apart(value(b), 0) <= unit(),
        single::is_finite(dx),
        single::is_finite(dy),
        single::is_finite(middle),
        value(dx) == mx * half(),
        value(dy) == my * half(),
        value(middle) == n * half(),
        n >= 0,
        apart(mx, 0) + apart(my, 0) + n + 1 <= size <= 0x100_0000,
    ensures
        ({
            let s = computed_place::<A>(a, dx, b, dy, middle);
            let o = unit();
            &&& single::is_finite(s)
            &&& apart(
                value(s) * o,
                value(a) * (mx * half()) + value(b) * (my * half()) + ((n - 1) * half()) * o,
            ) * 0x40_0000 <= 8 * (size * (o * o))
            &&& apart(value(s), 0) <= 0x200_0000 * o
        }),
{
    sizes();
    small_numbers();
    let (o, h) = (unit(), half());
    let (va, vb, x, y) = (value(a), value(b), mx * h, my * h);
    let (ax, ay) = (apart(mx, 0) * h, apart(my, 0) * h);
    assert(apart(x, 0) == ax && apart(y, 0) == ay) by (nonlinear_arith)
        requires
            x == mx * h,
            y == my * h,
            ax == apart(mx, 0) * h,
            ay == apart(my, 0) * h,
            h > 0,
    ;
    let (nh, sh) = (n * h, size * h);
    assert(ax + ay + nh + h <= sh && nh >= 0 && ax >= 0 && ay >= 0) by (nonlinear_arith)
        requires
            apart(mx, 0) + apart(my, 0) + n + 1 <= size,
            ax == apart(mx, 0) * h,
            ay == apart(my, 0) * h,
            nh == n * h,
            sh == size * h,
            h > 0,
            n >= 0,
    ;
    assert(sh <= 0x80_0000 * o) by (nonlinear_arith)
        requires
            size <= 0x100_0000,
            sh == size * h,
            o == 2 * h,
            h > 0,
    ;
    assert(apart(va * x, 0) <= ax * o && apart(vb * y, 0) <= ay * o) by (nonlinear_arith)
        requires
            apart(va, 0) <= o,
            apart(vb, 0) <= o,
            apart(x, 0) == ax,
            apart(y, 0) == ay,
            o > 0,
    ;
    assert(ax * o < ceiling() * o && ay * o < ceiling() * o) by (nonlinear_arith)
        requires
            ax < ceiling(),
            ay < ceiling(),
            o > 0,
    ;
    times_fine::<A>(a, dx);
    times_fine::<A>(b, dy);
    let (p, q) = (times_of::<A>(a, dx), times_of::<A>(b, dy));
    let (vp, vq) = (value(p), value(q));
    product_size(vp, va * x, ax, o);
    product_size(vq, vb * y, ay, o);
    assert(value(single::HALF) == h) by {
        assert(1 * h == h);
    }
    assert(0x200_0000 <= h);
    plus_fine::<A>(p, q);
    let u = plus_of::<A>(p, q);
    sum_off(value(u), vp + vq, 2 * sh);
    let fu = value(u) - (vp + vq);
    plus_fine::<A>(u, middle);
    let v = plus_of::<A>(u, middle);
    sum_off(value(v), value(u) + nh, 3 * sh);
    minus_fine::<A>(v, single::HALF);
    let s = minus_of::<A>(v, single::HALF);
    sum_off(value(s), value(v) - h, 4 * sh);
    // Everything is off by a small part of the size.
    let f = value(s) - (vp + vq + nh - h);
    assert(-(10 * sh) <= f * 0x40_0000 <= 10 * sh);
    let (sho, e, g) = (sh * o, vp * o - va * x, vq * o - vb * y);
    assert(-(10 * sho) <= (f * o) * 0x40_0000 <= 10 * sho) by (nonlinear_arith)
        requires
            -(10 * sh) <= f * 0x40_0000 <= 10 * sh,
            o > 0,
            sho == sh * o,
    ;
    assert((n - 1) * h == nh - h) by (nonlinear_arith)
        requires
            nh == n * h,
    ;
    assert(value(s) * o == f * o + vp * o + vq * o + (nh - h) * o) by (nonlinear_arith)
        requires
            f == value(s) - (vp + vq + nh - h),
    ;
    assert(2 * sho == size * (o * o)) by (nonlinear_arith)
        requires
            sho == (size * h) * o,
            o == 2 * h,
    ;
    assert(ax * o + ay * o + 0x80_0000 * o <= 2 * sho) by (nonlinear_arith)
        requires
            ax + ay <= sh,
            0x80_0000 <= sh,
            o > 0,
            sho == sh * o,
    ;
}

proof fn sum_off(r: int, exact: int, m: int)
    requires
        apart(r, exact) * 0x40_0000 <= apart(exact, 0) + 0x40_0000,
        apart(exact, 0) <= m,
    ensures
        -(m + 0x40_0000) <= (r - exact) * 0x40_0000 <= m + 0x40_0000,
        -(m + m / 0x20_0000 + 2) <= r <= m + m / 0x20_0000 + 2,
{
}

proof fn product_size(p: int, n: int, m: int, o: int)
    requires
        o > 0,
        m >= 0,
        apart(n, 0) <= m * o,
        apart(p * o, n) * 0x40_0000 <= apart(n, 0) + 0x40_0000 * o,
    ensures
        apart(p, 0) <= m + m / 0x20_0000 + 2,
{
    assert(apart(p, 0) <= m + m / 0x20_0000 + 2) by (nonlinear_arith)
        requires
            apart(p * o, n) * 0x40_0000 <= apart(n, 0) + 0x40_0000 * o,
            apart(n, 0) <= m * o,
            o > 0,
            m >= 0,
    ;
}

/// The whole and the fraction of a coordinate.
proof fn place_splits<A: Arithmetic>(s: u32)
    requires
        rounds::<A>(),
        single::is_finite(s),
        apart(value(s), 0) <= 0x200_0000 * unit(),
    ensures
        ({
            let (w, t) = (floor_of::<A>(s), value(s) % unit());
            let f = minus_of::<A>(s, w);
            &&& to_offset_of::<A>(w) == value(s) / unit()
            &&& value(s) == (value(s) / unit()) * unit() + t
            &&& 0 <= t < unit()
            &&& single::is_finite(f) && 0 <= value(f) <= unit()
            &&& apart(value(f), t) <= grain()
        }),
{
    sizes();
    small_numbers();
    let (o, h, v) = (unit(), half(), value(s));
    let (n, t) = (v / o, v % o);
    vstd::arithmetic::div_mod::lemma_fundamental_div_mod(v, o);
    assert(o * n == n * o) by (nonlinear_arith);
    assert(-0x300_0000 <= n <= 0x300_0000) by (nonlinear_arith)
        requires
            v == n * o + t,
            0 <= t < o,
            apart(v, 0) <= 0x200_0000 * o,
    ;
    floor_is_whole::<A>(s);
    let w = floor_of::<A>(s);
    assert((2 * n) * h == n * (2 * h)) by (nonlinear_arith);
    whole_offset::<A>(w, n as i64);
    minus_near::<A>(s, w);
    minus_rounds::<A>(s, w);
    rounded_between(minus_of::<A>(s, w), t, 1, 0, single::ONE);
}

/// Offsets from the middle of a frame are exact in halves.
proof fn offset_is_exact<A: Arithmetic>(x: int, n: int)
    requires
        rounds::<A>(),
        0 <= x < n < 0x40_0000,
    ensures
        ({
            let middle = times_of::<A>(of_count_of::<A>(n as u64), single::HALF);
            let d = minus_of::<A>(plus_of::<A>(of_count_of::<A>(x as u64), single::HALF), middle);
            &&& single::is_finite(d)
            &&& value(d) == (2 * x + 1 - n) * half()
            &&& single::is_finite(middle)
            &&& value(middle) == n * half()
        }),
{
    small_numbers();
    whole_halves::<A>(x as u64);
    whole_halves::<A>(n as u64);
    let (a, b) = (of_count_of::<A>(x as u64), of_count_of::<A>(n as u64));
    plus_halves::<A>(a, 2 * x, single::HALF, 1);
    times_halves::<A>(b, 2 * n, single::HALF, 1, n);
    minus_halves::<A>(
        plus_of::<A>(a, single::HALF),
        2 * x + 1,
        times_of::<A>(b, single::HALF),
        n,
    );
}

/// The middle of a frame is exact in halves.
proof fn middle_is_exact<A: Arithmetic>(n: int)
    requires
        rounds::<A>(),
        0 < n < 0x40_0000,
    ensures
        ({
            let middle = times_of::<A>(of_count_of::<A>(n as u64), single::HALF);
            single::is_finite(middle) && value(middle) == n * half()
        }),
{
    offset_is_exact::<A>(0, n);
}

/// The sine of the angle that straightening turns by, in single precision.
pub open spec fn sine_of<A: Arithmetic>(degrees: u32) -> u32 {
    narrow_of::<A>(sin64_of::<A>(radians64_of::<A>(widen_of::<A>(degrees))))
}

/// The cosine of the angle that straightening turns by, in single precision.
pub open spec fn cosine_of<A: Arithmetic>(degrees: u32) -> u32 {
    narrow_of::<A>(cos64_of::<A>(radians64_of::<A>(widen_of::<A>(degrees))))
}

/// Whether a place in a frame of `from` rows and columns is where the pixel at row `y` and
/// column `x` of a frame of `to` rows and columns comes from: its offset from the middle of
/// the frame, turned by an angle of the given sine and cosine, from the middle of the
/// other frame. It is off by no more than a `2^19`th of the extents.
pub open spec fn is_turned_place(
    at: (int, int),
    sin: int,
    cos: int,
    from: (int, int),
    to: (int, int),
    y: int,
    x: int,
) -> bool {
    let (o, h) = (unit(), half());
    let (dy, dx) = ((2 * y + 1 - to.0) * h, (2 * x + 1 - to.1) * h);
    let (ty, tx) = turned(sin, cos, dy, dx);
    let size = from.0 + from.1 + to.0 + to.1 + 1;
    &&& apart(at.0 * o, ty + ((from.0 - 1) * h) * o) * 0x40_0000 <= 8 * (size * (o * o))
    &&& apart(at.1 * o, tx + ((from.1 - 1) * h) * o) * 0x40_0000 <= 8 * (size * (o * o))
}

/// Straightening turns the image about its middle: every sample of the result is the cubic
/// of the source, up to rounding, at the place that the sample's own offset from the middle
/// of the result, turned by the angle, has from the middle of the source.
pub proof fn straightening_turns_about_the_middle<A: Arithmetic>(
    r: Raster<u32>,
    degrees: u32,
    y: int,
    x: int,
    k: int,
    b: int,
) -> (at: (int, int))
    requires
        rounds::<A>(),
        0 < r.shape.0 < 0x20_0000,
        0 < r.shape.1 < 0x20_0000,
        ({
            let to = straightened_extents::<A>(r.shape.0 as int, r.shape.1 as int, degrees);
            &&& 0 <= y < to.0 < 0x20_0000
            &&& 0 <= x < to.1 < 0x20_0000
        }),
        0 <= k < r.shape.2,
        is_limited(r, k, b),
        0x40_0000 <= b,
        0x400 * b < ceiling(),
        single::is_finite(sine_of::<A>(degrees)),
        single::is_finite(cosine_of::<A>(degrees)),
        apart(value(sine_of::<A>(degrees)), 0) <= unit(),
        apart(value(cosine_of::<A>(degrees)), 0) <= unit(),
    ensures
        is_turned_place(
            at,
            value(sine_of::<A>(degrees)),
            value(cosine_of::<A>(degrees)),
            (r.shape.0 as int, r.shape.1 as int),
            straightened_extents::<A>(r.shape.0 as int, r.shape.1 as int, degrees),
            y,
            x,
        ),
        ({
            let cube = unit() * unit() * unit();
            let out = straightened::<A>(r, degrees).at(y, x, k);
            &&& single::is_finite(out)
            &&& apart(value(out) * ((2 * cube) * (2 * cube)), cubic_at(r, k, at)) * 0x40_0000 <= 8640
                * ((cube * cube) * b)
        }),
{
    sizes();
    let (in_h, in_w) = (r.shape.0 as int, r.shape.1 as int);
    let to = straightened_extents::<A>(in_h, in_w, degrees);
    let (sin, cos) = (sine_of::<A>(degrees), cosine_of::<A>(degrees));
    let cut = (to.0 as usize, to.1 as usize);
    tabulated(
        (cut.0, cut.1, r.shape.2),
        |y: int, x: int, k: int| straightened_at::<A>(r, cut, sin, cos, y, x, k),
    );
    assert(inside((cut.0, cut.1, r.shape.2), y, x, k));
    let (my, mx) = (2 * y + 1 - to.0, 2 * x + 1 - to.1);
    offset_is_exact::<A>(y, to.0);
    offset_is_exact::<A>(x, to.1);
    middle_is_exact::<A>(in_h);
    middle_is_exact::<A>(in_w);
    let dx = minus_of::<A>(
        plus_of::<A>(of_count_of::<A>(x as u64), single::HALF),
        times_of::<A>(of_count_of::<A>(to.1 as u64), single::HALF),
    );
    let dy = minus_of::<A>(
        plus_of::<A>(of_count_of::<A>(y as u64), single::HALF),
        times_of::<A>(of_count_of::<A>(to.0 as u64), single::HALF),
    );
    let cx = times_of::<A>(of_count_of::<A>(in_w as u64), single::HALF);
    let cy = times_of::<A>(of_count_of::<A>(in_h as u64), single::HALF);
    let size = in_h + in_w + to.0 + to.1 + 1;
    negated_value(sin);
    place_is_close::<A>(cos, dx, mx, sin, dy, my, cx, in_w, size);
    place_is_close::<A>(single::negated(sin), dx, mx, cos, dy, my, cy, in_h, size);
    let sx = computed_place::<A>(cos, dx, sin, dy, cx);
    let sy = computed_place::<A>(single::negated(sin), dx, cos, dy, cy);
    place_splits::<A>(sx);
    place_splits::<A>(sy);
    let o = unit();
    let (iy, ix) = (value(sy) / o, value(sx) / o);
    block_is_close::<A>(
        r,
        k,
        iy,
        ix,
        minus_of::<A>(sy, floor_of::<A>(sy)),
        value(sy) % o,
        minus_of::<A>(sx, floor_of::<A>(sx)),
        value(sx) % o,
        b,
    );
    let (s, c) = (value(sin), value(cos));
    let (hx, hy) = (mx * half(), my * half());
    assert((-s) * hx + c * hy == c * hy - s * hx) by (nonlinear_arith);
    (value(sy), value(sx))
}

} // verus!
