//! What the passes of a blur compute, up to rounding: convolution adds up weighed neighbours,
//! running means are the means of their windows, and the taps of the sampled Gaussian fade
//! with the square of their distance over twice the variance.

use vstd::arithmetic::power2::{
    lemma2_to64, lemma2_to64_rest, lemma_pow2_adds, lemma_pow2_pos, lemma_pow2_strictly_increases,
    lemma_pow2_unfold, pow2,
};
use vstd::prelude::*;

use crate::arith::{
    exp64_of, minus64_of, narrow_of, of_count64_of, over64_of, plus64_of, times64_of, widen_of,
    Arithmetic,
};
use crate::blur::{
    averaged, bell, convolved, first_window, held_sample, running_window, tap_sum, NEUTRAL64, TWO64,
};
use crate::double;
use crate::raster::nearest;
use crate::rounding::{
    apart, computes_exactly, computes_finely, count_exact64, is_multiple64, minus_multiples64,
    minus_relative64, narrow_off, over_relative64, plus_multiples64, plus_off64, size64,
    small_numbers64, step64, sums_exactly, times_off64, times_relative64, unit, unit64, value,
    value64, widen_exact,
};
use crate::single;
use crate::texture::{
    big_units, near, near_back, near_square, near_through, near_times, unit_is_small,
};

verus! {

/// The products of the first `m` weights and the samples that they stand on around a place,
/// added up exactly; past the ends of the line its last samples repeat.
pub open spec fn weighed_neighbours(line: Seq<u32>, weights: Seq<u32>, i: int, m: int) -> int
    decreases m,
{
    if m <= 0 {
        0
    } else {
        let middle = (weights.len() - 1) / 2;
        weighed_neighbours(line, weights, i, m - 1) + value(weights[m - 1]) * value(
            line[nearest(i + (m - 1) - middle, line.len() as int)],
        )
    }
}

/// The sizes of sums in double precision.
proof fn wide_sizes(b: int)
    requires
        0 <= b <= pow2(250),
    ensures
        (0x400 * (b * pow2(925)) + 0x10_0000) < pow2(1200),
        pow2(1200) < pow2(1201) < pow2(2000),
        pow2(925) > 0,
{
    big_units();
    lemma_pow2_adds(250, 925);
    lemma_pow2_strictly_increases(1200, 1201);
    lemma_pow2_strictly_increases(1201, 2000);
    lemma_pow2_adds(1175, 25);
    lemma_pow2_strictly_increases(60, 1175);
    lemma2_to64();
    let (p, q) = (pow2(925) as int, pow2(250) as int);
    assert(b * p <= q * p) by (nonlinear_arith)
        requires
            0 <= b <= q,
            p > 0,
    ;
}

/// The sum of the products is close to the exact one.
proof fn tap_sum_is_close<A: Arithmetic>(line: Seq<u32>, weights: Seq<u32>, i: int, m: int, b: int)
    requires
        computes_finely::<A>(),
        computes_exactly::<A>(),
        line.len() > 0,
        0 <= b <= pow2(250),
        0 <= m <= weights.len() <= 64,
        forall|j: int|
            0 <= j < weights.len() ==> single::is_finite(#[trigger] weights[j]) && apart(
                value(weights[j]),
                0,
            ) <= 4 * unit(),
        forall|j: int|
            0 <= j < line.len() ==> single::is_finite(#[trigger] line[j]) && apart(value(line[j]), 0)
                <= b,
    ensures
        double::is_finite(tap_sum::<A>(line, weights, i, m)),
        apart(weighed_neighbours(line, weights, i, m), 0) <= m * (4 * (b * unit())),
        apart(
            value64(tap_sum::<A>(line, weights, i, m)) * unit(),
            weighed_neighbours(line, weights, i, m) * pow2(925),
        ) <= (m * (2 * step64(0x400 * (b * pow2(925)) + 0x10_0000))) * unit(),
    decreases m,
{
    big_units();
    wide_sizes(b);
    let (u, o, p) = (unit64(), unit(), pow2(925) as int);
    let bp = b * p;
    let n = 0x400 * bp + 0x10_0000;
    let e = step64(n);
    let bo = b * o;
    assert(bp >= 0 && bo >= 0) by (nonlinear_arith)
        requires
            bp == b * p,
            bo == b * o,
            b >= 0,
            p > 0,
            o > 0,
    ;
    assert(size64(0) == 0);
    if m > 0 {
        tap_sum_is_close::<A>(line, weights, i, m - 1, b);
        let middle = (weights.len() - 1) / 2;
        let at = nearest(i + (m - 1) - middle, line.len() as int);
        let (w, x) = (weights[m - 1], line[at]);
        widen_exact::<A>(w);
        widen_exact::<A>(x);
        let (a, c) = (value(w), value(x));
        let ac = a * c;
        assert(apart(ac, 0) <= 4 * bo) by (nonlinear_arith)
            requires
                ac == a * c,
                apart(a, 0) <= 4 * o,
                apart(c, 0) <= b,
                bo == b * o,
                o > 0,
        ;
        assert((a * p) * (c * p) == (ac * p) * p && (4 * bp) * u == ((4 * bo) * p) * p && apart(
            (ac * p) * p,
            0,
        ) <= ((4 * bo) * p) * p) by (nonlinear_arith)
            requires
                ac == a * c,
                bp == b * p,
                bo == b * o,
                u == o * p,
                apart(ac, 0) <= 4 * bo,
                p > 0,
        ;
        times_off64::<A>(widen_of::<A>(w), widen_of::<A>(x), 4 * bp);
        let q = times64_of::<A>(widen_of::<A>(w), widen_of::<A>(x));
        let g = step64(4 * bp);
        let (qv, sv) = (value64(q), value64(tap_sum::<A>(line, weights, i, m - 1)));
        assert(apart(qv * o, ac * p) <= g * o) by (nonlinear_arith)
            requires
                apart(qv * u, (ac * p) * p) <= g * u,
                u == o * p,
                p > 0,
        ;
        let t = weighed_neighbours(line, weights, i, m - 1);
        let k = m - 1;
        let f = k * (2 * e);
        assert(0 <= f <= 128 * e && m * (2 * e) == f + 2 * e && m * (4 * bo) == k * (4 * bo) + 4 * bo
            && k * (4 * bo) <= 252 * bo) by (nonlinear_arith)
            requires
                0 <= k <= 63,
                m == k + 1,
                f == k * (2 * e),
                e > 0,
                bo >= 0,
        ;
        assert(apart(sv, 0) <= 256 * bp + f) by (nonlinear_arith)
            requires
                apart(sv * o, t * p) <= f * o,
                apart(t, 0) <= 252 * bo,
                bo == b * o,
                bp == b * p,
                o > 0,
                p > 0,
                b >= 0,
        ;
        assert(apart(qv, 0) <= 4 * bp + g) by (nonlinear_arith)
            requires
                apart(qv * o, ac * p) <= g * o,
                apart(ac, 0) <= 4 * bo,
                bo == b * o,
                bp == b * p,
                o > 0,
                p > 0,
        ;
        assert(g <= e);
        plus_off64::<A>(tap_sum::<A>(line, weights, i, m - 1), q, n);
        let z = value64(tap_sum::<A>(line, weights, i, m));
        assert(apart(z * o, sv * o + qv * o) <= e * o && g * o <= e * o && (f + 2 * e) * o == f * o + 2
            * (e * o) && (t + ac) * p == t * p + ac * p) by (nonlinear_arith)
            requires
                apart(z, sv + qv) <= e,
                g <= e,
                o > 0,
        ;
    } else {
        assert(0 * o == 0 && 0 * p == 0 && 0 * (4 * bo) == 0 && (0 * (2 * e)) * o == 0)
            by (nonlinear_arith);
    }
}

/// Convolution makes of every sample the sum of its neighbours by their weights, the weight in
/// the middle on the sample itself, up to rounding.
pub proof fn convolution_adds_up_weighed_neighbours<A: Arithmetic>(
    line: Seq<u32>,
    weights: Seq<u32>,
    i: int,
    b: int,
)
    requires
        computes_finely::<A>(),
        computes_exactly::<A>(),
        0 <= i < line.len(),
        0 <= b <= pow2(250),
        weights.len() <= 64,
        forall|j: int|
            0 <= j < weights.len() ==> single::is_finite(#[trigger] weights[j]) && apart(
                value(weights[j]),
                0,
            ) <= 4 * unit(),
        forall|j: int|
            0 <= j < line.len() ==> single::is_finite(#[trigger] line[j]) && apart(value(line[j]), 0)
                <= b,
    ensures
        ({
            let out = convolved::<A>(line, weights)[i];
            let sum = weighed_neighbours(line, weights, i, weights.len() as int);
            &&& single::is_finite(out)
            &&& apart(value(out) * unit(), sum) * 0x40_0000 <= apart(sum, 0) + (b + 0x100_0000)
                * unit()
        }),
{
    big_units();
    wide_sizes(b);
    let m = weights.len() as int;
    tap_sum_is_close::<A>(line, weights, i, m, b);
    let (o, p) = (unit(), pow2(925) as int);
    let total = tap_sum::<A>(line, weights, i, m);
    let (v, s) = (value64(total), weighed_neighbours(line, weights, i, m));
    let (bp, bo) = (b * p, b * o);
    let e = step64(0x400 * bp + 0x10_0000);
    assert(bp >= 0) by (nonlinear_arith)
        requires
            bp == b * p,
            b >= 0,
            p > 0,
    ;
    assert(m * (2 * e) <= 128 * e && m * (4 * bo) <= 256 * bo) by (nonlinear_arith)
        requires
            0 <= m <= 64,
            e > 0,
            bo == b * o,
            b >= 0,
            o > 0,
    ;
    assert((m * (2 * e)) * o <= (128 * e) * o) by (nonlinear_arith)
        requires
            m * (2 * e) <= 128 * e,
            o > 0,
    ;
    // In parts of the least single-precision number.
    assert(0x100_0000 * (128 * e) <= bp + p) by {
        lemma_pow2_strictly_increases(60, 925);
        lemma2_to64_rest();
    }
    assert(apart(v, 0) <= 512 * bp + p) by (nonlinear_arith)
        requires
            apart(v * o, s * p) <= (128 * e) * o,
            apart(s, 0) <= 256 * bo,
            bo == b * o,
            bp == b * p,
            0x100_0000 * (128 * e) <= bp + p,
            b >= 0,
            o > 0,
            p > 0,
    ;
    narrow_fits(bp, p, v);
    narrow_off::<A>(total);
    let r = value(narrow_of::<A>(total));
    assert(convolved::<A>(line, weights)[i] == narrow_of::<A>(total));
    let (vo, sp, rpo) = (v * o, s * p, (r * p) * o);
    assert(apart(rpo, vo) * 0x80_0000 <= apart(vo, 0) + 0x80_0000 * (p * o)) by (nonlinear_arith)
        requires
            apart(r * p, v) * 0x80_0000 <= apart(v, 0) + 0x80_0000 * p,
            rpo == (r * p) * o,
            vo == v * o,
            o > 0,
    ;
    let (bpo, po) = (bp * o, p * o);
    assert(0x100_0000 * ((128 * e) * o) <= bpo + po) by (nonlinear_arith)
        requires
            0x100_0000 * (128 * e) <= bp + p,
            bpo == bp * o,
            po == p * o,
            o > 0,
    ;
    assert(bpo >= 0 && po > 0) by (nonlinear_arith)
        requires
            bpo == bp * o,
            po == p * o,
            bp >= 0,
            p > 0,
            o > 0,
    ;
    assert(apart(rpo, sp) * 0x40_0000 <= apart(sp, 0) + bpo + 0x100_0000 * po);
    assert(apart(r * o, s) * 0x40_0000 <= apart(s, 0) + (b + 0x100_0000) * o) by (nonlinear_arith)
        requires
            apart(rpo, sp) * 0x40_0000 <= apart(sp, 0) + bpo + 0x100_0000 * po,
            rpo == (r * p) * o,
            sp == s * p,
            bpo == bp * o,
            bp == b * p,
            po == p * o,
            p > 0,
    ;
}

proof fn narrow_fits(bp: int, p: int, v: int)
    requires
        apart(v, 0) <= 512 * bp + p,
        p == pow2(925),
        0x400 * bp + 0x10_0000 < pow2(1200),
        bp >= 0,
    ensures
        apart(v, 0) < pow2(1201),
{
    lemma_pow2_strictly_increases(925, 1199);
    lemma_pow2_unfold(1200);
    lemma_pow2_unfold(1201);
}

/// A double-precision number near its exact value, from a bound with the least number.
proof fn near_from(x: int, n: int, e: int)
    requires
        n >= 0,
        apart(x, n) * 0x10_0000_0000_0000 <= n + 0x10_0000_0000_0000 * e,
        0x10_0000_0000_0000 * e <= n,
    ensures
        near(x, n, 0x8_0000_0000_0000),
{
}

/// The taps of the sampled Gaussian fade with the square of their distance from the middle over
/// twice the variance: each is the exponential of minus that, up to rounding.
pub proof fn the_bell_fades_with_the_square<A: Arithmetic>(sigma: u32, radius: u64, i: u64) -> (x: u64)
    requires
        computes_finely::<A>(),
        computes_exactly::<A>(),
        single::is_finite(sigma),
        unit() <= 0x10_0000 * value(sigma),
        value(sigma) <= 0x1_0000 * unit(),
        radius <= 0x10_0000,
        i <= 0x20_0000,
        i != radius,
    ensures
        bell::<A>(sigma, radius as int, i as int) == exp64_of::<A>(x),
        double::is_finite(x),
        ({
            let (s, u) = (value(sigma) * pow2(925), unit64());
            let d = i - radius;
            near(-value64(x) * (2 * (s * s)), (d * d) * (u * u * u), 0x100_0000_0000)
        }),
{
    big_units();
    unit_is_small();
    small_numbers64();
    let (u, o, p) = (unit64(), unit(), pow2(925) as int);
    count_exact64::<A>(i);
    count_exact64::<A>(radius);
    widen_exact::<A>(sigma);
    let wide = widen_of::<A>(sigma);
    let w = value64(wide);
    assert(u <= 0x10_0000 * w && w <= 0x1_0000 * u) by (nonlinear_arith)
        requires
            w == value(sigma) * p,
            o <= 0x10_0000 * value(sigma),
            value(sigma) <= 0x1_0000 * o,
            u == o * p,
            p > 0,
    ;
    // The distance.
    let (m, n) = (of_count64_of::<A>(i), of_count64_of::<A>(radius));
    let k = i - radius;
    assert(i * u - radius * u == k * u && apart(k * u, 0) <= 0x40_0000 * u && apart(k * u, 0) >= u)
        by (nonlinear_arith)
        requires
            k == i - radius,
            0 <= i <= 0x20_0000,
            0 <= radius <= 0x10_0000,
            i != radius,
            u > 0,
    ;
    minus_relative64::<A>(m, n);
    let d = minus64_of::<A>(m, n);
    let (dv, ku) = (value64(d), apart(k * u, 0));
    let size = apart(dv, 0);
    near_from(size, ku, 1);
    near_square(size, ku, 0x8_0000_0000_0000, 0x1_0000_0000_0000);
    let dd = size * size;
    assert(dd == dv * dv && ku * ku == (k * k) * (u * u)) by (nonlinear_arith)
        requires
            size == apart(dv, 0),
            ku == apart(k * u, 0),
            dd == size * size,
    ;
    // Its square.
    let nd = double::negated(d);
    assert(double::is_finite(nd) && value64(nd) == -dv);
    assert((-dv) * dv == -dd && dd <= (0x80_0000 * u) * (0x80_0000 * u) && dd >= u && dd * 4 >= u * u)
        by (nonlinear_arith)
        requires
            dd == dv * dv,
            size == apart(dv, 0),
            2 * size >= u,
            size <= 0x80_0000 * u,
            u >= 4,
    ;
    assert((0x80_0000 * u) * (0x80_0000 * u) < pow2(2000) * u) by (nonlinear_arith)
        requires
            u * 0x1000_0000_0000_0000 < pow2(2000),
            u > 0,
    ;
    times_relative64::<A>(nd, d);
    let t = times64_of::<A>(nd, d);
    let big = -value64(t);
    assert(0x10_0000_0000_0000 * u <= dd) by (nonlinear_arith)
        requires
            dd * 4 >= u * u,
            u >= 0x1_0000_0000_0000_0000_0000_0000_0000_0000,
    ;
    assert((-big) * u == -(big * u)) by (nonlinear_arith);
    near_from(big * u, dd, u);
    // Twice the variance.
    assert(value64(TWO64) == 2 * u && double::is_finite(TWO64)) by {
        two_is_two();
    }
    assert(0 < (2 * u) * w && (2 * u) * w < pow2(2000) * u) by (nonlinear_arith)
        requires
            0 < w <= 0x1_0000 * u,
            u * 0x1000_0000_0000_0000 < pow2(2000),
            u > 0,
    ;
    times_relative64::<A>(TWO64, wide);
    let twice = times64_of::<A>(TWO64, wide);
    let a = value64(twice);
    assert(apart(a, 2 * w) * 0x10_0000_0000_0000 <= 2 * w + 0x10_0000_0000_0000) by (nonlinear_arith)
        requires
            apart(a * u, (2 * u) * w) * 0x10_0000_0000_0000 <= (2 * u) * w + 0x10_0000_0000_0000 * u,
            u > 0,
    ;
    near_from(a, 2 * w, 1);
    assert(w <= a <= 4 * w);
    let aw = a * w;
    assert(0 < aw <= (0x8_0000_0000 * u) * u && (0x8_0000_0000 * u) * u < pow2(2000) * u && aw
        * 0x100_0000_0000 >= u * u) by (nonlinear_arith)
        requires
            aw == a * w,
            w <= a <= 4 * w,
            w <= 0x1_0000 * u,
            u <= 0x10_0000 * w,
            u * 0x1000_0000_0000_0000 < pow2(2000),
            u > 0,
    ;
    times_relative64::<A>(twice, wide);
    let spread = times64_of::<A>(twice, wide);
    let b = value64(spread);
    assert(0x10_0000_0000_0000 * u <= aw) by (nonlinear_arith)
        requires
            aw * 0x100_0000_0000 >= u * u,
            u >= 0x1_0000_0000_0000_0000_0000_0000_0000_0000,
    ;
    near_from(b * u, aw, u);
    assert(0 < b <= 0x10_0000_0000 * u && u <= b * 0x200_0000_0000) by (nonlinear_arith)
        requires
            apart(b * u, aw) * 0x8_0000_0000_0000 <= aw,
            0 < aw <= (0x8_0000_0000 * u) * u,
            aw * 0x100_0000_0000 >= u * u,
            u > 0,
    ;
    // The quotient.
    let bu = big * u;
    assert(bu > 0 && bu <= 2 * dd);
    assert(value64(t) * u == -bu) by (nonlinear_arith)
        requires
            bu == big * u,
            big == -value64(t),
    ;
    assert(u * 0x1_0000_0000_0000_0000_0000_0000_0000_0000 < pow2(2000)) by {
        lemma2_to64();
        lemma_pow2_adds(64, 1074);
        lemma_pow2_adds(64, 1138);
        lemma_pow2_strictly_increases(1202, 2000);
    }
    assert(bu < pow2(2000) * b) by (nonlinear_arith)
        requires
            bu <= 2 * dd,
            dd <= (0x80_0000 * u) * (0x80_0000 * u),
            u <= b * 0x200_0000_0000,
            u * 0x1_0000_0000_0000_0000_0000_0000_0000_0000 < pow2(2000),
            u > 0,
            b > 0,
    ;
    over_relative64::<A>(t, spread);
    let x = over64_of::<A>(t, spread);
    let y = -value64(x);
    assert(0x10_0000_0000_0000 * b <= bu) by (nonlinear_arith)
        requires
            bu * 2 >= dd,
            dd * 4 >= u * u,
            b <= 0x10_0000_0000 * u,
            u >= 0x1_0000_0000_0000_0000_0000_0000_0000_0000,
    ;
    assert(value64(x) * b == -(y * b)) by (nonlinear_arith)
        requires
            y == -value64(x),
    ;
    near_from(y * b, bu, b);
    assert(y >= 0) by (nonlinear_arith)
        requires
            apart(y * b, bu) * 0x8_0000_0000_0000 <= bu,
            bu > 0,
            b > 0,
    ;
    fade_is_near(y, b, bu, dd, k, aw, a, w, u);
    x
}

/// The double-precision pattern of two.
proof fn two_is_two()
    ensures
        double::is_finite(TWO64),
        value64(TWO64) == 2 * unit64(),
{
    lemma2_to64();
    lemma2_to64_rest();
    assert(size64(0x4000_0000_0000_0000) == 0x10_0000_0000_0000 * pow2(1023));
    lemma_pow2_adds(52, 1023);
    lemma_pow2_adds(1, 1074);
}

/// The near steps from the quotient to the square over twice the variance.
proof fn fade_is_near(y: int, b: int, bu: int, dd: int, k: int, aw: int, a: int, w: int, u: int)
    requires
        u > 0,
        w > 0,
        y >= 0,
        aw == a * w,
        near(y * b, bu, 0x8_0000_0000_0000),
        near(bu, dd, 0x8_0000_0000_0000),
        near(dd, (k * k) * (u * u), 0x1_0000_0000_0000),
        near(b * u, aw, 0x8_0000_0000_0000),
        near(a, 2 * w, 0x8_0000_0000_0000),
    ensures
        near(y * (2 * (w * w)), (k * k) * (u * u * u), 0x100_0000_0000),
{
    let kk = (k * k) * (u * u);
    weaker(y * b, bu, 0x8_0000_0000_0000, 0x1_0000_0000_0000);
    weaker(bu, dd, 0x8_0000_0000_0000, 0x1_0000_0000_0000);
    near_through(y * b, bu, dd, 0x1_0000_0000_0000, 0x4000_0000_0000);
    weaker(dd, kk, 0x1_0000_0000_0000, 0x4000_0000_0000);
    near_through(y * b, dd, kk, 0x4000_0000_0000, 0x1000_0000_0000);
    near_times(y * b, kk, u, 0x1000_0000_0000);
    let (ybu, kku) = ((y * b) * u, kk * u);
    // The variance.
    near_back(b * u, aw, 0x7_FFFF_FFFF_FFFF);
    near_times(aw, b * u, y, 0x7_FFFF_FFFF_FFFF);
    assert((b * u) * y == ybu) by (nonlinear_arith)
        requires
            ybu == (y * b) * u,
    ;
    near_back(a, 2 * w, 0x7_FFFF_FFFF_FFFF);
    let wy = w * y;
    assert(wy >= 0) by (nonlinear_arith)
        requires
            wy == w * y,
            w > 0,
            y >= 0,
    ;
    near_times(2 * w, a, wy, 0x7_FFFF_FFFF_FFFF);
    assert(a * wy == aw * y && (2 * w) * wy == y * (2 * (w * w))) by (nonlinear_arith)
        requires
            wy == w * y,
            aw == a * w,
    ;
    near_through(y * (2 * (w * w)), aw * y, ybu, 0x7_FFFF_FFFF_FFFF, 0x1000_0000_0000);
    near_through(y * (2 * (w * w)), ybu, kku, 0x1000_0000_0000, 0x100_0000_0000);
    assert(kku == (k * k) * (u * u * u)) by (nonlinear_arith)
        requires
            kku == ((k * k) * (u * u)) * u,
    ;
}

proof fn weaker(x: int, y: int, k: int, j: int)
    requires
        near(x, y, k),
        0 <= j <= k,
    ensures
        near(x, y, j),
{
    let a = apart(x, y);
    assert(a * j <= a * k) by (nonlinear_arith)
        requires
            a >= 0,
            j <= k,
    ;
}

/// A sample in parts of `2^j`.
pub open spec fn parts_of(x: u32, j: nat) -> int {
    value(x) / (pow2(j) as int)
}

/// The samples of a window from a place on, added up exactly in parts of `2^j`; past the ends
/// of the line its last samples repeat.
pub open spec fn window_parts(line: Seq<u32>, j: nat, from: int, n: int) -> int
    decreases n,
{
    if n <= 0 {
        0
    } else {
        window_parts(line, j, from, n - 1) + parts_of(line[nearest(from + n - 1, line.len() as int)], j)
    }
}

/// Whether the samples of a line are multiples of `2^j`, and short ones.
pub open spec fn is_short_line(line: Seq<u32>, j: nat) -> bool {
    forall|i: int|
        0 <= i < line.len() ==> single::is_finite(#[trigger] line[i]) && value(line[i]) == parts_of(
            line[i],
            j,
        ) * pow2(j) && -0x1_0000_0000 < parts_of(line[i], j) < 0x1_0000_0000
}

proof fn held_sample_is_short<A: Arithmetic>(line: Seq<u32>, j: nat, i: int)
    requires
        computes_exactly::<A>(),
        is_short_line(line, j),
        line.len() > 0,
    ensures
        ({
            let s = parts_of(line[nearest(i, line.len() as int)], j);
            &&& is_multiple64(held_sample::<A>(line, i), s, j + 925)
            &&& -0x1_0000_0000 < s < 0x1_0000_0000
        }),
{
    let at = nearest(i, line.len() as int);
    widen_exact::<A>(line[at]);
    lemma_pow2_adds(j, 925);
    let (p, r, s) = (pow2(j) as int, pow2(925) as int, parts_of(line[at], j));
    assert(s * (p * r) == (s * p) * r) by (nonlinear_arith);
}

proof fn parts_are_bounded(line: Seq<u32>, j: nat, from: int, n: int)
    requires
        is_short_line(line, j),
        line.len() > 0,
        0 <= n <= 0x10_0000,
    ensures
        -0x10_0000_0000_0000 <= window_parts(line, j, from, n) <= 0x10_0000_0000_0000,
        apart(window_parts(line, j, from, n), 0) <= n * 0x1_0000_0000,
    decreases n,
{
    if n > 0 {
        parts_are_bounded(line, j, from, n - 1);
        let at = nearest(from + n - 1, line.len() as int);
        let _ = line[at];
    }
}

/// A window moved by one place has one sample more at its end, and one less at its start.
proof fn window_moves(line: Seq<u32>, j: nat, from: int, n: int)
    requires
        n >= 0,
    ensures
        window_parts(line, j, from + 1, n) == window_parts(line, j, from, n) + parts_of(
            line[nearest(from + n, line.len() as int)],
            j,
        ) - parts_of(line[nearest(from, line.len() as int)], j),
    decreases n,
{
    if n > 0 {
        window_moves(line, j, from, n - 1);
    }
}

proof fn first_window_is_exact<A: Arithmetic>(line: Seq<u32>, j: nat, radius: int, m: int)
    requires
        computes_exactly::<A>(),
        sums_exactly::<A>(),
        is_short_line(line, j),
        line.len() > 0,
        j <= 253,
        0 <= m <= 0x10_0000,
    ensures
        is_multiple64(
            first_window::<A>(line, radius, m),
            window_parts(line, j, -radius, m),
            j + 925,
        ),
    decreases m,
{
    parts_are_bounded(line, j, -radius, m);
    if m > 0 {
        first_window_is_exact::<A>(line, j, radius, m - 1);
        held_sample_is_short::<A>(line, j, m - 1 - radius);
        assert(-radius + m - 1 == m - 1 - radius);
        plus_multiples64::<A>(
            first_window::<A>(line, radius, m - 1),
            window_parts(line, j, -radius, m - 1),
            held_sample::<A>(line, m - 1 - radius),
            parts_of(line[nearest(m - 1 - radius, line.len() as int)], j),
            j + 925,
        );
    } else {
        assert(size64(0) == 0);
        assert(0 * pow2(j + 925) == 0) by (nonlinear_arith);
        assert(first_window::<A>(line, radius, m) == NEUTRAL64);
    }
}

proof fn running_window_is_exact<A: Arithmetic>(line: Seq<u32>, j: nat, radius: int, i: int)
    requires
        computes_exactly::<A>(),
        sums_exactly::<A>(),
        is_short_line(line, j),
        line.len() > 0,
        j <= 253,
        0 <= radius <= 0x4_0000,
        i >= 0,
    ensures
        is_multiple64(
            running_window::<A>(line, radius, i),
            window_parts(line, j, i - radius, 2 * radius + 1),
            j + 925,
        ),
    decreases i,
{
    let n = 2 * radius + 1;
    if i > 0 {
        running_window_is_exact::<A>(line, j, radius, i - 1);
        held_sample_is_short::<A>(line, j, i + radius);
        held_sample_is_short::<A>(line, j, i - radius - 1);
        parts_are_bounded(line, j, i - 1 - radius, n);
        parts_are_bounded(line, j, i - radius, n);
        window_moves(line, j, i - 1 - radius, n);
        assert(i - 1 - radius + n == i + radius && i - 1 - radius + 1 == i - radius && i - 1 - radius
            == i - radius - 1);
        let before = running_window::<A>(line, radius, i - 1);
        let old = window_parts(line, j, i - 1 - radius, n);
        let enters = parts_of(line[nearest(i + radius, line.len() as int)], j);
        let leaves = parts_of(line[nearest(i - radius - 1, line.len() as int)], j);
        plus_multiples64::<A>(before, old, held_sample::<A>(line, i + radius), enters, j + 925);
        minus_multiples64::<A>(
            plus64_of::<A>(before, held_sample::<A>(line, i + radius)),
            old + enters,
            held_sample::<A>(line, i - radius - 1),
            leaves,
            j + 925,
        );
    } else {
        first_window_is_exact::<A>(line, j, radius, n);
        assert(running_window::<A>(line, radius, i) == first_window::<A>(line, radius, n));
        assert(i - radius == -radius);
    }
}

/// A running mean is the mean of the window around its place, up to rounding. This is for lines
/// whose samples are short multiples of a power of two, which running sums hold exactly.
pub proof fn running_means_are_means_of_windows<A: Arithmetic>(
    line: Seq<u32>,
    radius: int,
    i: int,
    j: nat,
)
    requires
        computes_exactly::<A>(),
        computes_finely::<A>(),
        sums_exactly::<A>(),
        is_short_line(line, j),
        0 <= i < line.len(),
        j <= 200,
        0 <= radius <= 0x4_0000,
    ensures
        ({
            let out = averaged::<A>(line, radius)[i];
            let sum = window_parts(line, j, i - radius, 2 * radius + 1) * pow2(j);
            &&& single::is_finite(out)
            &&& apart(value(out) * (2 * radius + 1), sum) * 0x40_0000 <= apart(sum, 0) + 0x80_0000
                * (2 * radius + 1)
        }),
{
    big_units();
    unit_is_small();
    running_window_is_exact::<A>(line, j, radius, i);
    let n = 2 * radius + 1;
    parts_are_bounded(line, j, i - radius, n);
    count_exact64::<A>(n as u64);
    let (total, count) = (running_window::<A>(line, radius, i), of_count64_of::<A>(n as u64));
    let parts = window_parts(line, j, i - radius, n);
    let (u, p, q) = (unit64(), pow2(925) as int, pow2(j) as int);
    lemma_pow2_pos(j);
    lemma_pow2_adds(j, 925);
    lemma_pow2_strictly_increases(60, 925);
    lemma2_to64_rest();
    let sum = parts * q;
    let s = value64(total);
    assert(s == sum * p) by (nonlinear_arith)
        requires
            s == parts * (q * p),
            sum == parts * q,
    ;
    assert(apart(s, 0) < pow2(1200)) by {
        lemma_pow2_strictly_increases(j + 925, 1126);
        lemma_pow2_adds(60, 1126);
        lemma_pow2_strictly_increases(1186, 1200);
        lemma2_to64();
        lemma2_to64_rest();
        let (a, b) = (pow2(j + 925) as int, pow2(1126) as int);
        assert(pow2(1186) == 0x1000_0000_0000_0000 * b);
        assert(apart(parts * a, 0) <= 0x10_0000_0000_0000 * b) by (nonlinear_arith)
            requires
                -0x10_0000_0000_0000 <= parts <= 0x10_0000_0000_0000,
                0 <= a <= b,
        ;
    }
    lemma_pow2_strictly_increases(1200, 1201);
    lemma_pow2_strictly_increases(1201, 2000);
    assert(n * u > 0 && apart(s * u, 0) < pow2(2000) * (n * u)) by (nonlinear_arith)
        requires
            n >= 1,
            u > 0,
            apart(s, 0) < pow2(2000),
    ;
    over_relative64::<A>(total, count);
    let mean = over64_of::<A>(total, count);
    let v = value64(mean);
    let vn = v * n;
    assert(apart(vn, s) * 0x10_0000_0000_0000 <= apart(s, 0) + 0x10_0000_0000_0000 * n)
        by (nonlinear_arith)
        requires
            apart(v * (n * u), s * u) * 0x10_0000_0000_0000 <= apart(s * u, 0) + 0x10_0000_0000_0000
                * (n * u),
            vn == v * n,
            u > 0,
    ;
    assert(apart(v, 0) < pow2(1201)) by {
        lemma_pow2_adds(1, 1200);
        lemma_pow2_strictly_increases(60, 1200);
        lemma2_to64();
        lemma2_to64_rest();
        assert(apart(vn, 0) < pow2(1201));
        assert(apart(v, 0) <= apart(vn, 0)) by (nonlinear_arith)
            requires
                vn == v * n,
                n >= 1,
        ;
    }
    narrow_off::<A>(mean);
    let r = value(narrow_of::<A>(mean));
    assert(averaged::<A>(line, radius)[i] == narrow_of::<A>(mean));
    let (rpn, pn) = ((r * p) * n, p * n);
    assert(apart(rpn, vn) * 0x80_0000 <= apart(vn, 0) + 0x80_0000 * pn) by (nonlinear_arith)
        requires
            apart(r * p, v) * 0x80_0000 <= apart(v, 0) + 0x80_0000 * p,
            rpn == (r * p) * n,
            vn == v * n,
            pn == p * n,
            n >= 1,
    ;
    assert(pn >= 0x1000 * n) by (nonlinear_arith)
        requires
            pn == p * n,
            p >= 0x1000,
            n >= 1,
    ;
    assert(apart(rpn, s) * 0x40_0000 <= apart(s, 0) + 0x80_0000 * pn);
    assert(apart(r * n, sum) * 0x40_0000 <= apart(sum, 0) + 0x80_0000 * n) by (nonlinear_arith)
        requires
            apart(rpn, s) * 0x40_0000 <= apart(s, 0) + 0x80_0000 * pn,
            rpn == (r * p) * n,
            s == sum * p,
            pn == p * n,
            p > 0,
    ;
}

} // verus!
