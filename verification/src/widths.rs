//! The search for the widths of the running means, held against a scan of every triple.
//!
//! The search leaves out triples that cannot win. It tries only the widths near a guess
//! of the third one, and it starts at a narrowest width of about sigma. That nothing is
//! lost by it rests on how close the arithmetic is to the exact one: two triples that
//! are a width apart differ in sigma by far more than all roundings together.

use vstd::arithmetic::power2::{lemma2_to64, lemma_pow2_adds, lemma_pow2_pos, pow2};
use vstd::prelude::*;

use crate::arith::{
    floor64_of, minus64_of, minus_of, narrow_of, of_count64_of, over64_of, over_of, plus64_of,
    plus_of, root64_of, root_of, times64_of, times_of, to_count64_of, widen_of, Arithmetic,
};
use crate::blur::{
    before, best_widths, beyond, box_variance, candidate, guess, held, last_width, miss, narrowest,
    odd_at_least, series_sigma, series_variance, square_sum, widest, widths_are_balanced,
    MAX_EVEN_WIDTH, MAX_SIGMA, NEUTRAL64, NINETEEN64, THREE, THREE64, TWELVE, TWELVE64,
};
use crate::double;
use crate::rounding::{
    apart, computes_closely, computes_exactly, count_exact64, count_reaches, floor_count64, grain64,
    half, half_is_positive, minus_close, minus_close64, narrow_close, negated_value, over_close64,
    over_rounds, plus_close64, plus_rounds, root_close64, root_reaches, rounded_between, rounds,
    short_multiples_are_numbers, size, size64, small_numbers, small_numbers64, times_close64,
    times_rounds, unit64, value, value64, values_are_ordered, values_are_ordered64, widen_exact,
};
use crate::single;

verus! {

/// Twelve times the variance of three running means.
pub open spec fn spread(a: int, b: int, c: int) -> int {
    a * a + b * b + c * c - 3
}

/// Every triple of widths a scan would try: ascending odd widths within the permitted
/// ratio and no wider than the widest.
pub open spec fn any_triple<A: Arithmetic>(sigma: u32, a: int, b: int, c: int) -> bool {
    &&& a % 2 == 1
    &&& b % 2 == 1
    &&& c % 2 == 1
    &&& 3 <= a <= b <= c
    &&& c <= 3 * a
    &&& c <= widest::<A>(sigma)
}

/// A number of single precision in units of the least positive double-precision one.
spec fn fine(x: u32) -> int {
    value(x) * pow2(925)
}

/// How many fine steps the sigma of a triple and its distance from sigma can be off.
spec fn slack() -> int {
    2060 * grain64()
}

proof fn scales()
    ensures
        grain64() > 0,
        unit64() == 0x10_0000 * grain64(),
        pow2(925) > 0,
        2 * half() == pow2(149),
        2 * half() * pow2(925) == unit64(),
        pow2(140) * pow2(925) == 2048 * grain64(),
{
    lemma2_to64();
    lemma_pow2_pos(1054);
    lemma_pow2_pos(925);
    lemma_pow2_adds(20, 1054);
    lemma_pow2_adds(1, 148);
    lemma_pow2_adds(149, 925);
    lemma_pow2_adds(140, 925);
    lemma_pow2_adds(11, 1054);
    assert(pow2(1) * pow2(148) == 2 * half());
    assert(pow2(20) * pow2(1054) == 0x10_0000 * grain64());
}

/// Squares of numbers that are not negative are ordered as the numbers are.
proof fn squares_order(x: int, y: int)
    requires
        0 <= x,
        0 <= y,
        x * x <= y * y,
    ensures
        x <= y,
{
    assert(x <= y) by (nonlinear_arith)
        requires
            0 <= x,
            0 <= y,
            x * x <= y * y,
    ;
}

proof fn squares_grow(x: int, y: int)
    requires
        0 <= x <= y,
    ensures
        x * x <= y * y,
{
    assert(x * x <= y * y) by (nonlinear_arith)
        requires
            0 <= x <= y,
    ;
}

/// Two spreads that are a width apart lie far apart in sigma.
proof fn sigmas_apart(x1: int, x2: int, d1: int, d2: int, k: int, q: int, u: int)
    requires
        q > 0,
        u == 0x10_0000 * q,
        k >= 1,
        0 <= d1 <= 3 * (k * k),
        d2 >= d1 + 4 * k + 4,
        x1 >= 2060 * q,
        x2 >= 0,
        12 * ((x1 - 2060 * q) * (x1 - 2060 * q)) <= d1 * (u * u),
        d2 * (u * u) <= 12 * ((x2 + 2060 * q) * (x2 + 2060 * q)),
    ensures
        x2 >= x1 + 20600 * q,
{
    let e = 2060 * q;
    let y = x1 - e;
    let uu = u * u;
    if x2 < x1 + 10 * e {
        let z = x2 + e;
        squares_grow(z, y + 12 * e);
        assert((y + 12 * e) * (y + 12 * e) == y * y + 24 * (e * y) + 144 * (e * e))
            by (nonlinear_arith);
        assert(uu >= 0) by (nonlinear_arith)
            requires
                uu == u * u,
        ;
        assert(d2 * uu >= (d1 + 4 * k + 4) * uu) by (nonlinear_arith)
            requires
                uu >= 0,
                d2 >= d1 + 4 * k + 4,
        ;
        assert((d1 + 4 * k + 4) * uu == d1 * uu + 4 * (k * uu) + 4 * uu) by (nonlinear_arith);
        assert(72 * (e * y) + 432 * (e * e) >= k * uu + uu);
        assert(d1 * uu <= (3 * (k * k)) * uu) by (nonlinear_arith)
            requires
                uu >= 0,
                d1 <= 3 * (k * k),
        ;
        assert((3 * (k * k)) * uu == 3 * ((k * u) * (k * u))) by (nonlinear_arith)
            requires
                uu == u * u,
        ;
        assert((2 * y) * (2 * y) == 4 * (y * y)) by (nonlinear_arith);
        assert(k * u >= 0) by (nonlinear_arith)
            requires
                k >= 1,
                u > 0,
        ;
        squares_order(2 * y, k * u);
        assert(72 * (e * y) <= 36 * (e * (k * u))) by (nonlinear_arith)
            requires
                2 * y <= k * u,
                e > 0,
        ;
        assert(36 * (e * (k * u)) <= k * uu) by (nonlinear_arith)
            requires
                e == 2060 * q,
                u == 0x10_0000 * q,
                uu == u * u,
                q > 0,
                k >= 1,
        ;
        assert(432 * (e * e) < uu) by (nonlinear_arith)
            requires
                e == 2060 * q,
                u == 0x10_0000 * q,
                uu == u * u,
                q > 0,
        ;
        assert(false);
    }
}

/// The double-precision constants of the search.
proof fn constants()
    ensures
        double::is_finite(TWELVE64),
        value64(TWELVE64) == 12 * unit64(),
        double::is_finite(THREE64),
        value64(THREE64) == 3 * unit64(),
        double::is_finite(NINETEEN64),
        value64(NINETEEN64) == 19 * unit64(),
        double::is_finite(NEUTRAL64),
        value64(NEUTRAL64) == 0,
{
    lemma2_to64();
    small_numbers64();
    lemma_pow2_adds(3, 1022);
    lemma_pow2_adds(1, 1022);
    lemma_pow2_adds(4, 1022);
    let p = pow2(1022) as int;
    assert(unit64() == 0x10_0000_0000_0000 * p);
    assert(size64(0x4028_0000_0000_0000) == 0x18_0000_0000_0000 * pow2(1025));
    assert(size64(0x4008_0000_0000_0000) == 0x18_0000_0000_0000 * pow2(1023));
    assert(size64(0x4033_0000_0000_0000) == 0x13_0000_0000_0000 * pow2(1026));
    assert(size64(0) == 0);
}

/// The square of a width in units of the least positive number.
proof fn square_of_width(w: int, u: int)
    requires
        1 <= w <= 65534,
        u > 0,
    ensures
        1 <= w * w <= 4294705156,
        (w * w) * u - u == (w * w - 1) * u,
        u <= (w * w) * u <= 4294705156 * u,
{
    assert(1 <= w * w <= 4294705156) by (nonlinear_arith)
        requires
            1 <= w <= 65534,
    ;
    let s = w * w;
    assert(s * u - u == (s - 1) * u) by (nonlinear_arith);
    assert(u <= s * u <= 4294705156 * u) by (nonlinear_arith)
        requires
            1 <= s <= 4294705156,
            u > 0,
    ;
}

/// The variance of one running mean is close.
proof fn mean_is_close<A: Arithmetic>(w: int)
    requires
        computes_closely::<A>(),
        computes_exactly::<A>(),
        3 <= w <= 65534,
    ensures
        double::is_finite(box_variance::<A>(w as usize)),
        apart(12 * value64(box_variance::<A>(w as usize)), (w * w - 1) * unit64()) <= 13
            * grain64(),
{
    let (u, q) = (unit64(), grain64());
    scales();
    constants();
    small_numbers64();
    square_of_width(w, u);
    count_exact64::<A>((w * w) as u64);
    let n = of_count64_of::<A>((w * w) as u64);
    minus_close64::<A>(n, double::ONE);
    let d = minus64_of::<A>(n, double::ONE);
    let dv = value64(d);
    assert(apart(dv, 0) * u < 0x2_0000_0000 * u * (12 * u)) by (nonlinear_arith)
        requires
            apart(dv, 0) < 0x2_0000_0000 * u,
            u > 0,
    ;
    over_close64::<A>(d, TWELVE64);
    let v = value64(over64_of::<A>(d, TWELVE64));
    assert(apart(12 * v, dv) <= 12 * q) by (nonlinear_arith)
        requires
            apart(v * (12 * u), dv * u) <= q * (12 * u),
            u > 0,
    ;
}

/// One more variance in a sum keeps it close.
proof fn sum_is_close<A: Arithmetic>(s: u64, v: u64, d: int, w: int, e: int)
    requires
        computes_closely::<A>(),
        double::is_finite(s),
        double::is_finite(v),
        0 <= d <= 9000000000,
        0 <= w <= 4294705155,
        0 <= e <= 100,
        apart(12 * value64(s), d * unit64()) <= e * grain64(),
        apart(12 * value64(v), w * unit64()) <= 13 * grain64(),
    ensures
        double::is_finite(plus64_of::<A>(s, v)),
        apart(12 * value64(plus64_of::<A>(s, v)), (d + w) * unit64()) <= (e + 25) * grain64(),
{
    let (u, q) = (unit64(), grain64());
    scales();
    assert((d + w) * u == d * u + w * u) by (nonlinear_arith);
    assert((e + 25) * q == e * q + 25 * q) by (nonlinear_arith);
    assert(0 <= d * u <= 9000000000 * u && 0 <= w * u <= 4294705155 * u) by (nonlinear_arith)
        requires
            0 <= d <= 9000000000,
            0 <= w <= 4294705155,
            u > 0,
    ;
    assert(e * q <= 100 * q) by (nonlinear_arith)
        requires
            e <= 100,
            q > 0,
    ;
    plus_close64::<A>(s, v);
}

/// Three variances add up to a close one.
proof fn variance_is_close<A: Arithmetic>(a: int, b: int, c: int)
    requires
        computes_closely::<A>(),
        computes_exactly::<A>(),
        3 <= a <= 65534,
        3 <= b <= 65534,
        3 <= c <= 65534,
    ensures
        ({
            let v = series_variance::<A>(seq![a as usize, b as usize, c as usize], 3);
            &&& double::is_finite(v)
            &&& apart(12 * value64(v), spread(a, b, c) * unit64()) <= 75 * grain64()
        }),
        24 <= spread(a, b, c) <= 12884115465,
{
    let (u, q) = (unit64(), grain64());
    scales();
    constants();
    mean_is_close::<A>(a);
    mean_is_close::<A>(b);
    mean_is_close::<A>(c);
    square_of_width(a, u);
    square_of_width(b, u);
    square_of_width(c, u);
    squares_grow(3, a);
    squares_grow(3, b);
    squares_grow(3, c);
    let (p0, p1, p2) = (
        box_variance::<A>(a as usize),
        box_variance::<A>(b as usize),
        box_variance::<A>(c as usize),
    );
    let (n0, n1, n2) = (a * a - 1, b * b - 1, c * c - 1);
    let widths = seq![a as usize, b as usize, c as usize];
    assert(0 * u == 0) by (nonlinear_arith);
    sum_is_close::<A>(NEUTRAL64, p0, 0, n0, 0);
    let s1 = plus64_of::<A>(NEUTRAL64, p0);
    sum_is_close::<A>(s1, p1, n0, n1, 25);
    let s2 = plus64_of::<A>(s1, p1);
    sum_is_close::<A>(s2, p2, n0 + n1, n2, 50);
    assert(series_variance::<A>(widths, 0) == NEUTRAL64);
    assert(series_variance::<A>(widths, 1) == s1);
    assert(series_variance::<A>(widths, 2) == s2);
    assert(series_variance::<A>(widths, 3) == plus64_of::<A>(s2, p2));
    assert(n0 + n1 + n2 == spread(a, b, c));
}

/// The sigma of three running means is close.
proof fn series_is_close<A: Arithmetic>(a: int, b: int, c: int)
    requires
        computes_closely::<A>(),
        computes_exactly::<A>(),
        3 <= a <= 65534,
        3 <= b <= 65534,
        3 <= c <= 65534,
    ensures
        ({
            let s = series_sigma::<A>(seq![a as usize, b as usize, c as usize]);
            let x = fine(s);
            let uu = unit64() * unit64();
            &&& single::is_finite(s)
            &&& slack() <= x < 0x8000 * unit64()
            &&& 12 * ((x - slack()) * (x - slack())) <= spread(a, b, c) * uu
            &&& spread(a, b, c) * uu <= 12 * ((x + slack()) * (x + slack()))
        }),
{
    let (u, q) = (unit64(), grain64());
    scales();
    variance_is_close::<A>(a, b, c);
    let s3 = series_variance::<A>(seq![a as usize, b as usize, c as usize], 3);
    let v = value64(s3);
    let d = spread(a, b, c);
    assert(24 * u <= d * u <= 12884115465 * u) by (nonlinear_arith)
        requires
            24 <= d <= 12884115465,
            u > 0,
    ;
    root_close64::<A>(s3);
    let r = root64_of::<A>(s3);
    root_bounds(value64(r), v, d, q, u);
    narrow_close::<A>(r);
    single_bounds(fine(narrow_of::<A>(r)), value64(r), d, q, u);
}

/// What a close root of a close variance is worth.
proof fn root_bounds(w: int, v: int, d: int, q: int, u: int)
    requires
        q > 0,
        u == 0x10_0000 * q,
        24 <= d <= 12884115465,
        apart(12 * v, d * u) <= 75 * q,
        0 <= w,
        v * u <= (w + q) * (w + q),
        w <= q || (w - q) * (w - q) <= v * u,
    ensures
        u <= w < 0x7FFF * u + 2 * q,
        12 * ((w - q) * (w - q)) <= d * (u * u) + 75 * (q * u),
        d * (u * u) - 75 * (q * u) <= 12 * ((w + q) * (w + q)),
{
    assert(12 * (v * u) <= d * (u * u) + 75 * (q * u) && d * (u * u) - 75 * (q * u) <= 12 * (v * u))
        by (nonlinear_arith)
        requires
            12 * v <= d * u + 75 * q,
            d * u - 75 * q <= 12 * v,
            u > 0,
    ;
    let uu = u * u;
    assert(24 * uu <= d * uu <= 12884115465 * uu) by (nonlinear_arith)
        requires
            24 <= d <= 12884115465,
            uu >= 0,
    ;
    assert(75 * (q * u) <= uu && uu > 0) by (nonlinear_arith)
        requires
            u == 0x10_0000 * q,
            uu == u * u,
            q > 0,
    ;
    if w < u {
        squares_grow(w + q, u + q);
        assert(12 * ((u + q) * (u + q)) < 23 * uu) by (nonlinear_arith)
            requires
                u == 0x10_0000 * q,
                uu == u * u,
                q > 0,
        ;
        assert(false);
    }
    if w >= 0x7FFF * u + 2 * q {
        let top = 0x7FFF * u + q;
        squares_grow(top, w - q);
        assert(12 * (top * top) > 12884115465 * uu + uu) by (nonlinear_arith)
            requires
                top == 0x7FFF * u + q,
                u == 0x10_0000 * q,
                uu == u * u,
                q > 0,
        ;
        assert(false);
    }
}

/// What a close single-precision form of a close root is worth.
proof fn single_bounds(x: int, w: int, d: int, q: int, u: int)
    requires
        q > 0,
        u == 0x10_0000 * q,
        u <= w < 0x7FFF * u + 2 * q,
        12 * ((w - q) * (w - q)) <= d * (u * u) + 75 * (q * u),
        d * (u * u) - 75 * (q * u) <= 12 * ((w + q) * (w + q)),
        apart(x, w) <= 2048 * q,
    ensures
        2060 * q <= x < 0x8000 * u,
        12 * ((x - 2060 * q) * (x - 2060 * q)) <= d * (u * u),
        d * (u * u) <= 12 * ((x + 2060 * q) * (x + 2060 * q)),
{
    let e = 2060 * q;
    squares_grow(x - e, w - 12 * q);
    squares_grow(w + 12 * q, x + e);
    assert((w - 12 * q) * (w - 12 * q) == (w - q) * (w - q) - 22 * (q * w) + 143 * (q * q))
        by (nonlinear_arith);
    assert((w + 12 * q) * (w + 12 * q) == (w + q) * (w + q) + 22 * (q * w) + 143 * (q * q))
        by (nonlinear_arith);
    assert(q * u <= q * w) by (nonlinear_arith)
        requires
            q > 0,
            u <= w,
    ;
    assert(q * u == 0x10_0000 * (q * q) && q * q > 0) by (nonlinear_arith)
        requires
            q > 0,
            u == 0x10_0000 * q,
    ;
}

/// Whether a sigma is one that a blur accepts.
pub open spec fn is_moderate(sigma: u32) -> bool {
    single::is_non_negative(sigma) && single::at_most(sigma, MAX_SIGMA)
}

/// A sigma that a blur accepts lies between zero and 4096.
proof fn moderate_bounds(sigma: u32)
    requires
        is_moderate(sigma),
    ensures
        single::is_finite(sigma),
        0 <= value(sigma) <= 4096 * (2 * half()),
        0 <= fine(sigma) <= 4096 * unit64(),
{
    scales();
    lemma2_to64();
    small_numbers();
    lemma_pow2_adds(23, 138);
    lemma_pow2_adds(12, 149);
    assert(value(MAX_SIGMA) == 4096 * (2 * half()));
    values_are_ordered(0, sigma);
    values_are_ordered(sigma, MAX_SIGMA);
    let (v, r, o) = (value(sigma), pow2(925) as int, 2 * half());
    assert(0 <= v * r <= 4096 * (o * r)) by (nonlinear_arith)
        requires
            0 <= v <= 4096 * o,
            r > 0,
    ;
}

/// The value of a magnitude.
proof fn magnitude_value(a: u32)
    requires
        single::is_finite(a),
    ensures
        single::is_finite(single::magnitude(a)),
        value(single::magnitude(a)) == apart(value(a), 0),
{
    small_numbers();
    values_are_ordered(a, 0);
    values_are_ordered(0, a);
    if a >= single::SIGN {
        negated_value(a);
    }
}

/// How far a triple misses sigma is close.
proof fn miss_is_close<A: Arithmetic>(sigma: u32, a: int, b: int, c: int)
    requires
        computes_closely::<A>(),
        computes_exactly::<A>(),
        is_moderate(sigma),
        3 <= a <= 65534,
        3 <= b <= 65534,
        3 <= c <= 65534,
    ensures
        ({
            let s = series_sigma::<A>(seq![a as usize, b as usize, c as usize]);
            let m = miss::<A>(sigma, a, b, c);
            &&& single::is_finite(m)
            &&& apart(fine(m), apart(fine(s), fine(sigma))) <= 2048 * grain64()
        }),
{
    scales();
    moderate_bounds(sigma);
    series_is_close::<A>(a, b, c);
    let s = series_sigma::<A>(seq![a as usize, b as usize, c as usize]);
    let (v, w, r, o) = (value(s), value(sigma), pow2(925) as int, 2 * half());
    assert(0x8000 * unit64() == (0x8000 * o) * r) by (nonlinear_arith)
        requires
            unit64() == o * r,
    ;
    assert(0 <= v < 0x8000 * o) by (nonlinear_arith)
        requires
            0 <= v * r < (0x8000 * o) * r,
            r > 0,
    ;
    minus_close::<A>(s, sigma);
    let d = minus_of::<A>(s, sigma);
    magnitude_value(d);
    let (x, y, e) = (apart(value(d), 0), apart(v, w), pow2(140) as int);
    assert(apart(x, y) <= e);
    assert(apart(x * r, y * r) <= e * r) by (nonlinear_arith)
        requires
            apart(x, y) <= e,
            r > 0,
    ;
    assert(y * r == apart(v * r, w * r)) by (nonlinear_arith)
        requires
            y == apart(v, w),
            r > 0,
    ;
}

/// Of two triples that fall short of sigma by more than a width, or where only the
/// closer one may reach it, the closer one misses it by less.
proof fn lower_wins<A: Arithmetic>(
    sigma: u32,
    worse: (int, int, int),
    better: (int, int, int),
    k: int,
)
    requires
        computes_closely::<A>(),
        computes_exactly::<A>(),
        is_moderate(sigma),
        3 <= worse.0 <= 65534,
        3 <= worse.1 <= 65534,
        3 <= worse.2 <= 65534,
        3 <= better.0 <= 65534,
        3 <= better.1 <= 65534,
        3 <= better.2 <= 65534,
        k >= 1,
        spread(worse.0, worse.1, worse.2) <= 3 * (k * k),
        spread(better.0, better.1, better.2) >= spread(worse.0, worse.1, worse.2) + 4 * k + 4,
        spread(better.0, better.1, better.2) * (unit64() * unit64()) <= 12 * (fine(sigma) * fine(
            sigma,
        )),
    ensures
        single::less(
            miss::<A>(sigma, better.0, better.1, better.2),
            miss::<A>(sigma, worse.0, worse.1, worse.2),
        ),
{
    let (u, q, e, l) = (unit64(), grain64(), slack(), fine(sigma));
    scales();
    moderate_bounds(sigma);
    series_is_close::<A>(worse.0, worse.1, worse.2);
    series_is_close::<A>(better.0, better.1, better.2);
    variance_is_close::<A>(worse.0, worse.1, worse.2);
    miss_is_close::<A>(sigma, worse.0, worse.1, worse.2);
    miss_is_close::<A>(sigma, better.0, better.1, better.2);
    let x1 = fine(
        series_sigma::<A>(seq![worse.0 as usize, worse.1 as usize, worse.2 as usize]),
    );
    let x2 = fine(
        series_sigma::<A>(seq![better.0 as usize, better.1 as usize, better.2 as usize]),
    );
    sigmas_apart(
        x1,
        x2,
        spread(worse.0, worse.1, worse.2),
        spread(better.0, better.1, better.2),
        k,
        q,
        u,
    );
    squares_order(x2 - e, l);
    let m1 = miss::<A>(sigma, worse.0, worse.1, worse.2);
    let m2 = miss::<A>(sigma, better.0, better.1, better.2);
    assert(fine(m2) < fine(m1));
    fine_is_ordered(m2, m1);
}

/// Of two triples that exceed sigma by more than a width, or where only the closer one
/// may fall short of it, the closer one misses it by less.
proof fn upper_wins<A: Arithmetic>(
    sigma: u32,
    worse: (int, int, int),
    better: (int, int, int),
    k: int,
)
    requires
        computes_closely::<A>(),
        computes_exactly::<A>(),
        is_moderate(sigma),
        3 <= worse.0 <= 65534,
        3 <= worse.1 <= 65534,
        3 <= worse.2 <= 65534,
        3 <= better.0 <= 65534,
        3 <= better.1 <= 65534,
        3 <= better.2 <= 65534,
        k >= 1,
        spread(better.0, better.1, better.2) <= 3 * (k * k),
        spread(worse.0, worse.1, worse.2) >= spread(better.0, better.1, better.2) + 4 * k + 4,
        12 * (fine(sigma) * fine(sigma)) <= spread(better.0, better.1, better.2) * (unit64()
            * unit64()),
    ensures
        single::less(
            miss::<A>(sigma, better.0, better.1, better.2),
            miss::<A>(sigma, worse.0, worse.1, worse.2),
        ),
{
    let (u, q, e, l) = (unit64(), grain64(), slack(), fine(sigma));
    scales();
    moderate_bounds(sigma);
    series_is_close::<A>(worse.0, worse.1, worse.2);
    series_is_close::<A>(better.0, better.1, better.2);
    variance_is_close::<A>(better.0, better.1, better.2);
    miss_is_close::<A>(sigma, worse.0, worse.1, worse.2);
    miss_is_close::<A>(sigma, better.0, better.1, better.2);
    let x1 = fine(
        series_sigma::<A>(seq![better.0 as usize, better.1 as usize, better.2 as usize]),
    );
    let x2 = fine(
        series_sigma::<A>(seq![worse.0 as usize, worse.1 as usize, worse.2 as usize]),
    );
    sigmas_apart(
        x1,
        x2,
        spread(better.0, better.1, better.2),
        spread(worse.0, worse.1, worse.2),
        k,
        q,
        u,
    );
    squares_order(l, x1 + e);
    let m1 = miss::<A>(sigma, better.0, better.1, better.2);
    let m2 = miss::<A>(sigma, worse.0, worse.1, worse.2);
    assert(fine(m1) < fine(m2));
    fine_is_ordered(m1, m2);
}

/// Numbers are ordered as their fine forms are.
proof fn fine_is_ordered(a: u32, b: u32)
    requires
        single::is_finite(a),
        single::is_finite(b),
        fine(a) < fine(b),
    ensures
        single::less(a, b),
{
    scales();
    values_are_ordered(a, b);
    let (v, w, r) = (value(a), value(b), pow2(925) as int);
    assert(v < w) by (nonlinear_arith)
        requires
            v * r < w * r,
            r > 0,
    ;
}

/// What the squares of three widths should add up to, times the square of the unit.
spec fn square_aim(sigma: u32) -> int {
    12 * (fine(sigma) * fine(sigma)) + 3 * (unit64() * unit64())
}

/// What the squares of three widths should add up to is close.
proof fn square_sum_is_close<A: Arithmetic>(sigma: u32)
    requires
        computes_closely::<A>(),
        computes_exactly::<A>(),
        is_moderate(sigma),
    ensures
        ({
            let t = square_sum::<A>(sigma);
            &&& double::is_finite(t)
            &&& 0 <= value64(t) <= 201326597 * unit64()
            &&& apart(value64(t) * unit64(), square_aim(sigma)) <= 4098 * (grain64() * unit64())
        }),
{
    let (u, q, l) = (unit64(), grain64(), fine(sigma));
    scales();
    constants();
    moderate_bounds(sigma);
    widen_exact::<A>(sigma);
    let wide = widen_of::<A>(sigma);
    assert(0 <= (12 * u) * l < 0x2_0000_0000 * u * u) by (nonlinear_arith)
        requires
            0 <= l <= 4096 * u,
            u > 0,
    ;
    times_close64::<A>(TWELVE64, wide);
    let p = times64_of::<A>(TWELVE64, wide);
    let m1 = value64(p);
    assert(apart(m1, 12 * l) <= q) by (nonlinear_arith)
        requires
            apart(m1 * u, (12 * u) * l) <= q * u,
            u > 0,
    ;
    product_bounds(m1, l, q, u);
    times_close64::<A>(p, wide);
    let s = times64_of::<A>(p, wide);
    let m2 = value64(s);
    square_bounds(m1, m2, l, q, u);
    plus_close64::<A>(s, THREE64);
    let m3 = value64(square_sum::<A>(sigma));
    assert(apart(m3 * u, m2 * u + 3 * (u * u)) <= q * u) by (nonlinear_arith)
        requires
            apart(m3, m2 + 3 * u) <= q,
            u > 0,
    ;
}

proof fn product_bounds(m: int, l: int, q: int, u: int)
    requires
        q > 0,
        u == 0x10_0000 * q,
        0 <= l <= 4096 * u,
        apart(m, 12 * l) <= q,
    ensures
        apart(m * l, 12 * (l * l)) <= 4096 * (q * u),
        apart(m * l, 0) < 0x2_0000_0000 * u * u,
        0 <= 12 * (l * l) <= 201326592 * (u * u),
{
    assert(apart(m * l, 12 * (l * l)) <= q * l) by (nonlinear_arith)
        requires
            apart(m, 12 * l) <= q,
            0 <= l,
    ;
    assert(q * l <= 4096 * (q * u)) by (nonlinear_arith)
        requires
            l <= 4096 * u,
            q > 0,
    ;
    squares_grow(l, 4096 * u);
    assert((4096 * u) * (4096 * u) == 16777216 * (u * u)) by (nonlinear_arith);
    assert(0 <= l * l) by (nonlinear_arith);
    assert(4096 * (q * u) <= u * u && 0x2_0000_0000 * u * u == 0x2_0000_0000 * (u * u) && u * u > 0)
        by (nonlinear_arith)
        requires
            u == 0x10_0000 * q,
            q > 0,
    ;
}

proof fn square_bounds(m1: int, m2: int, l: int, q: int, u: int)
    requires
        q > 0,
        u == 0x10_0000 * q,
        apart(m1 * l, 12 * (l * l)) <= 4096 * (q * u),
        0 <= 12 * (l * l) <= 201326592 * (u * u),
        apart(m2 * u, m1 * l) <= q * u,
    ensures
        apart(m2 * u, 12 * (l * l)) <= 4097 * (q * u),
        -4097 * q <= m2 <= 201326593 * u,
{
    assert(-4097 * q <= m2) by (nonlinear_arith)
        requires
            -(4097 * (q * u)) <= m2 * u,
            u > 0,
    ;
    assert(4097 * (q * u) <= u * u) by (nonlinear_arith)
        requires
            u == 0x10_0000 * q,
            q > 0,
    ;
    assert(m2 <= 201326593 * u) by (nonlinear_arith)
        requires
            m2 * u <= 201326593 * (u * u),
            u > 0,
    ;
}

/// The guess of the third width brackets what would realise sigma: two below it falls
/// short, two above it exceeds.
proof fn guess_brackets<A: Arithmetic>(sigma: u32, a: int, b: int, c: int)
    requires
        computes_closely::<A>(),
        computes_exactly::<A>(),
        is_moderate(sigma),
        3 <= a <= 65534,
        3 <= b <= 65534,
        3 <= c <= 65534,
    ensures
        c <= guess::<A>(sigma, a, b) - 2 ==> spread(a, b, c) * (unit64() * unit64()) <= 12 * (fine(
            sigma,
        ) * fine(sigma)),
        c >= guess::<A>(sigma, a, b) + 2 ==> 12 * (fine(sigma) * fine(sigma)) <= spread(a, b, c) * (
        unit64() * unit64()),
        guess::<A>(sigma, a, b) % 2 == 1,
{
    let (u, q) = (unit64(), grain64());
    scales();
    small_numbers64();
    square_sum_is_close::<A>(sigma);
    square_of_width(a, u);
    square_of_width(b, u);
    let t = square_sum::<A>(sigma);
    count_exact64::<A>((a * a) as u64);
    count_exact64::<A>((b * b) as u64);
    let (na, nb) = (of_count64_of::<A>((a * a) as u64), of_count64_of::<A>((b * b) as u64));
    minus_close64::<A>(t, na);
    let r1 = minus64_of::<A>(t, na);
    minus_close64::<A>(r1, nb);
    let rest = minus64_of::<A>(r1, nb);
    let v = value64(rest);
    let f = square_aim(sigma) - (a * a + b * b) * (u * u);
    assert(apart(v * u, f) <= 4100 * (q * u)) by {
        let (tv, sa, sb) = (value64(t), (a * a) * u, (b * b) * u);
        assert(apart(v, tv - sa - sb) <= 2 * q);
        assert(apart(v * u, tv * u - sa * u - sb * u) <= 2 * (q * u)) by (nonlinear_arith)
            requires
                apart(v, tv - sa - sb) <= 2 * q,
                u > 0,
        ;
        assert((a * a + b * b) * (u * u) == ((a * a) * u) * u + ((b * b) * u) * u)
            by (nonlinear_arith);
    }
    values_are_ordered64(0, rest);
    let exact = if double::less(0, rest) {
        root64_of::<A>(rest)
    } else {
        0
    };
    if v > 0 {
        root_close64::<A>(rest);
        root_is_small(value64(exact), v, q, u);
    }
    let p = value64(exact);
    floor_count64::<A>(exact);
    let n = to_count64_of::<A>(floor64_of::<A>(exact)) as int;
    assert(n * u <= p < n * u + u) by (nonlinear_arith)
        requires
            n == p / u,
            u > 0,
    ;
    let g = guess::<A>(sigma, a, b);
    assert(g == odd_at_least(held(n, 1, 4 * MAX_EVEN_WIDTH as int)));
    assert((a * a + b * b) * (u * u) + (c * c) * (u * u) == (spread(a, b, c) + 3) * (u * u))
        by (nonlinear_arith);
    assert((spread(a, b, c) + 3) * (u * u) == spread(a, b, c) * (u * u) + 3 * (u * u))
        by (nonlinear_arith);
    assert((c * c) * (u * u) == (c * u) * (c * u)) by (nonlinear_arith);
    if c <= g - 2 {
        assert(n >= 4 && c <= n - 1 && v > 0);
        assert(n * u >= 4 * u) by (nonlinear_arith)
            requires
                n >= 4,
                u > 0,
        ;
        falls_short(c, n, p, v, f, q, u);
    }
    if c >= g + 2 {
        assert(n + 2 <= c);
        exceeds(c, n, p, v, f, q, u);
    }
}

/// A root of a number of a moderate size is of a moderate size.
proof fn root_is_small(p: int, v: int, q: int, u: int)
    requires
        q > 0,
        u == 0x10_0000 * q,
        0 <= v < 0x2_0000_0000 * u,
        0 <= p,
        p <= q || (p - q) * (p - q) <= v * u,
    ensures
        p < 0x2_0000_0000 * u,
{
    if p >= 0x2_0000_0000 * u {
        squares_grow(0x2_0000 * u, p - q);
        assert((0x2_0000 * u) * (0x2_0000 * u) == 0x4_0000_0000 * (u * u)) by (nonlinear_arith);
        assert(v * u < 0x4_0000_0000 * (u * u)) by (nonlinear_arith)
            requires
                v < 0x2_0000_0000 * u,
                u > 0,
        ;
    }
}

proof fn falls_short(c: int, n: int, p: int, v: int, f: int, q: int, u: int)
    requires
        q > 0,
        u == 0x10_0000 * q,
        3 <= c <= n - 1,
        n * u <= p,
        (p - q) * (p - q) <= v * u,
        apart(v * u, f) <= 4100 * (q * u),
    ensures
        (c * u) * (c * u) <= f,
{
    assert(c * u <= p - u && c * u >= 3 * u) by (nonlinear_arith)
        requires
            3 <= c <= n - 1,
            n * u <= p,
            u > 0,
    ;
    squares_grow(c * u, p - u);
    let d = u - q;
    assert((p - q) * (p - q) == (p - u) * (p - u) + d * (2 * p - u - q)) by (nonlinear_arith)
        requires
            d == u - q,
    ;
    assert(d * (2 * p - u - q) >= 4100 * (q * u)) by (nonlinear_arith)
        requires
            d == u - q,
            u == 0x10_0000 * q,
            p >= 4 * u,
            q > 0,
    ;
}

proof fn exceeds(c: int, n: int, p: int, v: int, f: int, q: int, u: int)
    requires
        q > 0,
        u == 0x10_0000 * q,
        3 <= c,
        n + 2 <= c,
        0 <= p < n * u + u,
        v <= 0 || v * u <= (p + q) * (p + q),
        apart(v * u, f) <= 4100 * (q * u),
    ensures
        f <= (c * u) * (c * u),
{
    assert(c * u >= p + u) by (nonlinear_arith)
        requires
            n + 2 <= c,
            p < n * u + u,
            u > 0,
    ;
    squares_grow(p + u, c * u);
    let d = u - q;
    assert((p + u) * (p + u) == (p + q) * (p + q) + d * (2 * p + u + q)) by (nonlinear_arith)
        requires
            d == u - q,
    ;
    assert(d * (2 * p + u + q) >= 4100 * (q * u)) by (nonlinear_arith)
        requires
            d == u - q,
            u == 0x10_0000 * q,
            p >= 0,
            q > 0,
    ;
    assert((p + q) * (p + q) >= 0) by (nonlinear_arith);
    if v <= 0 {
        assert(v * u <= 0) by (nonlinear_arith)
            requires
                v <= 0,
                u > 0,
        ;
    }
}

/// The widest odd width whose square three times over stays within a number.
proof fn even_width(y: int) -> (w: int)
    requires
        3 <= y,
    ensures
        w % 2 == 1,
        1 <= w,
        3 * (w * w) <= y < 3 * ((w + 2) * (w + 2)),
    decreases y,
{
    if y < 27 {
        1
    } else {
        let v = even_width(y - 1);
        if y < 3 * ((v + 2) * (v + 2)) {
            v
        } else {
            squares_grow(v + 2, v + 4);
            assert((v + 4) * (v + 4) > (v + 2) * (v + 2)) by (nonlinear_arith)
                requires
                    v >= 1,
            ;
            v + 2
        }
    }
}

/// Three equal widths that come close to sigma from below: as wide as they can be
/// without exceeding it. Triples that start below the narrowest width fall short by more.
proof fn balanced_width<A: Arithmetic>(sigma: u32) -> (w: int)
    requires
        computes_closely::<A>(),
        computes_exactly::<A>(),
        is_moderate(sigma),
    ensures
        w % 2 == 1,
        1 <= w <= 8193,
        (w * w) * (unit64() * unit64()) <= 4 * (fine(sigma) * fine(sigma)) + unit64() * unit64(),
        narrowest::<A>(sigma) > 3 ==> {
            &&& 3 * ((w + 2) * (w + 2)) >= 19 * ((narrowest::<A>(sigma) + 2) * (narrowest::<A>(
                sigma,
            ) + 2))
            &&& w >= narrowest::<A>(sigma)
        },
{
    let (u, q, l) = (unit64(), grain64(), fine(sigma));
    scales();
    constants();
    moderate_bounds(sigma);
    square_sum_is_close::<A>(sigma);
    let aim = square_aim(sigma);
    let uu = u * u;
    assert(uu > 0) by (nonlinear_arith)
        requires
            uu == u * u,
            u > 0,
    ;
    assert(0 <= l * l) by (nonlinear_arith);
    squares_grow(l, 4096 * u);
    assert((4096 * u) * (4096 * u) == 16777216 * (u * u)) by (nonlinear_arith);
    let y = aim / uu;
    assert(y * uu <= aim < y * uu + uu) by (nonlinear_arith)
        requires
            y == aim / uu,
            uu > 0,
    ;
    assert(3 <= y <= 201326595) by (nonlinear_arith)
        requires
            3 * uu <= aim <= 201326595 * uu,
            y * uu <= aim < y * uu + uu,
            uu > 0,
    ;
    let w = even_width(y);
    if w > 8193 {
        squares_grow(8194, w);
    }
    assert((3 * (w * w)) * uu <= y * uu) by (nonlinear_arith)
        requires
            3 * (w * w) <= y,
            uu > 0,
    ;
    assert((3 * (w * w)) * uu == 3 * ((w * w) * uu)) by (nonlinear_arith);
    let n = narrowest::<A>(sigma);
    if n > 3 {
        let t = square_sum::<A>(sigma);
        let tv = value64(t);
        assert(apart(tv, 0) * u < 0x2_0000_0000 * u * (19 * u)) by (nonlinear_arith)
            requires
                0 <= tv <= 201326597 * u,
                apart(tv, 0) == tv,
                u > 0,
        ;
        assert(tv >= 2 * u) by (nonlinear_arith)
            requires
                tv * u >= 3 * (u * u) - 4098 * (q * u),
                u == 0x10_0000 * q,
                q > 0,
        ;
        over_close64::<A>(t, NINETEEN64);
        let share = over64_of::<A>(t, NINETEEN64);
        let sv = value64(share);
        assert(apart(19 * sv, tv) <= 19 * q) by (nonlinear_arith)
            requires
                apart(sv * (19 * u), tv * u) <= q * (19 * u),
                u > 0,
        ;
        root_close64::<A>(share);
        let p = value64(root64_of::<A>(share));
        root_is_small(p, sv, q, u);
        floor_count64::<A>(root64_of::<A>(share));
        let m = n + 2;
        assert(m * u <= p) by (nonlinear_arith)
            requires
                m == p / u,
                u > 0,
        ;
        assert(p > q) by (nonlinear_arith)
            requires
                m * u <= p,
                m >= 6,
                u == 0x10_0000 * q,
                q > 0,
        ;
        nineteenth_bounds(m, p, sv, tv, aim, q, u);
        assert(19 * (m * m) <= y + 1) by (nonlinear_arith)
            requires
                (19 * (m * m)) * uu <= aim + uu,
                aim < y * uu + uu,
                uu > 0,
        ;
        let z = w + 2;
        if z < 2 * m {
            squares_grow(z, 2 * m - 1);
            assert(3 * ((2 * m - 1) * (2 * m - 1)) < 19 * (m * m)) by (nonlinear_arith)
                requires
                    m >= 1,
            ;
        }
    }
    w
}

/// The floor of the root of a nineteenth stays within it, or nearly so.
proof fn nineteenth_bounds(m: int, p: int, sv: int, tv: int, aim: int, q: int, u: int)
    requires
        q > 0,
        u == 0x10_0000 * q,
        1 <= m,
        m * u <= p,
        (p - q) * (p - q) <= sv * u,
        19 * sv <= tv + 19 * q,
        tv * u <= aim + 4098 * (q * u),
        aim <= 201326595 * (u * u),
    ensures
        (19 * (m * m)) * (u * u) <= aim + u * u,
{
    let uu = u * u;
    let x = m * u - q;
    assert(m * u >= u) by (nonlinear_arith)
        requires
            m >= 1,
            u > 0,
    ;
    squares_grow(x, p - q);
    assert(19 * (sv * u) <= tv * u + 19 * (q * u)) by (nonlinear_arith)
        requires
            19 * sv <= tv + 19 * q,
            u > 0,
    ;
    assert(q * u * 0x10_0000 == uu && uu > 0) by (nonlinear_arith)
        requires
            u == 0x10_0000 * q,
            uu == u * u,
            q > 0,
    ;
    assert(x * x == (m * m) * uu - 2 * (m * (q * u)) + q * q) by (nonlinear_arith)
        requires
            x == m * u - q,
            uu == u * u,
    ;
    assert((19 * (m * m)) * uu == 19 * ((m * m) * uu)) by (nonlinear_arith);
    assert(q * q >= 0) by (nonlinear_arith);
    if m >= 4000 {
        assert(x >= 3999 * u) by (nonlinear_arith)
            requires
                x == m * u - q,
                m >= 4000,
                u == 0x10_0000 * q,
                q > 0,
        ;
        squares_grow(3999 * u, x);
        assert((3999 * u) * (3999 * u) == 15992001 * (u * u)) by (nonlinear_arith);
        assert(false);
    }
    assert(m * (q * u) <= 4000 * (q * u)) by (nonlinear_arith)
        requires
            m < 4000,
            q * u > 0,
    ;
}

/// A number of steps of a power of two.
proof fn stepped(m: int, k: nat, f: int) -> (x: u32)
    requires
        0 <= m < 0x100_0000,
        k <= 60,
        f == m * pow2(k),
    ensures
        single::is_finite(x),
        value(x) == f * (2 * half()),
{
    scales();
    lemma_pow2_adds(k, 149);
    let x = short_multiples_are_numbers(m, k + 149);
    let (p, o) = (pow2(k) as int, pow2(149) as int);
    assert(m * (p * o) == (m * p) * o) by (nonlinear_arith);
    x
}

/// The widest width leaves room for three equal widths that do not exceed sigma.
proof fn widest_reaches<A: Arithmetic>(sigma: u32, w: int)
    requires
        rounds::<A>(),
        computes_closely::<A>(),
        is_moderate(sigma),
        1 <= w,
        (w * w) * (unit64() * unit64()) <= 4 * (fine(sigma) * fine(sigma)) + unit64() * unit64(),
    ensures
        w <= widest::<A>(sigma) || w <= 3,
        widest::<A>(sigma) >= 11,
{
    let (v, o, r) = (value(sigma), 2 * half(), pow2(925) as int);
    scales();
    half_is_positive();
    moderate_bounds(sigma);
    let k = v / o;
    assert(k * o <= v < k * o + o && 0 <= k <= 4096) by (nonlinear_arith)
        requires
            k == v / o,
            0 <= v <= 4096 * o,
            o > 0,
    ;
    width_within(w, k, v, o, r);
    if k >= 3 {
        let square = k * k;
        assert(9 <= square <= 16777216) by (nonlinear_arith)
            requires
                3 <= k <= 4096,
                square == k * k,
        ;
        let m2 = 12 * square / 16;
        let f2 = 16 * m2;
        let m3 = f2 / 24;
        let f3 = 8 * m3;
        radicand_reaches::<A>(sigma, k, m2, m3);
        let radicand = plus_of::<A>(
            over_of::<A>(times_of::<A>(times_of::<A>(TWELVE, sigma), sigma), THREE),
            single::ONE,
        );
        lemma2_to64();
        let c = stepped(2 * k - 5, 0, 2 * k - 5);
        let (e, x) = (2 * k - 5, value(radicand));
        assert(e * e <= f3) by (nonlinear_arith)
            requires
                e == 2 * k - 5,
                square == k * k,
                f3 >= 4 * square - 13,
                k >= 3,
        ;
        assert((e * o) * (e * o) <= x * o && 0 <= e * o) by (nonlinear_arith)
            requires
                e * e <= f3,
                f3 * o <= x,
                e >= 0,
                o > 0,
        ;
        root_reaches::<A>(radicand, c);
        count_reaches::<A>(root_of::<A>(radicand), (2 * k - 5) as u64);
    }
}

/// Three equal widths that do not exceed sigma are not much wider than twice its floor.
proof fn width_within(w: int, k: int, v: int, o: int, r: int)
    requires
        1 <= w,
        0 <= k,
        o > 0,
        r > 0,
        0 <= v < k * o + o,
        unit64() == o * r,
        (w * w) * (unit64() * unit64()) <= 4 * ((v * r) * (v * r)) + unit64() * unit64(),
    ensures
        w <= 2 * k + 3,
{
    let u = unit64();
    let l = v * r;
    assert(0 <= l <= (k + 1) * u) by (nonlinear_arith)
        requires
            0 <= v < k * o + o,
            l == v * r,
            u == o * r,
            r > 0,
    ;
    squares_grow(l, (k + 1) * u);
    let uu = u * u;
    assert(uu > 0) by (nonlinear_arith)
        requires
            uu == u * u,
            u == o * r,
            o > 0,
            r > 0,
    ;
    assert(((k + 1) * u) * ((k + 1) * u) == ((k + 1) * (k + 1)) * uu) by (nonlinear_arith)
        requires
            uu == u * u,
    ;
    assert(w * w <= 4 * ((k + 1) * (k + 1)) + 1) by (nonlinear_arith)
        requires
            (w * w) * uu <= 4 * (((k + 1) * (k + 1)) * uu) + uu,
            uu > 0,
    ;
    if w >= 2 * k + 4 {
        squares_grow(2 * k + 4, w);
        assert((2 * k + 4) * (2 * k + 4) > 4 * ((k + 1) * (k + 1)) + 1) by (nonlinear_arith)
            requires
                k >= 0,
        ;
    }
}

/// The radicand of the widest width, bounded by whole numbers.
proof fn radicand_reaches<A: Arithmetic>(sigma: u32, k: int, m2: int, m3: int)
    requires
        rounds::<A>(),
        single::is_finite(sigma),
        0 <= value(sigma) <= 4096 * (2 * half()),
        k * (2 * half()) <= value(sigma),
        3 <= k <= 4096,
        m2 == 12 * (k * k) / 16,
        m3 == 16 * m2 / 24,
    ensures
        ({
            let radicand = plus_of::<A>(
                over_of::<A>(times_of::<A>(times_of::<A>(TWELVE, sigma), sigma), THREE),
                single::ONE,
            );
            &&& single::is_finite(radicand)
            &&& (8 * m3) * (2 * half()) <= value(radicand)
            &&& 8 * m3 >= 4 * (k * k) - 13
        }),
{
    let (v, o) = (value(sigma), 2 * half());
    half_is_positive();
    scales();
    lemma2_to64();
    small_numbers();
    lemma_pow2_adds(23, 129);
    lemma_pow2_adds(3, 149);
    assert(size(0x4140_0000) == 0xC0_0000 * pow2(129));
    assert(value(TWELVE) == 12 * o);
    let square = k * k;
    assert(9 <= square <= 16777216) by (nonlinear_arith)
        requires
            3 <= k <= 4096,
            square == k * k,
    ;
    let (f2, f3) = (16 * m2, 8 * m3);

    times_rounds::<A>(TWELVE, sigma);
    let p = times_of::<A>(TWELVE, sigma);
    let low = stepped(12 * k, 0, 12 * k);
    let high = stepped(0x1_0000, 0, 0x1_0000);
    assert(((12 * k) * o) * o <= (12 * o) * v <= (0x1_0000 * o) * o) by (nonlinear_arith)
        requires
            k * o <= v <= 4096 * o,
            o > 0,
    ;
    rounded_between(p, value(TWELVE) * v, o, low, high);

    times_rounds::<A>(p, sigma);
    let s = times_of::<A>(p, sigma);
    let low = stepped(m2, 4, f2);
    let high = stepped(0x8000, 13, 0x1000_0000);
    let pv = value(p);
    assert((f2 * o) * o <= pv * v) by (nonlinear_arith)
        requires
            (12 * k) * o <= pv,
            k * o <= v,
            f2 <= 12 * square,
            square == k * k,
            k >= 0,
            o > 0,
    ;
    assert(pv * v <= (0x1000_0000 * o) * o) by (nonlinear_arith)
        requires
            0 <= pv <= 0x1_0000 * o,
            0 <= v <= 4096 * o,
            o > 0,
    ;
    rounded_between(s, pv * v, o, low, high);

    over_rounds::<A>(s, THREE);
    let t = over_of::<A>(s, THREE);
    let low = stepped(m3, 3, f3);
    let sv = value(s);
    assert((f3 * o) * (3 * o) <= sv * o <= (0x1000_0000 * o) * (3 * o)) by (nonlinear_arith)
        requires
            f2 * o <= sv <= 0x1000_0000 * o,
            3 * f3 <= f2,
            o > 0,
    ;
    rounded_between(t, sv * o, value(THREE), low, high);

    plus_rounds::<A>(t, single::ONE);
    let top = stepped(0x8000, 14, 0x2000_0000);
    let x = value(t) + value(single::ONE);
    rounded_between(plus_of::<A>(t, single::ONE), x, 1, low, top);
}

/// The widest square sums that start below the narrowest width fall short.
proof fn narrow_triples_fall_short(a: int, b: int, c: int, w: int, m: int)
    requires
        3 <= a <= b <= c <= 3 * a,
        a + 3 <= m,
        1 <= w,
        3 * ((w + 2) * (w + 2)) >= 19 * (m * m),
    ensures
        spread(w, w, w) >= spread(a, b, c) + 4 * w + 4,
        spread(a, b, c) <= 3 * (w * w),
{
    squares_grow(b, 3 * a);
    squares_grow(c, 3 * a);
    squares_grow(a + 3, m);
    let (s, z) = (a + 3, w + 2);
    assert((3 * a) * (3 * a) == 9 * (a * a)) by (nonlinear_arith);
    assert(3 * (z * z) - 16 * z + 16 == 3 * (w * w) - 4 * w - 4) by (nonlinear_arith)
        requires
            z == w + 2,
    ;
    assert(s * s == a * a + 6 * a + 9) by (nonlinear_arith)
        requires
            s == a + 3,
    ;
    if z >= 3 * s {
        assert(3 * (z * z) - 16 * z >= 3 * ((3 * s) * (3 * s)) - 16 * (3 * s)) by (nonlinear_arith)
            requires
                z >= 3 * s,
                s >= 6,
        ;
        assert((3 * s) * (3 * s) == 9 * (s * s)) by (nonlinear_arith);
    }
    assert(a * a >= 0) by (nonlinear_arith);
}

/// Three equal widths that do not exceed sigma are tried, or where there are none the
/// narrowest triple is.
proof fn a_balanced_candidate<A: Arithmetic>(sigma: u32) -> (w: int)
    requires
        rounds::<A>(),
        computes_exactly::<A>(),
        computes_closely::<A>(),
        is_moderate(sigma),
    ensures
        candidate::<A>(sigma, w, w, w),
        3 <= w <= 65534,
        narrowest::<A>(sigma) > 3 ==> {
            &&& spread(w, w, w) * (unit64() * unit64()) <= 12 * (fine(sigma) * fine(sigma))
            &&& 3 * ((w + 2) * (w + 2)) >= 19 * ((narrowest::<A>(sigma) + 2) * (narrowest::<A>(
                sigma,
            ) + 2))
        },
{
    let v = balanced_width::<A>(sigma);
    widest_reaches::<A>(sigma, v);
    let w = if v < 3 {
        3
    } else {
        v
    };
    let uu = unit64() * unit64();
    assert(spread(v, v, v) * uu == 3 * ((v * v) * uu) - 3 * uu) by (nonlinear_arith)
        requires
            spread(v, v, v) == v * v + v * v + v * v - 3,
    ;
    w
}

/// A triple that is not tried is beaten by one that is.
proof fn left_out_is_beaten<A: Arithmetic>(sigma: u32, a: int, b: int, c: int) -> (v: (
    int,
    int,
    int,
))
    requires
        rounds::<A>(),
        computes_exactly::<A>(),
        computes_closely::<A>(),
        is_moderate(sigma),
        any_triple::<A>(sigma, a, b, c),
        !candidate::<A>(sigma, a, b, c),
    ensures
        candidate::<A>(sigma, v.0, v.1, v.2),
        single::less(miss::<A>(sigma, v.0, v.1, v.2), miss::<A>(sigma, a, b, c)),
{
    let w = a_balanced_candidate::<A>(sigma);
    let n = narrowest::<A>(sigma);
    if a < n {
        narrow_triples_fall_short(a, b, c, w, n + 2);
        lower_wins::<A>(sigma, (a, b, c), (w, w, w), w);
        (w, w, w)
    } else {
        let last = last_width::<A>(sigma, a);
        let g = guess::<A>(sigma, a, b);
        guess_brackets::<A>(sigma, a, b, b);
        assert(c <= last && b < c < last);
        if c < g - 2 {
            let d = if g - 2 < last {
                g - 2
            } else {
                last
            };
            guess_brackets::<A>(sigma, a, b, d);
            further_third(a, b, c, d);
            lower_wins::<A>(sigma, (a, b, c), (a, b, d), c);
            (a, b, d)
        } else {
            assert(c > g + 2);
            let d = if g + 2 > b {
                g + 2
            } else {
                b
            };
            guess_brackets::<A>(sigma, a, b, d);
            further_third(a, b, d, c);
            upper_wins::<A>(sigma, (a, b, c), (a, b, d), d);
            (a, b, d)
        }
    }
}

/// A wider third width spreads a triple further.
proof fn further_third(a: int, b: int, c: int, d: int)
    requires
        3 <= a <= b <= c,
        c + 2 <= d,
    ensures
        spread(a, b, c) <= 3 * (c * c),
        spread(a, b, d) >= spread(a, b, c) + 4 * c + 4,
{
    squares_grow(a, c);
    squares_grow(b, c);
    squares_grow(c + 2, d);
    assert((c + 2) * (c + 2) == c * c + 4 * c + 4) by (nonlinear_arith);
}

/// Nothing is lost by what the search leaves out: the widths it finds for a sigma that a
/// blur accepts are those that a scan of every triple would keep, the first of the
/// closest to sigma.
pub proof fn search_finds_what_a_scan_would<A: Arithmetic>(sigma: u32)
    requires
        rounds::<A>(),
        computes_exactly::<A>(),
        computes_closely::<A>(),
        is_moderate(sigma),
    ensures
        ({
            let h = best_widths::<A>(sigma);
            let kept = miss::<A>(sigma, h.a as int, h.b as int, h.c as int);
            &&& any_triple::<A>(sigma, h.a as int, h.b as int, h.c as int)
            &&& forall|a: int, b: int, c: int| #[trigger]
                any_triple::<A>(sigma, a, b, c) ==> {
                    &&& single::at_most(kept, miss::<A>(sigma, a, b, c))
                    &&& before((a, b, c), h.triple()) ==> single::less(
                        kept,
                        miss::<A>(sigma, a, b, c),
                    )
                }
        }),
{
    let h = best_widths::<A>(sigma);
    let until = beyond::<A>(sigma);
    widths_are_balanced::<A>(sigma);
    let w = a_balanced_candidate::<A>(sigma);
    miss_is_close::<A>(sigma, w, w, w);
    finite_is_below_infinity(miss::<A>(sigma, w, w, w));
    assert(before((w, w, w), until));
    assert(h.err == miss::<A>(sigma, h.a as int, h.b as int, h.c as int));
    miss_is_close::<A>(sigma, h.a as int, h.b as int, h.c as int);
    assert forall|a: int, b: int, c: int| #[trigger] any_triple::<A>(sigma, a, b, c) implies {
        &&& single::at_most(h.err, miss::<A>(sigma, a, b, c))
        &&& before((a, b, c), h.triple()) ==> single::less(h.err, miss::<A>(sigma, a, b, c))
    } by {
        let m = miss::<A>(sigma, a, b, c);
        miss_is_close::<A>(sigma, a, b, c);
        values_are_ordered(h.err, m);
        values_are_ordered(m, h.err);
        if candidate::<A>(sigma, a, b, c) {
            assert(before((a, b, c), until));
        } else {
            let v = left_out_is_beaten::<A>(sigma, a, b, c);
            let other = miss::<A>(sigma, v.0, v.1, v.2);
            assert(before(v, until));
            miss_is_close::<A>(sigma, v.0, v.1, v.2);
            values_are_ordered(other, h.err);
            values_are_ordered(other, m);
        }
    }
}

/// A finite number is less than infinity.
proof fn finite_is_below_infinity(a: u32)
    requires
        single::is_finite(a),
    ensures
        single::less(a, single::INFINITY),
{
}

} // verus!
