//! What resampling leaves of a line's range.
//!
//! The area filter and the bilinear filter weigh samples by what is not negative, so the
//! weighted mean of a line stays between its least and its greatest number, up to the
//! rounding of the sums.

use vstd::arithmetic::power2::{
    lemma2_to64, lemma_pow2_adds, lemma_pow2_pos, lemma_pow2_strictly_increases, pow2,
};
use vstd::prelude::*;

use crate::arith::{
    ceil_of, floor_of, minus_of, of_offset_of, over_of, plus_of, times_of, to_offset_of, Arithmetic,
};
use crate::geometry::{
    centre_of, filter_support_of, gathered, resampled, tap_weight, ResizeFilter,
};
use crate::raster::nearest;
use crate::rounding::{
    apart, ceiling, half, half_is_positive, minus_halves, minus_rounds, offset_halves, over_rounds,
    plus_halves, plus_rounds, rounded_at_least, rounded_at_most, rounded_fine, rounds,
    small_numbers, times_rounds, value, values_are_ordered,
};
use crate::single;

verus! {

/// How far a single-precision result of at most `m` can be off.
spec fn step(m: int) -> int {
    m / 0x40_0000 + 2
}

proof fn relative(x: int, n: int, m: int, d: int)
    requires
        d > 0,
        0 <= m,
        apart(n, 0) <= m * d,
        x >= 0,
        x * 0x40_0000 <= apart(n, 0) + 0x40_0000 * d,
    ensures
        x <= step(m) * d,
{
    let (q, k) = (m / 0x40_0000, m % 0x40_0000);
    assert(m * d == 0x40_0000 * (q * d) + k * d) by (nonlinear_arith)
        requires
            m == 0x40_0000 * q + k,
    ;
    assert(k * d <= 0x40_0000 * d) by (nonlinear_arith)
        requires
            0 <= k < 0x40_0000,
            d > 0,
    ;
    assert((q + 2) * d == q * d + 2 * d) by (nonlinear_arith);
}

proof fn plus_off<A: Arithmetic>(a: u32, b: u32, m: int)
    requires
        rounds::<A>(),
        single::is_finite(a),
        single::is_finite(b),
        apart(value(a) + value(b), 0) <= m < ceiling(),
    ensures
        single::is_finite(plus_of::<A>(a, b)),
        apart(value(plus_of::<A>(a, b)), value(a) + value(b)) <= step(m),
{
    plus_rounds::<A>(a, b);
    rounded_fine(plus_of::<A>(a, b), value(a) + value(b), 1);
}

proof fn times_off<A: Arithmetic>(a: u32, b: u32, m: int)
    requires
        rounds::<A>(),
        single::is_finite(a),
        single::is_finite(b),
        0 <= m < ceiling(),
        apart(value(a) * value(b), 0) <= m * (2 * half()),
    ensures
        single::is_finite(times_of::<A>(a, b)),
        apart(value(times_of::<A>(a, b)) * (2 * half()), value(a) * value(b)) <= step(m) * (2
            * half()),
{
    half_is_positive();
    let (o, p) = (2 * half(), ceiling());
    times_rounds::<A>(a, b);
    assert(m * o < p * o) by (nonlinear_arith)
        requires
            m < p,
            o > 0,
    ;
    rounded_fine(times_of::<A>(a, b), value(a) * value(b), o);
    relative(
        apart(value(times_of::<A>(a, b)) * o, value(a) * value(b)),
        value(a) * value(b),
        m,
        o,
    );
}

/// The weights of the taps from `first` up to `end`, added up exactly.
pub open spec fn weight_total<A: Arithmetic>(
    filter: ResizeFilter,
    scale: u32,
    centre: u32,
    first: int,
    end: int,
) -> int
    decreases end - first,
{
    if end <= first {
        0
    } else {
        weight_total::<A>(filter, scale, centre, first, end - 1) + value(
            tap_weight::<A>(filter, scale, centre, end - 1),
        )
    }
}

/// The weighted samples of the taps from `first` up to `end`, added up exactly.
pub open spec fn sample_total<A: Arithmetic>(
    line: Seq<u32>,
    filter: ResizeFilter,
    scale: u32,
    centre: u32,
    first: int,
    end: int,
) -> int
    decreases end - first,
{
    if end <= first {
        0
    } else {
        sample_total::<A>(line, filter, scale, centre, first, end - 1) + value(
            tap_weight::<A>(filter, scale, centre, end - 1),
        ) * value(line[nearest(end - 1, line.len() as int)])
    }
}

/// Whether the taps from `first` up to `end` weigh something between zero and two each.
pub open spec fn weighs<A: Arithmetic>(
    filter: ResizeFilter,
    scale: u32,
    centre: u32,
    first: int,
    end: int,
) -> bool {
    forall|k: int|
        first <= k < end ==> single::is_finite(#[trigger] tap_weight::<A>(filter, scale, centre, k))
            && 0 <= value(tap_weight::<A>(filter, scale, centre, k)) <= 4 * half()
}

/// Whether every number of a line is finite and lies between `lo` and `hi`.
pub open spec fn ranges(line: Seq<u32>, lo: int, hi: int) -> bool {
    forall|i: int|
        0 <= i < line.len() ==> single::is_finite(#[trigger] line[i]) && lo <= value(line[i]) <= hi
}

/// The exact sums: weights grow, and samples weigh in between.
proof fn totals<A: Arithmetic>(
    line: Seq<u32>,
    filter: ResizeFilter,
    scale: u32,
    centre: u32,
    first: int,
    end: int,
    lo: int,
    hi: int,
)
    requires
        line.len() > 0,
        ranges(line, lo, hi),
        weighs::<A>(filter, scale, centre, first, end),
        first <= end,
    ensures
        0 <= weight_total::<A>(filter, scale, centre, first, end) <= (end - first) * (4 * half()),
        lo * weight_total::<A>(filter, scale, centre, first, end) <= sample_total::<A>(
            line,
            filter,
            scale,
            centre,
            first,
            end,
        ) <= hi * weight_total::<A>(filter, scale, centre, first, end),
    decreases end - first,
{
    half_is_positive();
    let o4 = 4 * half();
    if end > first {
        totals::<A>(line, filter, scale, centre, first, end - 1, lo, hi);
        let w = value(tap_weight::<A>(filter, scale, centre, end - 1));
        let x = value(line[nearest(end - 1, line.len() as int)]);
        let t = weight_total::<A>(filter, scale, centre, first, end - 1);
        let n = end - 1 - first;
        assert((n + 1) * o4 == n * o4 + o4) by (nonlinear_arith);
        assert(lo * (t + w) == lo * t + lo * w && hi * (t + w) == hi * t + hi * w)
            by (nonlinear_arith);
        assert(lo * w <= w * x <= hi * w) by (nonlinear_arith)
            requires
                lo <= x <= hi,
                0 <= w,
        ;
    } else {
        assert(0 * o4 == 0 && lo * 0 == 0 && hi * 0 == 0) by (nonlinear_arith);
    }
}

/// The rounded sums are close to the exact ones.
#[verifier::rlimit(30)]
proof fn sums_are_close<A: Arithmetic>(
    line: Seq<u32>,
    filter: ResizeFilter,
    scale: u32,
    centre: u32,
    first: int,
    end: int,
    b: int,
    p: int,
    c: int,
)
    requires
        rounds::<A>(),
        line.len() > 0,
        ranges(line, -b, b),
        weighs::<A>(filter, scale, centre, first, end),
        first <= end <= first + 0x10_0000,
        weight_total::<A>(filter, scale, centre, first, end) <= p,
        0 <= b,
        0 <= p,
        b * p <= c * (2 * half()),
        0 <= c,
        4 * c + 0x1000_0000 < ceiling(),
        2 * p + 0x100_0000 < ceiling(),
    ensures
        ({
            let (acc, sum) = gathered::<A>(line, filter, scale, centre, first, end);
            let n = end - first;
            &&& single::is_finite(acc)
            &&& single::is_finite(sum)
            &&& 0 <= value(sum)
            &&& apart(
                value(sum),
                weight_total::<A>(filter, scale, centre, first, end),
            ) <= n * step(2 * p + 0x100_0000)
            &&& apart(
                value(acc) * (2 * half()),
                sample_total::<A>(line, filter, scale, centre, first, end),
            ) <= (n * (2 * step(4 * c + 0x1000_0000))) * (2 * half())
        }),
    decreases end - first,
{
    let o = 2 * half();
    let (ew, ea) = (step(2 * p + 0x100_0000), step(4 * c + 0x1000_0000));
    half_is_positive();
    small_numbers();
    if end > first {
        totals::<A>(line, filter, scale, centre, first, end, -b, b);
        totals::<A>(line, filter, scale, centre, first, end - 1, -b, b);
        sums_are_close::<A>(line, filter, scale, centre, first, end - 1, b, p, c);
        let (acc, sum) = gathered::<A>(line, filter, scale, centre, first, end - 1);
        let w = tap_weight::<A>(filter, scale, centre, end - 1);
        let x = line[nearest(end - 1, line.len() as int)];
        let t = weight_total::<A>(filter, scale, centre, first, end - 1);
        let s = sample_total::<A>(line, filter, scale, centre, first, end - 1);
        let k = end - 1 - first;
        let (wv, xv, av, sv) = (value(w), value(x), value(acc), value(sum));
        values_are_ordered(w, 0);
        assert((k + 1) * ew == k * ew + ew && 0 <= k * ew <= 0x10_0000 * ew) by (nonlinear_arith)
            requires
                0 <= k <= 0x10_0000,
                ew > 0,
        ;
        let ka = k * (2 * ea);
        assert((k + 1) * (2 * ea) == ka + 2 * ea && 0 <= ka <= 0x20_0000 * ea) by (nonlinear_arith)
            requires
                0 <= k <= 0x10_0000,
                ea > 0,
                ka == k * (2 * ea),
        ;
        assert((ka + 2 * ea) * o == ka * o + 2 * (ea * o) && ea * o > 0) by (nonlinear_arith)
            requires
                ea > 0,
                o > 0,
        ;
        if single::same(w, 0) {
            assert(wv * xv == 0) by (nonlinear_arith)
                requires
                    wv == 0,
            ;
        } else {
            plus_off::<A>(sum, w, 2 * p + 0x100_0000);
            plus_rounds::<A>(sum, w);
            rounded_at_least(plus_of::<A>(sum, w), sv + wv, 1, 0);
            values_are_ordered(0, plus_of::<A>(sum, w));
            // The weighted sample.
            let bt = b * (t + wv);
            assert(b * (t + wv) == b * t + b * wv && bt <= b * p && 0 <= b * t && 0 <= b * wv)
                by (nonlinear_arith)
                requires
                    bt == b * (t + wv),
                    t + wv <= p,
                    0 <= b,
                    0 <= t,
                    0 <= wv,
            ;
            assert((-b) * t == -(b * t)) by (nonlinear_arith);
            assert(-(b * wv) <= wv * xv <= b * wv) by (nonlinear_arith)
                requires
                    -b <= xv <= b,
                    0 <= wv,
            ;
            assert(c * o <= (4 * c + 0x1000_0000) * o) by (nonlinear_arith)
                requires
                    c >= 0,
                    o > 0,
            ;
            times_off::<A>(w, x, 4 * c + 0x1000_0000);
            let q = times_of::<A>(w, x);
            let qv = value(q);
            // The new sum.
            let y = av + qv;
            assert(y * o == av * o + qv * o) by (nonlinear_arith)
                requires
                    y == av + qv,
            ;
            assert(apart(y, 0) <= c + ka + ea) by (nonlinear_arith)
                requires
                    apart(y * o, s + wv * xv) <= ka * o + ea * o,
                    apart(s + wv * xv, 0) <= c * o,
                    o > 0,
            ;
            plus_off::<A>(acc, q, 4 * c + 0x1000_0000);
            let z = value(plus_of::<A>(acc, q));
            assert(apart(z * o, y * o) <= ea * o) by (nonlinear_arith)
                requires
                    apart(z, y) <= ea,
                    o > 0,
            ;
        }
    } else {
        assert(0 * ew == 0 && (0 * (2 * ea)) * o == 0 && 0 * o == 0) by (nonlinear_arith);
    }
}

/// How far the quotient of the rounded sums can lie outside.
proof fn quotient_in_range(
    s: int,
    p: int,
    acc: int,
    total: int,
    r: int,
    n: int,
    b: int,
    hi: int,
    o: int,
)
    requires
        o >= 0x1_0000_0000_0000_0000_0000_0000,
        0 <= n <= 0x10_0000,
        0 <= b,
        apart(hi, 0) <= b,
        0 <= p,
        4 * s >= o,
        apart(s, p) <= n * step(2 * p + 0x100_0000),
        apart(acc * o, total) <= (n * (2 * step(4 * (b * p / o + 1) + 0x1000_0000))) * o,
        total <= hi * p,
        apart(total, 0) <= b * p,
        apart(r * s, acc * o) * 0x40_0000 <= apart(acc * o, 0) + 0x40_0000 * s,
    ensures
        (r - hi) * 0x2_0000 <= (n + 1) * (b + 0x1000_0000),
{
    let c = b * p / o + 1;
    let (ew, ea) = (step(2 * p + 0x100_0000), step(4 * c + 0x1000_0000));
    let (new, bp, bs) = (n * ew, b * p, b * s);
    assert(0 <= bp) by (nonlinear_arith)
        requires
            bp == b * p,
            0 <= b,
            0 <= p,
    ;
    assert(0 <= new <= 0x10_0000 * ew) by (nonlinear_arith)
        requires
            new == n * ew,
            0 <= n <= 0x10_0000,
            ew > 0,
    ;
    assert(p <= 3 * s);
    assert(ew * 0x40_0000 <= 7 * s);
    let ns = n * s;
    assert(new * 0x40_0000 <= 7 * ns) by (nonlinear_arith)
        requires
            new == n * ew,
            ns == n * s,
            ew * 0x40_0000 <= 7 * s,
            n >= 0,
    ;
    assert(bp <= 3 * bs && 0 <= bs && 0 <= ns) by (nonlinear_arith)
        requires
            bp == b * p,
            bs == b * s,
            p <= 3 * s,
            0 <= b,
            0 <= n,
            0 <= s,
            ns == n * s,
    ;
    // The sum of the weighted samples.
    let eo = ea * o;
    assert(c * o <= bp + o) by (nonlinear_arith)
        requires
            c == bp / o + 1,
            o > 0,
    ;
    assert(ea * 0x40_0000 <= 4 * c + 0x1100_0000);
    assert(eo * 0x40_0000 <= 4 * (c * o) + 0x1100_0000 * o) by (nonlinear_arith)
        requires
            eo == ea * o,
            ea * 0x40_0000 <= 4 * c + 0x1100_0000,
            o > 0,
    ;
    assert(eo * 0x40_0000 <= 12 * bs + 0x8000_0000 * s);
    assert(eo >= 0) by (nonlinear_arith)
        requires
            eo == ea * o,
            ea > 0,
            o > 0,
    ;
    let neo = (n * (2 * ea)) * o;
    let nbs = n * bs;
    assert(neo == 2 * (n * eo)) by (nonlinear_arith)
        requires
            neo == (n * (2 * ea)) * o,
            eo == ea * o,
    ;
    assert((n * eo) * 0x40_0000 <= 12 * nbs + 0x8000_0000 * ns) by (nonlinear_arith)
        requires
            eo * 0x40_0000 <= 12 * bs + 0x8000_0000 * s,
            nbs == n * bs,
            ns == n * s,
            n >= 0,
    ;
    assert(0 <= nbs <= 0x10_0000 * bs && ns <= 0x10_0000 * s) by (nonlinear_arith)
        requires
            nbs == n * bs,
            ns == n * s,
            0 <= n <= 0x10_0000,
            0 <= bs,
            0 <= s,
    ;
    let x = acc * o;
    assert(apart(x, 0) <= 10 * bs + 0x8000_0000 * s);
    // Against the greatest number.
    assert(hi * p <= hi * s + b * new) by (nonlinear_arith)
        requires
            apart(s, p) <= new,
            apart(hi, 0) <= b,
            0 <= b,
    ;
    let bn = b * new;
    assert(bn * 0x40_0000 <= 7 * nbs) by (nonlinear_arith)
        requires
            bn == b * new,
            new * 0x40_0000 <= 7 * ns,
            nbs == n * bs,
            bs == b * s,
            ns == n * s,
            0 <= b,
    ;
    let (rs, hs) = (r * s, hi * s);
    assert((rs - hs) * 0x40_0000 <= 31 * nbs + 0x1_0000_0000 * ns + 10 * bs + 0x8040_0000 * s);
    let d = r - hi;
    let m = (n + 1) * (b + 0x1000_0000);
    assert(m * s == nbs + bs + 0x1000_0000 * ns + 0x1000_0000 * s) by (nonlinear_arith)
        requires
            m == (n + 1) * (b + 0x1000_0000),
            nbs == n * bs,
            bs == b * s,
            ns == n * s,
    ;
    assert(d * s == rs - hs) by (nonlinear_arith)
        requires
            d == r - hi,
            rs == r * s,
            hs == hi * s,
    ;
    assert(d * 0x40_0000 <= 32 * m) by (nonlinear_arith)
        requires
            (d * s) * 0x40_0000 <= 32 * (m * s),
            s > 0,
    ;
}

/// A line resampled by weights that are not negative stays within its range, but for a
/// `2^17`th of its largest magnitude and a few of the least positive numbers for every
/// tap; a constant line so stays constant. This is for taps that weigh a quarter together
/// at the least.
pub proof fn resampling_stays_in_range<A: Arithmetic>(
    line: Seq<u32>,
    filter: ResizeFilter,
    scale: u32,
    i: int,
    lo: int,
    hi: int,
    b: int,
)
    requires
        rounds::<A>(),
        line.len() > 0,
        ranges(line, lo, hi),
        -b <= lo <= hi <= b,
        b < pow2(250),
        ({
            let (centre, first, end) = span::<A>(filter, scale, i);
            &&& first <= end <= first + 0x10_0000
            &&& weighs::<A>(filter, scale, centre, first, end)
            &&& 2 * value(gathered::<A>(line, filter, scale, centre, first, end).1) >= half()
        }),
    ensures
        ({
            let (centre, first, end) = span::<A>(filter, scale, i);
            let r = resampled::<A>(line, filter, scale, i);
            let drift = (end - first + 1) * (b + 0x1000_0000);
            &&& single::is_finite(r)
            &&& (value(r) - hi) * 0x2_0000 <= drift
            &&& (lo - value(r)) * 0x2_0000 <= drift
        }),
{
    let (centre, first, end) = span::<A>(filter, scale, i);
    let n = end - first;
    let o = 2 * half();
    let (acc, sum) = gathered::<A>(line, filter, scale, centre, first, end);
    let p = weight_total::<A>(filter, scale, centre, first, end);
    let total = sample_total::<A>(line, filter, scale, centre, first, end);
    let r = resampled::<A>(line, filter, scale, i);
    half_is_positive();
    small_numbers();
    totals::<A>(line, filter, scale, centre, first, end, lo, hi);
    totals::<A>(line, filter, scale, centre, first, end, -b, b);
    let c = b * p / o + 1;
    sizes(n, b, p, c, o);
    assert(ranges(line, -b, b));
    sums_are_close::<A>(line, filter, scale, centre, first, end, b, p, c);
    values_are_ordered(sum, 0);
    values_are_ordered(0, sum);
    let (s, a) = (value(sum), value(acc));
    assert((-b) * p == -(b * p)) by (nonlinear_arith);
    assert(r == over_of::<A>(acc, sum));
    over_rounds::<A>(acc, sum);
    quotient_is_held(s, p, a, total, n, b, o);
    rounded_fine(r, a * o, s);
    quotient_in_range(s, p, a, total, value(r), n, b, hi, o);
    // The least number, by the mirror image.
    let v = value(r);
    assert((-a) * o == -(a * o) && (-v) * s == -(v * s) && (-lo) * p == -(lo * p))
        by (nonlinear_arith);
    quotient_in_range(s, p, -a, -total, -v, n, b, -lo, o);
}

/// The centre of an output place, and the taps around it.
pub open spec fn span<A: Arithmetic>(filter: ResizeFilter, scale: u32, i: int) -> (u32, int, int) {
    let centre = centre_of::<A>(scale, i);
    let support = filter_support_of::<A>(filter, scale);
    let first = to_offset_of::<A>(floor_of::<A>(minus_of::<A>(centre, support)));
    let last = to_offset_of::<A>(ceil_of::<A>(plus_of::<A>(centre, support)));
    (centre, first as int, last + 1)
}

/// The sums stay within single precision.
proof fn sizes(n: int, b: int, p: int, c: int, o: int)
    requires
        o == 2 * half(),
        0 <= n <= 0x10_0000,
        0 <= b < pow2(250),
        0 <= p <= n * (4 * half()),
        c == b * p / o + 1,
    ensures
        o >= 0x1_0000_0000_0000_0000_0000_0000,
        0 <= c,
        b * p <= c * o,
        4 * c + 0x1000_0000 < ceiling(),
        2 * p + 0x100_0000 < ceiling(),
        b * p <= (0x20_0000 * pow2(250)) * o,
{
    lemma2_to64();
    lemma_pow2_adds(23, 253);
    lemma_pow2_adds(26, 250);
    lemma_pow2_adds(1, 148);
    lemma_pow2_adds(32, 117);
    lemma_pow2_adds(32, 85);
    lemma_pow2_adds(32, 53);
    lemma_pow2_pos(53);
    lemma_pow2_strictly_increases(149, 250);
    lemma_pow2_pos(250);
    let (k, q) = (pow2(250) as int, pow2(149) as int);
    let p0 = pow2(53) as int;
    assert(pow2(85) == 0x1_0000_0000 * p0);
    assert(pow2(117) == 0x1_0000_0000 * pow2(85));
    assert(q == 0x1_0000_0000 * pow2(117));
    assert(o == q);
    assert(n * (4 * half()) <= 0x20_0000 * o) by (nonlinear_arith)
        requires
            n <= 0x10_0000,
            o == 2 * half(),
            o > 0,
    ;
    let bp = b * p;
    assert(0 <= bp <= (0x20_0000 * k) * o) by (nonlinear_arith)
        requires
            bp == b * p,
            0 <= b < k,
            0 <= p <= 0x20_0000 * o,
    ;
    assert(bp <= c * o && 1 <= c <= 0x20_0000 * k + 1) by (nonlinear_arith)
        requires
            c == bp / o + 1,
            0 <= bp <= (0x20_0000 * k) * o,
            o > 0,
    ;
}

/// The quotient stays within single precision.
proof fn quotient_is_held(s: int, p: int, a: int, total: int, n: int, b: int, o: int)
    requires
        o >= 0x1_0000_0000_0000_0000_0000_0000,
        o == 2 * half(),
        4 * s >= o,
        0 <= n <= 0x10_0000,
        0 <= b,
        0 <= p,
        apart(total, 0) <= b * p,
        b * p <= (0x20_0000 * pow2(250)) * o,
        apart(a * o, total) <= (n * (2 * step(4 * (b * p / o + 1) + 0x1000_0000))) * o,
    ensures
        apart(a * o, 0) < (0x80_0000 * pow2(253)) * s,
{
    lemma2_to64();
    lemma_pow2_adds(3, 250);
    lemma_pow2_adds(101, 149);
    lemma_pow2_adds(1, 148);
    lemma_pow2_pos(101);
    lemma_pow2_pos(250);
    let k = pow2(250) as int;
    let bp = b * p;
    let c = bp / o + 1;
    let ea = step(4 * c + 0x1000_0000);
    assert(c <= 0x20_0000 * k + 1) by (nonlinear_arith)
        requires
            c == bp / o + 1,
            bp <= (0x20_0000 * k) * o,
            o > 0,
    ;
    let q = pow2(101) as int;
    assert(k >= o) by (nonlinear_arith)
        requires
            k == q * o,
            q >= 1,
            o > 0,
    ;
    assert(ea <= 3 * k);
    let e = n * (2 * ea);
    assert(e <= 0x20_0000 * (3 * k)) by (nonlinear_arith)
        requires
            e == n * (2 * ea),
            0 <= n <= 0x10_0000,
            ea <= 3 * k,
            k > 0,
    ;
    assert(e * o <= (0x60_0000 * k) * o) by (nonlinear_arith)
        requires
            e <= 0x60_0000 * k,
            o > 0,
    ;
    let (ko, ks) = (k * o, k * s);
    assert((0x20_0000 * k) * o == 0x20_0000 * ko && (0x60_0000 * k) * o == 0x60_0000 * ko && ko <= 4
        * ks && (0x80_0000 * (8 * k)) * s == 0x400_0000 * ks && ks > 0) by (nonlinear_arith)
        requires
            ko == k * o,
            ks == k * s,
            4 * s >= o,
            k > 0,
            o > 0,
    ;
}

/// A pattern without its sign bit is not negative.
proof fn magnitudes_are_not_negative(t: u32)
    requires
        single::is_finite(t),
    ensures
        single::is_finite(single::magnitude(t)),
        value(single::magnitude(t)) >= 0,
{
    small_numbers();
    values_are_ordered(single::magnitude(t), 0);
}

/// The taps of the area filter and of the bilinear filter take nothing away and weigh one
/// at the most.
pub proof fn taps_take_nothing_away<A: Arithmetic>(
    filter: ResizeFilter,
    scale: u32,
    centre: u32,
    k: int,
)
    requires
        rounds::<A>(),
        filter != ResizeFilter::CatmullRom,
        single::is_finite(scale),
        0 < value(scale) <= pow2(175),
        single::is_finite(centre),
        apart(value(centre), 0) <= pow2(175),
        -0x7F_FFFF < k < 0x7F_FFFF,
    ensures
        single::is_finite(tap_weight::<A>(filter, scale, centre, k)),
        0 <= value(tap_weight::<A>(filter, scale, centre, k)) <= 2 * half(),
{
    let (h, p) = (half(), pow2(175) as int);
    half_is_positive();
    small_numbers();
    lemma2_to64();
    lemma_pow2_adds(23, 253);
    lemma_pow2_adds(27, 148);
    lemma_pow2_adds(3, 175);
    lemma_pow2_strictly_increases(178, 276);
    assert(8 * p < ceiling() && 0x800_0000 * h == p);
    let at = of_offset_of::<A>(k as i64);
    offset_halves::<A>(k as i64);
    assert(-p <= (2 * k) * h <= p) by (nonlinear_arith)
        requires
            -0x7F_FFFF < k < 0x7F_FFFF,
            0x800_0000 * h == p,
            h > 0,
    ;
    let (u, v) = (value(scale), value(centre));
    if filter == ResizeFilter::Area && single::less(single::ONE, scale) {
        let reach = times_of::<A>(scale, single::HALF);
        times_rounds::<A>(scale, single::HALF);
        let o = 2 * h;
        assert(0 <= u * h && 2 * (u * h) == u * o && u * h <= p * o) by (nonlinear_arith)
            requires
                0 < u <= p,
                o == 2 * h,
                h > 0,
        ;
        assert(p * o < ceiling() * o) by (nonlinear_arith)
            requires
                p < ceiling(),
                o > 0,
        ;
        rounded_fine(reach, u * h, o);
        let r = value(reach);
        assert(-(2 * p) <= r <= 2 * p) by (nonlinear_arith)
            requires
                apart(r * o, u * h) * 0x40_0000 <= apart(u * h, 0) + 0x40_0000 * o,
                0 <= u * h,
                u * h <= p * o,
                o > 0,
                p >= 0x800_0000,
        ;
        let (x, y) = (minus_of::<A>(centre, reach), plus_of::<A>(centre, reach));
        minus_rounds::<A>(centre, reach);
        rounded_fine(x, v - r, 1);
        plus_rounds::<A>(centre, reach);
        rounded_fine(y, v + r, 1);
        let (a, b) = (minus_of::<A>(at, single::HALF), plus_of::<A>(at, single::HALF));
        assert(1 * h == h) by (nonlinear_arith);
        minus_halves::<A>(at, 2 * k, single::HALF, 1);
        plus_halves::<A>(at, 2 * k, single::HALF, 1);
        assert((2 * k + 1) * h == (2 * k) * h + h && (2 * k - 1) * h == (2 * k) * h - h)
            by (nonlinear_arith);
        let (lo, hi) = (single::larger(a, x), single::smaller(b, y));
        values_are_ordered(x, a);
        values_are_ordered(y, b);
        let d = minus_of::<A>(hi, lo);
        minus_rounds::<A>(hi, lo);
        rounded_fine(d, value(hi) - value(lo), 1);
        rounded_at_most(d, value(hi) - value(lo), 1, single::ONE);
        values_are_ordered(single::ONE, d);
        values_are_ordered(0, d);
    } else if filter == ResizeFilter::Bilinear {
        let base = single::larger(scale, single::ONE);
        values_are_ordered(single::ONE, scale);
        let (o, m) = (2 * h, value(base));
        let away = minus_of::<A>(at, centre);
        minus_rounds::<A>(at, centre);
        rounded_fine(away, value(at) - v, 1);
        let n = value(away);
        let t = over_of::<A>(away, base);
        over_rounds::<A>(away, base);
        assert(apart(n * o, 0) < ceiling() * m) by (nonlinear_arith)
            requires
                apart(n, 0) < ceiling(),
                0 < o <= m,
        ;
        rounded_fine(t, n * o, m);
        magnitudes_are_not_negative(t);
        let d = single::magnitude(t);
        let w = minus_of::<A>(single::ONE, d);
        minus_rounds::<A>(single::ONE, d);
        distances_are_moderate::<A>(away, base, t);
        rounded_fine(w, o - value(d), 1);
        rounded_at_most(w, o - value(d), 1, single::ONE);
        values_are_ordered(single::ONE, w);
        values_are_ordered(0, w);
    }
}

/// A quotient by one or more is no larger than what was divided.
proof fn distances_are_moderate<A: Arithmetic>(away: u32, base: u32, t: u32)
    requires
        rounds::<A>(),
        single::is_finite(away),
        single::is_finite(base),
        value(base) >= 2 * half(),
        t == over_of::<A>(away, base),
        single::is_finite(t),
        apart(value(away), 0) <= 4 * pow2(175),
        apart(value(t) * value(base), value(away) * (2 * half())) * 0x40_0000 <= apart(
            value(away) * (2 * half()),
            0,
        ) + 0x40_0000 * value(base),
    ensures
        value(single::magnitude(t)) <= 8 * pow2(175),
{
    let (n, m, v, o, p) = (value(away), value(base), value(t), 2 * half(), pow2(175) as int);
    half_is_positive();
    lemma2_to64();
    lemma_pow2_adds(27, 148);
    assert(p >= 0x800_0000);
    assert(apart(n * o, 0) <= (4 * p) * m) by (nonlinear_arith)
        requires
            apart(n, 0) <= 4 * p,
            0 < o <= m,
    ;
    assert(-(8 * p) <= v <= 8 * p) by (nonlinear_arith)
        requires
            apart(v * m, n * o) * 0x40_0000 <= apart(n * o, 0) + 0x40_0000 * m,
            apart(n * o, 0) <= (4 * p) * m,
            m > 0,
            p >= 0x800_0000,
    ;
    assert(value(single::magnitude(t)) == v || value(single::magnitude(t)) == -v);
}

/// The area filter and the bilinear filter keep a line within its range, up to rounding.
pub proof fn area_and_bilinear_stay_in_range<A: Arithmetic>(
    line: Seq<u32>,
    filter: ResizeFilter,
    scale: u32,
    i: int,
    lo: int,
    hi: int,
    b: int,
)
    requires
        rounds::<A>(),
        filter != ResizeFilter::CatmullRom,
        line.len() > 0,
        ranges(line, lo, hi),
        -b <= lo <= hi <= b,
        b < pow2(250),
        single::is_finite(scale),
        0 < value(scale) <= pow2(175),
        ({
            let (centre, first, end) = span::<A>(filter, scale, i);
            &&& single::is_finite(centre)
            &&& apart(value(centre), 0) <= pow2(175)
            &&& -0x7F_FFFF < first <= end < 0x7F_FFFF
            &&& end <= first + 0x10_0000
            &&& 2 * value(gathered::<A>(line, filter, scale, centre, first, end).1) >= half()
        }),
    ensures
        ({
            let (centre, first, end) = span::<A>(filter, scale, i);
            let r = resampled::<A>(line, filter, scale, i);
            let drift = (end - first + 1) * (b + 0x1000_0000);
            &&& single::is_finite(r)
            &&& (value(r) - hi) * 0x2_0000 <= drift
            &&& (lo - value(r)) * 0x2_0000 <= drift
        }),
{
    let (centre, first, end) = span::<A>(filter, scale, i);
    half_is_positive();
    assert forall|k: int| first <= k < end implies single::is_finite(
        #[trigger] tap_weight::<A>(filter, scale, centre, k),
    ) && 0 <= value(tap_weight::<A>(filter, scale, centre, k)) <= 4 * half() by {
        taps_take_nothing_away::<A>(filter, scale, centre, k);
    }
    resampling_stays_in_range::<A>(line, filter, scale, i, lo, hi, b);
}

/// A line resampled by weights that are not negative becomes the mean of its taps by their
/// weights, but for a `2^17`th of its largest magnitude and a few of the least positive numbers
/// for every tap. This is for taps that weigh a quarter together at the least.
pub proof fn resampling_averages<A: Arithmetic>(
    line: Seq<u32>,
    filter: ResizeFilter,
    scale: u32,
    i: int,
    b: int,
)
    requires
        rounds::<A>(),
        line.len() > 0,
        ranges(line, -b, b),
        0 <= b < pow2(250),
        ({
            let (centre, first, end) = span::<A>(filter, scale, i);
            &&& first <= end <= first + 0x10_0000
            &&& weighs::<A>(filter, scale, centre, first, end)
            &&& 2 * value(gathered::<A>(line, filter, scale, centre, first, end).1) >= half()
            &&& weight_total::<A>(filter, scale, centre, first, end) > 0
        }),
    ensures
        ({
            let (centre, first, end) = span::<A>(filter, scale, i);
            let r = resampled::<A>(line, filter, scale, i);
            let weight = weight_total::<A>(filter, scale, centre, first, end);
            let sum = sample_total::<A>(line, filter, scale, centre, first, end);
            &&& single::is_finite(r)
            &&& apart(value(r) * weight, sum) * 0x2_0000 <= ((end - first + 1) * (b + 0x1000_0000)
                + 0x2_0000) * weight
        }),
{
    let (centre, first, end) = span::<A>(filter, scale, i);
    let n = end - first;
    let o = 2 * half();
    let (acc, sum) = gathered::<A>(line, filter, scale, centre, first, end);
    let p = weight_total::<A>(filter, scale, centre, first, end);
    let total = sample_total::<A>(line, filter, scale, centre, first, end);
    let r = resampled::<A>(line, filter, scale, i);
    half_is_positive();
    small_numbers();
    totals::<A>(line, filter, scale, centre, first, end, -b, b);
    let c = b * p / o + 1;
    sizes(n, b, p, c, o);
    sums_are_close::<A>(line, filter, scale, centre, first, end, b, p, c);
    values_are_ordered(sum, 0);
    values_are_ordered(0, sum);
    let (s, a) = (value(sum), value(acc));
    assert((-b) * p == -(b * p)) by (nonlinear_arith);
    over_rounds::<A>(acc, sum);
    quotient_is_held(s, p, a, total, n, b, o);
    rounded_fine(r, a * o, s);
    let (low, high) = (total / p, -((-total) / p));
    assert(low * p <= total <= high * p && total < low * p + p && high * p < total + p && -b <= low
        <= b && -b <= high <= b) by (nonlinear_arith)
        requires
            low == total / p,
            high == -((-total) / p),
            p > 0,
            -(b * p) <= total <= b * p,
    ;
    let v = value(r);
    quotient_in_range(s, p, a, total, v, n, b, high, o);
    assert((-a) * o == -(a * o) && (-v) * s == -(v * s) && (-low) * p == -(low * p))
        by (nonlinear_arith);
    quotient_in_range(s, p, -a, -total, -v, n, b, -low, o);
    let m = (n + 1) * (b + 0x1000_0000);
    let (up, down) = (v - high, low - v);
    assert((v * p - total) * 0x2_0000 <= (m + 0x2_0000) * p) by (nonlinear_arith)
        requires
            (v - high) * 0x2_0000 <= m,
            high * p < total + p,
            p > 0,
    ;
    assert((total - v * p) * 0x2_0000 <= (m + 0x2_0000) * p) by (nonlinear_arith)
        requires
            (low - v) * 0x2_0000 <= m,
            total < low * p + p,
            p > 0,
    ;
}

} // verus!
