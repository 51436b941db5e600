//! What the blur leaves of a constant image: the image.
//!
//! Running means add a number to itself, and double precision holds as many copies as a
//! window has, so they give it back as it was. Convolution with a sampled Gaussian does
//! so up to the rounding of its taps.

use vstd::arithmetic::power2::{
    lemma2_to64, lemma2_to64_rest, lemma_pow2_adds, lemma_pow2_pos, lemma_pow2_strictly_increases,
    pow2,
};
use vstd::prelude::*;

use crate::arith::{
    ceil_of, narrow_of, of_count64_of, over64_of, plus64_of, times64_of, times_of, widen_of,
    Arithmetic,
};
use crate::blur::{
    averaged, bell, bell_sum, best_widths, blurred, convolved, filtered_line, first_window,
    held_sample, reach, running_window, separated, swept, tap_sum, taps, widths_are_balanced,
    BOX_CROSSOVER_SIGMA, TRUNCATION, Filter,
};
use crate::double;
use crate::raster::{inside, lane, nearest, tabulate, tabulated, Raster};
use crate::rounding::{
    apart, ceil_is_whole, computes_exactly, computes_finely, count_exact64, half, half_is_positive,
    is_multiple64, is_short, minus_multiples64, narrow_exact, narrow_off, over_exact64, over_off64,
    plus_multiples64, plus_off64, rounded_between, rounds, size, size64, small_numbers,
    some_halves, step64, sums_exactly, times_off64, times_rounds, unit64, value, value64,
    values_are_ordered, whole_count, widen_exact,
};
use crate::single;

verus! {

/// Whether every cell of a line is a finite number of one value.
pub open spec fn is_even_line(line: Seq<u32>, v: int) -> bool {
    forall|i: int|
        0 <= i < line.len() ==> single::is_finite(#[trigger] line[i]) && value(line[i]) == v
}

/// Whether every sample of a raster is a finite number of one value.
pub open spec fn is_even(r: Raster<u32>, v: int) -> bool {
    forall|y: int, x: int, k: int|
        inside(r.shape, y, x, k) ==> single::is_finite(#[trigger] r.at(y, x, k)) && value(
            r.at(y, x, k),
        ) == v
}

/// A sample of an even line is a short multiple of a power of two.
proof fn even_sample<A: Arithmetic>(line: Seq<u32>, v: u32, s: int, j: nat, i: int)
    requires
        computes_exactly::<A>(),
        is_even_line(line, value(v)),
        line.len() > 0,
        value(v) == s * pow2(j),
    ensures
        is_multiple64(held_sample::<A>(line, i), s, j + 925),
{
    let at = nearest(i, line.len() as int);
    widen_exact::<A>(line[at]);
    lemma_pow2_adds(j, 925);
    let (p, r) = (pow2(j) as int, pow2(925) as int);
    assert(s * (p * r) == (s * p) * r) by (nonlinear_arith);
}

proof fn few_copies(m: int, s: int)
    requires
        0 <= m <= 0x10_0000,
        -0x100_0000 < s < 0x100_0000,
    ensures
        -0x20_0000_0000_0000 < m * s < 0x20_0000_0000_0000,
{
    assert(-0x20_0000_0000_0000 < m * s < 0x20_0000_0000_0000) by (nonlinear_arith)
        requires
            0 <= m <= 0x10_0000,
            -0x100_0000 < s < 0x100_0000,
    ;
}

/// The first window of an even line is as many copies of its number.
proof fn even_first_window<A: Arithmetic>(
    line: Seq<u32>,
    v: u32,
    s: int,
    j: nat,
    radius: int,
    m: int,
)
    requires
        computes_exactly::<A>(),
        sums_exactly::<A>(),
        is_even_line(line, value(v)),
        line.len() > 0,
        value(v) == s * pow2(j),
        -0x100_0000 < s < 0x100_0000,
        j <= 253,
        0 <= m <= 0x10_0000,
    ensures
        is_multiple64(first_window::<A>(line, radius, m), m * s, j + 925),
    decreases m,
{
    few_copies(m, s);
    if m > 0 {
        even_first_window::<A>(line, v, s, j, radius, m - 1);
        even_sample::<A>(line, v, s, j, m - 1 - radius);
        assert((m - 1) * s + s == m * s) by (nonlinear_arith);
        plus_multiples64::<A>(
            first_window::<A>(line, radius, m - 1),
            (m - 1) * s,
            held_sample::<A>(line, m - 1 - radius),
            s,
            j + 925,
        );
    } else {
        assert(size64(0) == 0);
        assert(0 * s == 0 && 0 * pow2(j + 925) == 0) by (nonlinear_arith);
    }
}

/// The running sum of an even line stays what it was.
proof fn even_running_window<A: Arithmetic>(
    line: Seq<u32>,
    v: u32,
    s: int,
    j: nat,
    radius: int,
    i: int,
)
    requires
        computes_exactly::<A>(),
        sums_exactly::<A>(),
        is_even_line(line, value(v)),
        line.len() > 0,
        value(v) == s * pow2(j),
        -0x100_0000 < s < 0x100_0000,
        j <= 253,
        0 <= radius <= 0x4_0000,
    ensures
        is_multiple64(running_window::<A>(line, radius, i), (2 * radius + 1) * s, j + 925),
    decreases i,
{
    let n = 2 * radius + 1;
    few_copies(n, s);
    few_copies(n + 1, s);
    if i > 0 {
        even_running_window::<A>(line, v, s, j, radius, i - 1);
        even_sample::<A>(line, v, s, j, i + radius);
        even_sample::<A>(line, v, s, j, i - radius - 1);
        assert(n * s + s == (n + 1) * s && (n + 1) * s - s == n * s) by (nonlinear_arith);
        let before = running_window::<A>(line, radius, i - 1);
        plus_multiples64::<A>(before, n * s, held_sample::<A>(line, i + radius), s, j + 925);
        minus_multiples64::<A>(
            plus64_of::<A>(before, held_sample::<A>(line, i + radius)),
            (n + 1) * s,
            held_sample::<A>(line, i - radius - 1),
            s,
            j + 925,
        );
    } else {
        even_first_window::<A>(line, v, s, j, radius, n);
    }
}

/// The running mean gives an even line back.
proof fn even_average<A: Arithmetic>(line: Seq<u32>, v: u32, radius: int)
    requires
        computes_exactly::<A>(),
        sums_exactly::<A>(),
        single::is_finite(v),
        is_even_line(line, value(v)),
        0 <= radius <= 0x4_0000,
    ensures
        is_even_line(averaged::<A>(line, radius), value(v)),
{
    let (s, j) = is_short(v);
    let n = 2 * radius + 1;
    let out = averaged::<A>(line, radius);
    assert forall|i: int| 0 <= i < out.len() implies single::is_finite(#[trigger] out[i]) && value(
        out[i],
    ) == value(v) by {
        even_running_window::<A>(line, v, s, j, radius, i);
        count_exact64::<A>(n as u64);
        widen_exact::<A>(v);
        let (a, b, c) = (
            running_window::<A>(line, radius, i),
            of_count64_of::<A>(n as u64),
            widen_of::<A>(v),
        );
        lemma_pow2_adds(j, 925);
        lemma_pow2_pos(1074);
        let (p, r, u) = (pow2(j) as int, pow2(925) as int, unit64());
        assert(((s * p) * r) * (n * u) == ((n * s) * (p * r)) * u) by (nonlinear_arith);
        assert(n * u > 0) by (nonlinear_arith)
            requires
                n > 0,
                u > 0,
        ;
        over_exact64::<A>(a, b, c);
        narrow_exact::<A>(over64_of::<A>(a, b), v);
    }
}

/// A filter keeps a raster even where it keeps lines even.
proof fn even_sweep<A: Arithmetic>(r: Raster<u32>, along_row: bool, filter: Filter, v: int, w: int)
    requires
        is_even(r, v),
        forall|line: Seq<u32>| #[trigger]
            is_even_line(line, v) ==> is_even_line(filtered_line::<A>(line, filter), w),
        forall|line: Seq<u32>| (#[trigger] filtered_line::<A>(line, filter)).len() == line.len(),
    ensures
        swept::<A>(r, along_row, filter).shape == r.shape,
        is_even(swept::<A>(r, along_row, filter), w),
{
    let f = |y: int, x: int, k: int|
        if along_row {
            filtered_line::<A>(lane(r, true, y, k), filter)[x]
        } else {
            filtered_line::<A>(lane(r, false, x, k), filter)[y]
        };
    let out = swept::<A>(r, along_row, filter);
    assert(out == tabulate(r.shape, f));
    tabulated(r.shape, f);
    assert forall|y: int, x: int, k: int| inside(out.shape, y, x, k) implies single::is_finite(
        #[trigger] out.at(y, x, k),
    ) && value(out.at(y, x, k)) == w by {
        assert(out.at(y, x, k) == f(y, x, k));
        let (line, i) = if along_row {
            (lane(r, true, y, k), x)
        } else {
            (lane(r, false, x, k), y)
        };
        assert forall|j: int| 0 <= j < line.len() implies single::is_finite(#[trigger] line[j])
            && value(line[j]) == v by {
            if along_row {
                assert(inside(r.shape, y, j, k));
            } else {
                assert(inside(r.shape, j, x, k));
            }
        }
        assert(is_even_line(line, v));
        assert(is_even_line(filtered_line::<A>(line, filter), w));
        assert(single::is_finite(filtered_line::<A>(line, filter)[i]));
    }
}

proof fn even_means<A: Arithmetic>(r: Raster<u32>, v: u32, radius: int)
    requires
        computes_exactly::<A>(),
        sums_exactly::<A>(),
        single::is_finite(v),
        is_even(r, value(v)),
        0 <= radius <= 0x4_0000,
    ensures
        is_even(separated::<A>(r, Filter::Window(radius)), value(v)),
{
    let filter = Filter::Window(radius);
    assert forall|line: Seq<u32>| #[trigger] is_even_line(line, value(v)) implies is_even_line(
        filtered_line::<A>(line, filter),
        value(v),
    ) by {
        even_average::<A>(line, v, radius);
    }
    even_sweep::<A>(r, true, filter, value(v), value(v));
    even_sweep::<A>(swept::<A>(r, true, filter), false, filter, value(v), value(v));
}

/// From the sigma on from which running means are used, a constant image comes back as it
/// was, and so it does without a blur.
pub proof fn means_keep_a_constant_image<A: Arithmetic>(r: Raster<u32>, sigma: u32, v: u32)
    requires
        computes_exactly::<A>(),
        sums_exactly::<A>(),
        single::is_finite(v),
        is_even(r, value(v)),
        single::same(sigma, 0) || !single::less(sigma, BOX_CROSSOVER_SIGMA),
    ensures
        is_even(blurred::<A>(r, sigma), value(v)),
{
    widths_are_balanced::<A>(sigma);
    let h = best_widths::<A>(sigma);
    let (a, b, c) = ((h.a - 1) / 2, (h.b - 1) / 2, (h.c - 1) / 2);
    if !single::same(sigma, 0) {
        even_means::<A>(r, v, a);
        let first = separated::<A>(r, Filter::Window(a));
        even_means::<A>(first, v, b);
        even_means::<A>(separated::<A>(first, Filter::Window(b)), v, c);
    }
}

/// Whether every cell of a line is one pattern.
pub open spec fn is_flat_line(line: Seq<u32>, v: u32) -> bool {
    forall|i: int| 0 <= i < line.len() ==> #[trigger] line[i] == v
}

/// Whether every sample of a raster is one pattern.
pub open spec fn is_flat(r: Raster<u32>, v: u32) -> bool {
    forall|y: int, x: int, k: int| inside(r.shape, y, x, k) ==> #[trigger] r.at(y, x, k) == v
}

/// Whether the Gaussian is sampled as it should be: every sample lies between zero and one,
/// and the one in the middle is one.
pub open spec fn bells_ring<A: Arithmetic>(sigma: u32) -> bool {
    let radius = reach::<A>(sigma);
    &&& forall|i: int|
        0 <= i < 2 * radius + 1 ==> double::is_finite(#[trigger] bell::<A>(sigma, radius, i)) && 0
            <= value64(bell::<A>(sigma, radius, i)) <= unit64()
    &&& value64(bell::<A>(sigma, radius, radius)) == unit64()
}

/// The first `m` samples of the Gaussian, added up exactly.
pub open spec fn exact_bells<A: Arithmetic>(sigma: u32, radius: int, m: int) -> int
    decreases m,
{
    if m <= 0 {
        0
    } else {
        exact_bells::<A>(sigma, radius, m - 1) + value64(bell::<A>(sigma, radius, m - 1))
    }
}

/// The first `m` taps added up exactly, in units of the least positive double-precision
/// number.
spec fn exact_taps(weights: Seq<u32>, m: int) -> int
    decreases m,
{
    if m <= 0 {
        0
    } else {
        exact_taps(weights, m - 1) + value(weights[m - 1]) * pow2(925)
    }
}

/// The sizes of the units.
proof fn units()
    ensures
        unit64() == 0x8000_0000_0000_0000_0000_0000_0000_0000 * (0x40_0000 * pow2(925)),
        pow2(925) > 0x1_0000_0000_0000_0000_0000_0000,
        0x1_0000_0000 * unit64() < pow2(1200),
        0x1_0000_0000_0000_0000 * pow2(1200) <= pow2(2000),
        2 * pow2(1200) == pow2(1201),
{
    lemma2_to64();
    lemma2_to64_rest();
    lemma_pow2_adds(64, 861);
    lemma_pow2_adds(64, 797);
    lemma_pow2_pos(797);
    lemma_pow2_adds(64, 861);
    lemma_pow2_adds(22, 925);
    lemma_pow2_adds(63, 947);
    lemma_pow2_adds(64, 1010);
    lemma_pow2_adds(32, 1074);
    lemma_pow2_strictly_increases(1106, 1200);
    lemma_pow2_adds(64, 1200);
    lemma_pow2_strictly_increases(1264, 2000);
    lemma_pow2_adds(1, 1200);
    let (a, b, c) = (pow2(797) as int, pow2(861) as int, pow2(925) as int);
    assert(c == 0x1_0000_0000_0000_0000 * b && b == 0x1_0000_0000_0000_0000 * a && a >= 1);
    let (d, e) = (pow2(947) as int, pow2(1010) as int);
    assert(d == 0x40_0000 * c && e == 0x8000_0000_0000_0000 * d);
    assert(pow2(1074) == 0x1_0000_0000_0000_0000 * e);
}

/// The sum of the samples is close.
proof fn bells_add_up<A: Arithmetic>(sigma: u32, radius: int, m: int)
    requires
        computes_finely::<A>(),
        bells_ring::<A>(sigma),
        radius == reach::<A>(sigma),
        0 <= m <= 2 * radius + 1 <= 64,
    ensures
        double::is_finite(bell_sum::<A>(sigma, radius, m)),
        0 <= exact_bells::<A>(sigma, radius, m) <= m * unit64(),
        m > radius ==> exact_bells::<A>(sigma, radius, m) >= unit64(),
        apart(
            value64(bell_sum::<A>(sigma, radius, m)),
            exact_bells::<A>(sigma, radius, m),
        ) <= m * step64(128 * unit64()),
    decreases m,
{
    let u = unit64();
    let e = step64(128 * u);
    units();
    assert(size64(0) == 0);
    if m > 0 {
        bells_add_up::<A>(sigma, radius, m - 1);
        let (s, b) = (bell_sum::<A>(sigma, radius, m - 1), bell::<A>(sigma, radius, m - 1));
        assert((m - 1) * u <= 63 * u && m * u == (m - 1) * u + u) by (nonlinear_arith)
            requires
                1 <= m <= 64,
                u > 0,
        ;
        assert(0 <= (m - 1) * e <= 63 * e && m * e == (m - 1) * e + e) by (nonlinear_arith)
            requires
                1 <= m <= 64,
                e > 0,
        ;
        plus_off64::<A>(s, b, 128 * u);
    } else {
        assert(0 * e == 0 && 0 * u == 0) by (nonlinear_arith);
    }
}

/// One tap is close to its share.
proof fn tap_is_close<A: Arithmetic>(b: u64, s: u64)
    requires
        computes_finely::<A>(),
        double::is_finite(b),
        double::is_finite(s),
        0 <= value64(b) <= unit64(),
        unit64() <= 2 * value64(s),
        value64(s) <= 128 * unit64(),
    ensures
        ({
            let w = narrow_of::<A>(over64_of::<A>(b, s));
            let x = value(w) * pow2(925);
            &&& single::is_finite(w)
            &&& apart(x, 0) <= 4 * unit64()
            &&& apart(x * value64(s), value64(b) * unit64()) * 0x80_0000 <= value64(b) * unit64()
                + (0x100_0000 * (pow2(925) + step64(4 * unit64()))) * value64(s)
        }),
{
    let (u, r, bv, sv) = (unit64(), pow2(925) as int, value64(b), value64(s));
    let e = step64(4 * u);
    units();
    assert(apart(bv * u, 0) <= (4 * u) * sv) by (nonlinear_arith)
        requires
            0 <= bv <= u,
            u <= 2 * sv,
            u > 0,
    ;
    over_off64::<A>(b, s, 4 * u);
    let q = value64(over64_of::<A>(b, s));
    let qs = q * sv;
    assert(-e <= q <= 3 * u) by (nonlinear_arith)
        requires
            apart(q * sv, bv * u) <= e * sv,
            0 <= bv <= u,
            u <= 2 * sv,
            0 < e < u,
    ;
    narrow_off::<A>(over64_of::<A>(b, s));
    let x = value(narrow_of::<A>(over64_of::<A>(b, s))) * r;
    let (xs, rs, es) = (x * sv, r * sv, e * sv);
    assert(apart(xs, qs) * 0x80_0000 <= apart(qs, 0) + 0x80_0000 * rs) by (nonlinear_arith)
        requires
            apart(x, q) * 0x80_0000 <= apart(q, 0) + 0x80_0000 * r,
            xs == x * sv,
            qs == q * sv,
            rs == r * sv,
            sv > 0,
    ;
    assert((0x100_0000 * (r + e)) * sv == 0x100_0000 * rs + 0x100_0000 * es) by (nonlinear_arith)
        requires
            rs == r * sv,
            es == e * sv,
    ;
    assert(rs > 0 && es > 0 && 0 <= bv * u) by (nonlinear_arith)
        requires
            rs == r * sv,
            es == e * sv,
            r > 0,
            e > 0,
            sv > 0,
            bv >= 0,
            u > 0,
    ;
}

/// The taps add up to one, or nearly so.
proof fn taps_add_up<A: Arithmetic>(sigma: u32, m: int)
    requires
        computes_finely::<A>(),
        bells_ring::<A>(sigma),
        2 * reach::<A>(sigma) + 1 <= 64,
        0 <= m <= 2 * reach::<A>(sigma) + 1,
    ensures
        ({
            let radius = reach::<A>(sigma);
            let s = value64(bell_sum::<A>(sigma, radius, 2 * radius + 1));
            let u = unit64();
            &&& apart(
                exact_taps(taps::<A>(sigma), m) * s,
                exact_bells::<A>(sigma, radius, m) * u,
            ) * 0x80_0000 <= exact_bells::<A>(sigma, radius, m) * u + m * ((0x100_0000 * (pow2(925)
                + step64(4 * u))) * s)
        }),
        forall|i: int|
            0 <= i < m ==> single::is_finite(#[trigger] taps::<A>(sigma)[i]) && apart(
                value(taps::<A>(sigma)[i]) * pow2(925),
                0,
            ) <= 4 * unit64(),
    decreases m,
{
    let radius = reach::<A>(sigma);
    let n = 2 * radius + 1;
    let sum = bell_sum::<A>(sigma, radius, n);
    let (u, s) = (unit64(), value64(sum));
    let weights = taps::<A>(sigma);
    let e = (0x100_0000 * (pow2(925) + step64(4 * u))) * s;
    units();
    bells_add_up::<A>(sigma, radius, n);
    sum_is_wide(s, exact_bells::<A>(sigma, radius, n), n, u);
    if m > 0 {
        taps_add_up::<A>(sigma, m - 1);
        let b = bell::<A>(sigma, radius, m - 1);
        tap_is_close::<A>(b, sum);
        assert(weights[m - 1] == narrow_of::<A>(over64_of::<A>(b, sum)));
        let (x, y) = (exact_taps(weights, m - 1), value(weights[m - 1]) * pow2(925));
        assert((x + y) * s == x * s + y * s) by (nonlinear_arith);
        let (c, d) = (exact_bells::<A>(sigma, radius, m - 1), value64(b));
        assert((c + d) * u == c * u + d * u) by (nonlinear_arith);
        assert(m * e == (m - 1) * e + e) by (nonlinear_arith);
        bells_add_up::<A>(sigma, radius, m - 1);
    } else {
        assert(0 * s == 0 && 0 * u == 0 && 0 * e == 0) by (nonlinear_arith);
    }
}

/// The sum of the samples is not small.
proof fn sum_is_wide(s: int, b: int, n: int, u: int)
    requires
        u == unit64(),
        1 <= n <= 64,
        u <= b <= n * u,
        apart(s, b) <= n * step64(128 * u),
    ensures
        u <= 2 * s,
        s <= 128 * u,
        apart(s, b) * 0x8000_0000 <= u,
{
    units();
    let e = step64(128 * u);
    assert(n * e <= 64 * e && n * u <= 64 * u) by (nonlinear_arith)
        requires
            n <= 64,
            e > 0,
            u > 0,
    ;
}

/// All the taps together.
proof fn taps_are_one<A: Arithmetic>(sigma: u32)
    requires
        computes_finely::<A>(),
        bells_ring::<A>(sigma),
        0 <= reach::<A>(sigma),
        2 * reach::<A>(sigma) + 1 <= 64,
    ensures
        apart(exact_taps(taps::<A>(sigma), 2 * reach::<A>(sigma) + 1), unit64()) * 0x20_0000
            <= unit64(),
{
    let radius = reach::<A>(sigma);
    let n = 2 * radius + 1;
    let (u, s) = (unit64(), value64(bell_sum::<A>(sigma, radius, n)));
    let b = exact_bells::<A>(sigma, radius, n);
    let x = exact_taps(taps::<A>(sigma), n);
    units();
    bells_add_up::<A>(sigma, radius, n);
    sum_is_wide(s, b, n, u);
    taps_add_up::<A>(sigma, n);
    let e = 0x100_0000 * (pow2(925) + step64(4 * u));
    assert(e * 0x1_0000 <= u);
    let (xs, bu, su) = (x * s, b * u, s * u);
    assert(n * (e * s) <= 64 * (e * s)) by (nonlinear_arith)
        requires
            n <= 64,
            e * s >= 0,
    ;
    assert(e * s >= 0 && 0x1_0000 * (e * s) <= su) by (nonlinear_arith)
        requires
            su == s * u,
            e * 0x1_0000 <= u,
            e >= 0,
            s >= 0,
    ;
    let d = apart(s, b);
    assert(apart(bu, su) * 0x8000_0000 <= u * u) by (nonlinear_arith)
        requires
            bu == b * u,
            su == s * u,
            apart(s, b) * 0x8000_0000 <= u,
            u > 0,
    ;
    assert(u * u <= 2 * su) by (nonlinear_arith)
        requires
            su == s * u,
            u <= 2 * s,
            u > 0,
    ;
    assert(apart(xs, su) * 0x80_0000 <= 3 * su);
    assert(apart(x, u) * 0x80_0000 <= 3 * u) by (nonlinear_arith)
        requires
            apart(xs, su) * 0x80_0000 <= 3 * su,
            xs == x * s,
            su == s * u,
            s > 0,
    ;
}

/// A weighted sum of one number.
spec fn flat_sum<A: Arithmetic>(v: u32, weights: Seq<u32>, m: int) -> u64
    decreases m,
{
    if m <= 0 {
        0
    } else {
        plus64_of::<A>(
            flat_sum::<A>(v, weights, m - 1),
            times64_of::<A>(widen_of::<A>(weights[m - 1]), widen_of::<A>(v)),
        )
    }
}

proof fn flat_taps<A: Arithmetic>(line: Seq<u32>, weights: Seq<u32>, v: u32, i: int, m: int)
    requires
        is_flat_line(line, v),
        line.len() > 0,
    ensures
        tap_sum::<A>(line, weights, i, m) == flat_sum::<A>(v, weights, m),
    decreases m,
{
    if m > 0 {
        flat_taps::<A>(line, weights, v, i, m - 1);
        let radius = (weights.len() - 1) / 2;
        let at = nearest(i + (m - 1) - radius, line.len() as int);
        assert(line[at] == v);
    }
}

/// A weighted sum of one number is close to the number times the sum of the weights.
proof fn flat_sum_is_close<A: Arithmetic>(v: u32, weights: Seq<u32>, m: int, b: int)
    requires
        computes_finely::<A>(),
        computes_exactly::<A>(),
        single::is_finite(v),
        b == apart(value(v) * pow2(925), 0),
        b < pow2(1200),
        0 <= m <= weights.len() <= 64,
        forall|i: int|
            0 <= i < m ==> single::is_finite(#[trigger] weights[i]) && apart(
                value(weights[i]) * pow2(925),
                0,
            ) <= 4 * unit64(),
    ensures
        double::is_finite(flat_sum::<A>(v, weights, m)),
        apart(exact_taps(weights, m), 0) <= m * (4 * unit64()),
        apart(
            value64(flat_sum::<A>(v, weights, m)) * unit64(),
            exact_taps(weights, m) * (value(v) * pow2(925)),
        ) <= (m * (2 * step64(1024 * b + 0x10_0000))) * unit64(),
    decreases m,
{
    let (u, r) = (unit64(), pow2(925) as int);
    let n = 1024 * b + 0x10_0000;
    let e = step64(n);
    let w = value(v) * r;
    units();
    lemma_pow2_pos(1074);
    assert(size64(0) == 0);
    if m > 0 {
        flat_sum_is_close::<A>(v, weights, m - 1, b);
        let (s, x) = (flat_sum::<A>(v, weights, m - 1), weights[m - 1]);
        let (t, y) = (exact_taps(weights, m - 1), value(x) * r);
        widen_exact::<A>(x);
        widen_exact::<A>(v);
        assert(apart(y * w, 0) <= (4 * b) * u) by (nonlinear_arith)
            requires
                apart(y, 0) <= 4 * u,
                apart(w, 0) == b,
                u > 0,
        ;
        times_off64::<A>(widen_of::<A>(x), widen_of::<A>(v), 4 * b);
        let q = times64_of::<A>(widen_of::<A>(x), widen_of::<A>(v));
        let (sv, qv) = (value64(s), value64(q));
        // Bounds of what is added.
        let k = m - 1;
        assert(k * (4 * u) <= 256 * u && m * (4 * u) == k * (4 * u) + 4 * u) by (nonlinear_arith)
            requires
                0 <= k <= 63,
                m == k + 1,
                u > 0,
        ;
        assert(0 <= k * (2 * e) <= 128 * e && m * (2 * e) == k * (2 * e) + 2 * e)
            by (nonlinear_arith)
            requires
                0 <= k <= 63,
                m == k + 1,
                e > 0,
        ;
        let f = k * (2 * e);
        assert(apart(t * w, 0) <= (256 * b) * u) by (nonlinear_arith)
            requires
                apart(t, 0) <= 256 * u,
                apart(w, 0) == b,
                u > 0,
        ;
        assert(apart(sv, 0) <= 256 * b + f) by (nonlinear_arith)
            requires
                apart(sv * u, t * w) <= f * u,
                apart(t * w, 0) <= (256 * b) * u,
                u > 0,
        ;
        let g = step64(4 * b);
        assert(apart(qv, 0) <= 4 * b + g) by (nonlinear_arith)
            requires
                apart(qv * u, y * w) <= g * u,
                apart(y * w, 0) <= (4 * b) * u,
                u > 0,
        ;
        assert(g <= e);
        plus_off64::<A>(s, q, n);
        let z = value64(plus64_of::<A>(s, q));
        assert(apart(z * u, sv * u + qv * u) <= e * u) by (nonlinear_arith)
            requires
                apart(z, sv + qv) <= e,
                u > 0,
        ;
        assert((t + y) * w == t * w + y * w) by (nonlinear_arith);
        assert(g * u <= e * u) by (nonlinear_arith)
            requires
                g <= e,
                u > 0,
        ;
        assert((f + 2 * e) * u == f * u + 2 * (e * u)) by (nonlinear_arith);
    } else {
        assert(0 * u == 0 && 0 * w == 0 && 0 * (4 * u) == 0 && (0 * (2 * e)) * u == 0)
            by (nonlinear_arith);
    }
}

/// Convolution with the sampled Gaussian gives a flat line one number, close to its own.
proof fn flat_convolution<A: Arithmetic>(sigma: u32, v: u32)
    requires
        computes_finely::<A>(),
        computes_exactly::<A>(),
        bells_ring::<A>(sigma),
        0 <= reach::<A>(sigma),
        2 * reach::<A>(sigma) + 1 <= 64,
        single::is_finite(v),
        2 * apart(value(v) * pow2(925), 0) < pow2(1200),
    ensures
        ({
            let weights = taps::<A>(sigma);
            let w = narrow_of::<A>(flat_sum::<A>(v, weights, weights.len() as int));
            &&& single::is_finite(w)
            &&& apart(value(w), value(v)) * 0x10_0000 <= apart(value(v), 0) + 0x20_0000
            &&& forall|line: Seq<u32>| #[trigger]
                is_flat_line(line, v) ==> is_flat_line(
                    filtered_line::<A>(line, Filter::Taps(weights)),
                    w,
                )
        }),
{
    let weights = taps::<A>(sigma);
    let n = weights.len() as int;
    let (u, r) = (unit64(), pow2(925) as int);
    let x = value(v) * r;
    let b = apart(x, 0);
    let sum = flat_sum::<A>(v, weights, n);
    let w = narrow_of::<A>(sum);
    units();
    taps_add_up::<A>(sigma, n);
    taps_are_one::<A>(sigma);
    flat_sum_is_close::<A>(v, weights, n, b);
    let (t, s) = (exact_taps(weights, n), value64(sum));
    let e = n * (2 * step64(1024 * b + 0x10_0000));
    assert(e * 0x100_0000 <= b + 0x1_0000_0000_0000) by {
        let g = 2 * step64(1024 * b + 0x10_0000);
        assert(n * g <= 64 * g) by (nonlinear_arith)
            requires
                n <= 64,
                g > 0,
        ;
    }
    assert(apart(t * x, u * x) * 0x20_0000 <= u * b) by (nonlinear_arith)
        requires
            apart(t, u) * 0x20_0000 <= u,
            apart(x, 0) == b,
    ;
    assert(apart(s, x) * 0x20_0000 <= b + e * 0x20_0000) by (nonlinear_arith)
        requires
            apart(s * u, t * x) <= e * u,
            apart(t * x, u * x) * 0x20_0000 <= u * b,
            u > 0,
    ;
    narrow_off::<A>(sum);
    let y = value(w) * r;
    assert(apart(y, x) * 0x10_0000 <= b + 0x20_0000 * r);
    let (vw, vv) = (value(w), value(v));
    assert(apart(vw, vv) * 0x10_0000 <= apart(vv, 0) + 0x20_0000) by (nonlinear_arith)
        requires
            apart(vw * r, vv * r) * 0x10_0000 <= apart(vv * r, 0) + 0x20_0000 * r,
            r > 0,
    ;
    assert forall|line: Seq<u32>| #[trigger] is_flat_line(line, v) implies is_flat_line(
        filtered_line::<A>(line, Filter::Taps(weights)),
        w,
    ) by {
        let out = convolved::<A>(line, weights);
        assert forall|i: int| 0 <= i < out.len() implies #[trigger] out[i] == w by {
            flat_taps::<A>(line, weights, v, i, n);
        }
    }
}

/// A filter that gives flat lines one number gives a flat raster that number.
proof fn flat_sweep<A: Arithmetic>(r: Raster<u32>, along_row: bool, filter: Filter, v: u32, w: u32)
    requires
        is_flat(r, v),
        forall|line: Seq<u32>| #[trigger]
            is_flat_line(line, v) ==> is_flat_line(filtered_line::<A>(line, filter), w),
        forall|line: Seq<u32>| (#[trigger] filtered_line::<A>(line, filter)).len() == line.len(),
    ensures
        swept::<A>(r, along_row, filter).shape == r.shape,
        is_flat(swept::<A>(r, along_row, filter), w),
{
    let f = |y: int, x: int, k: int|
        if along_row {
            filtered_line::<A>(lane(r, true, y, k), filter)[x]
        } else {
            filtered_line::<A>(lane(r, false, x, k), filter)[y]
        };
    let out = swept::<A>(r, along_row, filter);
    assert(out == tabulate(r.shape, f));
    tabulated(r.shape, f);
    assert forall|y: int, x: int, k: int| inside(out.shape, y, x, k) implies #[trigger] out.at(
        y,
        x,
        k,
    ) == w by {
        assert(out.at(y, x, k) == f(y, x, k));
        let (line, i) = if along_row {
            (lane(r, true, y, k), x)
        } else {
            (lane(r, false, x, k), y)
        };
        assert forall|j: int| 0 <= j < line.len() implies #[trigger] line[j] == v by {
            if along_row {
                assert(inside(r.shape, y, j, k));
            } else {
                assert(inside(r.shape, j, x, k));
            }
        }
        assert(is_flat_line(line, v));
        assert(is_flat_line(filtered_line::<A>(line, filter), w));
        assert(filtered_line::<A>(line, filter)[i] == w);
    }
}

/// Below the sigma from which running means are used, a constant image stays constant, and
/// its number is off by no more than a `2^18`th of it and a few of the least positive.
pub proof fn taps_keep_a_constant_image<A: Arithmetic>(r: Raster<u32>, sigma: u32, v: u32) -> (w:
    u32)
    requires
        rounds::<A>(),
        computes_finely::<A>(),
        computes_exactly::<A>(),
        bells_ring::<A>(sigma),
        single::is_finite(v),
        8 * apart(value(v) * pow2(925), 0) < pow2(1200),
        is_flat(r, v),
        single::is_non_negative(sigma),
        single::less(sigma, BOX_CROSSOVER_SIGMA),
    ensures
        is_flat(blurred::<A>(r, sigma), w),
        single::is_finite(w),
        apart(value(w), value(v)) * 0x4_0000 <= apart(value(v), 0) + 0x20_0000,
{
    if single::same(sigma, 0) {
        v
    } else {
        reach_is_short::<A>(sigma);
        let weights = taps::<A>(sigma);
        let filter = Filter::Taps(weights);
        flat_convolution::<A>(sigma, v);
        let a = narrow_of::<A>(flat_sum::<A>(v, weights, weights.len() as int));
        flat_sweep::<A>(r, true, filter, v, a);
        let (va, vv, p) = (value(a), value(v), pow2(925) as int);
        units();
        lemma_pow2_strictly_increases(1000, 1200);
        lemma_pow2_adds(75, 925);
        lemma_pow2_strictly_increases(64, 75);
        lemma2_to64();
        assert(apart(va * p, 0) <= 2 * apart(vv * p, 0) + 4 * p) by (nonlinear_arith)
            requires
                apart(va, 0) <= 2 * apart(vv, 0) + 4,
                p > 0,
        ;
        assert(16 * p < pow2(1200)) by {
            let q = pow2(75) as int;
            assert(q * p >= 16 * p) by (nonlinear_arith)
                requires
                    q >= 16,
                    p > 0,
            ;
        }
        flat_convolution::<A>(sigma, a);
        let b = narrow_of::<A>(flat_sum::<A>(a, weights, weights.len() as int));
        flat_sweep::<A>(swept::<A>(r, true, filter), false, filter, a, b);
        b
    }
}

/// Below the sigma from which running means are used, the taps reach 24 places to either
/// side at the most.
proof fn reach_is_short<A: Arithmetic>(sigma: u32)
    requires
        rounds::<A>(),
        single::is_non_negative(sigma),
        single::less(sigma, BOX_CROSSOVER_SIGMA),
    ensures
        0 <= reach::<A>(sigma) <= 24,
{
    let o = 2 * half();
    small_numbers();
    half_is_positive();
    values_are_ordered(0, sigma);
    values_are_ordered(sigma, BOX_CROSSOVER_SIGMA);
    let top = some_halves(48);
    assert(value(BOX_CROSSOVER_SIGMA) == 6 * o) by {
        lemma2_to64();
        lemma_pow2_adds(1, 148);
        lemma_pow2_adds(23, 128);
        lemma_pow2_adds(2, 149);
        assert(size(0x40C0_0000) == 0xC0_0000 * pow2(128));
    }
    let a = times_of::<A>(TRUNCATION, sigma);
    times_rounds::<A>(TRUNCATION, sigma);
    let v = value(sigma);
    assert(0 * o <= (4 * o) * v <= (24 * o) * o) by (nonlinear_arith)
        requires
            0 <= v <= 6 * o,
            o > 0,
    ;
    rounded_between(a, value(TRUNCATION) * v, o, 0, top);
    let b = ceil_of::<A>(a);
    ceil_is_whole::<A>(a);
    let n = -((-value(a)) / o);
    assert(0 <= n <= 24) by (nonlinear_arith)
        requires
            n == -((-value(a)) / o),
            0 <= value(a) <= 24 * o,
            o > 0,
    ;
    assert((2 * n) * half() == n * o) by (nonlinear_arith)
        requires
            o == 2 * half(),
    ;
    values_are_ordered(b, single::ONE);
    values_are_ordered(single::ONE, b);
    let c = single::larger(b, single::ONE);
    if c == b {
        whole_count::<A>(b, n as u64);
    } else {
        whole_count::<A>(single::ONE, 1);
    }
}

/// A tap is the share of its sample in all samples of the Gaussian, up to rounding.
pub proof fn taps_are_shares_of_the_bell<A: Arithmetic>(sigma: u32, i: int)
    requires
        rounds::<A>(),
        computes_finely::<A>(),
        bells_ring::<A>(sigma),
        single::is_non_negative(sigma),
        single::less(sigma, BOX_CROSSOVER_SIGMA),
        0 <= i < 2 * reach::<A>(sigma) + 1,
    ensures
        ({
            let radius = reach::<A>(sigma);
            let all = exact_bells::<A>(sigma, radius, 2 * radius + 1);
            let (tap, b) = (taps::<A>(sigma)[i], value64(bell::<A>(sigma, radius, i)));
            &&& taps::<A>(sigma).len() == 2 * radius + 1
            &&& single::is_finite(tap)
            &&& all >= unit64()
            &&& apart((value(tap) * pow2(925)) * all, b * unit64()) * 0x10_0000 <= unit64() * all
        }),
{
    units();
    reach_is_short::<A>(sigma);
    let radius = reach::<A>(sigma);
    let n = 2 * radius + 1;
    bells_add_up::<A>(sigma, radius, n);
    let (b, s) = (bell::<A>(sigma, radius, i), bell_sum::<A>(sigma, radius, n));
    let (u, r, e) = (unit64(), pow2(925) as int, step64(128 * unit64()));
    let (all, sv, bv) = (exact_bells::<A>(sigma, radius, n), value64(s), value64(b));
    assert(n * e <= 64 * e && n * u <= 64 * u) by (nonlinear_arith)
        requires
            n <= 64,
            e > 0,
            u > 0,
    ;
    tap_is_close::<A>(b, s);
    let tap = taps::<A>(sigma)[i];
    let x = value(tap) * r;
    let f = step64(4 * u);
    let (xs, xa, drift) = (x * sv, x * all, x * (sv - all));
    assert(xs == xa + drift) by (nonlinear_arith)
        requires
            xs == x * sv,
            xa == x * all,
            drift == x * (sv - all),
    ;
    let ua = u * all;
    assert(apart(drift, 0) * 0x100_0000 <= ua) by (nonlinear_arith)
        requires
            drift == x * (sv - all),
            apart(x, 0) <= 4 * u,
            apart(sv, all) <= 64 * e,
            0x4_0000_0000 * e <= u,
            u <= all,
            ua == u * all,
            u > 0,
    ;
    assert((0x100_0000 * (r + f)) * sv <= 2 * ua) by (nonlinear_arith)
        requires
            0x1000_0000 * (r + f) <= u,
            0 < sv <= 2 * all,
            ua == u * all,
            r > 0,
            f > 0,
            u > 0,
    ;
    assert(0 <= bv * u <= ua) by (nonlinear_arith)
        requires
            0 <= bv <= u,
            u <= all,
            ua == u * all,
    ;
}

} // verus!
