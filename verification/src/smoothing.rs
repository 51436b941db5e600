//! What the guided filter keeps: the range of the window it reads.
//!
//! The tables of prefix sums round at every step, so a mean over a window is off by a part
//! of the largest sample that grows with the size of the image. The local models mix a
//! sample with means of its neighbours, in shares between zero and one.

use vstd::arithmetic::power2::{
    lemma2_to64, lemma2_to64_rest, lemma_pow2_adds, lemma_pow2_pos, lemma_pow2_strictly_increases,
    pow2,
};
use vstd::prelude::*;

use crate::arith::{
    minus64_of, minus_of, narrow_of, of_count64_of, over64_of, plus64_of, plus_of, times64_of,
    times_of, widen_of, Arithmetic,
};
use crate::denoise::{
    box_mean, column_sum, combined, denoised, denoised_channel, row_sums, self_model, self_models,
    smoothed_at, DenoiseParams,
};
use crate::double;
use crate::film_grain::{band_at, inner_radius, outer_radius, window_mean};
use crate::integral::{
    block_is_bounded, block_total, blocks_fit, columns_split, entry, high, is_bounded, low,
    measured, no_columns, row_is_bounded, row_prefix, row_sum, row_total, rows_split, summed,
    window_cells, window_total, Measure,
};
use crate::local_contrast::{
    contrasted, guided, model, model_at, offsets, slope, slopes, smoothed_by, variance_at,
    GuidedFilterParams,
};
use crate::raster::{channel_of, inside, tabulate2, tabulated, tabulated2, within, Lattice, Raster};
use crate::rounding::{
    apart, computes_exactly, computes_finely, count_exact64, half, half_is_positive, minus_off64,
    minus_rounds, narrow_off, negated_value, over_exact64, over_off64, over_shares64, plus_exact64,
    plus_grows64, plus_off64, plus_rounds, rounded_fine, rounds, singles_are_moderate,
    small_numbers, small_numbers64, step64, sums_exactly, times_off64, times_rounds, unit64, value,
    value64, values_are_ordered64, widen_exact,
};
use crate::single;

verus! {

/// How much a lattice has to add up: its cells, times its rows and columns.
pub open spec fn load(shape: (usize, usize)) -> int {
    (shape.0 * shape.1) * (shape.0 + shape.1)
}

/// What a table accumulates of a cell, as a whole number.
pub open spec fn cell<A: Arithmetic>(data: Lattice<u32>, measure: Measure) -> spec_fn(int, int) -> int {
    |j: int, i: int| value64(measured::<A>(measure, data.at(j, i)))
}

/// Whether a lattice is of a size, and what a table accumulates of its cells in a range,
/// for which sums go without overflow and are off by less than they hold.
spec fn is_moderate<A: Arithmetic>(data: Lattice<u32>, measure: Measure, c: int) -> bool {
    &&& load(data.shape) <= 0x2000_0000_0000
    &&& 0x1000_0000_0000_0000 <= c < pow2(1500)
    &&& is_bounded(cell::<A>(data, measure), data.shape, c)
    &&& forall|j: int, i: int|
        within(data.shape, j, i) ==> double::is_finite(
            measured::<A>(measure, #[trigger] data.at(j, i)),
        )
}

spec fn row_step(shape: (usize, usize), c: int) -> int {
    step64(2 * (shape.1 * c))
}

spec fn table_step(shape: (usize, usize), c: int) -> int {
    shape.1 * row_step(shape, c) + step64(2 * ((shape.0 * shape.1) * c))
}

/// A step of a large number is a small part of it.
proof fn large_step(m: int)
    requires
        m >= 0x1000_0000_0000_0000,
    ensures
        0 <= step64(m),
        step64(m) * 0x8_0000_0000_0000 <= m,
{
}

/// What the steps come to.
proof fn steps_are_small(shape: (usize, usize), c: int)
    requires
        shape.0 >= 1,
        shape.1 >= 1,
        load(shape) <= 0x2000_0000_0000,
        0x1000_0000_0000_0000 <= c < pow2(1500),
    ensures
        0 <= row_step(shape, c) <= c,
        0 <= step64(2 * ((shape.0 * shape.1) * c)),
        0 <= table_step(shape, c) <= shape.1 * c,
        (shape.0 * table_step(shape, c)) * 0x4_0000_0000_0000 <= c * load(shape),
        load(shape) >= 2,
        shape.0 * shape.1 <= 0x1000_0000_0000,
        c <= (shape.0 * shape.1) * c,
        16 * ((shape.0 * shape.1) * c) < pow2(2000),
{
    let (h, w) = (shape.0 as int, shape.1 as int);
    let (wc, n) = (w * c, h * w);
    let nc = n * c;
    let k = h + w;
    assert(n >= 1 && n >= w) by (nonlinear_arith)
        requires
            n == h * w,
            h >= 1,
            w >= 1,
    ;
    assert(n * k >= 2 * n && n * k >= k) by (nonlinear_arith)
        requires
            n >= 1,
            k >= 2,
    ;
    assert(wc >= c && nc >= c) by (nonlinear_arith)
        requires
            wc == w * c,
            nc == n * c,
            w >= 1,
            n >= 1,
            c >= 0,
    ;
    large_step(2 * wc);
    large_step(2 * nc);
    let (sr, st) = (row_step(shape, c), step64(2 * nc));
    assert(sr * 0x4_0000_0000_0000 <= wc && st * 0x4_0000_0000_0000 <= nc);
    assert(wc <= 0x2000_0000_0000 * c) by (nonlinear_arith)
        requires
            wc == w * c,
            w <= 0x2000_0000_0000,
            c >= 0,
    ;
    assert(0 <= w * sr && (w * sr) * 0x4_0000_0000_0000 <= w * wc) by (nonlinear_arith)
        requires
            0 <= sr,
            sr * 0x4_0000_0000_0000 <= wc,
            w >= 1,
    ;
    assert(nc == h * wc) by (nonlinear_arith)
        requires
            nc == n * c,
            n == h * w,
            wc == w * c,
    ;
    assert(w * wc + h * wc == k * wc) by (nonlinear_arith)
        requires
            k == h + w,
    ;
    assert(k * wc <= 0x2000_0000_0000 * wc) by (nonlinear_arith)
        requires
            k <= 0x2000_0000_0000,
            wc >= 0,
    ;
    let e = table_step(shape, c);
    assert(e * 0x4_0000_0000_0000 <= k * wc);
    assert((h * e) * 0x4_0000_0000_0000 <= h * (k * wc)) by (nonlinear_arith)
        requires
            e * 0x4_0000_0000_0000 <= k * wc,
            h >= 1,
    ;
    assert(h * (k * wc) == c * (n * k)) by (nonlinear_arith)
        requires
            wc == w * c,
            n == h * w,
    ;
    assert(nc <= 0x1000_0000_0000 * c) by (nonlinear_arith)
        requires
            nc == n * c,
            n <= 0x1000_0000_0000,
            c >= 0,
    ;
    lemma2_to64();
    lemma2_to64_rest();
    lemma_pow2_adds(64, 1500);
    lemma_pow2_strictly_increases(1564, 2000);
}

/// A prefix of a row is off by no more than a step for each cell.
proof fn prefix_is_close<A: Arithmetic>(
    data: Lattice<u32>,
    measure: Measure,
    c: int,
    y: int,
    n: int,
)
    requires
        computes_finely::<A>(),
        is_moderate::<A>(data, measure, c),
        0 <= y < data.shape.0,
        0 <= n <= data.shape.1,
        data.shape.1 >= 1,
    ensures
        double::is_finite(row_prefix::<A>(data, measure, y, n)),
        apart(
            value64(row_prefix::<A>(data, measure, y, n)),
            row_total(cell::<A>(data, measure), y, 0, n),
        ) <= n * row_step(data.shape, c),
    decreases n,
{
    let f = cell::<A>(data, measure);
    let s = row_step(data.shape, c);
    small_numbers64();
    if n > 0 {
        let w = data.shape.1 as int;
        prefix_is_close::<A>(data, measure, c, y, n - 1);
        steps_are_small(data.shape, c);
        assert(within(data.shape, y, n - 1));
        let x = measured::<A>(measure, data.at(y, n - 1));
        assert(f(y, n - 1) == value64(x));
        row_is_bounded(f, data.shape, c, y, 0, n);
        assert((n - 1) * s + s == n * s) by (nonlinear_arith);
        assert(n * s <= n * c && 0 <= (n - 1) * s) by (nonlinear_arith)
            requires
                0 <= s <= c,
                n >= 1,
        ;
        assert(c * n == n * c && n * c <= w * c) by (nonlinear_arith)
            requires
                n <= w,
                c >= 0,
        ;
        assert(w * c <= (data.shape.0 * w) * c) by (nonlinear_arith)
            requires
                data.shape.0 >= 1,
                w >= 1,
                c >= 0,
        ;
        plus_off64::<A>(row_prefix::<A>(data, measure, y, n - 1), x, 2 * (w * c));
    } else {
        assert(0 * s == 0) by (nonlinear_arith);
    }
}

/// An entry of a table is off by no more than its rows' share.
proof fn entry_is_close<A: Arithmetic>(
    data: Lattice<u32>,
    measure: Measure,
    c: int,
    y: int,
    x: int,
)
    requires
        computes_finely::<A>(),
        is_moderate::<A>(data, measure, c),
        within(data.shape, y, x),
    ensures
        double::is_finite(entry::<A>(data, measure, y, x)),
        apart(
            value64(entry::<A>(data, measure, y, x)),
            block_total(cell::<A>(data, measure), 0, y + 1, 0, x + 1),
        ) <= (y + 1) * table_step(data.shape, c),
    decreases y,
{
    let f = cell::<A>(data, measure);
    let (h, w) = (data.shape.0 as int, data.shape.1 as int);
    let (s, t) = (row_step(data.shape, c), step64(2 * ((h * w) * c)));
    let e = table_step(data.shape, c);
    steps_are_small(data.shape, c);
    prefix_is_close::<A>(data, measure, c, y, x + 1);
    assert((x + 1) * s <= w * s) by (nonlinear_arith)
        requires
            x + 1 <= w,
            0 <= s,
    ;
    reveal_with_fuel(block_total, 2);
    assert(y * e + e == (y + 1) * e && 0 <= y * e) by (nonlinear_arith)
        requires
            0 <= y,
            0 <= e,
    ;
    if y > 0 {
        entry_is_close::<A>(data, measure, c, y - 1, x);
        block_is_bounded(f, data.shape, c, 0, y + 1, 0, x + 1);
        blocks_fit(data.shape, c, y + 1, x + 1);
        assert((y + 1) * e <= h * (w * c)) by (nonlinear_arith)
            requires
                0 <= y + 1 <= h,
                0 <= e <= w * c,
        ;
        assert(h * (w * c) == (h * w) * c && c * (h * w) == (h * w) * c) by (nonlinear_arith);
        plus_off64::<A>(
            row_prefix::<A>(data, measure, y, x + 1),
            entry::<A>(data, measure, y - 1, x),
            2 * ((h * w) * c),
        );
    }
}

/// A corner of a window in a table.
proof fn corner_is_close<A: Arithmetic>(
    data: Lattice<u32>,
    measure: Measure,
    c: int,
    m: int,
    n: int,
) -> (k: u64)
    requires
        computes_finely::<A>(),
        is_moderate::<A>(data, measure, c),
        data.shape.0 >= 1,
        data.shape.1 >= 1,
        0 <= m <= data.shape.0,
        0 <= n <= data.shape.1,
    ensures
        k == (if m > 0 && n > 0 {
            summed::<A>(data, measure).at(m - 1, n - 1)
        } else {
            0
        }),
        double::is_finite(k),
        apart(value64(k), block_total(cell::<A>(data, measure), 0, m, 0, n)) <= data.shape.0
            * table_step(data.shape, c),
{
    let h = data.shape.0 as int;
    let e = table_step(data.shape, c);
    steps_are_small(data.shape, c);
    small_numbers64();
    assert(0 <= m * e <= h * e) by (nonlinear_arith)
        requires
            0 <= m <= h,
            0 <= e,
    ;
    if m > 0 && n > 0 {
        tabulated2(data.shape, |j: int, i: int| entry::<A>(data, measure, j, i));
        entry_is_close::<A>(data, measure, c, m - 1, n - 1);
        assert(within(data.shape, m - 1, n - 1));
        summed::<A>(data, measure).at(m - 1, n - 1)
    } else {
        if n <= 0 {
            no_columns(cell::<A>(data, measure), 0, m);
        }
        0
    }
}

/// The sum of the window of radius `r` around a cell.
pub open spec fn window_block(
    f: spec_fn(int, int) -> int,
    shape: (usize, usize),
    y: int,
    x: int,
    r: int,
) -> int {
    block_total(
        f,
        low(y, r),
        high(y, r, shape.0 as int) - low(y, r) + 1,
        low(x, r),
        high(x, r, shape.1 as int) - low(x, r) + 1,
    )
}

/// Four corners add up to within their own errors and three steps.
proof fn corners_add_up<A: Arithmetic>(
    br: u64,
    whole: int,
    tr: u64,
    above: int,
    bl: u64,
    left: int,
    tl: u64,
    both: int,
    nc: int,
    e: int,
)
    requires
        computes_finely::<A>(),
        double::is_finite(br),
        double::is_finite(tr),
        double::is_finite(bl),
        double::is_finite(tl),
        0 <= e <= nc,
        0x1000_0000_0000_0000 <= nc,
        16 * nc < pow2(2000),
        apart(whole, 0) <= nc,
        apart(above, 0) <= nc,
        apart(left, 0) <= nc,
        apart(both, 0) <= nc,
        apart(value64(br), whole) <= e,
        apart(value64(tr), above) <= e,
        apart(value64(bl), left) <= e,
        apart(value64(tl), both) <= e,
    ensures
        ({
            let total = plus64_of::<A>(minus64_of::<A>(minus64_of::<A>(br, tr), bl), tl);
            &&& double::is_finite(total)
            &&& apart(value64(total), whole - above - left + both) * 0x4_0000_0000_0000 <= 4 * (e
                * 0x4_0000_0000_0000) + 24 * nc
        }),
{
    let s = step64(16 * nc);
    large_step(16 * nc);
    close_stays_bounded(value64(br), whole, nc, e);
    close_stays_bounded(value64(tr), above, nc, e);
    close_stays_bounded(value64(bl), left, nc, e);
    close_stays_bounded(value64(tl), both, nc, e);
    minus_off64::<A>(br, tr, 16 * nc);
    let first = minus64_of::<A>(br, tr);
    close_stays_bounded(value64(first), value64(br) - value64(tr), 4 * nc, s);
    errors_add_up(value64(first), value64(br), whole, value64(tr), above, s, e, e);
    minus_off64::<A>(first, bl, 16 * nc);
    let second = minus64_of::<A>(first, bl);
    close_stays_bounded(value64(second), value64(first) - value64(bl), 7 * nc, s);
    errors_add_up(
        value64(second),
        value64(first),
        whole - above,
        value64(bl),
        left,
        s,
        s + 2 * e,
        e,
    );
    plus_off64::<A>(second, tl, 16 * nc);
    let total = plus64_of::<A>(second, tl);
    errors_add_up(
        value64(total),
        value64(second),
        whole - above - left,
        -value64(tl),
        -both,
        s,
        2 * s + 3 * e,
        e,
    );
}

proof fn close_stays_bounded(a: int, b: int, m: int, e: int)
    requires
        apart(b, 0) <= m,
        apart(a, b) <= e,
    ensures
        -(m + e) <= a <= m + e,
        apart(a, 0) <= m + e,
{
}

proof fn errors_add_up(r: int, a: int, p: int, b: int, q: int, s: int, e: int, f: int)
    requires
        apart(r, a - b) <= s,
        apart(a, p) <= e,
        apart(b, q) <= f,
    ensures
        apart(r, p - q) <= s + e + f,
{
}

/// The four corners of a table give the sum of a window, off by a part of the largest cell.
proof fn total_is_close<A: Arithmetic>(
    data: Lattice<u32>,
    measure: Measure,
    c: int,
    y: int,
    x: int,
    r: int,
)
    requires
        computes_finely::<A>(),
        is_moderate::<A>(data, measure, c),
        within(data.shape, y, x),
        0 <= r,
    ensures
        double::is_finite(window_total::<A>(summed::<A>(data, measure), y, x, r)),
        apart(
            value64(window_total::<A>(summed::<A>(data, measure), y, x, r)),
            window_block(cell::<A>(data, measure), data.shape, y, x, r),
        ) * 0x4000_0000_0000 <= c * load(data.shape),
{
    let f = cell::<A>(data, measure);
    let (h, w) = (data.shape.0 as int, data.shape.1 as int);
    let (y1, y2) = (low(y, r), high(y, r, h));
    let (x1, x2) = (low(x, r), high(x, r, w));
    let (m, n) = (y2 - y1 + 1, x2 - x1 + 1);
    steps_are_small(data.shape, c);
    let br = corner_is_close::<A>(data, measure, c, y1 + m, x1 + n);
    let tr = corner_is_close::<A>(data, measure, c, y1, x1 + n);
    let bl = corner_is_close::<A>(data, measure, c, y1 + m, x1);
    let tl = corner_is_close::<A>(data, measure, c, y1, x1);
    rows_split(f, y1, m, 0, x1 + n);
    columns_split(f, y1, m, x1, n);
    rows_split(f, y1, m, 0, x1);
    let nc = (h * w) * c;
    assert(c * (h * w) == nc) by (nonlinear_arith)
        requires
            nc == (h * w) * c,
    ;
    block_is_bounded(f, data.shape, c, 0, y1 + m, 0, x1 + n);
    blocks_fit(data.shape, c, y1 + m, x1 + n);
    block_is_bounded(f, data.shape, c, 0, y1, 0, x1 + n);
    blocks_fit(data.shape, c, y1, x1 + n);
    block_is_bounded(f, data.shape, c, 0, y1 + m, 0, x1);
    blocks_fit(data.shape, c, y1 + m, x1);
    block_is_bounded(f, data.shape, c, 0, y1, 0, x1);
    blocks_fit(data.shape, c, y1, x1);
    let e = h * table_step(data.shape, c);
    assert(0 <= e <= nc) by (nonlinear_arith)
        requires
            e == h * table_step(data.shape, c),
            nc == (h * w) * c,
            0 <= table_step(data.shape, c) <= w * c,
            h >= 1,
    ;
    corners_add_up::<A>(
        br,
        block_total(f, 0, y1 + m, 0, x1 + n),
        tr,
        block_total(f, 0, y1, 0, x1 + n),
        bl,
        block_total(f, 0, y1 + m, 0, x1),
        tl,
        block_total(f, 0, y1, 0, x1),
        nc,
        e,
    );
    let total = plus64_of::<A>(minus64_of::<A>(minus64_of::<A>(br, tr), bl), tl);
    assert(window_total::<A>(summed::<A>(data, measure), y, x, r) == total);
    let (l, k) = (c * load(data.shape), h + w);
    assert(2 * nc <= l) by (nonlinear_arith)
        requires
            l == c * ((h * w) * k),
            nc == (h * w) * c,
            k >= 2,
            nc >= 0,
    ;
}

/// A sum over a window, close to what the window holds, gives a mean as close.
proof fn quotient_is_close<A: Arithmetic>(
    data: Lattice<u32>,
    measure: Measure,
    c: int,
    y: int,
    x: int,
    r: int,
    total: u64,
)
    requires
        computes_finely::<A>(),
        computes_exactly::<A>(),
        is_moderate::<A>(data, measure, c),
        within(data.shape, y, x),
        0 <= r,
        double::is_finite(total),
        apart(
            value64(total),
            window_block(cell::<A>(data, measure), data.shape, y, x, r),
        ) * 0x4000_0000_0000 <= c * load(data.shape),
    ensures
        ({
            let cells = window_cells(data.shape.0 as int, data.shape.1 as int, y, x, r);
            let mean = over64_of::<A>(total, of_count64_of::<A>(cells as u64));
            let block = window_block(cell::<A>(data, measure), data.shape, y, x, r);
            &&& double::is_finite(mean)
            &&& cells >= 1
            &&& apart(value64(mean) * cells, block) * 0x2000_0000_0000 <= (c * load(data.shape))
                * cells
            &&& -2 * c <= value64(mean) <= 2 * c
        }),
{
    let f = cell::<A>(data, measure);
    let (h, w) = (data.shape.0 as int, data.shape.1 as int);
    let (y1, y2) = (low(y, r), high(y, r, h));
    let (x1, x2) = (low(x, r), high(x, r, w));
    let (m, n) = (y2 - y1 + 1, x2 - x1 + 1);
    let cells = m * n;
    steps_are_small(data.shape, c);
    let block = window_block(f, data.shape, y, x, r);
    block_is_bounded(f, data.shape, c, y1, m, x1, n);
    assert(1 <= cells <= h * w) by (nonlinear_arith)
        requires
            cells == m * n,
            1 <= m <= h,
            1 <= n <= w,
    ;
    let (l, g) = (c * load(data.shape), load(data.shape));
    assert(c <= l <= 0x2000_0000_0000 * c) by (nonlinear_arith)
        requires
            l == c * g,
            2 <= g <= 0x2000_0000_0000,
            c >= 0,
    ;
    let u = unit64();
    small_numbers64();
    count_exact64::<A>(cells as u64);
    let k = of_count64_of::<A>(cells as u64);
    assert(c <= c * cells && l <= l * cells && c * cells <= l * cells) by (nonlinear_arith)
        requires
            0 <= c <= l,
            cells >= 1,
    ;
    assert(cells * u > 0) by (nonlinear_arith)
        requires
            cells >= 1,
            u > 0,
    ;
    let t = value64(total);
    assert(apart(t, 0) <= 2 * (c * cells));
    assert(apart(t * u, 0) <= (2 * c) * (cells * u)) by (nonlinear_arith)
        requires
            apart(t, 0) <= 2 * (c * cells),
            u > 0,
    ;
    over_off64::<A>(total, k, 2 * c);
    let mean = over64_of::<A>(total, k);
    assert(window_cells(h, w, y, x, r) == cells);
    let (v, s) = (value64(mean), step64(2 * c));
    assert(apart(v * cells, t) <= s * cells) by (nonlinear_arith)
        requires
            apart(v * (cells * u), t * u) <= s * (cells * u),
            u > 0,
    ;
    large_step(2 * c);
    assert((s * cells) * 0x4_0000_0000_0000 <= c * cells) by (nonlinear_arith)
        requires
            s * 0x8_0000_0000_0000 <= 2 * c,
            cells >= 1,
    ;
    assert(apart(v * cells, block) * 0x2000_0000_0000 <= l * cells);
    assert(-2 * c <= v <= 2 * c) by (nonlinear_arith)
        requires
            -(2 * (c * cells)) <= v * cells <= 2 * (c * cells),
            cells >= 1,
    ;
}

/// The mean over a window is off by a part of the largest cell.
proof fn mean_is_close<A: Arithmetic>(
    data: Lattice<u32>,
    measure: Measure,
    c: int,
    y: int,
    x: int,
    r: int,
)
    requires
        computes_finely::<A>(),
        computes_exactly::<A>(),
        is_moderate::<A>(data, measure, c),
        within(data.shape, y, x),
        0 <= r,
    ensures
        ({
            let mean = window_mean::<A>(summed::<A>(data, measure), y, x, r);
            let cells = window_cells(data.shape.0 as int, data.shape.1 as int, y, x, r);
            let block = window_block(cell::<A>(data, measure), data.shape, y, x, r);
            &&& double::is_finite(mean)
            &&& cells >= 1
            &&& apart(value64(mean) * cells, block) * 0x2000_0000_0000 <= (c * load(data.shape))
                * cells
            &&& -2 * c <= value64(mean) <= 2 * c
        }),
{
    total_is_close::<A>(data, measure, c, y, x, r);
    let total = window_total::<A>(summed::<A>(data, measure), y, x, r);
    quotient_is_close::<A>(data, measure, c, y, x, r, total);
}

/// Sizes of the units that the bounds below need.
proof fn unit_sizes()
    ensures
        pow2(925) >= 0x1000_0000_0000_0000,
        unit64() >= 0x8_0000_0000_0000 * pow2(925),
        unit64() < pow2(1201),
        unit64() < pow2(1400),
        16 * pow2(1400) <= pow2(1500),
        pow2(1500) < pow2(2000),
{
    lemma2_to64();
    lemma2_to64_rest();
    lemma_pow2_adds(64, 861);
    lemma_pow2_pos(861);
    lemma_pow2_adds(51, 925);
    lemma_pow2_strictly_increases(976, 1074);
    lemma_pow2_strictly_increases(1074, 1201);
    lemma_pow2_strictly_increases(1074, 1400);
    lemma_pow2_adds(4, 1400);
    lemma_pow2_strictly_increases(1404, 1500);
    lemma_pow2_strictly_increases(1500, 2000);
}

/// The slope of a local model is a share: between zero and one.
proof fn slope_is_a_share<A: Arithmetic>(mean: u64, mean_square: u64, eps: u64)
    requires
        computes_finely::<A>(),
        double::is_finite(mean),
        double::is_finite(mean_square),
        double::is_finite(eps),
        apart(value64(mean) * value64(mean), 0) <= pow2(1400) * unit64(),
        apart(value64(mean_square), 0) <= pow2(1400),
        0 <= value64(eps) <= pow2(1400),
    ensures
        double::is_finite(slope::<A>(mean, mean_square, eps)),
        0 <= value64(slope::<A>(mean, mean_square, eps)) <= unit64(),
{
    let (p, u) = (pow2(1400) as int, unit64());
    unit_sizes();
    small_numbers64();
    times_off64::<A>(mean, mean, p);
    let square = times64_of::<A>(mean, mean);
    let (q, n) = (value64(square), value64(mean) * value64(mean));
    let s = step64(p);
    assert(apart(q, 0) <= 2 * p) by (nonlinear_arith)
        requires
            apart(q * u, n) <= s * u,
            apart(n, 0) <= p * u,
            0 <= s <= p,
            u > 0,
    ;
    minus_off64::<A>(mean_square, square, 3 * p);
    let difference = minus64_of::<A>(mean_square, square);
    close_stays_bounded(value64(difference), value64(mean_square) - q, 3 * p, step64(3 * p));
    values_are_ordered64(0, difference);
    let var = double::larger(difference, 0);
    assert(double::is_finite(var) && 0 <= value64(var) <= 4 * p);
    plus_off64::<A>(var, eps, 5 * p);
    let denom = plus64_of::<A>(var, eps);
    plus_grows64::<A>(var, eps);
    values_are_ordered64(0, denom);
    if double::less(0, denom) {
        over_shares64::<A>(var, denom);
    }
}

/// A local model in single precision at a number `i`: the number and the mean, mixed by
/// the slope in double precision.
proof fn model_mixes<A: Arithmetic>(mean: u64, mean_square: u64, eps: u64, c: int, i: int)
    requires
        computes_finely::<A>(),
        double::is_finite(mean),
        pow2(925) <= c < pow2(1196),
        -2 * c <= value64(mean) <= 2 * c,
        -c <= i <= c,
        double::is_finite(slope::<A>(mean, mean_square, eps)),
        0 <= value64(slope::<A>(mean, mean_square, eps)) <= unit64(),
    ensures
        ({
            let m = model::<A>(mean, mean_square, eps);
            let (a, b) = (value(m.0) * pow2(925), value(m.1) * pow2(925));
            let share = value64(slope::<A>(mean, mean_square, eps));
            let u = unit64();
            &&& single::is_finite(m.0) && -2 * u <= a <= 2 * u
            &&& single::is_finite(m.1) && -8 * c <= b <= 8 * c
            &&& apart(a * i + b * u, share * i + (u - share) * value64(mean)) * 0x80_0000 <= u * (10
                * c + 0x80_0000 * pow2(925))
        }),
{
    let (u, r) = (unit64(), pow2(925) as int);
    unit_sizes();
    small_numbers64();
    lemma2_to64();
    lemma_pow2_adds(4, 1196);
    lemma_pow2_strictly_increases(1200, 1201);
    lemma_pow2_strictly_increases(1201, 2000);
    let x = slope::<A>(mean, mean_square, eps);
    let (share, v) = (value64(x), value64(mean));
    narrow_off::<A>(x);
    let a = value(narrow_of::<A>(x)) * r;
    assert(apart(a, share) * 0x40_0000 <= u);
    minus_off64::<A>(double::ONE, x, u);
    let rest = minus64_of::<A>(double::ONE, x);
    let (t, s) = (value64(rest), step64(u));
    large_step(u);
    assert(apart(t, u - share) <= s);
    mixed_product(v, t, u, share, s, 2 * c);
    times_off64::<A>(mean, rest, 4 * c);
    let product = times64_of::<A>(mean, rest);
    let p = value64(product);
    large_step(4 * c);
    let z = step64(4 * c);
    assert(apart(p * u, v * t) <= z * u);
    mixed_offset(p, v, t, u, share, z, c);
    narrow_off::<A>(product);
    let b = value(narrow_of::<A>(product)) * r;
    mixed_model(a, b, p, share, v, i, u, r, c);
}

/// The product of the mean and the rest of the share.
proof fn mixed_product(v: int, t: int, u: int, share: int, s: int, m: int)
    requires
        -m <= v <= m,
        apart(t, u - share) <= s,
        0 <= share <= u,
        0 <= s <= u,
        u > 0,
        s * 0x8_0000_0000_0000 <= u,
    ensures
        apart(v * t, 0) <= (2 * m) * u,
        apart(v * t, v * (u - share)) * 0x8_0000_0000_0000 <= m * u,
{
    let d = t - (u - share);
    assert(v * t == v * (u - share) + v * d) by (nonlinear_arith)
        requires
            d == t - (u - share),
    ;
    assert(-(m * s) <= v * d <= m * s) by (nonlinear_arith)
        requires
            -m <= v <= m,
            -s <= d <= s,
    ;
    assert(-(m * u) <= v * (u - share) <= m * u) by (nonlinear_arith)
        requires
            -m <= v <= m,
            0 <= share <= u,
    ;
    assert((m * s) * 0x8_0000_0000_0000 <= m * u) by (nonlinear_arith)
        requires
            m >= 0,
            s * 0x8_0000_0000_0000 <= u,
    ;
    assert(m * s <= m * u) by (nonlinear_arith)
        requires
            m >= 0,
            s <= u,
    ;
    assert((2 * m) * u == m * u + m * u) by (nonlinear_arith);
}

/// The offset before it is narrowed.
proof fn mixed_offset(p: int, v: int, t: int, u: int, share: int, z: int, c: int)
    requires
        u > 0,
        c > 0,
        0 <= share <= u,
        -2 * c <= v <= 2 * c,
        apart(p * u, v * t) <= z * u,
        z * 0x8_0000_0000_0000 <= 4 * c,
        0 <= z,
        apart(v * t, v * (u - share)) * 0x8_0000_0000_0000 <= (2 * c) * u,
    ensures
        apart(p * u, v * (u - share)) * 0x8_0000_0000_0000 <= 6 * (c * u),
        -4 * c <= p <= 4 * c,
{
    assert((z * u) * 0x8_0000_0000_0000 <= 4 * (c * u)) by (nonlinear_arith)
        requires
            z * 0x8_0000_0000_0000 <= 4 * c,
            u > 0,
    ;
    assert((2 * c) * u == 2 * (c * u)) by (nonlinear_arith);
    assert(-(2 * (c * u)) <= v * (u - share) <= 2 * (c * u)) by (nonlinear_arith)
        requires
            -2 * c <= v <= 2 * c,
            0 <= share <= u,
            c > 0,
    ;
    assert(c * u > 0) by (nonlinear_arith)
        requires
            c > 0,
            u > 0,
    ;
    assert(-(4 * (c * u)) <= p * u <= 4 * (c * u));
    assert(-4 * c <= p <= 4 * c) by (nonlinear_arith)
        requires
            -(4 * (c * u)) <= p * u <= 4 * (c * u),
            u > 0,
    ;
}

/// The model at a number.
proof fn mixed_model(a: int, b: int, p: int, share: int, v: int, i: int, u: int, r: int, c: int)
    requires
        u > 0,
        0 < r <= c,
        0 <= share <= u,
        -c <= i <= c,
        -4 * c <= p <= 4 * c,
        apart(a, share) * 0x40_0000 <= u,
        apart(b, p) * 0x80_0000 <= apart(p, 0) + 0x80_0000 * r,
        apart(p * u, v * (u - share)) * 0x8_0000_0000_0000 <= 6 * (c * u),
    ensures
        -2 * u <= a <= 2 * u,
        -8 * c <= b <= 8 * c,
        apart(a * i + b * u, share * i + (u - share) * v) * 0x80_0000 <= u * (10 * c + 0x80_0000
            * r),
{
    let (da, db) = (a - share, b - p);
    assert(a * i == share * i + da * i) by (nonlinear_arith)
        requires
            da == a - share,
    ;
    assert(b * u == p * u + db * u) by (nonlinear_arith)
        requires
            db == b - p,
    ;
    assert(-(c * u) <= (da * i) * 0x40_0000 <= c * u) by (nonlinear_arith)
        requires
            -u <= da * 0x40_0000 <= u,
            -c <= i <= c,
    ;
    assert(-(4 * (c * u) + 0x80_0000 * (r * u)) <= (db * u) * 0x80_0000 <= 4 * (c * u) + 0x80_0000
        * (r * u)) by (nonlinear_arith)
        requires
            -(4 * c + 0x80_0000 * r) <= db * 0x80_0000 <= 4 * c + 0x80_0000 * r,
            u > 0,
    ;
    assert(c * u > 0) by (nonlinear_arith)
        requires
            c > 0,
            u > 0,
    ;
    assert(v * (u - share) == (u - share) * v) by (nonlinear_arith);
    assert(u * (10 * c + 0x80_0000 * r) == 10 * (c * u) + 0x80_0000 * (r * u)) by (nonlinear_arith);
}

/// The sum of a block lies between as many of the least and of the largest of its cells.
proof fn row_in_range(f: spec_fn(int, int) -> int, y: int, x1: int, n: int, lo: int, hi: int)
    requires
        0 <= n,
        forall|i: int| x1 <= i < x1 + n ==> lo <= #[trigger] f(y, i) <= hi,
    ensures
        lo * n <= row_total(f, y, x1, n) <= hi * n,
    decreases n,
{
    if n > 0 {
        row_in_range(f, y, x1, n - 1, lo, hi);
        assert(lo <= f(y, x1 + n - 1) <= hi);
        assert(lo * n == lo * (n - 1) + lo && hi * n == hi * (n - 1) + hi) by (nonlinear_arith);
    } else {
        assert(lo * 0 == 0 && hi * 0 == 0) by (nonlinear_arith);
    }
}

proof fn block_in_range(
    f: spec_fn(int, int) -> int,
    y1: int,
    m: int,
    x1: int,
    n: int,
    lo: int,
    hi: int,
)
    requires
        0 <= m,
        0 <= n,
        forall|j: int, i: int|
            y1 <= j < y1 + m && x1 <= i < x1 + n ==> lo <= #[trigger] f(j, i) <= hi,
    ensures
        lo * (m * n) <= block_total(f, y1, m, x1, n) <= hi * (m * n),
    decreases m,
{
    if m > 0 {
        block_in_range(f, y1, m - 1, x1, n, lo, hi);
        row_in_range(f, y1 + m - 1, x1, n, lo, hi);
        assert(lo * (m * n) == lo * ((m - 1) * n) + lo * n) by (nonlinear_arith);
        assert(hi * (m * n) == hi * ((m - 1) * n) + hi * n) by (nonlinear_arith);
    } else {
        assert(lo * (0 * n) == 0 && hi * (0 * n) == 0) by (nonlinear_arith);
    }
}

/// Two lattices of whole numbers, the first `p` times and the second `q` times.
spec fn mixed(f: spec_fn(int, int) -> int, p: int, g: spec_fn(int, int) -> int, q: int) -> spec_fn(
    int,
    int,
) -> int {
    |j: int, i: int| f(j, i) * p + g(j, i) * q
}

proof fn row_is_linear(
    f: spec_fn(int, int) -> int,
    p: int,
    g: spec_fn(int, int) -> int,
    q: int,
    y: int,
    x1: int,
    n: int,
)
    requires
        0 <= n,
    ensures
        row_total(mixed(f, p, g, q), y, x1, n) == row_total(f, y, x1, n) * p + row_total(
            g,
            y,
            x1,
            n,
        ) * q,
    decreases n,
{
    if n > 0 {
        row_is_linear(f, p, g, q, y, x1, n - 1);
        let (a, b) = (row_total(f, y, x1, n - 1), row_total(g, y, x1, n - 1));
        let (c, d) = (f(y, x1 + n - 1), g(y, x1 + n - 1));
        assert((a + c) * p + (b + d) * q == (a * p + b * q) + (c * p + d * q)) by (nonlinear_arith);
    } else {
        assert(0 * p + 0 * q == 0) by (nonlinear_arith);
    }
}

proof fn block_is_linear(
    f: spec_fn(int, int) -> int,
    p: int,
    g: spec_fn(int, int) -> int,
    q: int,
    y1: int,
    m: int,
    x1: int,
    n: int,
)
    requires
        0 <= m,
        0 <= n,
    ensures
        block_total(mixed(f, p, g, q), y1, m, x1, n) == block_total(f, y1, m, x1, n) * p
            + block_total(g, y1, m, x1, n) * q,
    decreases m,
{
    if m > 0 {
        block_is_linear(f, p, g, q, y1, m - 1, x1, n);
        row_is_linear(f, p, g, q, y1 + m - 1, x1, n);
        let (a, b) = (block_total(f, y1, m - 1, x1, n), block_total(g, y1, m - 1, x1, n));
        let (c, d) = (row_total(f, y1 + m - 1, x1, n), row_total(g, y1 + m - 1, x1, n));
        assert((a + c) * p + (b + d) * q == (a * p + b * q) + (c * p + d * q)) by (nonlinear_arith);
    } else {
        assert(0 * p + 0 * q == 0) by (nonlinear_arith);
    }
}

/// A mix of a number and a mean in one range stays in it.
proof fn mixes_stay(
    mix: int,
    share: int,
    i: int,
    v: int,
    u: int,
    lo: int,
    hi: int,
    l: int,
    d: int,
)
    requires
        u > 0,
        0 <= share <= u,
        lo <= i <= hi,
        l >= 0,
        lo * 0x2000_0000_0000 - l <= v * 0x2000_0000_0000 <= hi * 0x2000_0000_0000 + l,
        apart(mix, share * i + (u - share) * v) * 0x80_0000 <= u * d,
    ensures
        u * (lo * 0x2000_0000_0000 - l - 0x40_0000 * d) <= mix * 0x2000_0000_0000 <= u * (hi
            * 0x2000_0000_0000 + l + 0x40_0000 * d),
{
    let k = 0x2000_0000_0000int;
    assert(share * lo <= share * i <= share * hi) by (nonlinear_arith)
        requires
            lo <= i <= hi,
            0 <= share,
    ;
    let rest = u - share;
    let (bottom, top) = (lo * k - l, hi * k + l);
    assert(rest * bottom <= (rest * v) * k <= rest * top) by (nonlinear_arith)
        requires
            bottom <= v * k <= top,
            0 <= rest,
    ;
    assert(share * bottom <= (share * lo) * k && (share * hi) * k <= share * top) by (nonlinear_arith)
        requires
            bottom == lo * k - l,
            top == hi * k + l,
            0 <= share,
            l >= 0,
    ;
    assert(share * bottom + rest * bottom == u * bottom && share * top + rest * top == u * top)
        by (nonlinear_arith)
        requires
            rest == u - share,
    ;
    assert(u * (bottom - 0x40_0000 * d) == u * bottom - 0x40_0000 * (u * d)) by (nonlinear_arith);
    assert(u * (top + 0x40_0000 * d) == u * top + 0x40_0000 * (u * d)) by (nonlinear_arith);
}

/// Whether a lattice is of a size, and its samples in a range, for which the filter goes
/// without overflow and its rounding does not drown what it computes.
pub open spec fn is_fit(data: Lattice<u32>, b: int) -> bool {
    &&& load(data.shape) <= 0x2000_0000_0000
    &&& 1 <= b < pow2(271)
    &&& forall|j: int, i: int|
        within(data.shape, j, i) ==> single::is_finite(#[trigger] data.at(j, i)) && -b <= value(
            data.at(j, i),
        ) <= b
}

/// Whether the samples no more than `r` rows and columns from a place lie in a range.
pub open spec fn spans(data: Lattice<u32>, y: int, x: int, r: int, lo: int, hi: int) -> bool {
    forall|j: int, i: int|
        within(data.shape, j, i) && y - r <= j <= y + r && x - r <= i <= x + r ==> lo <= value(
            #[trigger] data.at(j, i),
        ) <= hi
}

/// A fit lattice is moderate, and so are its squares.
proof fn fit_is_moderate<A: Arithmetic>(data: Lattice<u32>, b: int)
    requires
        computes_finely::<A>(),
        computes_exactly::<A>(),
        is_fit(data, b),
    ensures
        pow2(925) <= b * pow2(925) < pow2(1196),
        is_moderate::<A>(data, Measure::Value, b * pow2(925)),
        is_moderate::<A>(data, Measure::Square, pow2(1390) as int),
        (2 * (b * pow2(925))) * (2 * (b * pow2(925))) <= pow2(1400) * unit64(),
        2 * pow2(1390) <= pow2(1400),
        pow2(1202) < pow2(1400),
{
    let (r, c, u) = (pow2(925) as int, b * pow2(925), unit64());
    unit_sizes();
    small_numbers64();
    lemma2_to64();
    lemma2_to64_rest();
    lemma_pow2_adds(271, 925);
    let t = pow2(271) as int;
    assert(r <= c < t * r) by (nonlinear_arith)
        requires
            c == b * r,
            1 <= b < t,
            r > 0,
    ;
    lemma_pow2_strictly_increases(1196, 1500);
    lemma_pow2_strictly_increases(1390, 1500);
    lemma_pow2_strictly_increases(1202, 1400);
    lemma_pow2_strictly_increases(1500, 2000);
    lemma_pow2_strictly_increases(64, 1389);
    lemma_pow2_adds(1, 1389);
    lemma_pow2_adds(10, 1390);
    lemma_pow2_adds(1196, 1196);
    lemma_pow2_adds(1389, 1074);
    lemma_pow2_adds(1400, 1074);
    lemma_pow2_strictly_increases(2392, 2463);
    lemma_pow2_adds(2, 2392);
    lemma_pow2_strictly_increases(2394, 2474);
    let (k, p) = (pow2(1196) as int, pow2(1389) as int);
    assert(c * c <= k * k) by (nonlinear_arith)
        requires
            0 <= c < k,
    ;
    assert((2 * c) * (2 * c) == 4 * (c * c)) by (nonlinear_arith);
    assert forall|j: int, i: int| within(data.shape, j, i) implies {
        let v = #[trigger] data.at(j, i);
        &&& double::is_finite(measured::<A>(Measure::Value, v))
        &&& double::is_finite(measured::<A>(Measure::Square, v))
        &&& -c <= value64(measured::<A>(Measure::Value, v)) <= c
        &&& -2 * p <= value64(measured::<A>(Measure::Square, v)) <= 2 * p
    } by {
        let v = data.at(j, i);
        widen_exact::<A>(v);
        let d = widen_of::<A>(v);
        let (n, x) = (value(v), value64(d));
        assert(-c <= n * r <= c) by (nonlinear_arith)
            requires
                -b <= n <= b,
                r > 0,
                c == b * r,
        ;
        assert(0 <= x * x <= c * c) by (nonlinear_arith)
            requires
                -c <= x <= c,
        ;
        times_off64::<A>(d, d, p);
        let q = value64(times64_of::<A>(d, d));
        let s = step64(p);
        assert(0 <= s <= p);
        assert(-(2 * p) <= q <= 2 * p) by (nonlinear_arith)
            requires
                apart(q * u, x * x) <= s * u,
                0 <= x * x <= p * u,
                0 <= s <= p,
                u > 0,
        ;
    }
    let (f, g) = (cell::<A>(data, Measure::Value), cell::<A>(data, Measure::Square));
    assert forall|j: int, i: int| within(data.shape, j, i) implies -c <= #[trigger] f(j, i) <= c by {
        let _ = data.at(j, i);
    }
    assert forall|j: int, i: int| within(data.shape, j, i) implies -(2 * p) <= #[trigger] g(j, i)
        <= 2 * p by {
        let _ = data.at(j, i);
    }
}

/// What rounding can add to a model.
spec fn leeway(b: int, shape: (usize, usize)) -> int {
    (b * pow2(925)) * load(shape) + 0x40_0000 * (10 * (b * pow2(925)) + 0x80_0000 * pow2(925))
}

/// Whether the model of a cell, at a number, is in a range up to the leeway.
spec fn model_is_in<A: Arithmetic>(
    data: Lattice<u32>,
    b: int,
    r: int,
    eps: u32,
    y: int,
    x: int,
    at: int,
    lo: int,
    hi: int,
) -> bool {
    let m = model_at::<A>(data, r, widen_of::<A>(eps), y, x);
    let (k, d) = (value(m.0) * pow2(925), value(m.1) * pow2(925));
    let (u, w) = (unit64(), leeway(b, data.shape));
    u * (lo * 0x2000_0000_0000 - w) <= (k * at + d * u) * 0x2000_0000_0000 <= u * (hi
        * 0x2000_0000_0000 + w)
}

/// The local model of a cell, at a number in the range of its window, stays in the range.
proof fn model_stays<A: Arithmetic>(
    data: Lattice<u32>,
    b: int,
    r: int,
    eps: u32,
    y: int,
    x: int,
    at: int,
    lo: int,
    hi: int,
)
    requires
        computes_finely::<A>(),
        computes_exactly::<A>(),
        is_fit(data, b),
        within(data.shape, y, x),
        0 <= r,
        single::is_finite(eps),
        value(eps) >= 0,
        -(b * pow2(925)) <= at <= b * pow2(925),
        lo <= at <= hi,
        forall|j: int, i: int|
            low(y, r) <= j <= high(y, r, data.shape.0 as int) && low(x, r) <= i <= high(
                x,
                r,
                data.shape.1 as int,
            ) ==> lo <= #[trigger] cell::<A>(data, Measure::Value)(j, i) <= hi,
    ensures
        ({
            let m = model_at::<A>(data, r, widen_of::<A>(eps), y, x);
            let (k, d) = (value(m.0) * pow2(925), value(m.1) * pow2(925));
            let (u, c) = (unit64(), b * pow2(925));
            &&& single::is_finite(m.0) && -2 * u <= k <= 2 * u
            &&& single::is_finite(m.1) && -8 * c <= d <= 8 * c
        }),
        model_is_in::<A>(data, b, r, eps, y, x, at, lo, hi),
{
    let (u, c) = (unit64(), b * pow2(925));
    let wide = widen_of::<A>(eps);
    let l = c * load(data.shape);
    small_numbers64();
    fit_is_moderate::<A>(data, b);
    mean_is_close::<A>(data, Measure::Value, c, y, x, r);
    mean_is_close::<A>(data, Measure::Square, pow2(1390) as int, y, x, r);
    let mean = window_mean::<A>(summed::<A>(data, Measure::Value), y, x, r);
    let square = window_mean::<A>(summed::<A>(data, Measure::Square), y, x, r);
    let v = value64(mean);
    assert(0 <= v * v <= (2 * c) * (2 * c)) by (nonlinear_arith)
        requires
            -2 * c <= v <= 2 * c,
    ;
    widen_exact::<A>(eps);
    singles_are_moderate(eps);
    let (e, p) = (value(eps), pow2(925) as int);
    assert(e * p >= 0) by (nonlinear_arith)
        requires
            e >= 0,
            p >= 0,
    ;
    slope_is_a_share::<A>(mean, square, wide);
    model_mixes::<A>(mean, square, wide, c, at);
    let f = cell::<A>(data, Measure::Value);
    let (h, w) = (data.shape.0 as int, data.shape.1 as int);
    let (m, n) = (high(y, r, h) - low(y, r) + 1, high(x, r, w) - low(x, r) + 1);
    block_in_range(f, low(y, r), m, low(x, r), n, lo, hi);
    let (cells, block) = (m * n, window_block(f, data.shape, y, x, r));
    let k = 0x2000_0000_0000int;
    assert(lo * k - l <= v * k <= hi * k + l) by (nonlinear_arith)
        requires
            cells >= 1,
            lo * cells <= block <= hi * cells,
            apart(v * cells, block) * k <= l * cells,
            k > 0,
    ;
    steps_are_small(data.shape, c);
    assert(l >= 0) by (nonlinear_arith)
        requires
            l == c * load(data.shape),
            c >= 0,
            load(data.shape) >= 2,
    ;
    let fitted = model::<A>(mean, square, wide);
    let (a, d) = (value(fitted.0) * pow2(925), value(fitted.1) * pow2(925));
    mixes_stay(
        a * at + d * u,
        value64(slope::<A>(mean, square, wide)),
        at,
        v,
        u,
        lo,
        hi,
        l,
        10 * c + 0x80_0000 * pow2(925),
    );
}

/// The means of slopes and offsets, at a number, are close to the sums of the models.
proof fn means_near(
    mean_a: int,
    mean_b: int,
    sum_a: int,
    sum_b: int,
    cells: int,
    at: int,
    u: int,
    c: int,
    g: int,
)
    requires
        cells >= 1,
        u > 0,
        c > 0,
        g >= 0,
        -c <= at <= c,
        apart(mean_a * cells, sum_a) * 0x2000_0000_0000 <= ((2 * u) * g) * cells,
        apart(mean_b * cells, sum_b) * 0x2000_0000_0000 <= ((8 * c) * g) * cells,
    ensures
        apart((mean_a * at + mean_b * u) * cells, sum_a * at + sum_b * u) * 0x2000_0000_0000 <= 10
            * (((c * g) * u) * cells),
{
    let k = 0x2000_0000_0000int;
    let (da, db) = (mean_a * cells - sum_a, mean_b * cells - sum_b);
    let e = ((c * g) * u) * cells;
    assert(-(2 * e) <= (da * at) * k <= 2 * e) by {
        let z = ((2 * u) * g) * cells;
        assert(z >= 0) by (nonlinear_arith)
            requires
                z == ((2 * u) * g) * cells,
                u > 0,
                g >= 0,
                cells >= 1,
        ;
        assert(-(z * c) <= (da * k) * at <= z * c) by (nonlinear_arith)
            requires
                -z <= da * k <= z,
                -c <= at <= c,
        ;
        assert(z * c == 2 * e) by (nonlinear_arith)
            requires
                z == ((2 * u) * g) * cells,
                e == ((c * g) * u) * cells,
        ;
        assert((da * k) * at == (da * at) * k) by (nonlinear_arith);
    }
    assert(-(8 * e) <= (db * u) * k <= 8 * e) by {
        let z = ((8 * c) * g) * cells;
        assert(-(z * u) <= (db * k) * u <= z * u) by (nonlinear_arith)
            requires
                -z <= db * k <= z,
                u > 0,
        ;
        assert(z * u == 8 * e) by (nonlinear_arith)
            requires
                z == ((8 * c) * g) * cells,
                e == ((c * g) * u) * cells,
        ;
        assert((db * k) * u == (db * u) * k) by (nonlinear_arith);
    }
    let q = mean_a * at + mean_b * u;
    assert(q * cells == (sum_a * at + sum_b * u) + da * at + db * u) by (nonlinear_arith)
        requires
            q == mean_a * at + mean_b * u,
            da == mean_a * cells - sum_a,
            db == mean_b * cells - sum_b,
    ;
}

/// The means of slopes and offsets, at a number, are as close to the range as the models.
proof fn means_stay(
    mean_a: int,
    mean_b: int,
    sum_a: int,
    sum_b: int,
    cells: int,
    at: int,
    u: int,
    c: int,
    g: int,
    bottom: int,
    top: int,
)
    requires
        cells >= 1,
        u > 0,
        c > 0,
        g >= 0,
        -c <= at <= c,
        apart(mean_a * cells, sum_a) * 0x2000_0000_0000 <= ((2 * u) * g) * cells,
        apart(mean_b * cells, sum_b) * 0x2000_0000_0000 <= ((8 * c) * g) * cells,
        bottom * cells <= (sum_a * at + sum_b * u) * 0x2000_0000_0000 <= top * cells,
    ensures
        bottom - 10 * ((c * g) * u) <= (mean_a * at + mean_b * u) * 0x2000_0000_0000 <= top + 10 * ((
        c * g) * u),
{
    let k = 0x2000_0000_0000int;
    means_near(mean_a, mean_b, sum_a, sum_b, cells, at, u, c, g);
    let q = mean_a * at + mean_b * u;
    let t = (c * g) * u;
    assert(bottom * cells - 10 * (t * cells) <= (q * cells) * k <= top * cells + 10 * (t * cells));
    assert(bottom - 10 * t <= q * k <= top + 10 * t) by (nonlinear_arith)
        requires
            bottom * cells - 10 * (t * cells) <= (q * cells) * k <= top * cells + 10 * (t * cells),
            cells >= 1,
    ;
}

/// The smoothed number is as close to the range as the means.
proof fn smoothed_stays<A: Arithmetic>(
    mean_a: u64,
    mean_b: u64,
    l: u32,
    c: int,
    bottom: int,
    top: int,
)
    requires
        computes_finely::<A>(),
        computes_exactly::<A>(),
        double::is_finite(mean_a),
        double::is_finite(mean_b),
        single::is_finite(l),
        pow2(925) <= c < pow2(1196),
        -4 * unit64() <= value64(mean_a) <= 4 * unit64(),
        -16 * c <= value64(mean_b) <= 16 * c,
        -c <= value(l) * pow2(925) <= c,
        bottom <= (value64(mean_a) * (value(l) * pow2(925)) + value64(mean_b) * unit64())
            * 0x2000_0000_0000 <= top,
    ensures
        single::is_finite(smoothed_by::<A>(mean_a, mean_b, l)),
        ({
            let (u, q) = (unit64(), value(smoothed_by::<A>(mean_a, mean_b, l)) * pow2(925));
            let e = 0x800_0001 * c + 0x2000_0000_0000 * pow2(925);
            bottom - e * u <= (q * u) * 0x2000_0000_0000 <= top + e * u
        }),
{
    let (u, r, k) = (unit64(), pow2(925) as int, 0x2000_0000_0000int);
    unit_sizes();
    small_numbers64();
    lemma2_to64();
    lemma_pow2_adds(5, 1196);
    lemma_pow2_strictly_increases(1201, 2000);
    widen_exact::<A>(l);
    let d = widen_of::<A>(l);
    let (at, va, vb) = (value64(d), value64(mean_a), value64(mean_b));
    assert(apart(va * at, 0) <= (4 * c) * u) by (nonlinear_arith)
        requires
            -4 * u <= va <= 4 * u,
            -c <= at <= c,
            c > 0,
            u > 0,
    ;
    times_off64::<A>(mean_a, d, 4 * c);
    let product = times64_of::<A>(mean_a, d);
    let (p, z) = (value64(product), step64(4 * c));
    large_step(4 * c);
    large_step(31 * c);
    assert(-(5 * c) <= p <= 5 * c) by (nonlinear_arith)
        requires
            apart(p * u, va * at) <= z * u,
            apart(va * at, 0) <= (4 * c) * u,
            z <= c,
            u > 0,
    ;
    plus_off64::<A>(product, mean_b, 31 * c);
    let sum = plus64_of::<A>(product, mean_b);
    let (s, y) = (value64(sum), step64(31 * c));
    close_stays_bounded(s, p + vb, 21 * c, y);
    narrow_off::<A>(sum);
    let q = value(narrow_of::<A>(sum)) * r;
    smoothed_adds_up(q, s, p, va * at, vb, u, r, c, y, z);
    let e = 0x800_0001 * c + k * r;
    assert(k * r == 0x2000_0000_0000 * pow2(925));
}

proof fn smoothed_adds_up(
    q: int,
    s: int,
    p: int,
    a: int,
    vb: int,
    u: int,
    r: int,
    c: int,
    y: int,
    z: int,
)
    requires
        u > 0,
        c > 0,
        r > 0,
        apart(p * u, a) <= z * u,
        z * 0x8_0000_0000_0000 <= 4 * c,
        apart(s, p + vb) <= y,
        y * 0x8_0000_0000_0000 <= 31 * c,
        apart(q, s) * 0x80_0000 <= apart(s, 0) + 0x80_0000 * r,
        apart(s, 0) <= 31 * c,
    ensures
        apart(q * u, a + vb * u) * 0x2000_0000_0000 <= (0x800_0001 * c + 0x2000_0000_0000 * r) * u,
{
    let (d, f) = (q - s, s - (p + vb));
    let cu = c * u;
    assert(q * u == d * u + f * u + p * u + vb * u) by (nonlinear_arith)
        requires
            d == q - s,
            f == s - (p + vb),
    ;
    assert(-(31 * cu + 0x80_0000 * (r * u)) <= (d * u) * 0x80_0000 <= 31 * cu + 0x80_0000 * (r * u))
        by (nonlinear_arith)
        requires
            -(31 * c + 0x80_0000 * r) <= d * 0x80_0000 <= 31 * c + 0x80_0000 * r,
            u > 0,
            cu == c * u,
    ;
    assert(-(31 * cu) <= (f * u) * 0x8_0000_0000_0000 <= 31 * cu) by (nonlinear_arith)
        requires
            -(31 * c) <= f * 0x8_0000_0000_0000 <= 31 * c,
            u > 0,
            cu == c * u,
    ;
    assert((z * u) * 0x8_0000_0000_0000 <= 4 * cu) by (nonlinear_arith)
        requires
            z * 0x8_0000_0000_0000 <= 4 * c,
            u > 0,
            cu == c * u,
    ;
    assert((0x800_0001 * c + 0x2000_0000_0000 * r) * u == 0x800_0001 * cu + 0x2000_0000_0000 * (r
        * u)) by (nonlinear_arith)
        requires
            cu == c * u,
    ;
}

/// The model of any cell has a slope and an offset in bounds.
proof fn models_are_bounded<A: Arithmetic>(data: Lattice<u32>, b: int, r: int, eps: u32)
    requires
        computes_finely::<A>(),
        computes_exactly::<A>(),
        is_fit(data, b),
        0 <= r,
        single::is_finite(eps),
        value(eps) >= 0,
    ensures
        ({
            let wide = widen_of::<A>(eps);
            let (a, o) = (slopes::<A>(data, r, wide), offsets::<A>(data, r, wide));
            let c = b * pow2(925);
            &&& is_moderate::<A>(a, Measure::Value, 2 * unit64())
            &&& is_moderate::<A>(o, Measure::Value, 8 * c)
            &&& forall|j: int, i: int|
                within(data.shape, j, i) ==> {
                    let m = #[trigger] model_at::<A>(data, r, wide, j, i);
                    &&& cell::<A>(a, Measure::Value)(j, i) == value(m.0) * pow2(925)
                    &&& cell::<A>(o, Measure::Value)(j, i) == value(m.1) * pow2(925)
                }
        }),
{
    let wide = widen_of::<A>(eps);
    let (a, o) = (slopes::<A>(data, r, wide), offsets::<A>(data, r, wide));
    let (u, c) = (unit64(), b * pow2(925));
    unit_sizes();
    small_numbers64();
    fit_is_moderate::<A>(data, b);
    lemma2_to64();
    lemma_pow2_adds(3, 1196);
    lemma_pow2_strictly_increases(1199, 1500);
    tabulated2(data.shape, |j: int, i: int| model_at::<A>(data, r, wide, j, i).0);
    tabulated2(data.shape, |j: int, i: int| model_at::<A>(data, r, wide, j, i).1);
    let f = cell::<A>(data, Measure::Value);
    let (s, t) = (cell::<A>(a, Measure::Value), cell::<A>(o, Measure::Value));
    assert forall|j: int, i: int| within(data.shape, j, i) implies {
        let m = #[trigger] model_at::<A>(data, r, wide, j, i);
        &&& s(j, i) == value(m.0) * pow2(925) && -(2 * u) <= s(j, i) <= 2 * u
        &&& t(j, i) == value(m.1) * pow2(925) && -(8 * c) <= t(j, i) <= 8 * c
        &&& double::is_finite(measured::<A>(Measure::Value, a.at(j, i)))
        &&& double::is_finite(measured::<A>(Measure::Value, o.at(j, i)))
    } by {
        assert forall|k: int, l: int|
            low(j, r) <= k <= high(j, r, data.shape.0 as int) && low(i, r) <= l <= high(
                i,
                r,
                data.shape.1 as int,
            ) implies -c <= #[trigger] f(k, l) <= c by {
            assert(within(data.shape, k, l));
        }
        model_stays::<A>(data, b, r, eps, j, i, 0, -c, c);
        widen_exact::<A>(a.at(j, i));
        widen_exact::<A>(o.at(j, i));
    }
    assert forall|j: int, i: int| within(data.shape, j, i) implies -(2 * u) <= #[trigger] s(j, i)
        <= 2 * u by {
        let _ = model_at::<A>(data, r, wide, j, i);
    }
    assert forall|j: int, i: int| within(data.shape, j, i) implies -(8 * c) <= #[trigger] t(j, i)
        <= 8 * c by {
        let _ = model_at::<A>(data, r, wide, j, i);
    }
    assert forall|j: int, i: int| within(data.shape, j, i) implies double::is_finite(
        measured::<A>(Measure::Value, #[trigger] a.at(j, i)),
    ) by {
        let _ = model_at::<A>(data, r, wide, j, i);
    }
    assert forall|j: int, i: int| within(data.shape, j, i) implies double::is_finite(
        measured::<A>(Measure::Value, #[trigger] o.at(j, i)),
    ) by {
        let _ = model_at::<A>(data, r, wide, j, i);
    }
}

/// Whether the models of a window, at the sample in its middle, are in a range up to the
/// leeway.
spec fn models_are_in<A: Arithmetic>(
    data: Lattice<u32>,
    b: int,
    r: int,
    eps: u32,
    y: int,
    x: int,
    lo: int,
    hi: int,
) -> bool {
    let at = value(data.at(y, x)) * pow2(925);
    forall|j: int, i: int|
        low(y, r) <= j <= high(y, r, data.shape.0 as int) && low(x, r) <= i <= high(
            x,
            r,
            data.shape.1 as int,
        ) ==> #[trigger] model_is_in::<A>(
            data,
            b,
            r,
            eps,
            j,
            i,
            at,
            lo * pow2(925),
            hi * pow2(925),
        )
}

/// The models of a window, added up at the sample in its middle.
proof fn models_add_up<A: Arithmetic>(
    data: Lattice<u32>,
    b: int,
    r: int,
    eps: u32,
    y: int,
    x: int,
    lo: int,
    hi: int,
)
    requires
        computes_finely::<A>(),
        computes_exactly::<A>(),
        is_fit(data, b),
        within(data.shape, y, x),
        0 <= r,
        single::is_finite(eps),
        value(eps) >= 0,
        models_are_in::<A>(data, b, r, eps, y, x, lo, hi),
    ensures
        ({
            let wide = widen_of::<A>(eps);
            let (a, o) = (slopes::<A>(data, r, wide), offsets::<A>(data, r, wide));
            let (u, c, p) = (unit64(), b * pow2(925), pow2(925) as int);
            let at = value(data.at(y, x)) * p;
            let w = leeway(b, data.shape);
            let sum = window_block(cell::<A>(a, Measure::Value), data.shape, y, x, r) * at
                + window_block(cell::<A>(o, Measure::Value), data.shape, y, x, r) * u;
            let cells = window_cells(data.shape.0 as int, data.shape.1 as int, y, x, r);
            &&& -c <= at <= c
            &&& (u * ((lo * p) * 0x2000_0000_0000 - w)) * cells <= sum * 0x2000_0000_0000
                <= (u * ((hi * p) * 0x2000_0000_0000 + w)) * cells
        }),
{
    let wide = widen_of::<A>(eps);
    let (a, o) = (slopes::<A>(data, r, wide), offsets::<A>(data, r, wide));
    let (u, c, p) = (unit64(), b * pow2(925), pow2(925) as int);
    let k = 0x2000_0000_0000int;
    let at = value(data.at(y, x)) * p;
    let w = leeway(b, data.shape);
    let (s, t) = (cell::<A>(a, Measure::Value), cell::<A>(o, Measure::Value));
    let (bottom, top) = (u * ((lo * p) * k - w), u * ((hi * p) * k + w));
    let (h, v) = (data.shape.0 as int, data.shape.1 as int);
    unit_sizes();
    models_are_bounded::<A>(data, b, r, eps);
    let z = value(data.at(y, x));
    assert(-(b * p) <= z * p <= b * p) by (nonlinear_arith)
        requires
            -b <= z <= b,
            p > 0,
    ;
    let both = mixed(s, at * k, t, u * k);
    let (m, n) = (high(y, r, h) - low(y, r) + 1, high(x, r, v) - low(x, r) + 1);
    assert forall|j: int, i: int|
        low(y, r) <= j < low(y, r) + m && low(x, r) <= i < low(x, r) + n implies bottom
        <= #[trigger] both(j, i) <= top by {
        assert(within(data.shape, j, i));
        assert(model_is_in::<A>(data, b, r, eps, j, i, at, lo * p, hi * p));
        let fitted = model_at::<A>(data, r, wide, j, i);
        let (q, d) = (s(j, i), t(j, i));
        assert(q * (at * k) + d * (u * k) == (q * at + d * u) * k) by (nonlinear_arith);
    }
    block_in_range(both, low(y, r), m, low(x, r), n, bottom, top);
    block_is_linear(s, at * k, t, u * k, low(y, r), m, low(x, r), n);
    let (sa, sb) = (
        window_block(s, data.shape, y, x, r),
        window_block(t, data.shape, y, x, r),
    );
    assert(sa * (at * k) + sb * (u * k) == (sa * at + sb * u) * k) by (nonlinear_arith);
}

/// How far from the range of its window the guided filter can lead for rounding alone:
/// `2^-41` of the largest sample for each unit of the load and for `2^24` more, and two of
/// the least positive numbers.
pub open spec fn strays(off: int, b: int, shape: (usize, usize)) -> bool {
    off * 0x200_0000_0000 > b * (load(shape) + 0x100_0000) + 0x400_0000_0000
}

/// Where the models of a window are in a range, so is what the filter makes of the sample
/// in its middle, up to rounding.
proof fn filter_follows_models<A: Arithmetic>(
    data: Lattice<u32>,
    b: int,
    radius: int,
    eps: u32,
    y: int,
    x: int,
    lo: int,
    hi: int,
)
    requires
        computes_finely::<A>(),
        computes_exactly::<A>(),
        is_fit(data, b),
        within(data.shape, y, x),
        0 <= radius,
        single::is_finite(eps),
        value(eps) >= 0,
        models_are_in::<A>(data, b, radius, eps, y, x, lo, hi),
    ensures
        ({
            let q = guided::<A>(data, radius, eps).at(y, x);
            &&& single::is_finite(q)
            &&& !strays(value(q) - hi, b, data.shape)
            &&& !strays(lo - value(q), b, data.shape)
        }),
{
    let wide = widen_of::<A>(eps);
    let (a, o) = (slopes::<A>(data, radius, wide), offsets::<A>(data, radius, wide));
    let (u, c, p) = (unit64(), b * pow2(925), pow2(925) as int);
    let (k, g) = (0x2000_0000_0000int, load(data.shape));
    let l = data.at(y, x);
    let at = value(l) * p;
    let w = leeway(b, data.shape);
    let (bottom, top) = (u * ((lo * p) * k - w), u * ((hi * p) * k + w));
    unit_sizes();
    small_numbers64();
    fit_is_moderate::<A>(data, b);
    steps_are_small(data.shape, c);
    models_are_bounded::<A>(data, b, radius, eps);
    models_add_up::<A>(data, b, radius, eps, y, x, lo, hi);
    mean_is_close::<A>(a, Measure::Value, 2 * u, y, x, radius);
    mean_is_close::<A>(o, Measure::Value, 8 * c, y, x, radius);
    let mean_a = window_mean::<A>(summed::<A>(a, Measure::Value), y, x, radius);
    let mean_b = window_mean::<A>(summed::<A>(o, Measure::Value), y, x, radius);
    let cells = window_cells(data.shape.0 as int, data.shape.1 as int, y, x, radius);
    means_stay(
        value64(mean_a),
        value64(mean_b),
        window_block(cell::<A>(a, Measure::Value), data.shape, y, x, radius),
        window_block(cell::<A>(o, Measure::Value), data.shape, y, x, radius),
        cells,
        at,
        u,
        c,
        g,
        bottom,
        top,
    );
    let e = 10 * ((c * g) * u);
    smoothed_stays::<A>(mean_a, mean_b, l, c, bottom - e, top + e);
    tabulated2(
        data.shape,
        |j: int, i: int|
            smoothed_by::<A>(
                window_mean::<A>(summed::<A>(a, Measure::Value), j, i, radius),
                window_mean::<A>(summed::<A>(o, Measure::Value), j, i, radius),
                data.at(j, i),
            ),
    );
    let q = guided::<A>(data, radius, eps).at(y, x);
    assert(q == smoothed_by::<A>(mean_a, mean_b, l));
    range_in_units(value(q), lo, hi, u, c, b, p, g, w);
}

/// The guided filter stays within the range of the window of twice its radius, up to
/// rounding.
pub proof fn guided_filter_stays_in_range<A: Arithmetic>(
    data: Lattice<u32>,
    b: int,
    radius: int,
    eps: u32,
    y: int,
    x: int,
    lo: int,
    hi: int,
)
    requires
        computes_finely::<A>(),
        computes_exactly::<A>(),
        is_fit(data, b),
        within(data.shape, y, x),
        0 <= radius,
        single::is_finite(eps),
        value(eps) >= 0,
        spans(data, y, x, 2 * radius, lo, hi),
    ensures
        ({
            let q = guided::<A>(data, radius, eps).at(y, x);
            &&& single::is_finite(q)
            &&& !strays(value(q) - hi, b, data.shape)
            &&& !strays(lo - value(q), b, data.shape)
        }),
{
    let p = pow2(925) as int;
    let f = cell::<A>(data, Measure::Value);
    let at = value(data.at(y, x)) * p;
    let (h, w) = (data.shape.0 as int, data.shape.1 as int);
    let c = b * p;
    unit_sizes();
    assert forall|j: int, i: int|
        within(data.shape, j, i) && y - 2 * radius <= j <= y + 2 * radius && x - 2 * radius <= i
            <= x + 2 * radius implies lo * p <= #[trigger] f(j, i) <= hi * p && -c <= f(j, i) <= c
        && f(j, i) == value(data.at(j, i)) * p by {
        let n = data.at(j, i);
        widen_exact::<A>(n);
        let z = value(n);
        assert(lo * p <= z * p <= hi * p && -(b * p) <= z * p <= b * p) by (nonlinear_arith)
            requires
                lo <= z <= hi,
                -b <= z <= b,
                p > 0,
        ;
    }
    assert(f(y, x) == at);
    assert forall|j: int, i: int|
        low(y, radius) <= j <= high(y, radius, h) && low(x, radius) <= i <= high(
            x,
            radius,
            w,
        ) implies #[trigger] model_is_in::<A>(data, b, radius, eps, j, i, at, lo * p, hi * p) by {
        assert(within(data.shape, j, i));
        assert forall|j2: int, i2: int|
            low(j, radius) <= j2 <= high(j, radius, h) && low(i, radius) <= i2 <= high(
                i,
                radius,
                w,
            ) implies lo * p <= #[trigger] f(j2, i2) <= hi * p by {
            assert(within(data.shape, j2, i2));
        }
        model_stays::<A>(data, b, radius, eps, j, i, at, lo * p, hi * p);
    }
    filter_follows_models::<A>(data, b, radius, eps, y, x, lo, hi);
}

/// What the bounds say in the units of single precision.
proof fn range_in_units(v: int, lo: int, hi: int, u: int, c: int, b: int, p: int, g: int, w: int)
    requires
        u > 0,
        p > 0,
        b >= 1,
        g >= 0,
        c == b * p,
        w == c * g + 0x40_0000 * (10 * c + 0x80_0000 * p),
        ({
            let (e, d) = (10 * ((c * g) * u), 0x800_0001 * c + 0x2000_0000_0000 * p);
            u * ((lo * p) * 0x2000_0000_0000 - w) - e - d * u <= ((v * p) * u) * 0x2000_0000_0000
                <= u * ((hi * p) * 0x2000_0000_0000 + w) + e + d * u
        }),
    ensures
        (v - hi) * 0x200_0000_0000 <= b * (g + 0x100_0000) + 0x400_0000_0000,
        (lo - v) * 0x200_0000_0000 <= b * (g + 0x100_0000) + 0x400_0000_0000,
{
    let k = 0x2000_0000_0000int;
    let d = 0x800_0001 * c + k * p;
    let t = w + 10 * (c * g) + d;
    assert(((c * g) * u) == u * (c * g) && d * u == u * d) by (nonlinear_arith);
    let (m, n, q) = ((hi * p) * k, (lo * p) * k, (v * p) * k);
    assert(((v * p) * u) * k == u * q) by (nonlinear_arith)
        requires
            q == (v * p) * k,
    ;
    assert(u * (m + w) + 10 * (u * (c * g)) + u * d == u * (m + t)) by (nonlinear_arith)
        requires
            t == w + 10 * (c * g) + d,
    ;
    assert(u * (n - w) - 10 * (u * (c * g)) - u * d == u * (n - t)) by (nonlinear_arith)
        requires
            t == w + 10 * (c * g) + d,
    ;
    assert(n - t <= q <= m + t) by (nonlinear_arith)
        requires
            u * (n - t) <= u * q <= u * (m + t),
            u > 0,
    ;
    let bg = b * g;
    assert(c * g == bg * p) by (nonlinear_arith)
        requires
            c == b * p,
            bg == b * g,
    ;
    let z = 11 * bg + 176_160_769 * b + 2 * k;
    assert(t == z * p) by (nonlinear_arith)
        requires
            t == 11 * (bg * p) + 176_160_769 * (b * p) + 2 * (k * p),
            z == 11 * bg + 176_160_769 * b + 2 * k,
    ;
    assert(m == (hi * k) * p && n == (lo * k) * p && q == (v * k) * p) by (nonlinear_arith)
        requires
            q == (v * p) * k,
            m == (hi * p) * k,
            n == (lo * p) * k,
    ;
    assert(lo * k - z <= v * k <= hi * k + z) by (nonlinear_arith)
        requires
            (lo * k) * p - z * p <= (v * k) * p <= (hi * k) * p + z * p,
            p > 0,
    ;
    assert(bg >= 0) by (nonlinear_arith)
        requires
            bg == b * g,
            b >= 1,
            g >= 0,
    ;
    assert(b * (g + 0x100_0000) == bg + 0x100_0000 * b) by (nonlinear_arith)
        requires
            bg == b * g,
    ;
}

/// Without regularisation a window with a variance keeps the number.
proof fn varied_model_stays<A: Arithmetic>(
    data: Lattice<u32>,
    b: int,
    r: int,
    eps: u32,
    y: int,
    x: int,
    at: int,
)
    requires
        computes_finely::<A>(),
        computes_exactly::<A>(),
        sums_exactly::<A>(),
        is_fit(data, b),
        within(data.shape, y, x),
        0 <= r,
        single::is_finite(eps),
        value(eps) == 0,
        double::is_finite(variance_at::<A>(data, r, y, x)),
        value64(variance_at::<A>(data, r, y, x)) > 0,
        -(b * pow2(925)) <= at <= b * pow2(925),
    ensures
        model_is_in::<A>(data, b, r, eps, y, x, at, at, at),
{
    let (u, c) = (unit64(), b * pow2(925));
    let wide = widen_of::<A>(eps);
    let l = c * load(data.shape);
    small_numbers64();
    fit_is_moderate::<A>(data, b);
    steps_are_small(data.shape, c);
    mean_is_close::<A>(data, Measure::Value, c, y, x, r);
    let mean = window_mean::<A>(summed::<A>(data, Measure::Value), y, x, r);
    let square = window_mean::<A>(summed::<A>(data, Measure::Square), y, x, r);
    let var = variance_at::<A>(data, r, y, x);
    widen_exact::<A>(eps);
    assert(0 * pow2(925) == 0) by (nonlinear_arith);
    values_are_ordered64(0, var);
    assert(double::larger(var, 0) == var);
    plus_exact64::<A>(var, wide, var);
    let denom = plus64_of::<A>(var, wide);
    values_are_ordered64(0, denom);
    assert(u * value64(denom) == value64(var) * u) by (nonlinear_arith)
        requires
            value64(denom) == value64(var),
    ;
    over_exact64::<A>(var, denom, double::ONE);
    let share = value64(slope::<A>(mean, square, wide));
    assert(share == u);
    model_mixes::<A>(mean, square, wide, c, at);
    let fitted = model::<A>(mean, square, wide);
    let (a, d) = (value(fitted.0) * pow2(925), value(fitted.1) * pow2(925));
    assert(l >= 0) by (nonlinear_arith)
        requires
            l == c * load(data.shape),
            c >= 0,
            load(data.shape) >= 2,
    ;
    let v = value64(mean);
    assert((u - share) * v == 0 && (u - share) * at == 0) by (nonlinear_arith)
        requires
            share == u,
    ;
    mixes_stay(
        a * at + d * u,
        share,
        at,
        at,
        u,
        at,
        at,
        l,
        10 * c + 0x80_0000 * pow2(925),
    );
}

/// What local contrast makes of a sample that the filter moves by no more than `t`.
proof fn contrast_follows_filter<A: Arithmetic>(s: u32, q: u32, strength: u32, t: int, m: int)
    requires
        rounds::<A>(),
        single::is_finite(s),
        single::is_finite(q),
        single::is_finite(strength),
        apart(value(s), value(q)) <= t,
        apart(value(s), 0) < pow2(271),
        0 <= t < pow2(273),
        0 <= m < pow2(273),
        apart(value(strength), 0) * (2 * t + 2) <= m * (2 * half()),
    ensures
        ({
            let out = plus_of::<A>(s, times_of::<A>(strength, minus_of::<A>(s, q)));
            &&& single::is_finite(out)
            &&& apart(value(out), value(s)) * 0x40_0000 <= apart(value(s), 0) + 0x40_0000 * (4 * m
                + 8)
        }),
{
    lemma2_to64();
    lemma_pow2_adds(23, 253);
    lemma_pow2_adds(3, 273);
    lemma_pow2_adds(2, 271);
    lemma_pow2_strictly_increases(23, 271);
    half_is_positive();
    let (o, x) = (2 * half(), value(strength));
    let detail = minus_of::<A>(s, q);
    minus_rounds::<A>(s, q);
    rounded_fine(detail, value(s) - value(q), 1);
    let d = value(detail);
    assert(apart(d, 0) <= 2 * t + 2);
    assert(apart(x * d, 0) <= apart(x, 0) * (2 * t + 2)) by (nonlinear_arith)
        requires
            apart(d, 0) <= 2 * t + 2,
    ;
    let change = times_of::<A>(strength, detail);
    times_rounds::<A>(strength, detail);
    let z = 0x80_0000 * pow2(253);
    assert(m * o < z * o) by (nonlinear_arith)
        requires
            m < z,
            o > 0,
    ;
    rounded_fine(change, x * d, o);
    let c = value(change);
    assert(apart(c, 0) <= 2 * m + 2) by (nonlinear_arith)
        requires
            apart(c * o, x * d) * 0x40_0000 <= apart(x * d, 0) + 0x40_0000 * o,
            apart(x * d, 0) <= m * o,
            o > 0,
            m >= 0,
    ;
    plus_rounds::<A>(s, change);
    rounded_fine(plus_of::<A>(s, change), value(s) + c, 1);
}

/// A sample of the local-contrast raster.
proof fn contrasted_at<A: Arithmetic>(
    r: Raster<u32>,
    params: GuidedFilterParams,
    strength: u32,
    y: int,
    x: int,
)
    requires
        r.shape.2 == 1,
        inside(r.shape, y, x, 0),
    ensures
        ({
            let smooth = guided::<A>(channel_of(r, 0), params.radius as int, params.eps);
            contrasted::<A>(r, params, strength).at(y, x, 0) == plus_of::<A>(
                r.at(y, x, 0),
                times_of::<A>(strength, minus_of::<A>(r.at(y, x, 0), smooth.at(y, x))),
            )
        }),
        channel_of(r, 0).at(y, x) == r.at(y, x, 0),
        within(channel_of(r, 0).shape, y, x),
{
    let smooth = guided::<A>(channel_of(r, 0), params.radius as int, params.eps);
    tabulated(
        r.shape,
        |y: int, x: int, k: int|
            plus_of::<A>(
                r.at(y, x, 0),
                times_of::<A>(strength, minus_of::<A>(r.at(y, x, 0), smooth.at(y, x))),
            ),
    );
    tabulated2((r.shape.0, r.shape.1), |y: int, x: int| r.at(y, x, 0));
}

/// Local contrast of whatever strength leaves a sample as it was, up to rounding, where the
/// window of twice the radius holds one value: with a radius of zero, and in a constant
/// image. The sample moves by a `2^22`th of itself, and by the strength times what rounding
/// moves the filter by.
pub proof fn flat_windows_almost_stay<A: Arithmetic>(
    r: Raster<u32>,
    params: GuidedFilterParams,
    strength: u32,
    y: int,
    x: int,
    b: int,
    t: int,
    m: int,
)
    requires
        rounds::<A>(),
        computes_finely::<A>(),
        computes_exactly::<A>(),
        r.shape.2 == 1,
        inside(r.shape, y, x, 0),
        is_fit(channel_of(r, 0), b),
        single::is_finite(params.eps),
        value(params.eps) >= 0,
        single::is_finite(strength),
        params.radius == 0 || forall|j: int, i: int|
            inside(r.shape, j, i, 0) ==> value(#[trigger] r.at(j, i, 0)) == value(r.at(y, x, 0)),
        b * (load((r.shape.0, r.shape.1)) + 0x100_0000) + 0x400_0000_0000 <= t * 0x200_0000_0000,
        0 <= t < pow2(273),
        0 <= m < pow2(273),
        apart(value(strength), 0) * (2 * t + 2) <= m * (2 * half()),
    ensures
        ({
            let (s, out) = (r.at(y, x, 0), contrasted::<A>(r, params, strength).at(y, x, 0));
            &&& single::is_finite(out)
            &&& apart(value(out), value(s)) * 0x40_0000 <= apart(value(s), 0) + 0x40_0000 * (4 * m
                + 8)
        }),
{
    let data = channel_of(r, 0);
    let (s, radius) = (r.at(y, x, 0), params.radius as int);
    let v = value(s);
    contrasted_at::<A>(r, params, strength, y, x);
    assert(spans(data, y, x, 2 * radius, v, v)) by {
        tabulated2((r.shape.0, r.shape.1), |y: int, x: int| r.at(y, x, 0));
        assert forall|j: int, i: int|
            within(data.shape, j, i) && y - 2 * radius <= j <= y + 2 * radius && x - 2 * radius <= i
                <= x + 2 * radius implies value(#[trigger] data.at(j, i)) == v by {
            assert(data.at(j, i) == r.at(j, i, 0));
            assert(inside(r.shape, j, i, 0));
        }
    }
    guided_filter_stays_in_range::<A>(data, b, radius, params.eps, y, x, v, v);
    let q = guided::<A>(data, radius, params.eps).at(y, x);
    contrast_follows_filter::<A>(s, q, strength, t, m);
}

/// Without regularisation local contrast of whatever strength leaves a sample as it was, up
/// to rounding, where each window that the filter reads has a variance or holds one value.
pub proof fn without_regularisation_samples_almost_stay<A: Arithmetic>(
    r: Raster<u32>,
    params: GuidedFilterParams,
    strength: u32,
    y: int,
    x: int,
    b: int,
    t: int,
    m: int,
)
    requires
        rounds::<A>(),
        computes_finely::<A>(),
        computes_exactly::<A>(),
        sums_exactly::<A>(),
        r.shape.2 == 1,
        inside(r.shape, y, x, 0),
        is_fit(channel_of(r, 0), b),
        single::is_finite(params.eps),
        value(params.eps) == 0,
        single::is_finite(strength),
        forall|j: int, i: int|
            within(channel_of(r, 0).shape, j, i) ==> {
                let var = #[trigger] variance_at::<A>(
                    channel_of(r, 0),
                    params.radius as int,
                    j,
                    i,
                );
                let v = value(channel_of(r, 0).at(j, i));
                double::is_finite(var) && value64(var) > 0 || spans(
                    channel_of(r, 0),
                    j,
                    i,
                    params.radius as int,
                    v,
                    v,
                )
            },
        b * (load((r.shape.0, r.shape.1)) + 0x100_0000) + 0x400_0000_0000 <= t * 0x200_0000_0000,
        0 <= t < pow2(273),
        0 <= m < pow2(273),
        apart(value(strength), 0) * (2 * t + 2) <= m * (2 * half()),
    ensures
        ({
            let (s, out) = (r.at(y, x, 0), contrasted::<A>(r, params, strength).at(y, x, 0));
            &&& single::is_finite(out)
            &&& apart(value(out), value(s)) * 0x40_0000 <= apart(value(s), 0) + 0x40_0000 * (4 * m
                + 8)
        }),
{
    let data = channel_of(r, 0);
    let (s, radius, p) = (r.at(y, x, 0), params.radius as int, pow2(925) as int);
    let (v, c) = (value(s), b * p);
    let at = v * p;
    let (h, w) = (data.shape.0 as int, data.shape.1 as int);
    contrasted_at::<A>(r, params, strength, y, x);
    unit_sizes();
    let f = cell::<A>(data, Measure::Value);
    assert(-(b * p) <= v * p <= b * p) by (nonlinear_arith)
        requires
            -b <= v <= b,
            p > 0,
    ;
    assert forall|j: int, i: int|
        low(y, radius) <= j <= high(y, radius, h) && low(x, radius) <= i <= high(
            x,
            radius,
            w,
        ) implies #[trigger] model_is_in::<A>(data, b, radius, params.eps, j, i, at, at, at) by {
        assert(within(data.shape, j, i));
        let var = variance_at::<A>(data, radius, j, i);
        if double::is_finite(var) && value64(var) > 0 {
            varied_model_stays::<A>(data, b, radius, params.eps, j, i, at);
        } else {
            assert(value(data.at(y, x)) == v);
            assert forall|j2: int, i2: int|
                low(j, radius) <= j2 <= high(j, radius, h) && low(i, radius) <= i2 <= high(
                    i,
                    radius,
                    w,
                ) implies at <= #[trigger] f(j2, i2) <= at by {
                assert(within(data.shape, j2, i2));
                widen_exact::<A>(data.at(j2, i2));
                assert(value(data.at(j2, i2)) == v);
            }
            model_stays::<A>(data, b, radius, params.eps, j, i, at, at, at);
        }
    }
    filter_follows_models::<A>(data, b, radius, params.eps, y, x, v, v);
    let q = guided::<A>(data, radius, params.eps).at(y, x);
    contrast_follows_filter::<A>(s, q, strength, t, m);
}

/// A part of a row is off by no more than a step for each cell.
proof fn row_sum_is_close<A: Arithmetic>(
    data: Lattice<u32>,
    measure: Measure,
    c: int,
    y: int,
    x1: int,
    n: int,
)
    requires
        computes_finely::<A>(),
        is_moderate::<A>(data, measure, c),
        0 <= y < data.shape.0,
        0 <= x1,
        0 <= n,
        x1 + n <= data.shape.1,
        data.shape.1 >= 1,
    ensures
        double::is_finite(row_sum::<A>(data, measure, y, x1, n)),
        apart(
            value64(row_sum::<A>(data, measure, y, x1, n)),
            row_total(cell::<A>(data, measure), y, x1, n),
        ) <= n * row_step(data.shape, c),
    decreases n,
{
    let f = cell::<A>(data, measure);
    let s = row_step(data.shape, c);
    small_numbers64();
    if n > 0 {
        let w = data.shape.1 as int;
        row_sum_is_close::<A>(data, measure, c, y, x1, n - 1);
        steps_are_small(data.shape, c);
        assert(within(data.shape, y, x1 + n - 1));
        let x = measured::<A>(measure, data.at(y, x1 + n - 1));
        assert(f(y, x1 + n - 1) == value64(x));
        row_is_bounded(f, data.shape, c, y, x1, n);
        assert((n - 1) * s + s == n * s) by (nonlinear_arith);
        assert(n * s <= n * c && 0 <= (n - 1) * s) by (nonlinear_arith)
            requires
                0 <= s <= c,
                n >= 1,
        ;
        assert(c * n == n * c && n * c <= w * c) by (nonlinear_arith)
            requires
                n <= w,
                c >= 0,
        ;
        assert(w * c <= (data.shape.0 * w) * c) by (nonlinear_arith)
            requires
                data.shape.0 >= 1,
                w >= 1,
                c >= 0,
        ;
        plus_off64::<A>(row_sum::<A>(data, measure, y, x1, n - 1), x, 2 * (w * c));
    } else {
        assert(0 * s == 0) by (nonlinear_arith);
    }
}

/// Row sums added down a column are off by no more than their rows' share.
proof fn column_sum_is_close<A: Arithmetic>(
    data: Lattice<u32>,
    measure: Measure,
    c: int,
    x: int,
    r: int,
    y1: int,
    m: int,
)
    requires
        computes_finely::<A>(),
        is_moderate::<A>(data, measure, c),
        0 <= x < data.shape.1,
        0 <= r,
        0 <= y1,
        0 <= m,
        y1 + m <= data.shape.0,
        data.shape.0 >= 1,
    ensures
        ({
            let n = high(x, r, data.shape.1 as int) - low(x, r) + 1;
            let sum = column_sum::<A>(row_sums::<A>(data, measure, r), x, y1, m);
            &&& double::is_finite(sum)
            &&& apart(
                value64(sum),
                block_total(cell::<A>(data, measure), y1, m, low(x, r), n),
            ) <= m * table_step(data.shape, c)
        }),
    decreases m,
{
    let f = cell::<A>(data, measure);
    let (h, w) = (data.shape.0 as int, data.shape.1 as int);
    let s = row_step(data.shape, c);
    let e = table_step(data.shape, c);
    let x1 = low(x, r);
    let n = high(x, r, w) - x1 + 1;
    steps_are_small(data.shape, c);
    small_numbers64();
    if m > 0 {
        let y = y1 + m - 1;
        column_sum_is_close::<A>(data, measure, c, x, r, y1, m - 1);
        row_sum_is_close::<A>(data, measure, c, y, x1, n);
        assert(n * s <= w * s) by (nonlinear_arith)
            requires
                n <= w,
                0 <= s,
        ;
        tabulated2(
            data.shape,
            |v: int, u: int|
                row_sum::<A>(data, measure, v, low(u, r), high(u, r, w) - low(u, r) + 1),
        );
        assert(within(data.shape, y, x));
        block_is_bounded(f, data.shape, c, y1, m, x1, n);
        blocks_fit(data.shape, c, m, n);
        assert((m - 1) * e + e == m * e && 0 <= (m - 1) * e) by (nonlinear_arith)
            requires
                m >= 1,
                0 <= e,
        ;
        assert(m * e <= h * (w * c)) by (nonlinear_arith)
            requires
                0 <= m <= h,
                0 <= e <= w * c,
        ;
        assert(h * (w * c) == (h * w) * c && c * (h * w) == (h * w) * c) by (nonlinear_arith);
        plus_off64::<A>(
            column_sum::<A>(row_sums::<A>(data, measure, r), x, y1, m - 1),
            row_sums::<A>(data, measure, r).at(y, x),
            2 * ((h * w) * c),
        );
    } else {
        assert(0 * e == 0) by (nonlinear_arith);
    }
}

/// The mean from row sums is off by a part of the largest cell.
proof fn box_is_close<A: Arithmetic>(
    data: Lattice<u32>,
    measure: Measure,
    c: int,
    y: int,
    x: int,
    r: int,
)
    requires
        computes_finely::<A>(),
        computes_exactly::<A>(),
        is_moderate::<A>(data, measure, c),
        within(data.shape, y, x),
        0 <= r,
    ensures
        ({
            let mean = box_mean::<A>(row_sums::<A>(data, measure, r), y, x, r);
            let cells = window_cells(data.shape.0 as int, data.shape.1 as int, y, x, r);
            let block = window_block(cell::<A>(data, measure), data.shape, y, x, r);
            &&& double::is_finite(mean)
            &&& cells >= 1
            &&& apart(value64(mean) * cells, block) * 0x2000_0000_0000 <= (c * load(data.shape))
                * cells
            &&& -2 * c <= value64(mean) <= 2 * c
        }),
{
    let (h, w) = (data.shape.0 as int, data.shape.1 as int);
    let (y1, m) = (low(y, r), high(y, r, h) - low(y, r) + 1);
    let e = table_step(data.shape, c);
    steps_are_small(data.shape, c);
    column_sum_is_close::<A>(data, measure, c, x, r, y1, m);
    assert(m * e <= h * e) by (nonlinear_arith)
        requires
            m <= h,
            0 <= e,
    ;
    let total = column_sum::<A>(row_sums::<A>(data, measure, r), x, y1, m);
    quotient_is_close::<A>(data, measure, c, y, x, r, total);
}

/// A bound on squares, in the units of double precision.
spec fn square_bound(c: int) -> int {
    2 * ((c * c) / unit64()) + 0x1000_0000_0000_0000
}

/// What a square comes to in the units of double precision.
proof fn squares_in_units(c: int)
    requires
        0 <= c < pow2(1196),
    ensures
        c * c <= ((c * c) / unit64() + 1) * unit64(),
        4 * (c * c) <= (2 * square_bound(c)) * unit64(),
        0x1000_0000_0000_0000 <= square_bound(c) < pow2(1390),
        ((c * c) / unit64()) * unit64() <= c * c,
        (c * c) / unit64() >= 0,
{
    let (u, k) = (unit64(), pow2(1196) as int);
    small_numbers64();
    lemma2_to64();
    lemma2_to64_rest();
    lemma_pow2_adds(1196, 1196);
    lemma_pow2_adds(1318, 1074);
    lemma_pow2_adds(2, 1318);
    lemma_pow2_strictly_increases(64, 1320);
    lemma_pow2_adds(1, 1320);
    lemma_pow2_strictly_increases(1321, 1390);
    let (q, p) = ((c * c) / u, pow2(1318) as int);
    assert(0 <= c * c <= k * k) by (nonlinear_arith)
        requires
            0 <= c < k,
    ;
    assert(q * u <= c * c < (q + 1) * u && q >= 0) by (nonlinear_arith)
        requires
            q == (c * c) / u,
            c * c >= 0,
            u > 0,
    ;
    assert(q <= p) by (nonlinear_arith)
        requires
            q * u <= p * u,
            u > 0,
    ;
    let z = 2 * q + 0x1000_0000_0000_0000;
    assert(4 * ((q + 1) * u) <= (2 * z) * u) by (nonlinear_arith)
        requires
            z >= 2 * q + 2,
            u > 0,
    ;
}

/// The squares of a fit lattice are moderate, with a bound no larger than need be.
proof fn squares_are_moderate<A: Arithmetic>(data: Lattice<u32>, b: int)
    requires
        computes_finely::<A>(),
        computes_exactly::<A>(),
        is_fit(data, b),
    ensures
        is_moderate::<A>(data, Measure::Square, square_bound(b * pow2(925))),
{
    let (r, c, u) = (pow2(925) as int, b * pow2(925), unit64());
    unit_sizes();
    small_numbers64();
    fit_is_moderate::<A>(data, b);
    squares_in_units(c);
    lemma_pow2_strictly_increases(1390, 1500);
    lemma_pow2_strictly_increases(1390, 2000);
    let z = square_bound(c);
    let q = (c * c) / u + 1;
    let g = cell::<A>(data, Measure::Square);
    assert forall|j: int, i: int| within(data.shape, j, i) implies -z <= #[trigger] g(j, i) <= z by {
        let v = data.at(j, i);
        widen_exact::<A>(v);
        let d = widen_of::<A>(v);
        let (n, x) = (value(v), value64(d));
        assert(-c <= n * r <= c) by (nonlinear_arith)
            requires
                -b <= n <= b,
                r > 0,
                c == b * r,
        ;
        assert(0 <= x * x <= c * c) by (nonlinear_arith)
            requires
                -c <= x <= c,
        ;
        times_off64::<A>(d, d, q);
        let p = value64(times64_of::<A>(d, d));
        let s = step64(q);
        assert(-z <= p <= z) by (nonlinear_arith)
            requires
                apart(p * u, x * x) <= s * u,
                0 <= x * x <= q * u,
                q + s <= z,
                0 <= s,
                u > 0,
        ;
    }
}

/// The variance of a window as the model takes it: never negative.
spec fn spread<A: Arithmetic>(mean: u64, square: u64) -> u64 {
    double::larger(minus64_of::<A>(square, times64_of::<A>(mean, mean)), 0)
}

/// The square of a mean, in double precision.
proof fn mean_squared<A: Arithmetic>(mean: u64, c: int)
    requires
        computes_finely::<A>(),
        double::is_finite(mean),
        0 <= c < pow2(1196),
        -2 * c <= value64(mean) <= 2 * c,
    ensures
        ({
            let (t, z, v) = (times64_of::<A>(mean, mean), square_bound(c), value64(mean));
            &&& double::is_finite(t)
            &&& -3 * z <= value64(t) <= 3 * z
            &&& apart(value64(t) * unit64(), v * v) * 0x8_0000_0000_0000 <= (2 * z) * unit64()
        }),
{
    let (u, z, v) = (unit64(), square_bound(c), value64(mean));
    small_numbers64();
    squares_in_units(c);
    unit_sizes();
    lemma2_to64();
    lemma_pow2_adds(1, 1390);
    lemma_pow2_strictly_increases(1391, 2000);
    assert(0 <= v * v <= 4 * (c * c)) by (nonlinear_arith)
        requires
            -2 * c <= v <= 2 * c,
    ;
    times_off64::<A>(mean, mean, 2 * z);
    large_step(2 * z);
    let (t, s) = (value64(times64_of::<A>(mean, mean)), step64(2 * z));
    assert((s * u) * 0x8_0000_0000_0000 <= (2 * z) * u) by (nonlinear_arith)
        requires
            s * 0x8_0000_0000_0000 <= 2 * z,
            u > 0,
    ;
    assert(-3 * z <= t <= 3 * z) by (nonlinear_arith)
        requires
            apart(t * u, v * v) <= s * u,
            0 <= v * v <= (2 * z) * u,
            0 <= s <= z,
            u > 0,
    ;
}

/// Two means that are close have squares that are close.
proof fn squares_agree(v: int, w: int, t: int, s: int, u: int, c: int, z: int, g: int)
    requires
        u > 0,
        c > 0,
        z > 0,
        g >= 2,
        -2 * c <= v <= 2 * c,
        -2 * c <= w <= 2 * c,
        apart(v, w) * 0x1000_0000_0000 <= c * g,
        4 * (c * c) <= (2 * z) * u,
        apart(t * u, v * v) * 0x8_0000_0000_0000 <= (2 * z) * u,
        apart(s * u, w * w) * 0x8_0000_0000_0000 <= (2 * z) * u,
    ensures
        apart(t, s) * 0x1000_0000_0000 <= 2 * (z * g) + z,
{
    let k = 0x1000_0000_0000int;
    let d = v - w;
    assert(v * v - w * w == d * (v + w)) by (nonlinear_arith)
        requires
            d == v - w,
    ;
    let cg = c * g;
    assert(-((4 * c) * cg) <= (d * k) * (v + w) <= (4 * c) * cg) by (nonlinear_arith)
        requires
            -cg <= d * k <= cg,
            -(4 * c) <= v + w <= 4 * c,
    ;
    assert((d * k) * (v + w) == (d * (v + w)) * k) by (nonlinear_arith);
    assert((4 * c) * cg <= ((2 * z) * u) * g) by (nonlinear_arith)
        requires
            cg == c * g,
            4 * (c * c) <= (2 * z) * u,
            g >= 2,
    ;
    let zg = z * g;
    assert(((2 * z) * u) * g == 2 * (zg * u) && (2 * z) * u == 2 * (z * u)) by (nonlinear_arith)
        requires
            zg == z * g,
    ;
    assert(z * u > 0) by (nonlinear_arith)
        requires
            z > 0,
            u > 0,
    ;
    assert(-(2 * (zg * u) + z * u) <= (t * u - s * u) * k <= 2 * (zg * u) + z * u);
    assert(-(2 * zg + z) <= (t - s) * k <= 2 * zg + z) by (nonlinear_arith)
        requires
            -(2 * (zg * u) + z * u) <= (t * u - s * u) * k <= 2 * (zg * u) + z * u,
            u > 0,
    ;
}

/// Means and mean squares that are close have variances that are close.
proof fn spreads_agree<A: Arithmetic>(m1: u64, s1: u64, m2: u64, s2: u64, c: int, g: int)
    requires
        computes_finely::<A>(),
        double::is_finite(m1),
        double::is_finite(s1),
        double::is_finite(m2),
        double::is_finite(s2),
        0 < c < pow2(1196),
        g >= 2,
        -2 * c <= value64(m1) <= 2 * c,
        -2 * c <= value64(m2) <= 2 * c,
        -2 * square_bound(c) <= value64(s1) <= 2 * square_bound(c),
        -2 * square_bound(c) <= value64(s2) <= 2 * square_bound(c),
        apart(value64(m1), value64(m2)) * 0x1000_0000_0000 <= c * g,
        apart(value64(s1), value64(s2)) * 0x1000_0000_0000 <= square_bound(c) * g,
    ensures
        ({
            let (a, b, z) = (spread::<A>(m1, s1), spread::<A>(m2, s2), square_bound(c));
            &&& double::is_finite(a) && 0 <= value64(a) <= 6 * z
            &&& double::is_finite(b) && 0 <= value64(b) <= 6 * z
            &&& apart(value64(a), value64(b)) * 0x400_0000_0000 <= z * g
        }),
{
    let (z, u) = (square_bound(c), unit64());
    small_numbers64();
    squares_in_units(c);
    unit_sizes();
    mean_squared::<A>(m1, c);
    mean_squared::<A>(m2, c);
    let (t1, t2) = (times64_of::<A>(m1, m1), times64_of::<A>(m2, m2));
    squares_agree(value64(m1), value64(m2), value64(t1), value64(t2), u, c, z, g);
    lemma2_to64();
    lemma_pow2_adds(3, 1390);
    lemma_pow2_strictly_increases(1393, 2000);
    large_step(5 * z);
    minus_off64::<A>(s1, t1, 5 * z);
    minus_off64::<A>(s2, t2, 5 * z);
    let (d1, d2) = (minus64_of::<A>(s1, t1), minus64_of::<A>(s2, t2));
    values_are_ordered64(0, d1);
    values_are_ordered64(0, d2);
    assert(2 * z <= z * g) by (nonlinear_arith)
        requires
            z >= 0,
            g >= 2,
    ;
    spreads_in_units(
        value64(d1),
        value64(d2),
        value64(s1),
        value64(s2),
        value64(t1),
        value64(t2),
        step64(5 * z),
        z,
        z * g,
    );
}

proof fn spreads_in_units(
    d1: int,
    d2: int,
    s1: int,
    s2: int,
    t1: int,
    t2: int,
    e: int,
    z: int,
    zg: int,
)
    requires
        z > 0,
        2 * z <= zg,
        apart(d1, s1 - t1) <= e,
        apart(d2, s2 - t2) <= e,
        e * 0x8_0000_0000_0000 <= 5 * z,
        apart(s1, s2) * 0x1000_0000_0000 <= zg,
        apart(t1, t2) * 0x1000_0000_0000 <= 2 * zg + z,
        apart(s1 - t1, 0) <= 5 * z,
        apart(s2 - t2, 0) <= 5 * z,
    ensures
        apart(d1, d2) * 0x400_0000_0000 <= zg,
        -6 * z <= d1 <= 6 * z,
        -6 * z <= d2 <= 6 * z,
{
}

/// The share of a variance in itself and a positive regularisation is close to the exact one.
proof fn share_is_close<A: Arithmetic>(var: u64, eps: u64)
    requires
        computes_finely::<A>(),
        double::is_finite(var),
        double::is_finite(eps),
        value64(var) >= 0,
        value64(eps) >= 0x1000_0000_0000_0000,
        value64(var) + value64(eps) < pow2(1500),
    ensures
        ({
            let denom = plus64_of::<A>(var, eps);
            let (a, w) = (over64_of::<A>(var, denom), value64(var) + value64(eps));
            &&& double::less(0, denom)
            &&& double::is_finite(a) && 0 <= value64(a) <= unit64()
            &&& apart(value64(a) * w, unit64() * value64(var)) * 0x8_0000_0000_0000 <= 3 * (unit64()
                * w)
        }),
{
    let (u, v, w) = (unit64(), value64(var), value64(var) + value64(eps));
    small_numbers64();
    unit_sizes();
    lemma_pow2_strictly_increases(1500, 2000);
    lemma_pow2_strictly_increases(1400, 2000);
    large_step(w);
    plus_off64::<A>(var, eps, w);
    let denom = plus64_of::<A>(var, eps);
    plus_grows64::<A>(var, eps);
    let d = value64(denom);
    values_are_ordered64(0, denom);
    over_shares64::<A>(var, denom);
    assert(0 <= v * u <= u * d) by (nonlinear_arith)
        requires
            0 <= v <= d,
            u > 0,
    ;
    over_off64::<A>(var, denom, u);
    large_step(u);
    let a = value64(over64_of::<A>(var, denom));
    let (s, e) = (step64(u), w - d);
    assert((s * d) * 0x8_0000_0000_0000 <= u * d) by (nonlinear_arith)
        requires
            s * 0x8_0000_0000_0000 <= u,
            d > 0,
    ;
    assert(u * d <= 2 * (u * w)) by (nonlinear_arith)
        requires
            d <= 2 * w,
            u > 0,
    ;
    assert(-(u * w) <= (a * e) * 0x8_0000_0000_0000 <= u * w) by (nonlinear_arith)
        requires
            0 <= a <= u,
            -w <= e * 0x8_0000_0000_0000 <= w,
    ;
    assert(a * w == a * d + a * e) by (nonlinear_arith)
        requires
            e == w - d,
    ;
    assert(v * u == u * v) by (nonlinear_arith);
}

/// Shares of variances that are close are close.
proof fn shares_agree(a1: int, v1: int, a2: int, v2: int, u: int, e: int, t: int)
    requires
        u > 0,
        e > 0,
        t >= 0,
        v1 >= 0,
        v2 >= 0,
        apart(v1, v2) * 0x400_0000_0000 <= t,
        apart(a1 * (v1 + e), u * v1) * 0x8_0000_0000_0000 <= 3 * (u * (v1 + e)),
        apart(a2 * (v2 + e), u * v2) * 0x8_0000_0000_0000 <= 3 * (u * (v2 + e)),
    ensures
        (apart(a1, a2) * e) * 0x400_0000_0000 <= u * (t + e),
{
    let k = 0x8_0000_0000_0000int;
    let (w1, w2) = (v1 + e, v2 + e);
    let (x1, x2) = (a1 * w1 - u * v1, a2 * w2 - u * v2);
    let (p, d, v) = (w1 * w2, a1 - a2, v1 - v2);
    assert(p >= e * e && p > 0) by (nonlinear_arith)
        requires
            p == w1 * w2,
            w1 >= e,
            w2 >= e,
            e > 0,
    ;
    assert(d * p == x1 * w2 - x2 * w1 + u * (e * v)) by {
        assert(d * p == (a1 * w1) * w2 - (a2 * w2) * w1) by (nonlinear_arith)
            requires
                d == a1 - a2,
                p == w1 * w2,
        ;
        assert((a1 * w1) * w2 == x1 * w2 + (u * v1) * w2) by (nonlinear_arith)
            requires
                x1 == a1 * w1 - u * v1,
        ;
        assert((a2 * w2) * w1 == x2 * w1 + (u * v2) * w1) by (nonlinear_arith)
            requires
                x2 == a2 * w2 - u * v2,
        ;
        assert((u * v1) * w2 - (u * v2) * w1 == u * (e * v)) by (nonlinear_arith)
            requires
                w1 == v1 + e,
                w2 == v2 + e,
                v == v1 - v2,
        ;
    }
    assert(-(3 * (u * p)) <= (x1 * w2) * k <= 3 * (u * p)) by (nonlinear_arith)
        requires
            -(3 * (u * w1)) <= x1 * k <= 3 * (u * w1),
            w2 > 0,
            p == w1 * w2,
    ;
    assert(-(3 * (u * p)) <= (x2 * w1) * k <= 3 * (u * p)) by (nonlinear_arith)
        requires
            -(3 * (u * w2)) <= x2 * k <= 3 * (u * w2),
            w1 > 0,
            p == w1 * w2,
    ;
    let n = apart(v1, v2);
    // Times `e`, the difference of the variances is no more than a share of `p`.
    assert(apart((u * (e * v)) * e, 0) <= (u * p) * n) by {
        assert((u * (e * v)) * e == (u * (e * e)) * v) by (nonlinear_arith);
        assert(0 <= u * (e * e) <= u * p) by (nonlinear_arith)
            requires
                e * e <= p,
                u > 0,
                e > 0,
        ;
        let q = u * (e * e);
        assert(-(q * n) <= q * v <= q * n && q * n <= (u * p) * n) by (nonlinear_arith)
            requires
                -n <= v <= n,
                0 <= q <= u * p,
                n >= 0,
        ;
    }
    assert(((u * p) * n) * 0x400_0000_0000 <= (u * p) * t) by (nonlinear_arith)
        requires
            n * 0x400_0000_0000 <= t,
            u > 0,
            p > 0,
    ;
    let y = x1 * w2 - x2 * w1;
    assert(-((6 * (u * p)) * e) <= (y * e) * k <= (6 * (u * p)) * e) by (nonlinear_arith)
        requires
            -(6 * (u * p)) <= y * k <= 6 * (u * p),
            e > 0,
    ;
    assert((d * p) * e == y * e + (u * (e * v)) * e) by (nonlinear_arith)
        requires
            d * p == y + u * (e * v),
    ;
    let up = u * p;
    assert((6 * up) * e == 6 * (up * e)) by (nonlinear_arith);
    assert(up * e >= 0 && up * t >= 0) by (nonlinear_arith)
        requires
            up == u * p,
            u > 0,
            p > 0,
            e > 0,
            t >= 0,
    ;
    assert(-(up * t + up * e) <= ((d * p) * e) * 0x400_0000_0000 <= up * t + up * e);
    assert(-(u * (t + e)) <= (d * e) * 0x400_0000_0000 <= u * (t + e)) by (nonlinear_arith)
        requires
            -(up * t + up * e) <= ((d * p) * e) * 0x400_0000_0000 <= up * t + up * e,
            up == u * p,
            p > 0,
    ;
    assert(apart(a1, a2) * e == apart(d * e, 0)) by (nonlinear_arith)
        requires
            d == a1 - a2,
            e > 0,
    ;
}

/// Mixes of a number with means that are close, in shares that are close, are close.
proof fn mixes_agree(
    a1: int,
    m1: int,
    a2: int,
    m2: int,
    at: int,
    u: int,
    e: int,
    c: int,
    t: int,
    l: int,
)
    requires
        u > 0,
        e > 0,
        c > 0,
        t >= 0,
        l >= 0,
        0 <= a2 <= u,
        -c <= at <= c,
        -2 * c <= m1 <= 2 * c,
        apart(m1, m2) * 0x1000_0000_0000 <= l,
        (apart(a1, a2) * e) * 0x400_0000_0000 <= u * (t + e),
    ensures
        (apart(a1 * at + (u - a1) * m1, a2 * at + (u - a2) * m2) * e) * 0x400_0000_0000 <= u * ((3
            * c) * (t + e) + e * l),
{
    let k = 0x400_0000_0000int;
    let (d, n, x, y) = (a1 - a2, m1 - m2, at - m1, u - a2);
    let (mix1, mix2) = (a1 * at + (u - a1) * m1, a2 * at + (u - a2) * m2);
    assert(mix1 - mix2 == d * x + y * n) by (nonlinear_arith)
        requires
            d == a1 - a2,
            n == m1 - m2,
            x == at - m1,
            y == u - a2,
            mix1 == a1 * at + (u - a1) * m1,
            mix2 == a2 * at + (u - a2) * m2,
    ;
    let f = u * (t + e);
    assert(-f <= (d * e) * k <= f) by (nonlinear_arith)
        requires
            (apart(a1, a2) * e) * k <= f,
            d == a1 - a2,
            e > 0,
            k > 0,
    ;
    assert(-(f * (3 * c)) <= ((d * e) * k) * x <= f * (3 * c)) by (nonlinear_arith)
        requires
            -f <= (d * e) * k <= f,
            -(3 * c) <= x <= 3 * c,
    ;
    assert(-l <= n * k <= l);
    assert(-(u * l) <= y * (n * k) <= u * l) by (nonlinear_arith)
        requires
            0 <= y <= u,
            -l <= n * k <= l,
    ;
    let z = y * (n * k);
    assert(-((u * l) * e) <= z * e <= (u * l) * e) by (nonlinear_arith)
        requires
            -(u * l) <= z <= u * l,
            e > 0,
    ;
    let g = mix1 - mix2;
    let (dx, yn) = (d * x, y * n);
    assert((g * e) * k == (dx * e) * k + (yn * e) * k) by (nonlinear_arith)
        requires
            g == dx + yn,
    ;
    assert((dx * e) * k == ((d * e) * k) * x) by (nonlinear_arith)
        requires
            dx == d * x,
    ;
    assert(yn * k == z) by (nonlinear_arith)
        requires
            yn == y * n,
            z == y * (n * k),
    ;
    assert((yn * e) * k == z * e) by (nonlinear_arith)
        requires
            yn * k == z,
    ;
    assert(f * (3 * c) + (u * l) * e == u * ((3 * c) * (t + e) + e * l)) by (nonlinear_arith)
        requires
            f == u * (t + e),
    ;
    assert((apart(mix1, mix2) * e) * k == apart((g * e) * k, 0)) by (nonlinear_arith)
        requires
            g == mix1 - mix2,
            e > 0,
            k > 0,
    ;
}

/// Two means close to one sum are close to one another.
proof fn means_agree_closely(m1: int, m2: int, block: int, cells: int, l: int)
    requires
        cells >= 1,
        apart(m1 * cells, block) * 0x2000_0000_0000 <= l * cells,
        apart(m2 * cells, block) * 0x2000_0000_0000 <= l * cells,
    ensures
        apart(m1, m2) * 0x1000_0000_0000 <= l,
{
    let d = m1 - m2;
    assert(-(l * cells) <= (m1 * cells - m2 * cells) * 0x1000_0000_0000 <= l * cells);
    assert(-l <= d * 0x1000_0000_0000 <= l) by (nonlinear_arith)
        requires
            -(l * cells) <= (m1 * cells - m2 * cells) * 0x1000_0000_0000 <= l * cells,
            d == m1 - m2,
            cells >= 1,
    ;
}

/// How far apart two models of a cell can be, times the regularisation.
spec fn model_gap(c: int, g: int, e: int) -> int {
    (3 * c) * (square_bound(c) * g + e) + e * (c * g) + 0x10_0000 * (e * (10 * c + 0x80_0000
        * pow2(925)))
}

/// The models of a cell from tables and from row sums, at a number, are close where there is
/// a regularisation.
proof fn models_agree<A: Arithmetic>(
    data: Lattice<u32>,
    b: int,
    r: int,
    eps: u32,
    y: int,
    x: int,
    at: int,
)
    requires
        computes_finely::<A>(),
        computes_exactly::<A>(),
        is_fit(data, b),
        within(data.shape, y, x),
        0 <= r,
        single::is_finite(eps),
        value(eps) > 0,
        -(b * pow2(925)) <= at <= b * pow2(925),
    ensures
        ({
            let wide = widen_of::<A>(eps);
            let (sums, squares) = (
                row_sums::<A>(data, Measure::Value, r),
                row_sums::<A>(data, Measure::Square, r),
            );
            let m = model_at::<A>(data, r, wide, y, x);
            let n = self_model::<A>(sums, squares, r, wide, y, x);
            let (u, c, p) = (unit64(), b * pow2(925), pow2(925) as int);
            let e = value(eps) * p;
            &&& single::is_finite(n.0) && -2 * u <= value(n.0) * p <= 2 * u
            &&& single::is_finite(n.1) && -8 * c <= value(n.1) * p <= 8 * c
            &&& (apart(
                (value(m.0) * p) * at + (value(m.1) * p) * u,
                (value(n.0) * p) * at + (value(n.1) * p) * u,
            ) * e) * 0x400_0000_0000 <= u * model_gap(c, load(data.shape), e)
        }),
{
    let wide = widen_of::<A>(eps);
    let (u, c, p, g) = (unit64(), b * pow2(925), pow2(925) as int, load(data.shape));
    let z = square_bound(c);
    unit_sizes();
    small_numbers64();
    fit_is_moderate::<A>(data, b);
    squares_are_moderate::<A>(data, b);
    squares_in_units(c);
    steps_are_small(data.shape, c);
    mean_is_close::<A>(data, Measure::Value, c, y, x, r);
    mean_is_close::<A>(data, Measure::Square, z, y, x, r);
    box_is_close::<A>(data, Measure::Value, c, y, x, r);
    box_is_close::<A>(data, Measure::Square, z, y, x, r);
    let (m1, s1) = (
        window_mean::<A>(summed::<A>(data, Measure::Value), y, x, r),
        window_mean::<A>(summed::<A>(data, Measure::Square), y, x, r),
    );
    let (m2, s2) = (
        box_mean::<A>(row_sums::<A>(data, Measure::Value, r), y, x, r),
        box_mean::<A>(row_sums::<A>(data, Measure::Square, r), y, x, r),
    );
    let cells = window_cells(data.shape.0 as int, data.shape.1 as int, y, x, r);
    means_agree_closely(
        value64(m1),
        value64(m2),
        window_block(cell::<A>(data, Measure::Value), data.shape, y, x, r),
        cells,
        c * g,
    );
    means_agree_closely(
        value64(s1),
        value64(s2),
        window_block(cell::<A>(data, Measure::Square), data.shape, y, x, r),
        cells,
        z * g,
    );
    spreads_agree::<A>(m1, s1, m2, s2, c, g);
    let (v1, v2) = (spread::<A>(m1, s1), spread::<A>(m2, s2));
    widen_exact::<A>(eps);
    singles_are_moderate(eps);
    let e = value(eps) * p;
    let n = value(eps);
    assert(e >= p) by (nonlinear_arith)
        requires
            e == n * p,
            n >= 1,
            p > 0,
    ;
    lemma2_to64();
    lemma_pow2_adds(3, 1390);
    lemma_pow2_strictly_increases(1202, 1390);
    lemma_pow2_strictly_increases(1393, 1500);
    share_is_close::<A>(v1, wide);
    share_is_close::<A>(v2, wide);
    let (a1, a2) = (
        value64(slope::<A>(m1, s1, wide)),
        value64(slope::<A>(m2, s2, wide)),
    );
    let (t, l) = (z * g, c * g);
    assert(t >= 0 && l >= 0) by (nonlinear_arith)
        requires
            t == z * g,
            l == c * g,
            z >= 0,
            c >= 0,
            g >= 2,
    ;
    shares_agree(a1, value64(v1), a2, value64(v2), u, e, t);
    mixes_agree(a1, value64(m1), a2, value64(m2), at, u, e, c, t, l);
    model_mixes::<A>(m1, s1, wide, c, at);
    model_mixes::<A>(m2, s2, wide, c, at);
    let (f1, f2) = (model::<A>(m1, s1, wide), model::<A>(m2, s2, wide));
    let d = 10 * c + 0x80_0000 * p;
    gaps_add_up(
        (value(f1.0) * p) * at + (value(f1.1) * p) * u,
        a1 * at + (u - a1) * value64(m1),
        (value(f2.0) * p) * at + (value(f2.1) * p) * u,
        a2 * at + (u - a2) * value64(m2),
        u,
        e,
        d,
        (3 * c) * (t + e) + e * l,
    );
}

proof fn gaps_add_up(x1: int, y1: int, x2: int, y2: int, u: int, e: int, d: int, q: int)
    requires
        e > 0,
        apart(x1, y1) * 0x80_0000 <= u * d,
        apart(x2, y2) * 0x80_0000 <= u * d,
        (apart(y1, y2) * e) * 0x400_0000_0000 <= u * q,
    ensures
        (apart(x1, x2) * e) * 0x400_0000_0000 <= u * (q + 0x10_0000 * (e * d)),
{
    let k = 0x400_0000_0000int;
    let (f, n) = (apart(x1, x2), apart(y1, y2));
    let ud = u * d;
    assert(f * 0x40_0000 <= n * 0x40_0000 + ud);
    assert((f * e) * 0x40_0000 <= (n * e) * 0x40_0000 + ud * e) by (nonlinear_arith)
        requires
            f * 0x40_0000 <= n * 0x40_0000 + ud,
            e > 0,
    ;
    assert(u * (q + 0x10_0000 * (e * d)) == u * q + 0x10_0000 * (ud * e)) by (nonlinear_arith)
        requires
            ud == u * d,
    ;
}

/// The models from row sums have slopes and offsets in bounds.
proof fn boxed_models_are_bounded<A: Arithmetic>(data: Lattice<u32>, b: int, r: int, eps: u32)
    requires
        computes_finely::<A>(),
        computes_exactly::<A>(),
        is_fit(data, b),
        0 <= r,
        single::is_finite(eps),
        value(eps) > 0,
    ensures
        ({
            let wide = widen_of::<A>(eps);
            let models = self_models::<A>(data, r, wide);
            let (sums, squares) = (
                row_sums::<A>(data, Measure::Value, r),
                row_sums::<A>(data, Measure::Square, r),
            );
            &&& is_moderate::<A>(models.0, Measure::Value, 2 * unit64())
            &&& is_moderate::<A>(models.1, Measure::Value, 8 * (b * pow2(925)))
            &&& models.0.shape == data.shape && models.1.shape == data.shape
            &&& forall|j: int, i: int|
                within(data.shape, j, i) ==> {
                    let m = #[trigger] self_model::<A>(sums, squares, r, wide, j, i);
                    &&& cell::<A>(models.0, Measure::Value)(j, i) == value(m.0) * pow2(925)
                    &&& cell::<A>(models.1, Measure::Value)(j, i) == value(m.1) * pow2(925)
                }
        }),
{
    let wide = widen_of::<A>(eps);
    let models = self_models::<A>(data, r, wide);
    let (a, o) = (models.0, models.1);
    let (sums, squares) = (
        row_sums::<A>(data, Measure::Value, r),
        row_sums::<A>(data, Measure::Square, r),
    );
    let (u, c) = (unit64(), b * pow2(925));
    unit_sizes();
    small_numbers64();
    fit_is_moderate::<A>(data, b);
    lemma2_to64();
    lemma_pow2_adds(3, 1196);
    lemma_pow2_strictly_increases(1199, 1500);
    tabulated2(data.shape, |j: int, i: int| self_model::<A>(sums, squares, r, wide, j, i).0);
    tabulated2(data.shape, |j: int, i: int| self_model::<A>(sums, squares, r, wide, j, i).1);
    let (s, t) = (cell::<A>(a, Measure::Value), cell::<A>(o, Measure::Value));
    assert forall|j: int, i: int| within(data.shape, j, i) implies {
        let m = #[trigger] self_model::<A>(sums, squares, r, wide, j, i);
        &&& s(j, i) == value(m.0) * pow2(925) && -(2 * u) <= s(j, i) <= 2 * u
        &&& t(j, i) == value(m.1) * pow2(925) && -(8 * c) <= t(j, i) <= 8 * c
        &&& double::is_finite(measured::<A>(Measure::Value, a.at(j, i)))
        &&& double::is_finite(measured::<A>(Measure::Value, o.at(j, i)))
    } by {
        models_agree::<A>(data, b, r, eps, j, i, 0);
        widen_exact::<A>(a.at(j, i));
        widen_exact::<A>(o.at(j, i));
    }
    assert forall|j: int, i: int| within(data.shape, j, i) implies -(2 * u) <= #[trigger] s(j, i)
        <= 2 * u by {
        let _ = self_model::<A>(sums, squares, r, wide, j, i);
    }
    assert forall|j: int, i: int| within(data.shape, j, i) implies -(8 * c) <= #[trigger] t(j, i)
        <= 8 * c by {
        let _ = self_model::<A>(sums, squares, r, wide, j, i);
    }
    assert forall|j: int, i: int| within(data.shape, j, i) implies double::is_finite(
        measured::<A>(Measure::Value, #[trigger] a.at(j, i)),
    ) by {
        let _ = self_model::<A>(sums, squares, r, wide, j, i);
    }
    assert forall|j: int, i: int| within(data.shape, j, i) implies double::is_finite(
        measured::<A>(Measure::Value, #[trigger] o.at(j, i)),
    ) by {
        let _ = self_model::<A>(sums, squares, r, wide, j, i);
    }
}

/// Sums of blocks whose cells are close are close.
proof fn blocks_agree(
    f: spec_fn(int, int) -> int,
    g: spec_fn(int, int) -> int,
    k: int,
    gap: int,
    y1: int,
    m: int,
    x1: int,
    n: int,
)
    requires
        0 <= m,
        0 <= n,
        k > 0,
        forall|j: int, i: int|
            y1 <= j < y1 + m && x1 <= i < x1 + n ==> apart(#[trigger] f(j, i), g(j, i)) * k <= gap,
    ensures
        apart(block_total(f, y1, m, x1, n), block_total(g, y1, m, x1, n)) * k <= gap * (m * n),
{
    let d = mixed(f, k, g, -k);
    assert forall|j: int, i: int| y1 <= j < y1 + m && x1 <= i < x1 + n implies -gap
        <= #[trigger] d(j, i) <= gap by {
        let (a, b) = (f(j, i), g(j, i));
        assert(apart(a, b) * k <= gap);
        assert(-gap <= a * k + b * (-k) <= gap) by (nonlinear_arith)
            requires
                apart(a, b) * k <= gap,
                k > 0,
        ;
    }
    block_in_range(d, y1, m, x1, n, -gap, gap);
    block_is_linear(f, k, g, -k, y1, m, x1, n);
    let (a, b, c) = (block_total(f, y1, m, x1, n), block_total(g, y1, m, x1, n), m * n);
    assert(apart(a, b) * k <= gap * c) by (nonlinear_arith)
        requires
            (-gap) * c <= a * k + b * (-k) <= gap * c,
            k > 0,
    ;
}

/// The models of a window from tables and from row sums, added up, are close.
proof fn sums_agree<A: Arithmetic>(
    data: Lattice<u32>,
    b: int,
    r: int,
    eps: u32,
    y: int,
    x: int,
)
    requires
        computes_finely::<A>(),
        computes_exactly::<A>(),
        is_fit(data, b),
        within(data.shape, y, x),
        0 <= r,
        single::is_finite(eps),
        value(eps) > 0,
    ensures
        ({
            let wide = widen_of::<A>(eps);
            let (a, o) = (slopes::<A>(data, r, wide), offsets::<A>(data, r, wide));
            let boxed = self_models::<A>(data, r, wide);
            let (u, c, p) = (unit64(), b * pow2(925), pow2(925) as int);
            let (at, e) = (value(data.at(y, x)) * p, value(eps) * p);
            let cells = window_cells(data.shape.0 as int, data.shape.1 as int, y, x, r);
            let first = window_block(cell::<A>(a, Measure::Value), data.shape, y, x, r) * at
                + window_block(cell::<A>(o, Measure::Value), data.shape, y, x, r) * u;
            let second = window_block(cell::<A>(boxed.0, Measure::Value), data.shape, y, x, r) * at
                + window_block(cell::<A>(boxed.1, Measure::Value), data.shape, y, x, r) * u;
            &&& -c <= at <= c
            &&& apart(first, second) * (e * 0x400_0000_0000) <= (u * model_gap(
                c,
                load(data.shape),
                e,
            )) * cells
        }),
{
    let wide = widen_of::<A>(eps);
    let (a, o) = (slopes::<A>(data, r, wide), offsets::<A>(data, r, wide));
    let boxed = self_models::<A>(data, r, wide);
    let (sums, squares) = (
        row_sums::<A>(data, Measure::Value, r),
        row_sums::<A>(data, Measure::Square, r),
    );
    let (u, c, p) = (unit64(), b * pow2(925), pow2(925) as int);
    let (at, n, z) = (value(data.at(y, x)) * p, value(eps), value(data.at(y, x)));
    let e = n * p;
    unit_sizes();
    assert(-(b * p) <= z * p <= b * p) by (nonlinear_arith)
        requires
            -b <= z <= b,
            p > 0,
    ;
    assert(e > 0) by (nonlinear_arith)
        requires
            e == n * p,
            n > 0,
            p > 0,
    ;
    models_are_bounded::<A>(data, b, r, eps);
    boxed_models_are_bounded::<A>(data, b, r, eps);
    let (s1, t1) = (cell::<A>(a, Measure::Value), cell::<A>(o, Measure::Value));
    let (s2, t2) = (cell::<A>(boxed.0, Measure::Value), cell::<A>(boxed.1, Measure::Value));
    let (f, g) = (mixed(s1, at, t1, u), mixed(s2, at, t2, u));
    let gap = u * model_gap(c, load(data.shape), e);
    let (h, w) = (data.shape.0 as int, data.shape.1 as int);
    let (y1, m) = (low(y, r), high(y, r, h) - low(y, r) + 1);
    let (x1, l) = (low(x, r), high(x, r, w) - low(x, r) + 1);
    let k = e * 0x400_0000_0000;
    assert forall|j: int, i: int| y1 <= j < y1 + m && x1 <= i < x1 + l implies apart(
        #[trigger] f(j, i),
        g(j, i),
    ) * k <= gap by {
        assert(within(data.shape, j, i));
        models_agree::<A>(data, b, r, eps, j, i, at);
        let fitted = model_at::<A>(data, r, wide, j, i);
        let other = self_model::<A>(sums, squares, r, wide, j, i);
        let d = apart(f(j, i), g(j, i));
        assert((d * e) * 0x400_0000_0000 == d * k) by (nonlinear_arith)
            requires
                k == e * 0x400_0000_0000,
        ;
    }
    blocks_agree(f, g, k, gap, y1, m, x1, l);
    block_is_linear(s1, at, t1, u, y1, m, x1, l);
    block_is_linear(s2, at, t2, u, y1, m, x1, l);
}

/// Results that are close to means, which are close to sums, which are close.
proof fn results_agree(
    q1: int,
    x1: int,
    f1: int,
    q2: int,
    x2: int,
    f2: int,
    cells: int,
    u: int,
    e: int,
    near: int,
    far: int,
    gap: int,
)
    requires
        cells >= 1,
        u > 0,
        e > 0,
        apart(q1 * u, x1) * 0x2000_0000_0000 <= near * u,
        apart(q2 * u, x2) * 0x2000_0000_0000 <= near * u,
        apart(x1 * cells, f1) * 0x2000_0000_0000 <= (far * u) * cells,
        apart(x2 * cells, f2) * 0x2000_0000_0000 <= (far * u) * cells,
        apart(f1, f2) * (e * 0x400_0000_0000) <= (u * gap) * cells,
    ensures
        (apart(q1, q2) * e) * 0x2000_0000_0000 <= e * (2 * near + 2 * far) + 8 * gap,
{
    let k = 0x2000_0000_0000int;
    let t = u * cells;
    assert(t > 0) by (nonlinear_arith)
        requires
            t == u * cells,
            u > 0,
            cells >= 1,
    ;
    let (r1, r2) = (q1 * t, q2 * t);
    assert(-(near * t) <= (r1 - x1 * cells) * k <= near * t) by (nonlinear_arith)
        requires
            -(near * u) <= (q1 * u - x1) * k <= near * u,
            t == u * cells,
            r1 == q1 * t,
            cells >= 1,
    ;
    assert(-(near * t) <= (r2 - x2 * cells) * k <= near * t) by (nonlinear_arith)
        requires
            -(near * u) <= (q2 * u - x2) * k <= near * u,
            t == u * cells,
            r2 == q2 * t,
            cells >= 1,
    ;
    assert((far * u) * cells == far * t && (u * gap) * cells == gap * t) by (nonlinear_arith)
        requires
            t == u * cells,
    ;
    let (d, n) = (r1 - r2, f1 - f2);
    let all = 2 * (near * t) + 2 * (far * t);
    assert(-all <= (d - n) * k <= all);
    assert(-(all * e) <= ((d - n) * k) * e <= all * e) by (nonlinear_arith)
        requires
            -all <= (d - n) * k <= all,
            e > 0,
    ;
    assert(-(8 * (gap * t)) <= (n * e) * k <= 8 * (gap * t)) by (nonlinear_arith)
        requires
            apart(f1, f2) * (e * 0x400_0000_0000) <= gap * t,
            n == f1 - f2,
            e > 0,
            k == 8 * 0x400_0000_0000,
    ;
    assert(((d - n) * k) * e + (n * e) * k == (d * e) * k) by (nonlinear_arith);
    let bound = e * (2 * near + 2 * far) + 8 * gap;
    assert(all * e + 8 * (gap * t) == bound * t) by (nonlinear_arith)
        requires
            all == 2 * (near * t) + 2 * (far * t),
            bound == e * (2 * near + 2 * far) + 8 * gap,
    ;
    let v = q1 - q2;
    assert(-(bound * t) <= ((v * t) * e) * k <= bound * t) by {
        assert(v * t == d) by (nonlinear_arith)
            requires
                v == q1 - q2,
                d == q1 * t - q2 * t,
        ;
    }
    assert(-bound <= (v * e) * k <= bound) by (nonlinear_arith)
        requires
            -(bound * t) <= ((v * t) * e) * k <= bound * t,
            t > 0,
    ;
    assert((apart(q1, q2) * e) * k == apart((v * e) * k, 0)) by (nonlinear_arith)
        requires
            v == q1 - q2,
            e > 0,
            k > 0,
    ;
}

/// The bound on squares in the units of single precision.
proof fn square_bound_in_units(b: int)
    requires
        1 <= b < pow2(271),
    ensures
        (2 * half()) * square_bound(b * pow2(925)) <= 3 * ((b * b) * pow2(925)),
        unit64() == (2 * half()) * pow2(925),
        2 * half() > 0,
{
    let (o, p, u, c) = (2 * half(), pow2(925) as int, unit64(), b * pow2(925));
    small_numbers();
    small_numbers64();
    half_is_positive();
    unit_sizes();
    lemma2_to64();
    lemma2_to64_rest();
    lemma_pow2_adds(271, 925);
    lemma_pow2_adds(1, 148);
    lemma_pow2_adds(60, 149);
    lemma_pow2_adds(149, 925);
    lemma_pow2_strictly_increases(209, 925);
    let t = pow2(271) as int;
    assert(0 <= c < t * p) by (nonlinear_arith)
        requires
            c == b * p,
            1 <= b < t,
            p > 0,
    ;
    squares_in_units(c);
    let q = (c * c) / u;
    let bb = b * b;
    assert(c * c == (bb * p) * p) by (nonlinear_arith)
        requires
            c == b * p,
            bb == b * b,
    ;
    assert(q * o <= bb * p) by (nonlinear_arith)
        requires
            q * u <= (bb * p) * p,
            u == o * p,
            p > 0,
    ;
    assert(bb * p >= p) by (nonlinear_arith)
        requires
            bb == b * b,
            b >= 1,
            p > 0,
    ;
    let z = square_bound(c);
    assert(o * z == 2 * (q * o) + 0x1000_0000_0000_0000 * o) by (nonlinear_arith)
        requires
            z == 2 * q + 0x1000_0000_0000_0000,
    ;
}

/// How far apart two results can be, in the units of single precision.
proof fn gap_in_units(d: int, b: int, p: int, n: int, o: int, z: int, g: int)
    requires
        p > 0,
        b >= 1,
        n >= 1,
        o > 0,
        g >= 2,
        d >= 0,
        o * z <= 3 * ((b * b) * p),
        ({
            let (c, e) = (b * p, n * p);
            let near = 0x800_0001 * c + 0x2000_0000_0000 * p;
            let gap = (3 * c) * (z * g + e) + e * (c * g) + 0x10_0000 * (e * (10 * c + 0x80_0000
                * p));
            ((d * p) * e) * 0x2000_0000_0000 <= e * (2 * near + 2 * (10 * (c * g))) + 8 * gap
        }),
    ensures
        (d * (o * n)) * 0x20_0000_0000 <= (b * g) * (b * b + o * n) + (o * n) * (0x20_0000 * b
            + 0x80_0000_0000),
{
    let k = 0x2000_0000_0000int;
    let (c, e) = (b * p, n * p);
    let near = 0x800_0001 * c + k * p;
    let (pp, bg, nb) = (p * p, b * g, n * b);
    let (ec, ep, ecg, cz) = (e * c, e * p, e * (c * g), c * (z * g));
    assert(ec == nb * pp) by (nonlinear_arith)
        requires
            ec == e * c,
            c == b * p,
            e == n * p,
            pp == p * p,
            nb == n * b,
    ;
    assert(ep == n * pp) by (nonlinear_arith)
        requires
            ep == e * p,
            e == n * p,
            pp == p * p,
    ;
    assert(ecg == ec * g) by (nonlinear_arith)
        requires
            ecg == e * (c * g),
            ec == e * c,
    ;
    assert(e * (2 * near + 2 * (10 * (c * g))) == 0x1000_0002 * ec + (2 * k) * ep + 20 * ecg)
        by (nonlinear_arith)
        requires
            near == 0x800_0001 * c + k * p,
            ec == e * c,
            ep == e * p,
            ecg == e * (c * g),
    ;
    assert((3 * c) * (z * g + e) == 3 * cz + 3 * ec) by (nonlinear_arith)
        requires
            cz == c * (z * g),
            ec == e * c,
    ;
    assert(e * (10 * c + 0x80_0000 * p) == 10 * ec + 0x80_0000 * ep) by (nonlinear_arith)
        requires
            ec == e * c,
            ep == e * p,
    ;
    // What is left, over the square of `p`.
    let all = 24 * cz + 28 * ecg + 352_321_562 * ec + (4 * k) * ep;
    assert(((d * p) * e) * k <= all);
    let dn = d * n;
    assert(((d * p) * e) == dn * pp) by (nonlinear_arith)
        requires
            e == n * p,
            pp == p * p,
            dn == d * n,
    ;
    assert(o * cz <= 3 * ((bg * (b * b)) * pp)) by {
        assert(o * cz == (bg * p) * (o * z)) by (nonlinear_arith)
            requires
                cz == c * (z * g),
                c == b * p,
                bg == b * g,
        ;
        let (x, w) = (bg * p, (b * b) * p);
        assert(x >= 0) by (nonlinear_arith)
            requires
                x == bg * p,
                bg == b * g,
                b >= 1,
                g >= 2,
                p > 0,
        ;
        assert(x * (o * z) <= x * (3 * w)) by (nonlinear_arith)
            requires
                o * z <= 3 * w,
                x >= 0,
        ;
        let bb = b * b;
        assert(x * (3 * w) == 3 * ((bg * bb) * pp)) by (nonlinear_arith)
            requires
                x == bg * p,
                w == bb * p,
                pp == p * p,
        ;
    }
    let on = o * n;
    let (cube, flat) = (bg * (b * b), on * b);
    assert(o * (ecg) == (on * bg) * pp) by (nonlinear_arith)
        requires
            ecg == (nb * pp) * g,
            nb == n * b,
            bg == b * g,
            on == o * n,
    ;
    assert(o * ec == flat * pp) by (nonlinear_arith)
        requires
            ec == nb * pp,
            nb == n * b,
            on == o * n,
            flat == on * b,
    ;
    assert(o * ep == on * pp) by (nonlinear_arith)
        requires
            ep == n * pp,
            on == o * n,
    ;
    let h = dn * pp;
    assert((o * h) * k <= 24 * (o * cz) + 28 * (o * ecg) + 352_321_562 * (o * ec) + (4 * k) * (o
        * ep)) by (nonlinear_arith)
        requires
            h * k <= all,
            all == 24 * cz + 28 * ecg + 352_321_562 * ec + (4 * k) * ep,
            o > 0,
    ;
    assert(o * h == (d * on) * pp) by (nonlinear_arith)
        requires
            h == dn * pp,
            dn == d * n,
            on == o * n,
    ;
    let ob = on * bg;
    let rest = 72 * cube + 28 * ob + 352_321_562 * flat + (4 * k) * on;
    let v = d * on;
    assert((v * pp) * k <= 72 * (cube * pp) + 28 * (ob * pp) + 352_321_562 * (flat * pp) + (4 * k)
        * (on * pp));
    assert(pp > 0) by (nonlinear_arith)
        requires
            pp == p * p,
            p > 0,
    ;
    assert(v * k <= rest) by (nonlinear_arith)
        requires
            (v * pp) * k <= 72 * (cube * pp) + 28 * (ob * pp) + 352_321_562 * (flat * pp) + (4 * k)
                * (on * pp),
            rest == 72 * cube + 28 * ob + 352_321_562 * flat + (4 * k) * on,
            pp > 0,
    ;
    assert(cube >= 0 && ob >= 0 && flat >= 0 && on >= 0) by (nonlinear_arith)
        requires
            cube == bg * (b * b),
            ob == on * bg,
            flat == on * b,
            on == o * n,
            bg == b * g,
            b >= 1,
            g >= 2,
            o > 0,
            n >= 1,
    ;
    assert(bg * (b * b + on) == cube + ob) by (nonlinear_arith)
        requires
            cube == bg * (b * b),
            ob == on * bg,
    ;
    assert(on * (0x20_0000 * b + 0x80_0000_0000) == 0x20_0000 * flat + 0x80_0000_0000 * on)
        by (nonlinear_arith)
        requires
            flat == on * b,
    ;
}

/// A smoothed number is close to what its means make of the sample, and no larger than
/// samples can make it.
proof fn smoothed_is_close<A: Arithmetic>(mean_a: u64, mean_b: u64, l: u32, b: int)
    requires
        computes_finely::<A>(),
        computes_exactly::<A>(),
        double::is_finite(mean_a),
        double::is_finite(mean_b),
        single::is_finite(l),
        1 <= b,
        pow2(925) <= b * pow2(925) < pow2(1196),
        -b <= value(l) <= b,
        -4 * unit64() <= value64(mean_a) <= 4 * unit64(),
        -16 * (b * pow2(925)) <= value64(mean_b) <= 16 * (b * pow2(925)),
    ensures
        ({
            let (u, p, c) = (unit64(), pow2(925) as int, b * pow2(925));
            let q = smoothed_by::<A>(mean_a, mean_b, l);
            let x = value64(mean_a) * (value(l) * p) + value64(mean_b) * u;
            &&& single::is_finite(q)
            &&& apart((value(q) * p) * u, x) * 0x2000_0000_0000 <= (0x800_0001 * c + 0x2000_0000_0000
                * p) * u
            &&& -22 * b <= value(q) <= 22 * b
        }),
{
    let (u, p, c, k) = (unit64(), pow2(925) as int, b * pow2(925), 0x2000_0000_0000int);
    let (va, vb, v) = (value64(mean_a), value64(mean_b), value(l));
    let at = v * p;
    let x = va * at + vb * u;
    unit_sizes();
    small_numbers64();
    assert(-(b * p) <= v * p <= b * p) by (nonlinear_arith)
        requires
            -b <= v <= b,
            p > 0,
    ;
    smoothed_stays::<A>(mean_a, mean_b, l, c, x * k, x * k);
    let n = value(smoothed_by::<A>(mean_a, mean_b, l));
    let e = 0x800_0001 * c + k * p;
    assert(apart((n * p) * u, x) * k <= e * u);
    let cu = c * u;
    assert(-(4 * cu) <= va * at <= 4 * cu && -(16 * cu) <= vb * u <= 16 * cu) by (nonlinear_arith)
        requires
            -4 * u <= va <= 4 * u,
            -c <= at <= c,
            -16 * c <= vb <= 16 * c,
            u > 0,
            c > 0,
            cu == c * u,
    ;
    assert(e * u <= 0x4000_0000_0000 * cu) by (nonlinear_arith)
        requires
            e == 0x800_0001 * c + k * p,
            p <= c,
            k == 0x2000_0000_0000,
            u > 0,
            c > 0,
            cu == c * u,
    ;
    let np = n * p;
    assert(apart(np * u, x) * 0x2000_0000_0000 <= 0x4000_0000_0000 * cu);
    assert(-(22 * cu) <= np * u <= 22 * cu);
    assert(-(22 * c) <= np <= 22 * c) by (nonlinear_arith)
        requires
            -(22 * cu) <= np * u <= 22 * cu,
            cu == c * u,
            u > 0,
    ;
    assert(-22 * b <= n <= 22 * b) by (nonlinear_arith)
        requires
            -(22 * (b * p)) <= n * p <= 22 * (b * p),
            p > 0,
    ;
}

/// Samples moved by a part of their detail end close together where the smoothed numbers
/// are.
proof fn moves_agree<A: Arithmetic>(s: u32, q1: u32, q2: u32, part: u32, b: int)
    requires
        rounds::<A>(),
        single::is_finite(s),
        single::is_finite(q1),
        single::is_finite(q2),
        single::is_finite(part),
        1 <= b < pow2(271),
        -b <= value(s) <= b,
        -22 * b <= value(q1) <= 22 * b,
        -22 * b <= value(q2) <= 22 * b,
        -(2 * half()) <= value(part) <= 2 * half(),
    ensures
        ({
            let out1 = plus_of::<A>(s, times_of::<A>(part, minus_of::<A>(s, q1)));
            let out2 = plus_of::<A>(s, times_of::<A>(part, minus_of::<A>(s, q2)));
            &&& single::is_finite(out1)
            &&& single::is_finite(out2)
            &&& apart(value(out1), value(out2)) * 0x40_0000 <= 0x80_0000 * apart(
                value(q1),
                value(q2),
            ) + 0x100 * b + 0x400_0000
        }),
{
    move_is_close::<A>(s, q1, part, b);
    move_is_close::<A>(s, q2, part, b);
    half_is_positive();
    let (o, x) = (2 * half(), value(part));
    let (d, n1, n2) = (apart(value(q1), value(q2)), value(s) - value(q1), value(s) - value(q2));
    assert(apart(x * n1, x * n2) <= o * d) by (nonlinear_arith)
        requires
            -o <= x <= o,
            d == apart(n1, n2),
            o > 0,
    ;
    let out1 = value(plus_of::<A>(s, times_of::<A>(part, minus_of::<A>(s, q1))));
    let out2 = value(plus_of::<A>(s, times_of::<A>(part, minus_of::<A>(s, q2))));
    let (w1, w2) = (out1 - value(s), out2 - value(s));
    let e = 120 * b + 0x200_0000;
    assert(-(o * (0x40_0000 * d + 2 * e)) <= (w1 * o - w2 * o) * 0x40_0000 <= o * (0x40_0000 * d + 2
        * e)) by {
        assert(o * (0x40_0000 * d + 2 * e) == 0x40_0000 * (o * d) + 2 * (e * o))
            by (nonlinear_arith);
    }
    let f = w1 - w2;
    assert(-(0x40_0000 * d + 2 * e) <= f * 0x40_0000 <= 0x40_0000 * d + 2 * e) by (nonlinear_arith)
        requires
            -(o * (0x40_0000 * d + 2 * e)) <= (w1 * o - w2 * o) * 0x40_0000 <= o * (0x40_0000 * d + 2
                * e),
            f == w1 - w2,
            o > 0,
    ;
}

/// What a sample moved by a part of its detail comes to.
proof fn move_is_close<A: Arithmetic>(s: u32, q: u32, part: u32, b: int)
    requires
        rounds::<A>(),
        single::is_finite(s),
        single::is_finite(q),
        single::is_finite(part),
        1 <= b < pow2(271),
        -b <= value(s) <= b,
        -22 * b <= value(q) <= 22 * b,
        -(2 * half()) <= value(part) <= 2 * half(),
    ensures
        ({
            let out = plus_of::<A>(s, times_of::<A>(part, minus_of::<A>(s, q)));
            let o = 2 * half();
            &&& single::is_finite(out)
            &&& apart((value(out) - value(s)) * o, value(part) * (value(s) - value(q))) * 0x40_0000
                <= (120 * b + 0x200_0000) * o
        }),
{
    lemma2_to64();
    lemma_pow2_adds(23, 253);
    lemma_pow2_adds(5, 271);
    lemma_pow2_strictly_increases(23, 271);
    half_is_positive();
    let (o, x, k) = (2 * half(), value(part), 0x40_0000int);
    let (v, n) = (value(s), value(s) - value(q));
    let z = 0x80_0000 * pow2(253);
    assert(32 * b < z);
    let detail = minus_of::<A>(s, q);
    minus_rounds::<A>(s, q);
    rounded_fine(detail, n, 1);
    let d = value(detail);
    assert(apart(d, n) * k <= 23 * b + k);
    assert(-(24 * b + 1) <= d <= 24 * b + 1);
    assert(apart(x * d, 0) <= (24 * b + 1) * o) by (nonlinear_arith)
        requires
            -o <= x <= o,
            -(24 * b + 1) <= d <= 24 * b + 1,
            o > 0,
            b >= 1,
    ;
    assert((24 * b + 1) * o < z * o) by (nonlinear_arith)
        requires
            24 * b + 1 < z,
            o > 0,
    ;
    let change = times_of::<A>(part, detail);
    times_rounds::<A>(part, detail);
    rounded_fine(change, x * d, o);
    let c = value(change);
    assert(apart(c * o, x * d) * k <= (24 * b + 1 + k) * o) by (nonlinear_arith)
        requires
            apart(c * o, x * d) * k <= apart(x * d, 0) + k * o,
            apart(x * d, 0) <= (24 * b + 1) * o,
    ;
    assert(-(26 * b + 4) <= c <= 26 * b + 4) by (nonlinear_arith)
        requires
            apart(c * o, x * d) * k <= (24 * b + 1 + k) * o,
            apart(x * d, 0) <= (24 * b + 1) * o,
            o > 0,
            b >= 1,
            k == 0x40_0000,
    ;
    plus_rounds::<A>(s, change);
    rounded_fine(plus_of::<A>(s, change), v + c, 1);
    let out = value(plus_of::<A>(s, change));
    let (f, e) = (out - (v + c), d - n);
    assert(-(27 * b + 4 + k) <= f * k <= 27 * b + 4 + k);
    assert(-((27 * b + 4 + k) * o) <= (f * o) * k <= (27 * b + 4 + k) * o) by (nonlinear_arith)
        requires
            -(27 * b + 4 + k) <= f * k <= 27 * b + 4 + k,
            o > 0,
    ;
    assert(-((23 * b + k) * o) <= (x * e) * k <= (23 * b + k) * o) by (nonlinear_arith)
        requires
            -(23 * b + k) <= e * k <= 23 * b + k,
            -o <= x <= o,
    ;
    assert(x * d == x * n + x * e) by (nonlinear_arith)
        requires
            e == d - n,
    ;
    assert((out - v) * o == c * o + f * o) by (nonlinear_arith)
        requires
            f == out - (v + c),
    ;
    let bo = b * o;
    assert((27 * b + 4 + k) * o == 27 * bo + (4 + k) * o && (23 * b + k) * o == 23 * bo + k * o && (24
        * b + 1 + k) * o == 24 * bo + (1 + k) * o && (120 * b + 0x200_0000) * o == 120 * bo
        + 0x200_0000 * o) by (nonlinear_arith)
        requires
            bo == b * o,
    ;
    assert(bo > 0) by (nonlinear_arith)
        requires
            bo == b * o,
            b >= 1,
            o > 0,
    ;
}

/// How far apart, for rounding alone, the guided filter that local contrast takes the detail
/// from and the one that denoising moves samples towards can be: by the load's `2^37`th of
/// the largest sample, and as often again as its square holds the regularisation, and by
/// a `2^16`th of the largest sample.
pub open spec fn parts(gap: int, b: int, eps: int, shape: (usize, usize)) -> bool {
    let scaled = (2 * half()) * eps;
    (gap * scaled) * 0x20_0000_0000 > (b * load(shape)) * (b * b + scaled) + scaled * (0x20_0000 * b
        + 0x80_0000_0000)
}

/// The filters on tables and on row sums are close.
proof fn filters_agree<A: Arithmetic>(
    data: Lattice<u32>,
    b: int,
    r: int,
    eps: u32,
    y: int,
    x: int,
)
    requires
        computes_finely::<A>(),
        computes_exactly::<A>(),
        is_fit(data, b),
        within(data.shape, y, x),
        0 <= r,
        single::is_finite(eps),
        value(eps) > 0,
    ensures
        ({
            let boxed = self_models::<A>(data, r, widen_of::<A>(eps));
            let q = guided::<A>(data, r, eps).at(y, x);
            let s = smoothed_by::<A>(
                box_mean::<A>(row_sums::<A>(boxed.0, Measure::Value, r), y, x, r),
                box_mean::<A>(row_sums::<A>(boxed.1, Measure::Value, r), y, x, r),
                data.at(y, x),
            );
            &&& single::is_finite(q) && -22 * b <= value(q) <= 22 * b
            &&& single::is_finite(s) && -22 * b <= value(s) <= 22 * b
            &&& !parts(apart(value(q), value(s)), b, value(eps), data.shape)
        }),
{
    let wide = widen_of::<A>(eps);
    let (a, o) = (slopes::<A>(data, r, wide), offsets::<A>(data, r, wide));
    let boxed = self_models::<A>(data, r, wide);
    let (u, c, p, g) = (unit64(), b * pow2(925), pow2(925) as int, load(data.shape));
    let l = data.at(y, x);
    let (at, n) = (value(l) * p, value(eps));
    let e = n * p;
    unit_sizes();
    small_numbers64();
    fit_is_moderate::<A>(data, b);
    steps_are_small(data.shape, c);
    models_are_bounded::<A>(data, b, r, eps);
    boxed_models_are_bounded::<A>(data, b, r, eps);
    sums_agree::<A>(data, b, r, eps, y, x);
    mean_is_close::<A>(a, Measure::Value, 2 * u, y, x, r);
    mean_is_close::<A>(o, Measure::Value, 8 * c, y, x, r);
    box_is_close::<A>(boxed.0, Measure::Value, 2 * u, y, x, r);
    box_is_close::<A>(boxed.1, Measure::Value, 8 * c, y, x, r);
    let (a1, b1) = (
        window_mean::<A>(summed::<A>(a, Measure::Value), y, x, r),
        window_mean::<A>(summed::<A>(o, Measure::Value), y, x, r),
    );
    let (a2, b2) = (
        box_mean::<A>(row_sums::<A>(boxed.0, Measure::Value, r), y, x, r),
        box_mean::<A>(row_sums::<A>(boxed.1, Measure::Value, r), y, x, r),
    );
    smoothed_is_close::<A>(a1, b1, l, b);
    smoothed_is_close::<A>(a2, b2, l, b);
    let cells = window_cells(data.shape.0 as int, data.shape.1 as int, y, x, r);
    let (s1, t1) = (
        window_block(cell::<A>(a, Measure::Value), data.shape, y, x, r),
        window_block(cell::<A>(o, Measure::Value), data.shape, y, x, r),
    );
    let (s2, t2) = (
        window_block(cell::<A>(boxed.0, Measure::Value), data.shape, y, x, r),
        window_block(cell::<A>(boxed.1, Measure::Value), data.shape, y, x, r),
    );
    means_near(value64(a1), value64(b1), s1, t1, cells, at, u, c, g);
    means_near(value64(a2), value64(b2), s2, t2, cells, at, u, c, g);
    let far = 10 * (c * g);
    assert(10 * (((c * g) * u) * cells) == (far * u) * cells) by (nonlinear_arith)
        requires
            far == 10 * (c * g),
    ;
    let (q1, q2) = (smoothed_by::<A>(a1, b1, l), smoothed_by::<A>(a2, b2, l));
    assert(e > 0) by (nonlinear_arith)
        requires
            e == n * p,
            n > 0,
            p > 0,
    ;
    results_agree(
        value(q1) * p,
        value64(a1) * at + value64(b1) * u,
        s1 * at + t1 * u,
        value(q2) * p,
        value64(a2) * at + value64(b2) * u,
        s2 * at + t2 * u,
        cells,
        u,
        e,
        0x800_0001 * c + 0x2000_0000_0000 * p,
        far,
        model_gap(c, g, e),
    );
    square_bound_in_units(b);
    let d = apart(value(q1), value(q2));
    let (v1, v2) = (value(q1), value(q2));
    assert(apart(v1 * p, v2 * p) == d * p) by (nonlinear_arith)
        requires
            d == apart(v1, v2),
            p > 0,
    ;
    gap_in_units(d, b, p, n, 2 * half(), square_bound(c), g);
    tabulated2(
        data.shape,
        |j: int, i: int|
            smoothed_by::<A>(
                window_mean::<A>(summed::<A>(a, Measure::Value), j, i, r),
                window_mean::<A>(summed::<A>(o, Measure::Value), j, i, r),
                data.at(j, i),
            ),
    );
}

/// Denoising one channel is local contrast with the noise's variance as the regularisation
/// and the amount taken off, up to rounding: the smoothed numbers differ by no more than
/// rounding alone parts them, and the results by twice that and a `2^14`th of the largest
/// sample.
pub proof fn one_channel_is_close_to_negative_local_contrast<A: Arithmetic>(
    r: Raster<u32>,
    params: DenoiseParams,
    b: int,
    y: int,
    x: int,
)
    requires
        rounds::<A>(),
        computes_finely::<A>(),
        computes_exactly::<A>(),
        r.shape.2 == 1,
        inside(r.shape, y, x, 0),
        is_fit(channel_of(r, 0), b),
        single::is_finite(times_of::<A>(params.noise_sigma, params.noise_sigma)),
        value(times_of::<A>(params.noise_sigma, params.noise_sigma)) > 0,
        single::is_finite(params.amount),
        0 <= value(params.amount) <= 2 * half(),
    ensures
        ({
            let eps = times_of::<A>(params.noise_sigma, params.noise_sigma);
            let guide = GuidedFilterParams { radius: params.radius, eps };
            let q = guided::<A>(channel_of(r, 0), params.radius as int, eps).at(y, x);
            let gap = apart(value(q), value(smoothed_at::<A>(r, params, y, x, 0)));
            let softened = contrasted::<A>(r, guide, single::negated(params.amount)).at(y, x, 0);
            let clean = denoised::<A>(r, params).at(y, x, 0);
            &&& !parts(gap, b, value(eps), (r.shape.0, r.shape.1))
            &&& single::is_finite(softened)
            &&& single::is_finite(clean)
            &&& apart(value(softened), value(clean)) * 0x40_0000 <= 0x80_0000 * gap + 0x100 * b
                + 0x400_0000
        }),
{
    let data = channel_of(r, 0);
    let radius = params.radius as int;
    let eps = times_of::<A>(params.noise_sigma, params.noise_sigma);
    let wide = widen_of::<A>(eps);
    let guide = GuidedFilterParams { radius: params.radius, eps };
    let strength = single::negated(params.amount);
    contrasted_at::<A>(r, guide, strength, y, x);
    filters_agree::<A>(data, b, radius, eps, y, x);
    let q = guided::<A>(data, radius, eps).at(y, x);
    let s = smoothed_at::<A>(r, params, y, x, 0);
    negated_value(params.amount);
    moves_agree::<A>(r.at(y, x, 0), q, s, strength, b);
    let models = self_models::<A>(data, radius, wide);
    let (row_a, row_o) = (
        row_sums::<A>(models.0, Measure::Value, radius),
        row_sums::<A>(models.1, Measure::Value, radius),
    );
    let moved = |y: int, x: int| combined::<A>(row_a, row_o, data, data, strength, radius, y, x);
    tabulated2(data.shape, moved);
    let f = |y: int, x: int, k: int| denoised_channel::<A>(r, params, k).at(y, x);
    tabulated(r.shape, f);
    assert(denoised::<A>(r, params).at(y, x, 0) == f(y, x, 0));
    assert(denoised_channel::<A>(r, params, 0) == tabulate2(data.shape, moved));
    assert(denoised_channel::<A>(r, params, 0).at(y, x) == moved(y, x));
}

/// The band of the grain at a place is the mean of the noise over the inner window less the mean
/// over the outer one, up to rounding.
pub proof fn a_band_is_the_difference_of_two_means<A: Arithmetic>(
    noise: Lattice<u32>,
    b: int,
    y: int,
    x: int,
    size: u32,
)
    requires
        computes_finely::<A>(),
        computes_exactly::<A>(),
        is_fit(noise, b),
        within(noise.shape, y, x),
        0 <= inner_radius::<A>(size),
        0 <= outer_radius::<A>(size),
    ensures
        ({
            let (ri, ro) = (inner_radius::<A>(size), outer_radius::<A>(size));
            let (h, w) = (noise.shape.0 as int, noise.shape.1 as int);
            let (m, n) = (window_cells(h, w, y, x, ri), window_cells(h, w, y, x, ro));
            let f = cell::<A>(noise, Measure::Value);
            let s = window_block(f, noise.shape, y, x, ri);
            let t = window_block(f, noise.shape, y, x, ro);
            let band = band_at::<A>(summed::<A>(noise, Measure::Value), y, x, size);
            let p = pow2(925);
            &&& single::is_finite(band)
            &&& apart((value(band) * p) * (m * n), s * n - t * m) * 0x20_0000 <= ((b * p) * (load(
                noise.shape,
            ) + 8) + 0x40_0000 * p) * (m * n)
        }),
{
    unit_sizes();
    fit_is_moderate::<A>(noise, b);
    let (ri, ro) = (inner_radius::<A>(size), outer_radius::<A>(size));
    let (h, w) = (noise.shape.0 as int, noise.shape.1 as int);
    let (c, p) = (b * pow2(925), pow2(925) as int);
    mean_is_close::<A>(noise, Measure::Value, c, y, x, ri);
    mean_is_close::<A>(noise, Measure::Value, c, y, x, ro);
    let table = summed::<A>(noise, Measure::Value);
    let (inner, outer) = (window_mean::<A>(table, y, x, ri), window_mean::<A>(table, y, x, ro));
    let (m, n) = (window_cells(h, w, y, x, ri), window_cells(h, w, y, x, ro));
    let f = cell::<A>(noise, Measure::Value);
    let (s, t) = (
        window_block(f, noise.shape, y, x, ri),
        window_block(f, noise.shape, y, x, ro),
    );
    let (a, z) = (value64(inner), value64(outer));
    lemma_pow2_strictly_increases(1196, 2000);
    lemma_pow2_adds(4, 1196);
    lemma_pow2_strictly_increases(1200, 1201);
    lemma_pow2_strictly_increases(1201, 2000);
    lemma2_to64();
    minus_off64::<A>(inner, outer, 4 * c);
    let d = minus64_of::<A>(inner, outer);
    let v = value64(d);
    assert(apart(v, a - z) * 0x10_0000_0000_0000 <= 4 * c + 0x20_0000_0000_0000);
    narrow_off::<A>(d);
    let r = value(narrow_of::<A>(d)) * p;
    assert(apart(r, a - z) * 0x20_0000 <= 7 * c + 0x40_0000 * p);
    // Over the pixels of both windows.
    let l = c * load(noise.shape);
    let (am, zn, mn) = (a * m, z * n, m * n);
    let (amn, znm, sn, tm) = (am * n, zn * m, s * n, t * m);
    assert((a - z) * mn == amn - znm) by (nonlinear_arith)
        requires
            am == a * m,
            zn == z * n,
            mn == m * n,
            amn == am * n,
            znm == zn * m,
    ;
    assert(mn >= 1) by (nonlinear_arith)
        requires
            mn == m * n,
            m >= 1,
            n >= 1,
    ;
    let lmn = l * mn;
    assert(apart(amn, sn) * 0x2000_0000_0000 <= lmn && apart(znm, tm) * 0x2000_0000_0000 <= lmn)
        by (nonlinear_arith)
        requires
            apart(am, s) * 0x2000_0000_0000 <= l * m,
            apart(zn, t) * 0x2000_0000_0000 <= l * n,
            amn == am * n,
            znm == zn * m,
            sn == s * n,
            tm == t * m,
            lmn == l * mn,
            mn == m * n,
            m >= 1,
            n >= 1,
    ;
    let e = 7 * c + 0x40_0000 * p;
    assert(apart(r * mn, (a - z) * mn) * 0x20_0000 <= e * mn) by (nonlinear_arith)
        requires
            apart(r, a - z) * 0x20_0000 <= e,
            mn >= 1,
    ;
    assert((c * (load(noise.shape) + 8) + 0x40_0000 * p) * mn == lmn + e * mn + c * mn)
        by (nonlinear_arith)
        requires
            l == c * load(noise.shape),
            lmn == l * mn,
            e == 7 * c + 0x40_0000 * p,
    ;
    assert(c * mn >= 0 && lmn >= 0) by (nonlinear_arith)
        requires
            c >= 0,
            mn >= 1,
            lmn == l * mn,
            l == c * load(noise.shape),
            load(noise.shape) >= 0,
    ;
}

} // verus!
