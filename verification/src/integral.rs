//! Integral images: tables of prefix sums, from which the sum over any window
//! is read in constant time.
//!
//! Reference: Franklin C. Crow, "Summed-area tables for texture mapping",
//! SIGGRAPH '84, pp. 207-212.

use vstd::prelude::*;

use crate::allocation::{permitted2, refusal2, room2, seal};
use crate::arith::{
    faithful, minus64, minus64_of, of_count64, of_count64_of, plus64, plus64_of, times64,
    times64_of, widen, widen_of, Arithmetic,
};
use crate::double;
use crate::error::PhaiosError;
use crate::raster::{
    area, is_tabulated2, offset2, place_of_cell2, tabulate2, tabulated2, within, Lattice, Plane,
    Table,
};
use crate::rounding::{
    is_multiple64, minus_multiples64, minus_plain64, plus_multiples64, plus_plain64, sums_exactly,
    vanishes_plainly, zero_is_a_multiple64,
};

verus! {

/// What a table accumulates of each number.
#[derive(Clone, Copy, PartialEq, Eq, Structural, Debug)]
pub enum Measure {
    /// The number.
    Value,
    /// Its square.
    Square,
}

/// A number as a table accumulates it, in double precision.
pub open spec fn measured<A: Arithmetic>(measure: Measure, v: u32) -> u64 {
    match measure {
        Measure::Value => widen_of::<A>(v),
        Measure::Square => times64_of::<A>(widen_of::<A>(v), widen_of::<A>(v)),
    }
}

fn lift<A: Arithmetic>(measure: Measure, v: u32) -> (r: u64)
    requires
        faithful::<A>(),
    ensures
        r == measured::<A>(measure, v),
{
    let d: u64 = widen::<A>(v);
    match measure {
        Measure::Value => d,
        Measure::Square => times64::<A>(d, d),
    }
}

/// The sum of a row's first `n` numbers, left to right.
pub open spec fn row_prefix<A: Arithmetic>(
    data: Lattice<u32>,
    measure: Measure,
    y: int,
    n: int,
) -> u64
    decreases n,
{
    if n <= 0 {
        0
    } else {
        plus64_of::<A>(
            row_prefix::<A>(data, measure, y, n - 1),
            measured::<A>(measure, data.at(y, n - 1)),
        )
    }
}

/// An entry of the table: the row's prefix added to the entry above.
pub open spec fn entry<A: Arithmetic>(data: Lattice<u32>, measure: Measure, y: int, x: int) -> u64
    decreases y,
{
    let across = row_prefix::<A>(data, measure, y, x + 1);
    if y <= 0 {
        across
    } else {
        plus64_of::<A>(across, entry::<A>(data, measure, y - 1, x))
    }
}

/// The table of a lattice.
pub open spec fn summed<A: Arithmetic>(data: Lattice<u32>, measure: Measure) -> Lattice<u64> {
    tabulate2(data.shape, |y: int, x: int| entry::<A>(data, measure, y, x))
}

/// Builds the table of a plane, in double precision.
pub fn sat<A: Arithmetic>(data: &Plane, measure: Measure) -> (r: Result<Table, PhaiosError>)
    requires
        faithful::<A>(),
    ensures
        match r {
            Ok(t) => permitted2::<u64>(data@.shape) && t@ == summed::<A>(data@, measure),
            Err(e) => refusal2::<u64>(data@.shape, e@),
        },
{
    let (h, w) = data.dim();
    let mut cells: Vec<u64> = match room2::<u64>((h, w)) {
        Ok(cells) => cells,
        Err(e) => return Err(e),
    };
    let ghost shape = (h, w);
    let mut y: usize = 0;
    while y < h
        invariant
            faithful::<A>(),
            shape == (h, w),
            data@.shape == shape,
            area(shape) <= usize::MAX,
            y <= h,
            cells@.len() == y * w,
            forall|j: int, i: int|
                within(shape, j, i) && j < y ==> #[trigger] cells@[offset2(shape, j, i)]
                    == entry::<A>(data@, measure, j, i),
        decreases h - y,
    {
        let mut acc: u64 = 0;
        let mut x: usize = 0;
        while x < w
            invariant
                faithful::<A>(),
                shape == (h, w),
                data@.shape == shape,
                area(shape) <= usize::MAX,
                y < h,
                x <= w,
                cells@.len() == y * w + x,
                acc == row_prefix::<A>(data@, measure, y as int, x as int),
                forall|j: int, i: int|
                    within(shape, j, i) && (j < y || j == y && i < x) ==> #[trigger] cells@[offset2(
                        shape,
                        j,
                        i,
                    )] == entry::<A>(data@, measure, j, i),
            decreases w - x,
        {
            acc = plus64::<A>(acc, lift::<A>(measure, data.cell(y, x)));
            let v: u64 = if y == 0 {
                acc
            } else {
                proof {
                    place_of_cell2(shape, y - 1, x as int);
                    assert(0 <= (y - 1) * w && (y - 1) * w + w == y * w) by (nonlinear_arith)
                        requires
                            y >= 1,
                            w >= 0,
                    ;
                    assert(cells@[offset2(shape, y - 1, x as int)] == entry::<A>(
                        data@,
                        measure,
                        y - 1,
                        x as int,
                    ));
                }
                plus64::<A>(acc, cells[(y - 1) * w + x])
            };
            let ghost before = cells@;
            cells.push(v);
            proof {
                assert forall|j: int, i: int|
                    within(shape, j, i) && (j < y || j == y && i < x + 1) implies #[trigger] cells@[offset2(
                    shape,
                    j,
                    i,
                )] == entry::<A>(data@, measure, j, i) by {
                    place_of_cell2(shape, j, i);
                    if j < y || i < x {
                        if j < y {
                            assert(j * w + i < y * w) by (nonlinear_arith)
                                requires
                                    j + 1 <= y,
                                    i < w,
                                    w >= 0,
                            ;
                        }
                        assert(cells@[offset2(shape, j, i)] == before[offset2(shape, j, i)]);
                    }
                }
            }
            x = x + 1;
        }
        assert(y * w + w == (y + 1) * w) by (nonlinear_arith);
        y = y + 1;
    }
    let ghost made = cells@;
    let r = seal((h, w), cells);
    if let Ok(t) = &r {
        proof {
            assert forall|j: int, i: int| within(shape, j, i) implies #[trigger] t@.at(j, i)
                == entry::<A>(data@, measure, j, i) by {
                assert(t@.at(j, i) == made[offset2(shape, j, i)]);
            }
            is_tabulated2(t@, |j: int, i: int| entry::<A>(data@, measure, j, i));
        }
    }
    r
}

/// The first row or column of a window around `at`.
pub open spec fn low(at: int, r: int) -> int {
    if at < r {
        0
    } else {
        at - r
    }
}

/// The last row or column of a window around `at`, among `len`.
pub open spec fn high(at: int, r: int, len: int) -> int {
    if at + r >= len {
        len - 1
    } else {
        at + r
    }
}

/// The sum over a window, read from the four corners of a table. Beyond the
/// first row or column there is nothing to take away.
pub open spec fn corners<A: Arithmetic>(
    table: spec_fn(int, int) -> u64,
    y1: int,
    y2: int,
    x1: int,
    x2: int,
) -> u64 {
    let br = table(y2, x2);
    let tl = if y1 > 0 && x1 > 0 {
        table(y1 - 1, x1 - 1)
    } else {
        0
    };
    let tr = if y1 > 0 {
        table(y1 - 1, x2)
    } else {
        0
    };
    let bl = if x1 > 0 {
        table(y2, x1 - 1)
    } else {
        0
    };
    plus64_of::<A>(minus64_of::<A>(minus64_of::<A>(br, tr), bl), tl)
}

/// The sum over the window of radius `r` around a cell, as a table gives it.
pub open spec fn window_total<A: Arithmetic>(s: Lattice<u64>, y: int, x: int, r: int) -> u64 {
    corners::<A>(
        |j: int, i: int| s.at(j, i),
        low(y, r),
        high(y, r, s.shape.0 as int),
        low(x, r),
        high(x, r, s.shape.1 as int),
    )
}

/// The number of cells in the window of radius `r` around a cell, cut at the
/// borders.
pub open spec fn window_cells(h: int, w: int, y: int, x: int, r: int) -> int {
    (high(y, r, h) - low(y, r) + 1) * (high(x, r, w) - low(x, r) + 1)
}

/// The first and last place of a window of radius `r` around `at`, among `len`.
pub(crate) fn window_span(at: usize, r: usize, len: usize) -> (s: (usize, usize))
    requires
        at < len,
    ensures
        s.0 == low(at as int, r as int),
        s.1 == high(at as int, r as int, len as int),
        s.0 <= at <= s.1 < len,
{
    let first: usize = at.saturating_sub(r);
    let reach: usize = at.saturating_add(r);
    let last: usize = if reach >= len {
        len - 1
    } else {
        reach
    };
    (first, last)
}

/// The sum over the window of radius `r` around a cell and the number of cells
/// in it, read from a table.
pub fn window_sum<A: Arithmetic>(s: &Table, y: usize, x: usize, r: usize) -> (t: (u64, u64))
    requires
        faithful::<A>(),
        within(s@.shape, y as int, x as int),
    ensures
        t.0 == window_total::<A>(s@, y as int, x as int, r as int),
        t.1 == of_count64_of::<A>(
            window_cells(
                s@.shape.0 as int,
                s@.shape.1 as int,
                y as int,
                x as int,
                r as int,
            ) as u64,
        ),
{
    let (h, w) = s.dim();
    let (y1, y2) = window_span(y, r, h);
    let (x1, x2) = window_span(x, r, w);
    let br: u64 = s.cell(y2, x2);
    let tl: u64 = if y1 > 0 && x1 > 0 {
        s.cell(y1 - 1, x1 - 1)
    } else {
        0
    };
    let tr: u64 = if y1 > 0 {
        s.cell(y1 - 1, x2)
    } else {
        0
    };
    let bl: u64 = if x1 > 0 {
        s.cell(y2, x1 - 1)
    } else {
        0
    };
    let sum: u64 = plus64::<A>(minus64::<A>(minus64::<A>(br, tr), bl), tl);
    proof {
        crate::raster::addressable_volume(h as int, w as int, 1);
        let (a, b) = (y2 - y1 + 1, x2 - x1 + 1);
        assert(0 <= a * b <= h * w) by (nonlinear_arith)
            requires
                0 <= a <= h,
                0 <= b <= w,
        ;
        assert(h * w == h * w * 1) by (nonlinear_arith);
    }
    let count: usize = (y2 - y1 + 1) * (x2 - x1 + 1);
    (sum, of_count64::<A>(count as u64))
}

/// The sum of `n` numbers of row `y` from column `x1` on, left to right.
pub open spec fn row_sum<A: Arithmetic>(
    data: Lattice<u32>,
    measure: Measure,
    y: int,
    x1: int,
    n: int,
) -> u64
    decreases n,
{
    if n <= 0 {
        0
    } else {
        plus64_of::<A>(
            row_sum::<A>(data, measure, y, x1, n - 1),
            measured::<A>(measure, data.at(y, x1 + n - 1)),
        )
    }
}

/// The sum of `n` whole numbers of row `y` from column `x1` on.
pub open spec fn row_total(f: spec_fn(int, int) -> int, y: int, x1: int, n: int) -> int
    decreases n,
{
    if n <= 0 {
        0
    } else {
        row_total(f, y, x1, n - 1) + f(y, x1 + n - 1)
    }
}

/// The sum of a block of `m` rows and `n` columns of whole numbers.
pub open spec fn block_total(
    f: spec_fn(int, int) -> int,
    y1: int,
    m: int,
    x1: int,
    n: int,
) -> int
    decreases m,
{
    if m <= 0 {
        0
    } else {
        block_total(f, y1, m - 1, x1, n) + row_total(f, y1 + m - 1, x1, n)
    }
}

proof fn row_splits(f: spec_fn(int, int) -> int, y: int, x1: int, n: int)
    requires
        0 <= x1,
        0 <= n,
    ensures
        row_total(f, y, 0, x1 + n) == row_total(f, y, 0, x1) + row_total(f, y, x1, n),
    decreases n,
{
    if n > 0 {
        row_splits(f, y, x1, n - 1);
    }
}

pub proof fn columns_split(f: spec_fn(int, int) -> int, y1: int, m: int, x1: int, n: int)
    requires
        0 <= x1,
        0 <= n,
    ensures
        block_total(f, y1, m, 0, x1 + n) == block_total(f, y1, m, 0, x1) + block_total(
            f,
            y1,
            m,
            x1,
            n,
        ),
    decreases m,
{
    if m > 0 {
        columns_split(f, y1, m - 1, x1, n);
        row_splits(f, y1 + m - 1, x1, n);
    }
}

pub proof fn rows_split(f: spec_fn(int, int) -> int, y1: int, m: int, x1: int, n: int)
    requires
        0 <= y1,
        0 <= m,
    ensures
        block_total(f, 0, y1 + m, x1, n) == block_total(f, 0, y1, x1, n) + block_total(
            f,
            y1,
            m,
            x1,
            n,
        ),
    decreases m,
{
    if m > 0 {
        rows_split(f, y1, m - 1, x1, n);
    }
}

/// Whether whole numbers over a lattice stay within `-b..=b`.
pub open spec fn is_bounded(f: spec_fn(int, int) -> int, shape: (usize, usize), b: int) -> bool {
    forall|j: int, i: int| within(shape, j, i) ==> -b <= #[trigger] f(j, i) <= b
}

pub proof fn row_is_bounded(
    f: spec_fn(int, int) -> int,
    shape: (usize, usize),
    b: int,
    y: int,
    x1: int,
    n: int,
)
    requires
        is_bounded(f, shape, b),
        0 <= y < shape.0,
        0 <= x1,
        0 <= n,
        x1 + n <= shape.1,
    ensures
        -(b * n) <= row_total(f, y, x1, n) <= b * n,
    decreases n,
{
    if n > 0 {
        row_is_bounded(f, shape, b, y, x1, n - 1);
        assert(within(shape, y, x1 + n - 1));
        assert(b * n == b * (n - 1) + b) by (nonlinear_arith);
    }
}

pub proof fn block_is_bounded(
    f: spec_fn(int, int) -> int,
    shape: (usize, usize),
    b: int,
    y1: int,
    m: int,
    x1: int,
    n: int,
)
    requires
        is_bounded(f, shape, b),
        0 <= y1,
        0 <= m,
        y1 + m <= shape.0,
        0 <= x1,
        0 <= n,
        x1 + n <= shape.1,
    ensures
        -(b * (m * n)) <= block_total(f, y1, m, x1, n) <= b * (m * n),
    decreases m,
{
    if m > 0 {
        block_is_bounded(f, shape, b, y1, m - 1, x1, n);
        row_is_bounded(f, shape, b, y1 + m - 1, x1, n);
        assert(b * (m * n) == b * ((m - 1) * n) + b * n) by (nonlinear_arith);
    } else {
        assert(b * (0 * n) == 0) by (nonlinear_arith);
    }
}

/// Whether what a table accumulates of every cell is a whole multiple of one power of
/// two, the `k`-th, with the multiples given by `f` and bounded so that 53 bits hold
/// every sum.
pub open spec fn sums_fit<A: Arithmetic>(
    data: Lattice<u32>,
    measure: Measure,
    f: spec_fn(int, int) -> int,
    b: int,
    k: nat,
) -> bool {
    &&& k <= 2045
    &&& 0 <= b
    &&& b * (data.shape.0 * data.shape.1) < 0x20_0000_0000_0000
    &&& is_bounded(f, data.shape, b)
    &&& forall|j: int, i: int|
        within(data.shape, j, i) ==> is_multiple64(
            measured::<A>(measure, #[trigger] data.at(j, i)),
            f(j, i),
            k,
        )
}

/// Blocks of a lattice are no larger than the lattice.
pub proof fn blocks_fit(shape: (usize, usize), b: int, m: int, n: int)
    requires
        0 <= b,
        0 <= m <= shape.0,
        0 <= n <= shape.1,
    ensures
        0 <= b * (m * n) <= b * (shape.0 * shape.1),
{
    assert(0 <= m * n <= shape.0 * shape.1) by (nonlinear_arith)
        requires
            0 <= m <= shape.0,
            0 <= n <= shape.1,
    ;
    assert(0 <= b * (m * n) <= b * (shape.0 * shape.1)) by (nonlinear_arith)
        requires
            0 <= b,
            0 <= m * n <= shape.0 * shape.1,
    ;
}

proof fn prefix_is_exact<A: Arithmetic>(
    data: Lattice<u32>,
    measure: Measure,
    f: spec_fn(int, int) -> int,
    b: int,
    k: nat,
    y: int,
    n: int,
)
    requires
        sums_exactly::<A>(),
        sums_fit::<A>(data, measure, f, b, k),
        0 <= y < data.shape.0,
        0 <= n <= data.shape.1,
    ensures
        is_multiple64(row_prefix::<A>(data, measure, y, n), row_total(f, y, 0, n), k),
        vanishes_plainly::<A>() ==> row_prefix::<A>(data, measure, y, n) != double::SIGN,
    decreases n,
{
    if n == 0 {
        zero_is_a_multiple64(k);
    } else {
        prefix_is_exact::<A>(data, measure, f, b, k, y, n - 1);
        row_is_bounded(f, data.shape, b, y, 0, n);
        blocks_fit(data.shape, b, 1, n);
        assert(b * (1 * n) == b * n) by (nonlinear_arith);
        assert(within(data.shape, y, n - 1));
        plus_multiples64::<A>(
            row_prefix::<A>(data, measure, y, n - 1),
            row_total(f, y, 0, n - 1),
            measured::<A>(measure, data.at(y, n - 1)),
            f(y, n - 1),
            k,
        );
        if vanishes_plainly::<A>() {
            plus_plain64::<A>(
                row_prefix::<A>(data, measure, y, n - 1),
                row_total(f, y, 0, n - 1),
                measured::<A>(measure, data.at(y, n - 1)),
                f(y, n - 1),
                k,
            );
        }
    }
}

proof fn entry_is_exact<A: Arithmetic>(
    data: Lattice<u32>,
    measure: Measure,
    f: spec_fn(int, int) -> int,
    b: int,
    k: nat,
    y: int,
    x: int,
)
    requires
        sums_exactly::<A>(),
        sums_fit::<A>(data, measure, f, b, k),
        within(data.shape, y, x),
    ensures
        is_multiple64(
            entry::<A>(data, measure, y, x),
            block_total(f, 0, y + 1, 0, x + 1),
            k,
        ),
        vanishes_plainly::<A>() ==> entry::<A>(data, measure, y, x) != double::SIGN,
    decreases y,
{
    prefix_is_exact::<A>(data, measure, f, b, k, y, x + 1);
    reveal_with_fuel(block_total, 2);
    if y > 0 {
        entry_is_exact::<A>(data, measure, f, b, k, y - 1, x);
        block_is_bounded(f, data.shape, b, 0, y + 1, 0, x + 1);
        blocks_fit(data.shape, b, y + 1, x + 1);
        plus_multiples64::<A>(
            row_prefix::<A>(data, measure, y, x + 1),
            row_total(f, y, 0, x + 1),
            entry::<A>(data, measure, y - 1, x),
            block_total(f, 0, y, 0, x + 1),
            k,
        );
        if vanishes_plainly::<A>() {
            plus_plain64::<A>(
                row_prefix::<A>(data, measure, y, x + 1),
                row_total(f, y, 0, x + 1),
                entry::<A>(data, measure, y - 1, x),
                block_total(f, 0, y, 0, x + 1),
                k,
            );
        }
    }
}

/// A corner of a window in a table: nothing where the window reaches the border.
proof fn corner_is_exact<A: Arithmetic>(
    data: Lattice<u32>,
    measure: Measure,
    f: spec_fn(int, int) -> int,
    b: int,
    k: nat,
    m: int,
    n: int,
) -> (c: u64)
    requires
        sums_exactly::<A>(),
        sums_fit::<A>(data, measure, f, b, k),
        0 <= m <= data.shape.0,
        0 <= n <= data.shape.1,
    ensures
        c == (if m > 0 && n > 0 {
            summed::<A>(data, measure).at(m - 1, n - 1)
        } else {
            0
        }),
        is_multiple64(c, block_total(f, 0, m, 0, n), k),
        vanishes_plainly::<A>() ==> c != double::SIGN,
{
    if m > 0 && n > 0 {
        tabulated2(data.shape, |j: int, i: int| entry::<A>(data, measure, j, i));
        entry_is_exact::<A>(data, measure, f, b, k, m - 1, n - 1);
        assert(within(data.shape, m - 1, n - 1));
        summed::<A>(data, measure).at(m - 1, n - 1)
    } else {
        zero_is_a_multiple64(k);
        if n <= 0 {
            no_columns(f, 0, m);
        }
        0
    }
}

pub proof fn no_columns(f: spec_fn(int, int) -> int, y1: int, m: int)
    ensures
        block_total(f, y1, m, 0, 0) == 0,
    decreases m,
{
    if m > 0 {
        no_columns(f, y1, m - 1);
    }
}

/// Where 53 bits hold every sum, the four corners of a table give exactly the sum of
/// the window itself, for every window, and where it is nothing, zero without a sign.
pub proof fn window_total_is_the_sum<A: Arithmetic>(
    data: Lattice<u32>,
    measure: Measure,
    f: spec_fn(int, int) -> int,
    b: int,
    k: nat,
    y: int,
    x: int,
    r: int,
)
    requires
        sums_exactly::<A>(),
        sums_fit::<A>(data, measure, f, b, k),
        within(data.shape, y, x),
        0 <= r,
    ensures
        is_multiple64(
            window_total::<A>(summed::<A>(data, measure), y, x, r),
            block_total(
                f,
                low(y, r),
                high(y, r, data.shape.0 as int) - low(y, r) + 1,
                low(x, r),
                high(x, r, data.shape.1 as int) - low(x, r) + 1,
            ),
            k,
        ),
        vanishes_plainly::<A>() ==> window_total::<A>(summed::<A>(data, measure), y, x, r)
            != double::SIGN,
{
    let (h, w) = (data.shape.0 as int, data.shape.1 as int);
    let (y1, y2) = (low(y, r), high(y, r, h));
    let (x1, x2) = (low(x, r), high(x, r, w));
    let (m, n) = (y2 - y1 + 1, x2 - x1 + 1);
    let br = corner_is_exact::<A>(data, measure, f, b, k, y1 + m, x1 + n);
    let tr = corner_is_exact::<A>(data, measure, f, b, k, y1, x1 + n);
    let bl = corner_is_exact::<A>(data, measure, f, b, k, y1 + m, x1);
    let tl = corner_is_exact::<A>(data, measure, f, b, k, y1, x1);
    let window = block_total(f, y1, m, x1, n);
    let left = block_total(f, 0, y1 + m, 0, x1);
    let above = block_total(f, 0, y1, 0, x1 + n);
    let both = block_total(f, 0, y1, 0, x1);
    // The whole less what is above is a band; the band less what is on the left is
    // the window less the corner, which is added back.
    rows_split(f, y1, m, 0, x1 + n);
    columns_split(f, y1, m, x1, n);
    rows_split(f, y1, m, 0, x1);
    let band = block_total(f, y1, m, 0, x1 + n);
    block_is_bounded(f, data.shape, b, y1, m, 0, x1 + n);
    blocks_fit(data.shape, b, m, x1 + n);
    minus_multiples64::<A>(br, block_total(f, 0, y1 + m, 0, x1 + n), tr, above, k);
    block_is_bounded(f, data.shape, b, y1, m, x1, n);
    block_is_bounded(f, data.shape, b, 0, y1, 0, x1);
    assert(b * (m * n) + b * (y1 * x1) <= b * (h * w)) by (nonlinear_arith)
        requires
            0 <= b,
            0 <= m,
            0 <= n,
            0 <= y1,
            0 <= x1,
            y1 + m <= h,
            x1 + n <= w,
    ;
    blocks_fit(data.shape, b, m, n);
    blocks_fit(data.shape, b, y1, x1);
    minus_multiples64::<A>(minus64_of::<A>(br, tr), band, bl, left, k);
    plus_multiples64::<A>(
        minus64_of::<A>(minus64_of::<A>(br, tr), bl),
        window - both,
        tl,
        both,
        k,
    );
    if vanishes_plainly::<A>() {
        let first = minus64_of::<A>(br, tr);
        minus_plain64::<A>(br, block_total(f, 0, y1 + m, 0, x1 + n), tr, above, k);
        minus_plain64::<A>(first, band, bl, left, k);
        plus_plain64::<A>(minus64_of::<A>(first, bl), window - both, tl, both, k);
    }
}

} // verus!
