//! Guided-filter denoise: each channel is its own guide, or, with three
//! channels, their luminance guides all of them.
//!
//! Window sums are taken separably, rows first and then columns, each from its
//! first to its last sample.

use vstd::prelude::*;

use crate::allocation::{
    channel, check_shape, copied, image, permitted, permitted2, plane, refusal, refusal2, shape_fault,
    table,
};
use crate::arith::{
    faithful, minus, minus64, minus64_of, minus_of, narrow, narrow_of, of_count64, of_count64_of,
    over64, over64_of, plus, plus64, plus64_of, plus_of, text, text_of, times, times64, times64_of,
    times_of, widen, widen_of, Arithmetic,
};
use crate::bw::{luminance_bw, weighted, LuminanceStandard};
use crate::double;
use crate::error::{PhaiosError, Report};
use crate::film_grain::window_mean;
use crate::integral::{
    block_is_bounded, block_total, blocks_fit, high, low, measured, row_is_bounded, row_sum,
    row_total, summed, sums_fit, window_cells, window_span, window_total, window_total_is_the_sum,
    Measure,
};
use crate::local_contrast::{
    contrasted, fit, guided, model, model_at, offsets, same_tables, slopes, smoothed_by,
    GuidedFilterParams,
};
use crate::raster::{
    addressable_volume, channel_of, inside, is_tabulated, is_tabulated2, same_cells, tabulate,
    tabulate2, tabulated, tabulated2, volume, within, Image, Lattice, Plane, Raster, Table,
};
use crate::remark::{refuse, unexpected};
use crate::rounding::{
    is_plain_multiple64, plain_multiples_are_one, plus_plain64, plus_zero, rounds, sums_exactly,
    times_zero, values_are_ordered, vanishes_plainly, zero_is_a_multiple64,
};
use crate::single;
use crate::text::{decimal, put_decimal};

verus! {

/// Parameters for [`denoise`].
#[derive(Clone, Copy, Debug)]
pub struct DenoiseParams {
    /// Window radius in pixels, at most [`MAX_RADIUS`].
    pub radius: u32,
    /// The noise to remove, a standard deviation, as a single-precision bit
    /// pattern.
    pub noise_sigma: u32,
    /// How much of the smoothing to apply, in `0..=1`.
    pub amount: u32,
    /// The luminance that guides three channels.
    pub standard: LuminanceStandard,
}

impl Default for DenoiseParams {
    fn default() -> (r: Self)
        ensures
            r == (DenoiseParams {
                radius: 0,
                noise_sigma: 0,
                amount: 0,
                standard: LuminanceStandard::Bt709,
            }),
    {
        DenoiseParams { radius: 0, noise_sigma: 0, amount: 0, standard: LuminanceStandard::Bt709 }
    }
}

impl DenoiseParams {
    /// Parameters from radius, noise, amount and standard.
    pub fn new(radius: u32, noise_sigma: u32, amount: u32, standard: LuminanceStandard) -> (r: Self)
        ensures
            r == (DenoiseParams { radius, noise_sigma, amount, standard }),
    {
        DenoiseParams { radius, noise_sigma, amount, standard }
    }

    /// Whether all fields match, the numbers by their bits.
    pub fn __eq__(&self, other: &Self) -> (r: bool)
        ensures
            r == (*self == *other),
    {
        self.radius == other.radius && self.noise_sigma == other.noise_sigma && self.amount
            == other.amount && self.standard == other.standard
    }

    /// A debug representation.
    pub fn __repr__<A: Arithmetic>(&self) -> (r: String)
        requires
            faithful::<A>(),
        ensures
            r@ == "DenoiseParams(radius="@ + decimal(self.radius as nat) + ", noise_sigma="@
                + text_of::<A>(self.noise_sigma) + ", amount="@ + text_of::<A>(self.amount)
                + ", standard="@ + self.standard.label() + ")"@,
    {
        let mut out = String::from_str("DenoiseParams(radius=");
        put_decimal(&mut out, self.radius as u64);
        out.append(", noise_sigma=");
        out.append(text::<A>(self.noise_sigma).as_str());
        out.append(", amount=");
        out.append(text::<A>(self.amount).as_str());
        out.append(", standard=");
        out.append(self.standard.name());
        out.append(")");
        out
    }
}

/// The largest window radius.
pub const MAX_RADIUS: u32 = 32;

/// What is wrong with the parameters, if anything.
pub open spec fn denoise_fault<A: Arithmetic>(params: DenoiseParams) -> Option<Report> {
    if params.radius > MAX_RADIUS {
        Some(
            Report::Parameter(
                "radius is "@ + decimal(params.radius as nat) + ", above the maximum of "@
                    + decimal(MAX_RADIUS as nat),
            ),
        )
    } else if !single::is_non_negative(params.noise_sigma) {
        Some(
            unexpected::<A>(
                "noise_sigma"@,
                params.noise_sigma,
                ", expected a finite value >= 0"@,
            ),
        )
    } else if !single::is_unit(params.amount) {
        Some(
            unexpected::<A>("amount"@, params.amount, ", expected a finite value in 0..=1"@),
        )
    } else {
        None
    }
}

/// Holds the parameters to their domain.
pub fn validate<A: Arithmetic>(params: &DenoiseParams) -> (r: Result<(), PhaiosError>)
    requires
        faithful::<A>(),
    ensures
        match r {
            Ok(()) => denoise_fault::<A>(*params) is None,
            Err(e) => denoise_fault::<A>(*params) == Some(e@),
        },
{
    if params.radius > MAX_RADIUS {
        let mut said = String::from_str("radius is ");
        put_decimal(&mut said, params.radius as u64);
        said.append(", above the maximum of ");
        put_decimal(&mut said, MAX_RADIUS as u64);
        return Err(PhaiosError::Parameter(said));
    }
    if !single::is_non_negative(params.noise_sigma) {
        return Err(
            refuse::<A>("noise_sigma", params.noise_sigma, ", expected a finite value >= 0"),
        );
    }
    if !single::is_unit(params.amount) {
        return Err(refuse::<A>("amount", params.amount, ", expected a finite value in 0..=1"));
    }
    Ok(())
}

/// The rows and columns of the window of radius `r` around a cell, first and
/// last, and the number of cells in it.
pub fn window_bounds<A: Arithmetic>(y: usize, x: usize, r: usize, h: usize, w: usize) -> (t: (
    usize,
    usize,
    usize,
    usize,
    u64,
))
    requires
        faithful::<A>(),
        y < h,
        x < w,
        h * w <= isize::MAX,
    ensures
        t.0 == low(y as int, r as int),
        t.1 == high(y as int, r as int, h as int),
        t.2 == low(x as int, r as int),
        t.3 == high(x as int, r as int, w as int),
        t.4 == of_count64_of::<A>(
            window_cells(h as int, w as int, y as int, x as int, r as int) as u64,
        ),
{
    let (y1, y2) = window_span(y, r, h);
    let (x1, x2) = window_span(x, r, w);
    proof {
        let (a, b) = (y2 - y1 + 1, x2 - x1 + 1);
        assert(0 <= a * b <= h * w) by (nonlinear_arith)
            requires
                0 <= a <= h,
                0 <= b <= w,
        ;
    }
    let count: usize = (y2 - y1 + 1) * (x2 - x1 + 1);
    (y1, y2, x1, x2, of_count64::<A>(count as u64))
}

/// The row sums of a lattice: at each cell the sum over its row's window.
pub open spec fn row_sums<A: Arithmetic>(data: Lattice<u32>, measure: Measure, r: int) -> Lattice<
    u64,
> {
    tabulate2(
        data.shape,
        |y: int, x: int|
            row_sum::<A>(
                data,
                measure,
                y,
                low(x, r),
                high(x, r, data.shape.1 as int) - low(x, r) + 1,
            ),
    )
}

fn sum_row<A: Arithmetic>(data: &Plane, measure: Measure, y: usize, x: usize, r: usize) -> (s: u64)
    requires
        faithful::<A>(),
        within(data@.shape, y as int, x as int),
    ensures
        s == row_sum::<A>(
            data@,
            measure,
            y as int,
            low(x as int, r as int),
            high(x as int, r as int, data@.shape.1 as int) - low(x as int, r as int) + 1,
        ),
{
    let (_h, w) = data.dim();
    let (x1, x2) = window_span(x, r, w);
    let mut sum: u64 = 0;
    let mut i: usize = x1;
    while i <= x2
        invariant
            faithful::<A>(),
            y < data@.shape.0,
            w == data@.shape.1,
            x1 <= i <= x2 + 1,
            x2 < w,
            sum == row_sum::<A>(data@, measure, y as int, x1 as int, i - x1),
        decreases x2 + 1 - i,
    {
        let v: u64 = widen::<A>(data.cell(y, i));
        let m: u64 = match measure {
            Measure::Value => v,
            Measure::Square => times64::<A>(v, v),
        };
        sum = plus64::<A>(sum, m);
        i = i + 1;
    }
    sum
}

fn box_h<A: Arithmetic>(data: &Plane, measure: Measure, r: usize) -> (t: Result<Table, PhaiosError>)
    requires
        faithful::<A>(),
    ensures
        match t {
            Ok(s) => permitted2::<u64>(data@.shape) && s@ == row_sums::<A>(
                data@,
                measure,
                r as int,
            ),
            Err(e) => refusal2::<u64>(data@.shape, e@),
        },
{
    let make = |y: usize, x: usize| -> (s: u64)
        requires
            faithful::<A>(),
            within(data@.shape, y as int, x as int),
        ensures
            s == row_sum::<A>(
                data@,
                measure,
                y as int,
                low(x as int, r as int),
                high(x as int, r as int, data@.shape.1 as int) - low(x as int, r as int) + 1,
            ),
        { sum_row::<A>(data, measure, y, x, r) };
    let t = table(data.dim(), make);
    if let Ok(s) = &t {
        proof {
            is_tabulated2(
                s@,
                |y: int, x: int|
                    row_sum::<A>(
                        data@,
                        measure,
                        y,
                        low(x, r as int),
                        high(x, r as int, data@.shape.1 as int) - low(x, r as int) + 1,
                    ),
            );
        }
    }
    t
}

/// The row sums of a plane and of its squares.
pub fn box_h_pair<A: Arithmetic>(data: &Plane, r: usize) -> (t: Result<
    (Table, Table),
    PhaiosError,
>)
    requires
        faithful::<A>(),
    ensures
        match t {
            Ok((sums, squares)) => permitted2::<u64>(data@.shape) && sums@ == row_sums::<A>(
                data@,
                Measure::Value,
                r as int,
            ) && squares@ == row_sums::<A>(data@, Measure::Square, r as int),
            Err(e) => refusal2::<u64>(data@.shape, e@),
        },
{
    let sums = match box_h::<A>(data, Measure::Value, r) {
        Ok(t) => t,
        Err(e) => return Err(e),
    };
    match box_h::<A>(data, Measure::Square, r) {
        Ok(squares) => Ok((sums, squares)),
        Err(e) => Err(e),
    }
}

/// The row sums of two planes.
pub fn box_h_two<A: Arithmetic>(a: &Plane, b: &Plane, r: usize) -> (t: Result<
    (Table, Table),
    PhaiosError,
>)
    requires
        faithful::<A>(),
    ensures
        match t {
            Ok((s, u)) => {
                &&& permitted2::<u64>(a@.shape)
                &&& permitted2::<u64>(b@.shape)
                &&& s@ == row_sums::<A>(a@, Measure::Value, r as int)
                &&& u@ == row_sums::<A>(b@, Measure::Value, r as int)
            },
            Err(e) => refusal2::<u64>(a@.shape, e@) || refusal2::<u64>(b@.shape, e@),
        },
{
    let s = match box_h::<A>(a, Measure::Value, r) {
        Ok(t) => t,
        Err(e) => return Err(e),
    };
    match box_h::<A>(b, Measure::Value, r) {
        Ok(u) => Ok((s, u)),
        Err(e) => Err(e),
    }
}

/// The sum of `n` products of a guide and a lattice along row `y` from column
/// `x1` on, left to right.
pub open spec fn cross_row<A: Arithmetic>(
    guide: Lattice<u32>,
    data: Lattice<u32>,
    y: int,
    x1: int,
    n: int,
) -> u64
    decreases n,
{
    if n <= 0 {
        0
    } else {
        plus64_of::<A>(
            cross_row::<A>(guide, data, y, x1, n - 1),
            times64_of::<A>(
                widen_of::<A>(guide.at(y, x1 + n - 1)),
                widen_of::<A>(data.at(y, x1 + n - 1)),
            ),
        )
    }
}

/// The row sums of the products of a guide and a lattice.
pub open spec fn cross_sums<A: Arithmetic>(
    guide: Lattice<u32>,
    data: Lattice<u32>,
    r: int,
) -> Lattice<u64> {
    tabulate2(
        data.shape,
        |y: int, x: int|
            cross_row::<A>(
                guide,
                data,
                y,
                low(x, r),
                high(x, r, data.shape.1 as int) - low(x, r) + 1,
            ),
    )
}

fn sum_cross<A: Arithmetic>(guide: &Plane, data: &Plane, y: usize, x: usize, r: usize) -> (s: u64)
    requires
        faithful::<A>(),
        guide@.shape == data@.shape,
        within(data@.shape, y as int, x as int),
    ensures
        s == cross_row::<A>(
            guide@,
            data@,
            y as int,
            low(x as int, r as int),
            high(x as int, r as int, data@.shape.1 as int) - low(x as int, r as int) + 1,
        ),
{
    let (_h, w) = data.dim();
    let (x1, x2) = window_span(x, r, w);
    let mut sum: u64 = 0;
    let mut i: usize = x1;
    while i <= x2
        invariant
            faithful::<A>(),
            guide@.shape == data@.shape,
            y < data@.shape.0,
            w == data@.shape.1,
            x1 <= i <= x2 + 1,
            x2 < w,
            sum == cross_row::<A>(guide@, data@, y as int, x1 as int, i - x1),
        decreases x2 + 1 - i,
    {
        let g: u64 = widen::<A>(guide.cell(y, i));
        let p: u64 = widen::<A>(data.cell(y, i));
        sum = plus64::<A>(sum, times64::<A>(g, p));
        i = i + 1;
    }
    sum
}

/// The row sums of a plane and of its products with a guide.
pub fn box_h_cross_pair<A: Arithmetic>(guide: &Plane, data: &Plane, r: usize) -> (t: Result<
    (Table, Table),
    PhaiosError,
>)
    requires
        faithful::<A>(),
        guide@.shape == data@.shape,
    ensures
        match t {
            Ok((sums, products)) => permitted2::<u64>(data@.shape) && sums@ == row_sums::<A>(
                data@,
                Measure::Value,
                r as int,
            ) && products@ == cross_sums::<A>(guide@, data@, r as int),
            Err(e) => refusal2::<u64>(data@.shape, e@),
        },
{
    let sums = match box_h::<A>(data, Measure::Value, r) {
        Ok(t) => t,
        Err(e) => return Err(e),
    };
    let make = |y: usize, x: usize| -> (s: u64)
        requires
            faithful::<A>(),
            guide@.shape == data@.shape,
            within(data@.shape, y as int, x as int),
        ensures
            s == cross_row::<A>(
                guide@,
                data@,
                y as int,
                low(x as int, r as int),
                high(x as int, r as int, data@.shape.1 as int) - low(x as int, r as int) + 1,
            ),
        { sum_cross::<A>(guide, data, y, x, r) };
    match table(data.dim(), make) {
        Ok(products) => {
            proof {
                is_tabulated2(
                    products@,
                    |y: int, x: int|
                        cross_row::<A>(
                            guide@,
                            data@,
                            y,
                            low(x, r as int),
                            high(x, r as int, data@.shape.1 as int) - low(x, r as int) + 1,
                        ),
                );
            }
            Ok((sums, products))
        },
        Err(e) => Err(e),
    }
}

/// The sum of `n` entries of column `x` from row `y1` on, top to bottom.
pub open spec fn column_sum<A: Arithmetic>(s: Lattice<u64>, x: int, y1: int, n: int) -> u64
    decreases n,
{
    if n <= 0 {
        0
    } else {
        plus64_of::<A>(column_sum::<A>(s, x, y1, n - 1), s.at(y1 + n - 1, x))
    }
}

fn sum_column<A: Arithmetic>(s: &Table, x: usize, y1: usize, y2: usize) -> (r: u64)
    requires
        faithful::<A>(),
        y1 <= y2 < s@.shape.0,
        x < s@.shape.1,
    ensures
        r == column_sum::<A>(s@, x as int, y1 as int, y2 - y1 + 1),
{
    let mut sum: u64 = 0;
    let mut j: usize = y1;
    while j <= y2
        invariant
            faithful::<A>(),
            y1 <= j <= y2 + 1,
            y2 < s@.shape.0,
            x < s@.shape.1,
            sum == column_sum::<A>(s@, x as int, y1 as int, j - y1),
        decreases y2 + 1 - j,
    {
        sum = plus64::<A>(sum, s.cell(j, x));
        j = j + 1;
    }
    sum
}

/// The mean over a window, from row sums.
pub open spec fn box_mean<A: Arithmetic>(s: Lattice<u64>, y: int, x: int, r: int) -> u64 {
    let (h, w) = (s.shape.0 as int, s.shape.1 as int);
    over64_of::<A>(
        column_sum::<A>(s, x, low(y, r), high(y, r, h) - low(y, r) + 1),
        of_count64_of::<A>(window_cells(h, w, y, x, r) as u64),
    )
}

fn mean_at<A: Arithmetic>(s: &Table, y: usize, x: usize, r: usize) -> (m: u64)
    requires
        faithful::<A>(),
        within(s@.shape, y as int, x as int),
    ensures
        m == box_mean::<A>(s@, y as int, x as int, r as int),
{
    let (h, w) = s.dim();
    proof {
        addressable_volume(h as int, w as int, 1);
        assert(h * w == h * w * 1) by (nonlinear_arith);
    }
    let (y1, y2, _x1, _x2, area) = window_bounds::<A>(y, x, r, h, w);
    over64::<A>(sum_column::<A>(s, x, y1, y2), area)
}

/// The slopes and offsets of the local models, from the row sums of the numbers
/// and of their squares.
pub fn coeff_self<A: Arithmetic>(sums: &Table, squares: &Table, r: usize, eps: u64) -> (t: Result<
    (Plane, Plane),
    PhaiosError,
>)
    requires
        faithful::<A>(),
        sums@.shape == squares@.shape,
    ensures
        match t {
            Ok((a, b)) => {
                &&& permitted2::<u32>(sums@.shape)
                &&& a@ == tabulate2(
                    sums@.shape,
                    |y: int, x: int| self_model::<A>(sums@, squares@, r as int, eps, y, x).0,
                )
                &&& b@ == tabulate2(
                    sums@.shape,
                    |y: int, x: int| self_model::<A>(sums@, squares@, r as int, eps, y, x).1,
                )
            },
            Err(e) => refusal2::<u32>(sums@.shape, e@),
        },
{
    let slope = |y: usize, x: usize| -> (v: u32)
        requires
            faithful::<A>(),
            sums@.shape == squares@.shape,
            within(sums@.shape, y as int, x as int),
        ensures
            v == self_model::<A>(sums@, squares@, r as int, eps, y as int, x as int).0,
        { fit::<A>(mean_at::<A>(sums, y, x, r), mean_at::<A>(squares, y, x, r), eps).0 };
    let offset = |y: usize, x: usize| -> (v: u32)
        requires
            faithful::<A>(),
            sums@.shape == squares@.shape,
            within(sums@.shape, y as int, x as int),
        ensures
            v == self_model::<A>(sums@, squares@, r as int, eps, y as int, x as int).1,
        { fit::<A>(mean_at::<A>(sums, y, x, r), mean_at::<A>(squares, y, x, r), eps).1 };
    let a = match plane(sums.dim(), slope) {
        Ok(p) => p,
        Err(e) => return Err(e),
    };
    let b = match plane(sums.dim(), offset) {
        Ok(p) => p,
        Err(e) => return Err(e),
    };
    proof {
        is_tabulated2(
            a@,
            |y: int, x: int| self_model::<A>(sums@, squares@, r as int, eps, y, x).0,
        );
        is_tabulated2(
            b@,
            |y: int, x: int| self_model::<A>(sums@, squares@, r as int, eps, y, x).1,
        );
    }
    Ok((a, b))
}

/// The local model at a cell, from row sums.
pub open spec fn self_model<A: Arithmetic>(
    sums: Lattice<u64>,
    squares: Lattice<u64>,
    r: int,
    eps: u64,
    y: int,
    x: int,
) -> (u32, u32) {
    model::<A>(box_mean::<A>(sums, y, x, r), box_mean::<A>(squares, y, x, r), eps)
}

/// The slope and the offset of the model of a channel over its guide, from the
/// means of guide, squared guide, channel and product.
pub open spec fn cross_fit<A: Arithmetic>(
    mean_i: u64,
    mean_i2: u64,
    mean_p: u64,
    mean_ip: u64,
    eps: u64,
) -> (u32, u32) {
    let var = double::larger(minus64_of::<A>(mean_i2, times64_of::<A>(mean_i, mean_i)), 0);
    let cov = minus64_of::<A>(mean_ip, times64_of::<A>(mean_i, mean_p));
    let denom = plus64_of::<A>(var, eps);
    let a = if double::less(0, denom) {
        over64_of::<A>(cov, denom)
    } else {
        0
    };
    (narrow_of::<A>(a), narrow_of::<A>(minus64_of::<A>(mean_p, times64_of::<A>(a, mean_i))))
}

/// The model of a channel over its guide at a cell, from row sums.
pub open spec fn cross_model<A: Arithmetic>(
    sums: (Lattice<u64>, Lattice<u64>, Lattice<u64>, Lattice<u64>),
    r: int,
    eps: u64,
    y: int,
    x: int,
) -> (u32, u32) {
    cross_fit::<A>(
        box_mean::<A>(sums.0, y, x, r),
        box_mean::<A>(sums.1, y, x, r),
        box_mean::<A>(sums.2, y, x, r),
        box_mean::<A>(sums.3, y, x, r),
        eps,
    )
}

fn fit_cross<A: Arithmetic>(
    sum_i: &Table,
    sum_i2: &Table,
    sum_p: &Table,
    sum_ip: &Table,
    r: usize,
    eps: u64,
    y: usize,
    x: usize,
) -> (v: (u32, u32))
    requires
        faithful::<A>(),
        within(sum_i@.shape, y as int, x as int),
        sum_i2@.shape == sum_i@.shape,
        sum_p@.shape == sum_i@.shape,
        sum_ip@.shape == sum_i@.shape,
    ensures
        v == cross_model::<A>(
            (sum_i@, sum_i2@, sum_p@, sum_ip@),
            r as int,
            eps,
            y as int,
            x as int,
        ),
{
    let mean_i: u64 = mean_at::<A>(sum_i, y, x, r);
    let mean_i2: u64 = mean_at::<A>(sum_i2, y, x, r);
    let mean_p: u64 = mean_at::<A>(sum_p, y, x, r);
    let mean_ip: u64 = mean_at::<A>(sum_ip, y, x, r);
    let var: u64 = double::larger(minus64::<A>(mean_i2, times64::<A>(mean_i, mean_i)), 0);
    let cov: u64 = minus64::<A>(mean_ip, times64::<A>(mean_i, mean_p));
    let denom: u64 = plus64::<A>(var, eps);
    let a: u64 = if double::less(0, denom) {
        over64::<A>(cov, denom)
    } else {
        0
    };
    (narrow::<A>(a), narrow::<A>(minus64::<A>(mean_p, times64::<A>(a, mean_i))))
}

/// The slopes and offsets of the models of a channel over its guide.
pub fn coeff_cross<A: Arithmetic>(
    sum_i: &Table,
    sum_i2: &Table,
    sum_p: &Table,
    sum_ip: &Table,
    r: usize,
    eps: u64,
) -> (t: Result<(Plane, Plane), PhaiosError>)
    requires
        faithful::<A>(),
        sum_i2@.shape == sum_i@.shape,
        sum_p@.shape == sum_i@.shape,
        sum_ip@.shape == sum_i@.shape,
    ensures
        ({
            let sums = (sum_i@, sum_i2@, sum_p@, sum_ip@);
            match t {
                Ok((a, b)) => {
                    &&& permitted2::<u32>(sum_i@.shape)
                    &&& a@ == tabulate2(
                        sum_i@.shape,
                        |y: int, x: int| cross_model::<A>(sums, r as int, eps, y, x).0,
                    )
                    &&& b@ == tabulate2(
                        sum_i@.shape,
                        |y: int, x: int| cross_model::<A>(sums, r as int, eps, y, x).1,
                    )
                },
                Err(e) => refusal2::<u32>(sum_i@.shape, e@),
            }
        }),
{
    let slope = |y: usize, x: usize| -> (v: u32)
        requires
            faithful::<A>(),
            within(sum_i@.shape, y as int, x as int),
            sum_i2@.shape == sum_i@.shape,
            sum_p@.shape == sum_i@.shape,
            sum_ip@.shape == sum_i@.shape,
        ensures
            v == cross_model::<A>(
                (sum_i@, sum_i2@, sum_p@, sum_ip@),
                r as int,
                eps,
                y as int,
                x as int,
            ).0,
        { fit_cross::<A>(sum_i, sum_i2, sum_p, sum_ip, r, eps, y, x).0 };
    let offset = |y: usize, x: usize| -> (v: u32)
        requires
            faithful::<A>(),
            within(sum_i@.shape, y as int, x as int),
            sum_i2@.shape == sum_i@.shape,
            sum_p@.shape == sum_i@.shape,
            sum_ip@.shape == sum_i@.shape,
        ensures
            v == cross_model::<A>(
                (sum_i@, sum_i2@, sum_p@, sum_ip@),
                r as int,
                eps,
                y as int,
                x as int,
            ).1,
        { fit_cross::<A>(sum_i, sum_i2, sum_p, sum_ip, r, eps, y, x).1 };
    let a = match plane(sum_i.dim(), slope) {
        Ok(p) => p,
        Err(e) => return Err(e),
    };
    let b = match plane(sum_i.dim(), offset) {
        Ok(p) => p,
        Err(e) => return Err(e),
    };
    proof {
        let sums = (sum_i@, sum_i2@, sum_p@, sum_ip@);
        is_tabulated2(a@, |y: int, x: int| cross_model::<A>(sums, r as int, eps, y, x).0);
        is_tabulated2(b@, |y: int, x: int| cross_model::<A>(sums, r as int, eps, y, x).1);
    }
    Ok((a, b))
}

/// A sample moved towards its smoothed value: `p + neg_amount * (p - q)`, the
/// smoothed value `q` from the mean slope and offset and the guide.
pub open spec fn combined<A: Arithmetic>(
    sum_a: Lattice<u64>,
    sum_b: Lattice<u64>,
    guide: Lattice<u32>,
    data: Lattice<u32>,
    neg_amount: u32,
    r: int,
    y: int,
    x: int,
) -> u32 {
    let q = smoothed_by::<A>(
        box_mean::<A>(sum_a, y, x, r),
        box_mean::<A>(sum_b, y, x, r),
        guide.at(y, x),
    );
    plus_of::<A>(
        data.at(y, x),
        times_of::<A>(neg_amount, minus_of::<A>(data.at(y, x), q)),
    )
}

/// The last stage: every sample moved towards its smoothed value.
pub fn final_combine<A: Arithmetic>(
    sum_a: &Table,
    sum_b: &Table,
    guide: &Plane,
    data: &Plane,
    neg_amount: u32,
    r: usize,
) -> (t: Result<Plane, PhaiosError>)
    requires
        faithful::<A>(),
        sum_a@.shape == data@.shape,
        sum_b@.shape == data@.shape,
        guide@.shape == data@.shape,
    ensures
        match t {
            Ok(out) => permitted2::<u32>(data@.shape) && out@ == tabulate2(
                data@.shape,
                |y: int, x: int|
                    combined::<A>(sum_a@, sum_b@, guide@, data@, neg_amount, r as int, y, x),
            ),
            Err(e) => refusal2::<u32>(data@.shape, e@),
        },
{
    let make = |y: usize, x: usize| -> (v: u32)
        requires
            faithful::<A>(),
            within(data@.shape, y as int, x as int),
            sum_a@.shape == data@.shape,
            sum_b@.shape == data@.shape,
            guide@.shape == data@.shape,
        ensures
            v == combined::<A>(
                sum_a@,
                sum_b@,
                guide@,
                data@,
                neg_amount,
                r as int,
                y as int,
                x as int,
            ),
        {
            let q: u32 = narrow::<A>(
                plus64::<A>(
                    times64::<A>(mean_at::<A>(sum_a, y, x, r), widen::<A>(guide.cell(y, x))),
                    mean_at::<A>(sum_b, y, x, r),
                ),
            );
            let p: u32 = data.cell(y, x);
            plus::<A>(p, times::<A>(neg_amount, minus::<A>(p, q)))
        };
    let t = plane(data.dim(), make);
    if let Ok(out) = &t {
        proof {
            is_tabulated2(
                out@,
                |y: int, x: int|
                    combined::<A>(sum_a@, sum_b@, guide@, data@, neg_amount, r as int, y, x),
            );
        }
    }
    t
}

/// A lattice filtered with models whose slopes and offsets are given.
pub open spec fn filtered_with<A: Arithmetic>(
    slopes: Lattice<u32>,
    offsets: Lattice<u32>,
    guide: Lattice<u32>,
    data: Lattice<u32>,
    neg_amount: u32,
    r: int,
) -> Lattice<u32> {
    let sum_a = row_sums::<A>(slopes, Measure::Value, r);
    let sum_b = row_sums::<A>(offsets, Measure::Value, r);
    tabulate2(
        data.shape,
        |y: int, x: int| combined::<A>(sum_a, sum_b, guide, data, neg_amount, r, y, x),
    )
}

/// The slopes and offsets of a lattice under its own guidance.
pub open spec fn self_models<A: Arithmetic>(data: Lattice<u32>, r: int, eps: u64) -> (
    Lattice<u32>,
    Lattice<u32>,
) {
    let sums = row_sums::<A>(data, Measure::Value, r);
    let squares = row_sums::<A>(data, Measure::Square, r);
    (
        tabulate2(
            data.shape,
            |y: int, x: int| self_model::<A>(sums, squares, r, eps, y, x).0,
        ),
        tabulate2(
            data.shape,
            |y: int, x: int| self_model::<A>(sums, squares, r, eps, y, x).1,
        ),
    )
}

/// The slopes and offsets of a lattice under the guidance of another one.
pub open spec fn cross_models<A: Arithmetic>(
    guide: Lattice<u32>,
    data: Lattice<u32>,
    r: int,
    eps: u64,
) -> (Lattice<u32>, Lattice<u32>) {
    let sums = (
        row_sums::<A>(guide, Measure::Value, r),
        row_sums::<A>(guide, Measure::Square, r),
        row_sums::<A>(data, Measure::Value, r),
        cross_sums::<A>(guide, data, r),
    );
    (
        tabulate2(data.shape, |y: int, x: int| cross_model::<A>(sums, r, eps, y, x).0),
        tabulate2(data.shape, |y: int, x: int| cross_model::<A>(sums, r, eps, y, x).1),
    )
}

/// A lattice filtered with itself as the guide.
pub open spec fn self_filtered<A: Arithmetic>(
    data: Lattice<u32>,
    r: int,
    eps: u64,
    neg_amount: u32,
) -> Lattice<u32> {
    let models = self_models::<A>(data, r, eps);
    filtered_with::<A>(models.0, models.1, data, data, neg_amount, r)
}

/// A lattice filtered with another one as the guide.
pub open spec fn cross_filtered<A: Arithmetic>(
    guide: Lattice<u32>,
    data: Lattice<u32>,
    r: int,
    eps: u64,
    neg_amount: u32,
) -> Lattice<u32> {
    let models = cross_models::<A>(guide, data, r, eps);
    filtered_with::<A>(models.0, models.1, guide, data, neg_amount, r)
}

fn filter_with<A: Arithmetic>(
    a: &Plane,
    b: &Plane,
    guide: &Plane,
    data: &Plane,
    neg_amount: u32,
    r: usize,
) -> (t: Result<Plane, PhaiosError>)
    requires
        faithful::<A>(),
        a@.shape == data@.shape,
        b@.shape == data@.shape,
        guide@.shape == data@.shape,
    ensures
        match t {
            Ok(out) => permitted2::<u32>(data@.shape) && permitted2::<u64>(data@.shape) && out@
                == filtered_with::<A>(a@, b@, guide@, data@, neg_amount, r as int),
            Err(e) => refusal2::<u32>(data@.shape, e@) || refusal2::<u64>(data@.shape, e@),
        },
{
    let (sum_a, sum_b) = match box_h_two::<A>(a, b, r) {
        Ok(t) => t,
        Err(e) => return Err(e),
    };
    final_combine::<A>(&sum_a, &sum_b, guide, data, neg_amount, r)
}

/// Filters a plane with itself as the guide.
pub fn self_guided<A: Arithmetic>(data: &Plane, r: usize, eps: u64, neg_amount: u32) -> (t: Result<
    Plane,
    PhaiosError,
>)
    requires
        faithful::<A>(),
    ensures
        match t {
            Ok(out) => permitted2::<u32>(data@.shape) && permitted2::<u64>(data@.shape) && out@
                == self_filtered::<A>(data@, r as int, eps, neg_amount),
            Err(e) => refusal2::<u32>(data@.shape, e@) || refusal2::<u64>(data@.shape, e@),
        },
{
    let (sums, squares) = match box_h_pair::<A>(data, r) {
        Ok(t) => t,
        Err(e) => return Err(e),
    };
    let (a, b) = match coeff_self::<A>(&sums, &squares, r, eps) {
        Ok(t) => t,
        Err(e) => return Err(e),
    };
    filter_with::<A>(&a, &b, data, data, neg_amount, r)
}

/// Filters a plane with another one as the guide, from the guide's row sums.
pub fn cross_guided<A: Arithmetic>(
    guide: &Plane,
    sum_i: &Table,
    sum_i2: &Table,
    data: &Plane,
    r: usize,
    eps: u64,
    neg_amount: u32,
) -> (t: Result<Plane, PhaiosError>)
    requires
        faithful::<A>(),
        guide@.shape == data@.shape,
        sum_i@ == row_sums::<A>(guide@, Measure::Value, r as int),
        sum_i2@ == row_sums::<A>(guide@, Measure::Square, r as int),
    ensures
        match t {
            Ok(out) => permitted2::<u32>(data@.shape) && permitted2::<u64>(data@.shape) && out@
                == cross_filtered::<A>(guide@, data@, r as int, eps, neg_amount),
            Err(e) => refusal2::<u32>(data@.shape, e@) || refusal2::<u64>(data@.shape, e@),
        },
{
    let (sum_p, sum_ip) = match box_h_cross_pair::<A>(guide, data, r) {
        Ok(t) => t,
        Err(e) => return Err(e),
    };
    let (a, b) = match coeff_cross::<A>(sum_i, sum_i2, &sum_p, &sum_ip, r, eps) {
        Ok(t) => t,
        Err(e) => return Err(e),
    };
    filter_with::<A>(&a, &b, guide, data, neg_amount, r)
}

/// A channel of a raster denoised: with three channels under the guidance of
/// their luminance, otherwise under its own.
pub open spec fn denoised_channel<A: Arithmetic>(
    r: Raster<u32>,
    params: DenoiseParams,
    k: int,
) -> Lattice<u32> {
    let eps = widen_of::<A>(times_of::<A>(params.noise_sigma, params.noise_sigma));
    let neg_amount = single::negated(params.amount);
    let data = channel_of(r, k);
    if r.shape.2 == 3 {
        let guide = channel_of(weighted::<A>(r, params.standard.coefficients()), 0);
        cross_filtered::<A>(guide, data, params.radius as int, eps, neg_amount)
    } else {
        self_filtered::<A>(data, params.radius as int, eps, neg_amount)
    }
}

/// A raster denoised channel by channel.
pub open spec fn denoised<A: Arithmetic>(r: Raster<u32>, params: DenoiseParams) -> Raster<u32> {
    tabulate(r.shape, |y: int, x: int, k: int| denoised_channel::<A>(r, params, k).at(y, x))
}

/// What denoising can be refused with for want of memory: the image, its
/// luminance, or one of the planes and tables behind them.
pub open spec fn denoise_refusal(shape: (usize, usize, usize), report: Report) -> bool {
    refusal::<u32>(shape, report) || shape_fault::<u32>(shape) is None && (refusal2::<u32>(
        (shape.0, shape.1),
        report,
    ) || refusal2::<u64>((shape.0, shape.1), report) || shape.2 == 3 && refusal::<u32>(
        (shape.0, shape.1, 1),
        report,
    ))
}

fn denoise_channels<A: Arithmetic>(img: &Image, params: &DenoiseParams) -> (r: Result<
    Vec<Plane>,
    PhaiosError,
>)
    requires
        faithful::<A>(),
        shape_fault::<u32>(img@.shape) is None,
        0 < img@.shape.2,
    ensures
        match r {
            Ok(planes) => {
                &&& permitted2::<u32>((img@.shape.0, img@.shape.1))
                &&& permitted2::<u64>((img@.shape.0, img@.shape.1))
                &&& planes@.len() == img@.shape.2
                &&& forall|k: int|
                    0 <= k < img@.shape.2 ==> (#[trigger] planes@[k])@ == denoised_channel::<A>(
                        img@,
                        *params,
                        k,
                    )
            },
            Err(e) => denoise_refusal(img@.shape, e@),
        },
{
    let (_h, _w, c) = img.dim();
    let reach: usize = params.radius as usize;
    let eps: u64 = widen::<A>(times::<A>(params.noise_sigma, params.noise_sigma));
    let neg_amount: u32 = single::negated(params.amount);
    let mut planes: Vec<Plane> = Vec::new();
    if c == 3 {
        let luminance = match luminance_bw::<A>(img, params.standard) {
            Ok(t) => t,
            Err(e) => return Err(e),
        };
        let guide = match channel(&luminance, 0) {
            Ok(t) => t,
            Err(e) => return Err(e),
        };
        let (sum_i, sum_i2) = match box_h_pair::<A>(&guide, reach) {
            Ok(t) => t,
            Err(e) => return Err(e),
        };
        let mut k: usize = 0;
        while k < 3
            invariant
                faithful::<A>(),
                k <= 3,
                img@.shape.2 == 3,
                shape_fault::<u32>(img@.shape) is None,
                planes@.len() == k,
                reach == params.radius,
                eps == widen_of::<A>(times_of::<A>(params.noise_sigma, params.noise_sigma)),
                neg_amount == single::negated(params.amount),
                guide@ == channel_of(weighted::<A>(img@, params.standard.coefficients()), 0),
                sum_i@ == row_sums::<A>(guide@, Measure::Value, reach as int),
                sum_i2@ == row_sums::<A>(guide@, Measure::Square, reach as int),
                k > 0 ==> permitted2::<u32>((img@.shape.0, img@.shape.1)) && permitted2::<u64>(
                    (img@.shape.0, img@.shape.1),
                ),
                forall|j: int|
                    0 <= j < k ==> (#[trigger] planes@[j])@ == denoised_channel::<A>(
                        img@,
                        *params,
                        j,
                    ),
            decreases 3 - k,
        {
            let data = match channel(img, k) {
                Ok(t) => t,
                Err(e) => return Err(e),
            };
            match cross_guided::<A>(&guide, &sum_i, &sum_i2, &data, reach, eps, neg_amount) {
                Ok(p) => planes.push(p),
                Err(e) => return Err(e),
            }
            k = k + 1;
        }
    } else {
        let mut k: usize = 0;
        while k < c
            invariant
                faithful::<A>(),
                k <= c,
                c != 3,
                img@.shape.2 == c,
                shape_fault::<u32>(img@.shape) is None,
                planes@.len() == k,
                reach == params.radius,
                eps == widen_of::<A>(times_of::<A>(params.noise_sigma, params.noise_sigma)),
                neg_amount == single::negated(params.amount),
                k > 0 ==> permitted2::<u32>((img@.shape.0, img@.shape.1)) && permitted2::<u64>(
                    (img@.shape.0, img@.shape.1),
                ),
                forall|j: int|
                    0 <= j < k ==> (#[trigger] planes@[j])@ == denoised_channel::<A>(
                        img@,
                        *params,
                        j,
                    ),
            decreases c - k,
        {
            let data = match channel(img, k) {
                Ok(t) => t,
                Err(e) => return Err(e),
            };
            match self_guided::<A>(&data, reach, eps, neg_amount) {
                Ok(p) => planes.push(p),
                Err(e) => return Err(e),
            }
            k = k + 1;
        }
    }
    Ok(planes)
}

/// Two rasters of one shape without cells are the same.
proof fn nothing_is_nothing(a: Raster<u32>, b: Raster<u32>)
    requires
        a.shape == b.shape,
        a.valid(),
        b.valid(),
        a.shape.0 == 0 || a.shape.1 == 0 || a.shape.2 == 0,
    ensures
        volume(a.shape) == 0,
        a == b,
{
    assert(volume(a.shape) == 0) by (nonlinear_arith)
        requires
            volume(a.shape) == a.shape.0 * a.shape.1 * a.shape.2,
            a.shape.0 == 0 || a.shape.1 == 0 || a.shape.2 == 0,
    ;
    same_cells(a, b);
}

/// Denoises with the guided filter. An empty image comes back as it is.
pub fn denoise<A: Arithmetic>(img: &Image, params: &DenoiseParams) -> (r: Result<
    Image,
    PhaiosError,
>)
    requires
        faithful::<A>(),
    ensures
        match r {
            Ok(out) => {
                &&& denoise_fault::<A>(*params) is None
                &&& permitted::<u32>(img@.shape)
                &&& volume(img@.shape) > 0 ==> permitted2::<u64>((img@.shape.0, img@.shape.1))
                &&& out@ == denoised::<A>(img@, *params)
            },
            Err(e) => match denoise_fault::<A>(*params) {
                Some(fault) => e@ == fault,
                None => if volume(img@.shape) == 0 {
                    refusal::<u32>(img@.shape, e@)
                } else {
                    denoise_refusal(img@.shape, e@)
                },
            },
        },
{
    if let Err(e) = validate::<A>(params) {
        return Err(e);
    }
    let shape = img.dim();
    if let Err(e) = check_shape::<u32>(shape) {
        return Err(e);
    }
    let (h, w, c): (usize, usize, usize) = shape;
    if h == 0 || w == 0 || c == 0 {
        let r = copied(img);
        if let Ok(out) = &r {
            proof {
                tabulated(
                    img@.shape,
                    |y: int, x: int, k: int| denoised_channel::<A>(img@, *params, k).at(y, x),
                );
                nothing_is_nothing(out@, denoised::<A>(img@, *params));
            }
        }
        return r;
    }
    proof {
        assert(volume(img@.shape) > 0) by (nonlinear_arith)
            requires
                volume(img@.shape) == h * w * c,
                h > 0,
                w > 0,
                c > 0,
        ;
    }
    let planes = match denoise_channels::<A>(img, params) {
        Ok(planes) => planes,
        Err(e) => return Err(e),
    };
    let make = |y: usize, x: usize, k: usize| -> (s: u32)
        requires
            inside(img@.shape, y as int, x as int, k as int),
            planes@.len() == img@.shape.2,
            forall|j: int|
                0 <= j < img@.shape.2 ==> (#[trigger] planes@[j])@ == denoised_channel::<A>(
                    img@,
                    *params,
                    j,
                ),
        ensures
            s == denoised_channel::<A>(img@, *params, k as int).at(y as int, x as int),
        { planes[k].cell(y, x) };
    let r = image(shape, make);
    if let Ok(out) = &r {
        proof {
            is_tabulated(
                out@,
                |y: int, x: int, k: int| denoised_channel::<A>(img@, *params, k).at(y, x),
            );
        }
    }
    r
}

/// The smoothed value that a sample is moved towards.
pub open spec fn smoothed_at<A: Arithmetic>(
    r: Raster<u32>,
    params: DenoiseParams,
    y: int,
    x: int,
    k: int,
) -> u32 {
    let eps = widen_of::<A>(times_of::<A>(params.noise_sigma, params.noise_sigma));
    let data = channel_of(r, k);
    let radius = params.radius as int;
    let guide = if r.shape.2 == 3 {
        channel_of(weighted::<A>(r, params.standard.coefficients()), 0)
    } else {
        data
    };
    let models = if r.shape.2 == 3 {
        cross_models::<A>(guide, data, radius, eps)
    } else {
        self_models::<A>(data, radius, eps)
    };
    smoothed_by::<A>(
        box_mean::<A>(row_sums::<A>(models.0, Measure::Value, radius), y, x, radius),
        box_mean::<A>(row_sums::<A>(models.1, Measure::Value, radius), y, x, radius),
        guide.at(y, x),
    )
}

/// Without an amount every sample keeps its value, where it and what would be
/// removed of it are finite.
pub proof fn no_amount_is_the_identity<A: Arithmetic>(
    r: Raster<u32>,
    params: DenoiseParams,
    y: int,
    x: int,
    k: int,
)
    requires
        rounds::<A>(),
        single::same(params.amount, 0),
        inside(r.shape, y, x, k),
        single::is_finite(r.at(y, x, k)),
        single::is_finite(
            minus_of::<A>(r.at(y, x, k), smoothed_at::<A>(r, params, y, x, k)),
        ),
    ensures
        denoised::<A>(r, params).shape == r.shape,
        single::same(denoised::<A>(r, params).at(y, x, k), r.at(y, x, k)),
{
    let q = smoothed_at::<A>(r, params, y, x, k);
    let p = r.at(y, x, k);
    let neg_amount = single::negated(params.amount);
    let removed = times_of::<A>(neg_amount, minus_of::<A>(p, q));
    times_zero::<A>(minus_of::<A>(p, q), neg_amount);
    plus_zero::<A>(p, removed);
    values_are_ordered(plus_of::<A>(p, removed), p);
    tabulated(
        r.shape,
        |y: int, x: int, k: int| denoised_channel::<A>(r, params, k).at(y, x),
    );
    let data = channel_of(r, k);
    let radius = params.radius as int;
    let eps = widen_of::<A>(times_of::<A>(params.noise_sigma, params.noise_sigma));
    let guide = if r.shape.2 == 3 {
        channel_of(weighted::<A>(r, params.standard.coefficients()), 0)
    } else {
        data
    };
    let models = if r.shape.2 == 3 {
        cross_models::<A>(guide, data, radius, eps)
    } else {
        self_models::<A>(data, radius, eps)
    };
    let sum_a = row_sums::<A>(models.0, Measure::Value, radius);
    let sum_b = row_sums::<A>(models.1, Measure::Value, radius);
    assert(within(data.shape, y, x));
    tabulated2((r.shape.0, r.shape.1), |y: int, x: int| r.at(y, x, k));
    assert(data.at(y, x) == p);
    tabulated2(
        data.shape,
        |y: int, x: int| combined::<A>(sum_a, sum_b, guide, data, neg_amount, radius, y, x),
    );
    assert(denoised_channel::<A>(r, params, k).at(y, x) == combined::<A>(
        sum_a,
        sum_b,
        guide,
        data,
        neg_amount,
        radius,
        y,
        x,
    ));
}

/// Unless there are three, a channel of the result depends on that channel of the
/// image alone.
pub proof fn channels_are_denoised_apart<A: Arithmetic>(
    r: Raster<u32>,
    other: Raster<u32>,
    params: DenoiseParams,
    k: int,
)
    requires
        r.shape == other.shape,
        r.shape.2 != 3,
        channel_of(r, k) == channel_of(other, k),
    ensures
        denoised_channel::<A>(r, params, k) == denoised_channel::<A>(other, params, k),
{
}

/// Where 53 bits hold every sum, a part of a row adds up exactly.
proof fn row_sum_is_exact<A: Arithmetic>(
    data: Lattice<u32>,
    measure: Measure,
    f: spec_fn(int, int) -> int,
    b: int,
    k: nat,
    y: int,
    x1: int,
    n: int,
)
    requires
        sums_exactly::<A>(),
        vanishes_plainly::<A>(),
        sums_fit::<A>(data, measure, f, b, k),
        0 <= y < data.shape.0,
        0 <= x1,
        0 <= n,
        x1 + n <= data.shape.1,
    ensures
        is_plain_multiple64(
            row_sum::<A>(data, measure, y, x1, n),
            row_total(f, y, x1, n),
            k,
        ),
    decreases n,
{
    if n == 0 {
        zero_is_a_multiple64(k);
    } else {
        row_sum_is_exact::<A>(data, measure, f, b, k, y, x1, n - 1);
        row_is_bounded(f, data.shape, b, y, x1, n);
        blocks_fit(data.shape, b, 1, n);
        assert(b * (1 * n) == b * n) by (nonlinear_arith);
        assert(within(data.shape, y, x1 + n - 1));
        plus_plain64::<A>(
            row_sum::<A>(data, measure, y, x1, n - 1),
            row_total(f, y, x1, n - 1),
            measured::<A>(measure, data.at(y, x1 + n - 1)),
            f(y, x1 + n - 1),
            k,
        );
    }
}

/// Where 53 bits hold every sum, row sums add up exactly down a window.
proof fn column_sum_is_exact<A: Arithmetic>(
    data: Lattice<u32>,
    measure: Measure,
    f: spec_fn(int, int) -> int,
    b: int,
    k: nat,
    x: int,
    r: int,
    y1: int,
    m: int,
)
    requires
        sums_exactly::<A>(),
        vanishes_plainly::<A>(),
        sums_fit::<A>(data, measure, f, b, k),
        0 <= x < data.shape.1,
        0 <= r,
        0 <= y1,
        0 <= m,
        y1 + m <= data.shape.0,
    ensures
        ({
            let n = high(x, r, data.shape.1 as int) - low(x, r) + 1;
            is_plain_multiple64(
                column_sum::<A>(row_sums::<A>(data, measure, r), x, y1, m),
                block_total(f, y1, m, low(x, r), n),
                k,
            )
        }),
    decreases m,
{
    let x1 = low(x, r);
    let n = high(x, r, data.shape.1 as int) - x1 + 1;
    if m == 0 {
        zero_is_a_multiple64(k);
    } else {
        column_sum_is_exact::<A>(data, measure, f, b, k, x, r, y1, m - 1);
        let y = y1 + m - 1;
        row_sum_is_exact::<A>(data, measure, f, b, k, y, x1, n);
        tabulated2(
            data.shape,
            |v: int, u: int|
                row_sum::<A>(
                    data,
                    measure,
                    v,
                    low(u, r),
                    high(u, r, data.shape.1 as int) - low(u, r) + 1,
                ),
        );
        assert(within(data.shape, y, x));
        block_is_bounded(f, data.shape, b, y1, m, x1, n);
        blocks_fit(data.shape, b, m, n);
        plus_plain64::<A>(
            column_sum::<A>(row_sums::<A>(data, measure, r), x, y1, m - 1),
            block_total(f, y1, m - 1, x1, n),
            row_sums::<A>(data, measure, r).at(y, x),
            row_total(f, y, x1, n),
            k,
        );
    }
}

/// Where 53 bits hold every sum, means from row sums and means from a table agree.
proof fn means_agree<A: Arithmetic>(
    data: Lattice<u32>,
    measure: Measure,
    f: spec_fn(int, int) -> int,
    b: int,
    k: nat,
    y: int,
    x: int,
    r: int,
)
    requires
        sums_exactly::<A>(),
        vanishes_plainly::<A>(),
        sums_fit::<A>(data, measure, f, b, k),
        within(data.shape, y, x),
        0 <= r,
    ensures
        box_mean::<A>(row_sums::<A>(data, measure, r), y, x, r) == window_mean::<A>(
            summed::<A>(data, measure),
            y,
            x,
            r,
        ),
{
    let (h, w) = (data.shape.0 as int, data.shape.1 as int);
    let (y1, m) = (low(y, r), high(y, r, h) - low(y, r) + 1);
    let (x1, n) = (low(x, r), high(x, r, w) - low(x, r) + 1);
    column_sum_is_exact::<A>(data, measure, f, b, k, x, r, y1, m);
    window_total_is_the_sum::<A>(data, measure, f, b, k, y, x, r);
    plain_multiples_are_one(
        column_sum::<A>(row_sums::<A>(data, measure, r), x, y1, m),
        window_total::<A>(summed::<A>(data, measure), y, x, r),
        block_total(f, y1, m, x1, n),
        k,
    );
}

/// Whether 53 bits hold the sums over a lattice: as multiples of a power of two that are
/// given with their bound and the power.
pub open spec fn fits<A: Arithmetic>(
    data: Lattice<u32>,
    measure: Measure,
    fit: (spec_fn(int, int) -> int, int, nat),
) -> bool {
    sums_fit::<A>(data, measure, fit.0, fit.1, fit.2)
}

/// Where 53 bits hold every sum, denoising one channel is local contrast with the
/// noise's variance as the regularisation and the amount taken off.
pub proof fn one_channel_is_negative_local_contrast<A: Arithmetic>(
    r: Raster<u32>,
    params: DenoiseParams,
    values: (spec_fn(int, int) -> int, int, nat),
    squares: (spec_fn(int, int) -> int, int, nat),
    steep: (spec_fn(int, int) -> int, int, nat),
    level: (spec_fn(int, int) -> int, int, nat),
)
    requires
        sums_exactly::<A>(),
        vanishes_plainly::<A>(),
        r.shape.2 == 1,
        ({
            let data = channel_of(r, 0);
            let eps = widen_of::<A>(times_of::<A>(params.noise_sigma, params.noise_sigma));
            let radius = params.radius as int;
            &&& fits::<A>(data, Measure::Value, values)
            &&& fits::<A>(data, Measure::Square, squares)
            &&& fits::<A>(slopes::<A>(data, radius, eps), Measure::Value, steep)
            &&& fits::<A>(offsets::<A>(data, radius, eps), Measure::Value, level)
        }),
    ensures
        denoised::<A>(r, params) == contrasted::<A>(
            r,
            GuidedFilterParams {
                radius: params.radius,
                eps: times_of::<A>(params.noise_sigma, params.noise_sigma),
            },
            single::negated(params.amount),
        ),
{
    let data = channel_of(r, 0);
    let eps = times_of::<A>(params.noise_sigma, params.noise_sigma);
    let wide = widen_of::<A>(eps);
    let radius = params.radius as int;
    let strength = single::negated(params.amount);
    let (sums, doubles) = (
        row_sums::<A>(data, Measure::Value, radius),
        row_sums::<A>(data, Measure::Square, radius),
    );
    assert forall|y: int, x: int| within(data.shape, y, x) implies #[trigger] self_model::<A>(
        sums,
        doubles,
        radius,
        wide,
        y,
        x,
    ) == model_at::<A>(data, radius, wide, y, x) by {
        means_agree::<A>(
            data,
            Measure::Value,
            values.0,
            values.1,
            values.2,
            y,
            x,
            radius,
        );
        means_agree::<A>(
            data,
            Measure::Square,
            squares.0,
            squares.1,
            squares.2,
            y,
            x,
            radius,
        );
    }
    same_tables(
        data.shape,
        |y: int, x: int| self_model::<A>(sums, doubles, radius, wide, y, x).0,
        |y: int, x: int| model_at::<A>(data, radius, wide, y, x).0,
    );
    same_tables(
        data.shape,
        |y: int, x: int| self_model::<A>(sums, doubles, radius, wide, y, x).1,
        |y: int, x: int| model_at::<A>(data, radius, wide, y, x).1,
    );
    let (a, o) = (slopes::<A>(data, radius, wide), offsets::<A>(data, radius, wide));
    assert(self_models::<A>(data, radius, wide) == (a, o));
    let (row_a, row_o) = (
        row_sums::<A>(a, Measure::Value, radius),
        row_sums::<A>(o, Measure::Value, radius),
    );
    let (sum_a, sum_o) = (summed::<A>(a, Measure::Value), summed::<A>(o, Measure::Value));
    let smooth = guided::<A>(data, radius, eps);
    let moved = |y: int, x: int| combined::<A>(row_a, row_o, data, data, strength, radius, y, x);
    let filtered = |y: int, x: int|
        smoothed_by::<A>(
            window_mean::<A>(sum_a, y, x, radius),
            window_mean::<A>(sum_o, y, x, radius),
            data.at(y, x),
        );
    let source = |y: int, x: int| r.at(y, x, 0);
    tabulated2(data.shape, moved);
    tabulated2(data.shape, filtered);
    tabulated2(data.shape, source);
    let f = |y: int, x: int, k: int| denoised_channel::<A>(r, params, k).at(y, x);
    let g = |y: int, x: int, k: int|
        plus_of::<A>(
            r.at(y, x, 0),
            times_of::<A>(strength, minus_of::<A>(r.at(y, x, 0), smooth.at(y, x))),
        );
    tabulated(r.shape, f);
    tabulated(r.shape, g);
    let (left, right) = (tabulate(r.shape, f), tabulate(r.shape, g));
    assert forall|y: int, x: int, k: int| inside(r.shape, y, x, k) implies #[trigger] left.at(
        y,
        x,
        k,
    ) == right.at(y, x, k) by {
        assert(k == 0);
        assert(within(data.shape, y, x));
        means_agree::<A>(
            a,
            Measure::Value,
            steep.0,
            steep.1,
            steep.2,
            y,
            x,
            radius,
        );
        means_agree::<A>(
            o,
            Measure::Value,
            level.0,
            level.1,
            level.2,
            y,
            x,
            radius,
        );
        assert(left.at(y, x, k) == f(y, x, k));
        assert(right.at(y, x, k) == g(y, x, k));
        assert(denoised_channel::<A>(r, params, 0) == tabulate2(data.shape, moved));
        assert(denoised_channel::<A>(r, params, 0).at(y, x) == moved(y, x));
        assert(smooth == tabulate2(data.shape, filtered));
        assert(smooth.at(y, x) == filtered(y, x));
        assert(data.at(y, x) == source(y, x));
    }
    same_cells(left, right);
}

} // verus!
