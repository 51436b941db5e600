//! Local contrast with the guided filter: the detail that the filter smooths
//! away is amplified and added back.
//!
//! Reference: Kaiming He, Jian Sun and Xiaoou Tang, "Guided image filtering",
//! IEEE TPAMI 35(6), 2013.

use vstd::arithmetic::power2::pow2;
use vstd::prelude::*;

use crate::allocation::{
    channel, image, permitted, permitted2, plane, refusal, refusal2, shape_fault2,
};
use crate::arith::{
    faithful, minus, minus64, minus64_of, minus_of, narrow, narrow_of, of_count64_of, over64,
    over64_of, plus, plus64, plus64_of, plus_of, text, text_of, times, times64, times64_of,
    times_of, widen, widen_of, Arithmetic,
};
use crate::double;
use crate::error::{PhaiosError, Report};
use crate::film_grain::window_mean;
use crate::integral::{
    block_total, high, low, measured, row_total, sat, summed, sums_fit, window_cells, window_sum,
    window_total, window_total_is_the_sum, Measure,
};
use crate::raster::{
    channel_of, inside, is_tabulated, is_tabulated2, tabulate, tabulate2, tabulated, tabulated2,
    within, Image, Lattice, Plane, Raster, Table,
};
use crate::remark::{misshapen, refuse, refuse_shape, unexpected};
use crate::rounding::{
    computes_exactly, count_exact64, is_multiple64, minus_exact, minus_exact64, narrow_exact,
    over_exact64, plus_exact64, plus_zero, rounds, small_numbers, small_numbers64, square_exact64,
    sums_exactly, times_exact64, times_zero, unit64, value, value64, values_are_ordered,
    values_are_ordered64, widen_exact,
};
use crate::single;
use crate::text::{decimal, put_decimal};

verus! {

/// Parameters of the guided filter.
#[derive(Clone, Copy, Debug)]
pub struct GuidedFilterParams {
    /// Window radius in pixels.
    pub radius: u32,
    /// Regularisation, a single-precision bit pattern.
    pub eps: u32,
}

impl GuidedFilterParams {
    /// Parameters from radius and regularisation.
    pub fn new(radius: u32, eps: u32) -> (r: Self)
        ensures
            r == (GuidedFilterParams { radius, eps }),
    {
        GuidedFilterParams { radius, eps }
    }

    /// Whether both fields match, the regularisation by its bits.
    pub fn __eq__(&self, other: &Self) -> (r: bool)
        ensures
            r == (*self == *other),
    {
        self.radius == other.radius && self.eps == other.eps
    }

    /// A debug representation.
    pub fn __repr__<A: Arithmetic>(&self) -> (r: String)
        requires
            faithful::<A>(),
        ensures
            r@ == "GuidedFilterParams(radius="@ + decimal(self.radius as nat) + ", eps="@
                + text_of::<A>(self.eps) + ")"@,
    {
        let mut out = String::from_str("GuidedFilterParams(radius=");
        put_decimal(&mut out, self.radius as u64);
        out.append(", eps=");
        out.append(text::<A>(self.eps).as_str());
        out.append(")");
        out
    }
}

/// What is wrong with a local-contrast call, if anything.
pub open spec fn contrast_fault<A: Arithmetic>(
    shape: (usize, usize, usize),
    params: GuidedFilterParams,
    strength: u32,
) -> Option<Report> {
    if shape.2 != 1 {
        Some(misshapen("local_contrast expects (H, W, 1) luminance input"@, shape))
    } else if !single::is_non_negative(params.eps) {
        Some(unexpected::<A>("eps"@, params.eps, ", expected a finite value >= 0"@))
    } else if !single::is_finite(strength) {
        Some(unexpected::<A>("strength"@, strength, ", expected a finite value"@))
    } else {
        None
    }
}

/// Holds shape and parameters to their domain.
pub fn validate<A: Arithmetic>(
    shape: (usize, usize, usize),
    params: &GuidedFilterParams,
    strength: u32,
) -> (r: Result<(), PhaiosError>)
    requires
        faithful::<A>(),
    ensures
        match r {
            Ok(()) => contrast_fault::<A>(shape, *params, strength) is None,
            Err(e) => contrast_fault::<A>(shape, *params, strength) == Some(e@),
        },
{
    if shape.2 != 1 {
        return Err(refuse_shape("local_contrast expects (H, W, 1) luminance input", shape));
    }
    if !single::is_non_negative(params.eps) {
        return Err(refuse::<A>("eps", params.eps, ", expected a finite value >= 0"));
    }
    if !single::is_finite(strength) {
        return Err(refuse::<A>("strength", strength, ", expected a finite value"));
    }
    Ok(())
}

/// The slope of the local linear model from the mean, the mean square and the
/// regularisation: `var / (var + eps)`, and 0 where that has no meaning.
pub open spec fn slope<A: Arithmetic>(mean: u64, mean_square: u64, eps: u64) -> u64 {
    let var = double::larger(minus64_of::<A>(mean_square, times64_of::<A>(mean, mean)), 0);
    let denom = plus64_of::<A>(var, eps);
    if double::less(0, denom) {
        over64_of::<A>(var, denom)
    } else {
        0
    }
}

/// The slope and the offset of the local linear model, in single precision.
pub open spec fn model<A: Arithmetic>(mean: u64, mean_square: u64, eps: u64) -> (u32, u32) {
    let a = slope::<A>(mean, mean_square, eps);
    (narrow_of::<A>(a), narrow_of::<A>(times64_of::<A>(mean, minus64_of::<A>(double::ONE, a))))
}

/// The slope and the offset of the local linear model.
pub(crate) fn fit<A: Arithmetic>(mean: u64, mean_square: u64, eps: u64) -> (r: (u32, u32))
    requires
        faithful::<A>(),
    ensures
        r == model::<A>(mean, mean_square, eps),
{
    let var: u64 = double::larger(minus64::<A>(mean_square, times64::<A>(mean, mean)), 0);
    let denom: u64 = plus64::<A>(var, eps);
    let a: u64 = if double::less(0, denom) {
        over64::<A>(var, denom)
    } else {
        0
    };
    (narrow::<A>(a), narrow::<A>(times64::<A>(mean, minus64::<A>(double::ONE, a))))
}

/// The local linear model at a cell, over the window around it.
pub open spec fn model_at<A: Arithmetic>(
    data: Lattice<u32>,
    radius: int,
    eps: u64,
    y: int,
    x: int,
) -> (u32, u32) {
    model::<A>(
        window_mean::<A>(summed::<A>(data, Measure::Value), y, x, radius),
        window_mean::<A>(summed::<A>(data, Measure::Square), y, x, radius),
        eps,
    )
}

/// The slopes of the local models of a lattice.
pub open spec fn slopes<A: Arithmetic>(data: Lattice<u32>, radius: int, eps: u64) -> Lattice<u32> {
    tabulate2(data.shape, |y: int, x: int| model_at::<A>(data, radius, eps, y, x).0)
}

/// The offsets of the local models of a lattice.
pub open spec fn offsets<A: Arithmetic>(data: Lattice<u32>, radius: int, eps: u64) -> Lattice<u32> {
    tabulate2(data.shape, |y: int, x: int| model_at::<A>(data, radius, eps, y, x).1)
}

/// A number smoothed by mean slope and mean offset.
pub open spec fn smoothed_by<A: Arithmetic>(mean_a: u64, mean_b: u64, l: u32) -> u32 {
    narrow_of::<A>(plus64_of::<A>(times64_of::<A>(mean_a, widen_of::<A>(l)), mean_b))
}

/// A lattice smoothed by the guided filter with itself as the guide.
pub open spec fn guided<A: Arithmetic>(data: Lattice<u32>, radius: int, eps: u32) -> Lattice<u32> {
    let wide = widen_of::<A>(eps);
    let sum_a = summed::<A>(slopes::<A>(data, radius, wide), Measure::Value);
    let sum_b = summed::<A>(offsets::<A>(data, radius, wide), Measure::Value);
    tabulate2(
        data.shape,
        |y: int, x: int|
            smoothed_by::<A>(
                window_mean::<A>(sum_a, y, x, radius),
                window_mean::<A>(sum_b, y, x, radius),
                data.at(y, x),
            ),
    )
}

/// What the filter can be refused with for want of memory: one of its planes or
/// one of its tables.
pub open spec fn filter_refusal(shape: (usize, usize), report: Report) -> bool {
    refusal2::<u32>(shape, report) || refusal2::<u64>(shape, report)
}

fn mean_in<A: Arithmetic>(table: &Table, y: usize, x: usize, radius: usize) -> (r: u64)
    requires
        faithful::<A>(),
        within(table@.shape, y as int, x as int),
    ensures
        r == window_mean::<A>(table@, y as int, x as int, radius as int),
{
    let (sum, area): (u64, u64) = window_sum::<A>(table, y, x, radius);
    over64::<A>(sum, area)
}

/// Smooths a plane with the guided filter, the plane its own guide.
pub fn guided_filter<A: Arithmetic>(data: &Plane, radius: u32, eps: u32) -> (r: Result<
    Plane,
    PhaiosError,
>)
    requires
        faithful::<A>(),
    ensures
        match r {
            Ok(out) => {
                &&& permitted2::<u32>(data@.shape)
                &&& permitted2::<u64>(data@.shape)
                &&& out@ == guided::<A>(data@, radius as int, eps)
            },
            Err(e) => filter_refusal(data@.shape, e@),
        },
{
    let (h, w) = data.dim();
    let reach: usize = radius as usize;
    let wide: u64 = widen::<A>(eps);
    let sums = match sat::<A>(data, Measure::Value) {
        Ok(t) => t,
        Err(e) => return Err(e),
    };
    let squares = match sat::<A>(data, Measure::Square) {
        Ok(t) => t,
        Err(e) => return Err(e),
    };
    let slope_at = |y: usize, x: usize| -> (s: u32)
        requires
            faithful::<A>(),
            within(data@.shape, y as int, x as int),
            sums@ == summed::<A>(data@, Measure::Value),
            squares@ == summed::<A>(data@, Measure::Square),
        ensures
            s == model_at::<A>(data@, reach as int, wide, y as int, x as int).0,
        {
            fit::<A>(
                mean_in::<A>(&sums, y, x, reach),
                mean_in::<A>(&squares, y, x, reach),
                wide,
            ).0
        };
    let offset_at = |y: usize, x: usize| -> (s: u32)
        requires
            faithful::<A>(),
            within(data@.shape, y as int, x as int),
            sums@ == summed::<A>(data@, Measure::Value),
            squares@ == summed::<A>(data@, Measure::Square),
        ensures
            s == model_at::<A>(data@, reach as int, wide, y as int, x as int).1,
        {
            fit::<A>(
                mean_in::<A>(&sums, y, x, reach),
                mean_in::<A>(&squares, y, x, reach),
                wide,
            ).1
        };
    let a_plane = match plane((h, w), slope_at) {
        Ok(p) => p,
        Err(e) => return Err(e),
    };
    let b_plane = match plane((h, w), offset_at) {
        Ok(p) => p,
        Err(e) => return Err(e),
    };
    proof {
        is_tabulated2(
            a_plane@,
            |y: int, x: int| model_at::<A>(data@, reach as int, wide, y, x).0,
        );
        is_tabulated2(
            b_plane@,
            |y: int, x: int| model_at::<A>(data@, reach as int, wide, y, x).1,
        );
    }
    let sum_a = match sat::<A>(&a_plane, Measure::Value) {
        Ok(t) => t,
        Err(e) => return Err(e),
    };
    let sum_b = match sat::<A>(&b_plane, Measure::Value) {
        Ok(t) => t,
        Err(e) => return Err(e),
    };
    let smooth_at = |y: usize, x: usize| -> (s: u32)
        requires
            faithful::<A>(),
            within(data@.shape, y as int, x as int),
            sum_a@.shape == data@.shape,
            sum_b@.shape == data@.shape,
        ensures
            s == smoothed_by::<A>(
                window_mean::<A>(sum_a@, y as int, x as int, reach as int),
                window_mean::<A>(sum_b@, y as int, x as int, reach as int),
                data@.at(y as int, x as int),
            ),
        {
            narrow::<A>(
                plus64::<A>(
                    times64::<A>(
                        mean_in::<A>(&sum_a, y, x, reach),
                        widen::<A>(data.cell(y, x)),
                    ),
                    mean_in::<A>(&sum_b, y, x, reach),
                ),
            )
        };
    let r = plane((h, w), smooth_at);
    if let Ok(out) = &r {
        proof {
            is_tabulated2(
                out@,
                |y: int, x: int|
                    smoothed_by::<A>(
                        window_mean::<A>(sum_a@, y, x, reach as int),
                        window_mean::<A>(sum_b@, y, x, reach as int),
                        data@.at(y, x),
                    ),
            );
        }
    }
    r
}

/// A raster with its local contrast changed: `l + strength * (l - smooth)`.
pub open spec fn contrasted<A: Arithmetic>(
    r: Raster<u32>,
    params: GuidedFilterParams,
    strength: u32,
) -> Raster<u32> {
    let smooth = guided::<A>(channel_of(r, 0), params.radius as int, params.eps);
    tabulate(
        r.shape,
        |y: int, x: int, k: int|
            plus_of::<A>(
                r.at(y, x, 0),
                times_of::<A>(strength, minus_of::<A>(r.at(y, x, 0), smooth.at(y, x))),
            ),
    )
}

/// Enhances local contrast, or softens it where the strength is negative.
pub fn local_contrast<A: Arithmetic>(
    img: &Image,
    params: &GuidedFilterParams,
    strength: u32,
) -> (r: Result<Image, PhaiosError>)
    requires
        faithful::<A>(),
    ensures
        ({
            let fault = contrast_fault::<A>(img@.shape, *params, strength);
            let flat = (img@.shape.0, img@.shape.1);
            match r {
                Ok(out) => {
                    &&& fault is None
                    &&& permitted::<u32>(img@.shape)
                    &&& permitted2::<u64>(flat)
                    &&& out@ == contrasted::<A>(img@, *params, strength)
                },
                Err(e) => match fault {
                    Some(f) => e@ == f,
                    None => refusal2::<u32>(flat, e@) || shape_fault2::<u32>(flat) is None && (
                    refusal2::<u64>(flat, e@) || refusal::<u32>(img@.shape, e@)),
                },
            }
        }),
{
    let (h, w, c) = img.dim();
    if let Err(e) = validate::<A>((h, w, c), params, strength) {
        return Err(e);
    }
    let flat = match channel(img, 0) {
        Ok(p) => p,
        Err(e) => return Err(e),
    };
    let smooth = match guided_filter::<A>(&flat, params.radius, params.eps) {
        Ok(p) => p,
        Err(e) => return Err(e),
    };
    let make = |y: usize, x: usize, k: usize| -> (s: u32)
        requires
            faithful::<A>(),
            inside(img@.shape, y as int, x as int, 0),
            smooth@.shape == (img@.shape.0, img@.shape.1),
        ensures
            s == plus_of::<A>(
                img@.at(y as int, x as int, 0),
                times_of::<A>(
                    strength,
                    minus_of::<A>(img@.at(y as int, x as int, 0), smooth@.at(y as int, x as int)),
                ),
            ),
        {
            let l: u32 = img.cell(y, x, 0);
            plus::<A>(l, times::<A>(strength, minus::<A>(l, smooth.cell(y, x))))
        };
    let r = image((h, w, c), make);
    if let Ok(out) = &r {
        proof {
            is_tabulated(
                out@,
                |y: int, x: int, k: int|
                    plus_of::<A>(
                        img@.at(y, x, 0),
                        times_of::<A>(strength, minus_of::<A>(img@.at(y, x, 0), smooth@.at(y, x))),
                    ),
            );
        }
    }
    r
}

/// Without strength every sample keeps its value, where the detail is finite.
pub proof fn no_strength_is_the_identity<A: Arithmetic>(
    r: Raster<u32>,
    params: GuidedFilterParams,
    strength: u32,
    y: int,
    x: int,
)
    requires
        rounds::<A>(),
        single::same(strength, 0),
        r.shape.2 == 1,
        inside(r.shape, y, x, 0),
        single::is_finite(r.at(y, x, 0)),
        single::is_finite(
            minus_of::<A>(
                r.at(y, x, 0),
                guided::<A>(channel_of(r, 0), params.radius as int, params.eps).at(y, x),
            ),
        ),
    ensures
        contrasted::<A>(r, params, strength).shape == r.shape,
        single::same(contrasted::<A>(r, params, strength).at(y, x, 0), r.at(y, x, 0)),
{
    let smooth = guided::<A>(channel_of(r, 0), params.radius as int, params.eps);
    let l = r.at(y, x, 0);
    let detail = times_of::<A>(strength, minus_of::<A>(l, smooth.at(y, x)));
    times_zero::<A>(minus_of::<A>(l, smooth.at(y, x)), strength);
    plus_zero::<A>(l, detail);
    values_are_ordered(plus_of::<A>(l, detail), l);
    tabulated(
        r.shape,
        |y: int, x: int, k: int|
            plus_of::<A>(
                r.at(y, x, 0),
                times_of::<A>(strength, minus_of::<A>(r.at(y, x, 0), smooth.at(y, x))),
            ),
    );
}

/// From the image's longer side on, less one, the radius does not matter: every window
/// is then the whole image.
pub proof fn a_radius_beyond_the_image_changes_nothing<A: Arithmetic>(
    data: Lattice<u32>,
    a: int,
    b: int,
    eps: u32,
)
    requires
        data.shape.0 - 1 <= a,
        data.shape.1 - 1 <= a,
        data.shape.0 - 1 <= b,
        data.shape.1 - 1 <= b,
        0 <= a,
        0 <= b,
    ensures
        guided::<A>(data, a, eps) == guided::<A>(data, b, eps),
{
    let wide = widen_of::<A>(eps);
    let (sa, sb) = (slopes::<A>(data, a, wide), slopes::<A>(data, b, wide));
    let (oa, ob) = (offsets::<A>(data, a, wide), offsets::<A>(data, b, wide));
    let values = summed::<A>(data, Measure::Value);
    let squares = summed::<A>(data, Measure::Square);
    assert forall|y: int, x: int| within(data.shape, y, x) implies #[trigger] model_at::<A>(
        data,
        a,
        wide,
        y,
        x,
    ) == model_at::<A>(data, b, wide, y, x) by {
        whole_windows_are_one::<A>(values, a, b, y, x);
        whole_windows_are_one::<A>(squares, a, b, y, x);
    }
    same_tables(
        data.shape,
        |y: int, x: int| model_at::<A>(data, a, wide, y, x).0,
        |y: int, x: int| model_at::<A>(data, b, wide, y, x).0,
    );
    same_tables(
        data.shape,
        |y: int, x: int| model_at::<A>(data, a, wide, y, x).1,
        |y: int, x: int| model_at::<A>(data, b, wide, y, x).1,
    );
    assert(sa == sb && oa == ob);
    let sum_a = summed::<A>(sa, Measure::Value);
    let sum_b = summed::<A>(oa, Measure::Value);
    let f = |r: int|
        |y: int, x: int|
            smoothed_by::<A>(
                window_mean::<A>(sum_a, y, x, r),
                window_mean::<A>(sum_b, y, x, r),
                data.at(y, x),
            );
    assert forall|y: int, x: int| within(data.shape, y, x) implies #[trigger] f(a)(y, x) == f(b)(
        y,
        x,
    ) by {
        whole_windows_are_one::<A>(sum_a, a, b, y, x);
        whole_windows_are_one::<A>(sum_b, a, b, y, x);
    }
    same_tables(data.shape, f(a), f(b));
    assert(guided::<A>(data, a, eps) == tabulate2(data.shape, f(a)));
    assert(guided::<A>(data, b, eps) == tabulate2(data.shape, f(b)));
}

/// Windows that reach past every side have one mean.
proof fn whole_windows_are_one<A: Arithmetic>(s: Lattice<u64>, a: int, b: int, y: int, x: int)
    requires
        within(s.shape, y, x),
        s.shape.0 - 1 <= a,
        s.shape.1 - 1 <= a,
        s.shape.0 - 1 <= b,
        s.shape.1 - 1 <= b,
    ensures
        window_mean::<A>(s, y, x, a) == window_mean::<A>(s, y, x, b),
{
}

/// Functions that agree on every cell have one table.
pub proof fn same_tables<T>(
    shape: (usize, usize),
    f: spec_fn(int, int) -> T,
    g: spec_fn(int, int) -> T,
)
    requires
        forall|y: int, x: int| within(shape, y, x) ==> #[trigger] f(y, x) == g(y, x),
    ensures
        tabulate2(shape, f) == tabulate2(shape, g),
{
    tabulated2(shape, f);
    tabulated2(shape, g);
    assert forall|y: int, x: int| within(shape, y, x) implies #[trigger] tabulate2(shape, f).at(
        y,
        x,
    ) == g(y, x) by {
        assert(f(y, x) == g(y, x));
    }
    is_tabulated2(tabulate2(shape, f), g);
}

/// The sum of a block whose numbers are all the same.
proof fn constant_block(f: spec_fn(int, int) -> int, c: int, y1: int, m: int, x1: int, n: int)
    requires
        0 <= m,
        0 <= n,
        forall|j: int, i: int|
            y1 <= j < y1 + m && x1 <= i < x1 + n ==> #[trigger] f(j, i) == c,
    ensures
        block_total(f, y1, m, x1, n) == (m * n) * c,
    decreases m,
{
    if m > 0 {
        constant_block(f, c, y1, m - 1, x1, n);
        constant_row(f, c, y1 + m - 1, x1, n);
        assert((m * n) * c == ((m - 1) * n) * c + n * c) by (nonlinear_arith);
    } else {
        assert((0 * n) * c == 0) by (nonlinear_arith);
    }
}

proof fn constant_row(f: spec_fn(int, int) -> int, c: int, y: int, x1: int, n: int)
    requires
        0 <= n,
        forall|i: int| x1 <= i < x1 + n ==> #[trigger] f(y, i) == c,
    ensures
        row_total(f, y, x1, n) == n * c,
    decreases n,
{
    if n > 0 {
        constant_row(f, c, y, x1, n - 1);
        assert(n * c == (n - 1) * c + c) by (nonlinear_arith);
        assert(f(y, x1 + n - 1) == c);
    } else {
        assert(0 * c == 0) by (nonlinear_arith);
    }
}

/// Whether every window of the given radius holds one number: it is a single cell, or
/// the numbers are all the same.
pub open spec fn windows_are_flat(f: spec_fn(int, int) -> int, shape: (usize, usize), r: int) -> bool {
    r == 0 || forall|j: int, i: int, v: int, u: int|
        within(shape, j, i) && within(shape, v, u) ==> #[trigger] f(j, i) == #[trigger] f(v, u)
}

/// Where sums are exact, the mean over a flat window is the number itself.
proof fn flat_mean<A: Arithmetic>(
    data: Lattice<u32>,
    measure: Measure,
    f: spec_fn(int, int) -> int,
    b: int,
    k: nat,
    y: int,
    x: int,
    r: int,
)
    requires
        sums_exactly::<A>(),
        computes_exactly::<A>(),
        sums_fit::<A>(data, measure, f, b, k),
        data.shape.0 * data.shape.1 < 0x20_0000_0000_0000,
        windows_are_flat(f, data.shape, r),
        within(data.shape, y, x),
        0 <= r,
    ensures
        is_multiple64(
            window_mean::<A>(summed::<A>(data, measure), y, x, r),
            f(y, x),
            k,
        ),
{
    let (h, w) = (data.shape.0 as int, data.shape.1 as int);
    let (y1, y2) = (low(y, r), high(y, r, h));
    let (x1, x2) = (low(x, r), high(x, r, w));
    let (m, n) = (y2 - y1 + 1, x2 - x1 + 1);
    let c = f(y, x);
    assert forall|j: int, i: int| y1 <= j < y1 + m && x1 <= i < x1 + n implies #[trigger] f(j, i)
        == c by {
        if r != 0 {
            assert(within(data.shape, j, i));
        }
    }
    constant_block(f, c, y1, m, x1, n);
    window_total_is_the_sum::<A>(data, measure, f, b, k, y, x, r);
    let cells = m * n;
    assert(1 <= cells <= h * w) by (nonlinear_arith)
        requires
            cells == m * n,
            1 <= m <= h,
            1 <= n <= w,
    ;
    let s = summed::<A>(data, measure);
    let total = window_total::<A>(s, y, x, r);
    assert(window_cells(h, w, y, x, r) == cells);
    count_exact64::<A>(cells as u64);
    small_numbers64();
    let (p, u) = (pow2(k) as int, unit64());
    assert((c * p) * (cells * u) == ((cells * c) * p) * u) by (nonlinear_arith);
    assert(cells * u > 0) by (nonlinear_arith)
        requires
            cells >= 1,
            u > 0,
    ;
    assert(is_multiple64(measured::<A>(measure, data.at(y, x)), c, k));
    over_exact64::<A>(
        total,
        of_count64_of::<A>(cells as u64),
        measured::<A>(measure, data.at(y, x)),
    );
}

/// Without variance the model is flat: no slope, and the number itself as the offset.
proof fn flat_model<A: Arithmetic>(v: u32, mean: u64, mean_square: u64, eps: u64)
    requires
        sums_exactly::<A>(),
        computes_exactly::<A>(),
        single::is_finite(v),
        double::is_finite(mean),
        double::is_finite(mean_square),
        double::is_finite(eps),
        value64(eps) >= 0,
        value64(mean) == value(v) * pow2(925),
        value64(mean_square) == (value(v) * value(v)) * pow2(776),
    ensures
        ({
            let m = model::<A>(mean, mean_square, eps);
            &&& single::is_finite(m.0) && value(m.0) == 0
            &&& single::is_finite(m.1) && value(m.1) == value(v)
        }),
{
    small_numbers();
    small_numbers64();
    square_exact64::<A>(v, mean, mean);
    let square = times64_of::<A>(mean, mean);
    minus_exact64::<A>(mean_square, square, 0);
    let difference = minus64_of::<A>(mean_square, square);
    values_are_ordered64(0, difference);
    assert(double::larger(difference, 0) == 0);
    plus_exact64::<A>(0, eps, eps);
    let denom = plus64_of::<A>(0, eps);
    values_are_ordered64(0, denom);
    let a = slope::<A>(mean, mean_square, eps);
    if double::less(0, denom) {
        assert(0 * value64(denom) == 0 * unit64()) by (nonlinear_arith);
        over_exact64::<A>(0, denom, 0);
    }
    assert(value64(a) == 0);
    assert(0 * pow2(925) == 0) by (nonlinear_arith);
    narrow_exact::<A>(a, 0);
    minus_exact64::<A>(double::ONE, a, double::ONE);
    let rest = minus64_of::<A>(double::ONE, a);
    times_exact64::<A>(mean, rest, mean);
    narrow_exact::<A>(times64_of::<A>(mean, rest), v);
}

/// Where sums are exact and every window holds one number, the filter gives the numbers
/// back: with a radius of zero, and on a constant lattice.
pub proof fn flat_windows_come_back<A: Arithmetic>(
    data: Lattice<u32>,
    f: spec_fn(int, int) -> int,
    b: int,
    k: nat,
    g: spec_fn(int, int) -> int,
    d: int,
    l: nat,
    radius: int,
    eps: u32,
    y: int,
    x: int,
)
    requires
        sums_exactly::<A>(),
        computes_exactly::<A>(),
        sums_fit::<A>(data, Measure::Value, f, b, k),
        sums_fit::<A>(data, Measure::Square, g, d, l),
        data.shape.0 * data.shape.1 < 0x20_0000_0000_0000,
        forall|j: int, i: int|
            within(data.shape, j, i) ==> single::is_finite(#[trigger] data.at(j, i)),
        windows_are_flat(f, data.shape, radius),
        windows_are_flat(g, data.shape, radius),
        0 <= radius,
        single::is_non_negative(eps),
        within(data.shape, y, x),
    ensures
        single::same(guided::<A>(data, radius, eps).at(y, x), data.at(y, x)),
{
    let wide = widen_of::<A>(eps);
    small_numbers();
    small_numbers64();
    widen_exact::<A>(eps);
    values_are_ordered(0, eps);
    assert(value64(wide) >= 0) by (nonlinear_arith)
        requires
            value64(wide) == value(eps) * pow2(925),
            value(eps) >= 0,
    ;
    let (flats, levels) = (slopes::<A>(data, radius, wide), offsets::<A>(data, radius, wide));
    let (fa, fb) = (
        |v: int, u: int| model_at::<A>(data, radius, wide, v, u).0,
        |v: int, u: int| model_at::<A>(data, radius, wide, v, u).1,
    );
    tabulated2(data.shape, fa);
    tabulated2(data.shape, fb);
    let none = |v: int, u: int| 0int;
    assert forall|v: int, u: int| within(data.shape, v, u) implies single::is_finite(
        #[trigger] flats.at(v, u),
    ) && value(flats.at(v, u)) == 0 && single::is_finite(levels.at(v, u)) && value(levels.at(v, u))
        == value(data.at(v, u)) by {
        let s = data.at(v, u);
        flat_mean::<A>(data, Measure::Value, f, b, k, v, u, radius);
        flat_mean::<A>(data, Measure::Square, g, d, l, v, u, radius);
        widen_exact::<A>(s);
        square_exact64::<A>(s, widen_of::<A>(s), widen_of::<A>(s));
        assert(is_multiple64(measured::<A>(Measure::Value, s), f(v, u), k));
        assert(is_multiple64(measured::<A>(Measure::Square, s), g(v, u), l));
        flat_model::<A>(
            s,
            window_mean::<A>(summed::<A>(data, Measure::Value), v, u, radius),
            window_mean::<A>(summed::<A>(data, Measure::Square), v, u, radius),
            wide,
        );
        assert(flats.at(v, u) == fa(v, u));
        assert(levels.at(v, u) == fb(v, u));
    }
    // The slopes are nothing everywhere, and the offsets are the numbers again.
    assert(sums_fit::<A>(flats, Measure::Value, none, 0, k)) by {
        assert(0 * (data.shape.0 * data.shape.1) == 0) by (nonlinear_arith);
        assert forall|v: int, u: int| within(flats.shape, v, u) implies is_multiple64(
            measured::<A>(Measure::Value, #[trigger] flats.at(v, u)),
            none(v, u),
            k,
        ) by {
            widen_exact::<A>(flats.at(v, u));
            assert(0 * pow2(925) == 0 && 0 * pow2(k) == 0) by (nonlinear_arith);
        }
    }
    assert(sums_fit::<A>(levels, Measure::Value, f, b, k)) by {
        assert forall|v: int, u: int| within(levels.shape, v, u) implies is_multiple64(
            measured::<A>(Measure::Value, #[trigger] levels.at(v, u)),
            f(v, u),
            k,
        ) by {
            assert(single::is_finite(flats.at(v, u)));
            widen_exact::<A>(levels.at(v, u));
            widen_exact::<A>(data.at(v, u));
            assert(is_multiple64(measured::<A>(Measure::Value, data.at(v, u)), f(v, u), k));
        }
    }
    flat_mean::<A>(flats, Measure::Value, none, 0, k, y, x, radius);
    flat_mean::<A>(levels, Measure::Value, f, b, k, y, x, radius);
    let s = data.at(y, x);
    let (sum_a, sum_b) = (
        summed::<A>(flats, Measure::Value),
        summed::<A>(levels, Measure::Value),
    );
    let (mean_a, mean_b) = (
        window_mean::<A>(sum_a, y, x, radius),
        window_mean::<A>(sum_b, y, x, radius),
    );
    assert(value64(mean_a) == 0) by {
        assert(0 * pow2(k) == 0) by (nonlinear_arith);
    }
    widen_exact::<A>(s);
    assert(is_multiple64(measured::<A>(Measure::Value, s), f(y, x), k));
    assert(0 * unit64() == 0 * value64(widen_of::<A>(s))) by (nonlinear_arith);
    times_exact64::<A>(mean_a, widen_of::<A>(s), 0);
    plus_exact64::<A>(times64_of::<A>(mean_a, widen_of::<A>(s)), mean_b, mean_b);
    let q = smoothed_by::<A>(mean_a, mean_b, s);
    narrow_exact::<A>(
        plus64_of::<A>(times64_of::<A>(mean_a, widen_of::<A>(s)), mean_b),
        s,
    );
    values_are_ordered(q, s);
    tabulated2(
        data.shape,
        |v: int, u: int|
            smoothed_by::<A>(
                window_mean::<A>(sum_a, v, u, radius),
                window_mean::<A>(sum_b, v, u, radius),
                data.at(v, u),
            ),
    );
}

/// The variance over a window, as the model takes it.
pub open spec fn variance_at<A: Arithmetic>(
    data: Lattice<u32>,
    radius: int,
    y: int,
    x: int,
) -> u64 {
    let mean = window_mean::<A>(summed::<A>(data, Measure::Value), y, x, radius);
    let mean_square = window_mean::<A>(summed::<A>(data, Measure::Square), y, x, radius);
    minus64_of::<A>(mean_square, times64_of::<A>(mean, mean))
}

/// Without regularisation, where every window has a variance, the filter gives the
/// numbers back.
pub proof fn without_regularisation_variation_stays<A: Arithmetic>(
    data: Lattice<u32>,
    radius: int,
    eps: u32,
    y: int,
    x: int,
)
    requires
        sums_exactly::<A>(),
        computes_exactly::<A>(),
        data.shape.0 * data.shape.1 < 0x20_0000_0000_0000,
        0 <= radius,
        single::same(eps, 0),
        within(data.shape, y, x),
        single::is_finite(data.at(y, x)),
        forall|v: int, u: int|
            within(data.shape, v, u) ==> double::is_finite(
                #[trigger] variance_at::<A>(data, radius, v, u),
            ) && value64(variance_at::<A>(data, radius, v, u)) > 0 && double::is_finite(
                window_mean::<A>(summed::<A>(data, Measure::Value), v, u, radius),
            ),
    ensures
        single::same(guided::<A>(data, radius, eps).at(y, x), data.at(y, x)),
{
    let wide = widen_of::<A>(eps);
    small_numbers();
    small_numbers64();
    widen_exact::<A>(eps);
    values_are_ordered(0, eps);
    assert(value64(wide) == 0) by (nonlinear_arith)
        requires
            value64(wide) == value(eps) * pow2(925),
            value(eps) == 0,
    ;
    let (ones, levels) = (slopes::<A>(data, radius, wide), offsets::<A>(data, radius, wide));
    let (fa, fb) = (
        |v: int, u: int| model_at::<A>(data, radius, wide, v, u).0,
        |v: int, u: int| model_at::<A>(data, radius, wide, v, u).1,
    );
    tabulated2(data.shape, fa);
    tabulated2(data.shape, fb);
    let (one, none) = (|v: int, u: int| 1int, |v: int, u: int| 0int);
    assert forall|v: int, u: int| within(data.shape, v, u) implies single::is_finite(
        #[trigger] ones.at(v, u),
    ) && value(ones.at(v, u)) == value(single::ONE) && single::is_finite(levels.at(v, u)) && value(
        levels.at(v, u),
    ) == 0 by {
        let mean = window_mean::<A>(summed::<A>(data, Measure::Value), v, u, radius);
        let var = variance_at::<A>(data, radius, v, u);
        values_are_ordered64(0, var);
        assert(double::larger(var, 0) == var);
        plus_exact64::<A>(var, wide, var);
        let denom = plus64_of::<A>(var, wide);
        values_are_ordered64(0, denom);
        assert(unit64() * value64(denom) == value64(var) * unit64()) by (nonlinear_arith)
            requires
                value64(denom) == value64(var),
        ;
        over_exact64::<A>(var, denom, double::ONE);
        let a = over64_of::<A>(var, denom);
        narrow_exact::<A>(a, single::ONE);
        minus_exact64::<A>(double::ONE, a, 0);
        let rest = minus64_of::<A>(double::ONE, a);
        assert(0 * unit64() == value64(mean) * 0) by (nonlinear_arith);
        times_exact64::<A>(mean, rest, 0);
        assert(0 * pow2(925) == 0) by (nonlinear_arith);
        narrow_exact::<A>(times64_of::<A>(mean, rest), 0);
        assert(ones.at(v, u) == fa(v, u));
        assert(levels.at(v, u) == fb(v, u));
    }
    let area = data.shape.0 * data.shape.1;
    assert(sums_fit::<A>(ones, Measure::Value, one, 1, 1074)) by {
        assert forall|v: int, u: int| within(ones.shape, v, u) implies is_multiple64(
            measured::<A>(Measure::Value, #[trigger] ones.at(v, u)),
            one(v, u),
            1074,
        ) by {
            widen_exact::<A>(ones.at(v, u));
        }
    }
    assert(sums_fit::<A>(levels, Measure::Value, none, 0, 1074)) by {
        assert(0 * area == 0) by (nonlinear_arith);
        assert forall|v: int, u: int| within(levels.shape, v, u) implies is_multiple64(
            measured::<A>(Measure::Value, #[trigger] levels.at(v, u)),
            none(v, u),
            1074,
        ) by {
            assert(single::is_finite(ones.at(v, u)));
            widen_exact::<A>(levels.at(v, u));
            assert(0 * pow2(925) == 0 && 0 * pow2(1074) == 0) by (nonlinear_arith);
        }
    }
    flat_mean::<A>(ones, Measure::Value, one, 1, 1074, y, x, radius);
    flat_mean::<A>(levels, Measure::Value, none, 0, 1074, y, x, radius);
    let s = data.at(y, x);
    let (sum_a, sum_b) = (
        summed::<A>(ones, Measure::Value),
        summed::<A>(levels, Measure::Value),
    );
    let (mean_a, mean_b) = (
        window_mean::<A>(sum_a, y, x, radius),
        window_mean::<A>(sum_b, y, x, radius),
    );
    assert(value64(mean_b) == 0) by {
        assert(0 * pow2(1074) == 0) by (nonlinear_arith);
    }
    let wide_s = widen_of::<A>(s);
    widen_exact::<A>(s);
    assert(value64(mean_a) == unit64());
    assert(value64(wide_s) * unit64() == unit64() * value64(wide_s)) by (nonlinear_arith);
    times_exact64::<A>(mean_a, wide_s, wide_s);
    plus_exact64::<A>(times64_of::<A>(mean_a, wide_s), mean_b, wide_s);
    let q = smoothed_by::<A>(mean_a, mean_b, s);
    narrow_exact::<A>(plus64_of::<A>(times64_of::<A>(mean_a, wide_s), mean_b), s);
    values_are_ordered(q, s);
    tabulated2(
        data.shape,
        |v: int, u: int|
            smoothed_by::<A>(
                window_mean::<A>(sum_a, v, u, radius),
                window_mean::<A>(sum_b, v, u, radius),
                data.at(v, u),
            ),
    );
}

/// Where the filter gives a sample back, local contrast of whatever strength leaves it
/// its value.
pub proof fn what_the_filter_keeps_stays<A: Arithmetic>(
    r: Raster<u32>,
    params: GuidedFilterParams,
    strength: u32,
    y: int,
    x: int,
)
    requires
        rounds::<A>(),
        r.shape.2 == 1,
        inside(r.shape, y, x, 0),
        single::is_finite(r.at(y, x, 0)),
        single::is_finite(strength),
        single::same(
            guided::<A>(channel_of(r, 0), params.radius as int, params.eps).at(y, x),
            r.at(y, x, 0),
        ),
    ensures
        single::same(contrasted::<A>(r, params, strength).at(y, x, 0), r.at(y, x, 0)),
{
    small_numbers();
    let smooth = guided::<A>(channel_of(r, 0), params.radius as int, params.eps);
    let s = r.at(y, x, 0);
    let q = smooth.at(y, x);
    values_are_ordered(q, s);
    minus_exact::<A>(s, q, 0);
    let detail = minus_of::<A>(s, q);
    values_are_ordered(detail, 0);
    times_zero::<A>(strength, detail);
    let change = times_of::<A>(strength, detail);
    plus_zero::<A>(s, change);
    values_are_ordered(plus_of::<A>(s, change), s);
    tabulated(
        r.shape,
        |y: int, x: int, k: int|
            plus_of::<A>(
                r.at(y, x, 0),
                times_of::<A>(strength, minus_of::<A>(r.at(y, x, 0), smooth.at(y, x))),
            ),
    );
}

} // verus!
