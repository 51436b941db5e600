//! Unsharp masking: what a blur takes away is amplified and added back.

use vstd::prelude::*;

use crate::allocation::{copied, image, permitted, refusal};
use crate::arith::{
    faithful, minus, minus_of, over, over_of, plus, plus_of, text, text_of, times, times_of,
    Arithmetic,
};
use crate::blur::{blur, blurred, sigma_fault, BlurParams, BlurShape, THREE};
use crate::error::{PhaiosError, Report};
use crate::raster::{inside, is_tabulated, tabulate, Image, Raster};
use crate::remark::{refuse, unexpected};
use crate::rounding::{
    half, half_is_positive, infinity_over, minus_exact, minus_halves, minus_of_infinity,
    minus_rounds, negated_value, one_is_one, over_rounds, over_sign, plus_zero,
    positive_is_unsigned, rounded_at_least, rounded_is_finite, rounds, small_numbers, times_halves,
    times_one, times_zero, value, values_are_ordered,
};
use crate::single;

verus! {

/// The pattern of 2: from this many times the threshold on a detail passes whole.
pub const SOFT_KNEE_SPAN: u32 = 0x4000_0000;

/// Parameters for [`sharpen`].
#[derive(Clone, Copy, Debug)]
pub struct SharpenParams {
    /// How much of the detail is added back, a single-precision bit pattern.
    pub amount: u32,
    /// Standard deviation of the blur in pixels.
    pub sigma: u32,
    /// Detail at most this large is left alone.
    pub threshold: u32,
}

impl Default for SharpenParams {
    fn default() -> (r: Self)
        ensures
            r == (SharpenParams { amount: 0, sigma: 0, threshold: 0 }),
    {
        SharpenParams { amount: 0, sigma: 0, threshold: 0 }
    }
}

impl SharpenParams {
    /// Parameters from amount, sigma and threshold.
    pub fn new(amount: u32, sigma: u32, threshold: u32) -> (r: Self)
        ensures
            r == (SharpenParams { amount, sigma, threshold }),
    {
        SharpenParams { amount, sigma, threshold }
    }

    /// Whether all three fields match by their bits.
    pub fn __eq__(&self, other: &Self) -> (r: bool)
        ensures
            r == (*self == *other),
    {
        self.amount == other.amount && self.sigma == other.sigma && self.threshold
            == other.threshold
    }

    /// A debug representation.
    pub fn __repr__<A: Arithmetic>(&self) -> (r: String)
        requires
            faithful::<A>(),
        ensures
            r@ == "SharpenParams(amount="@ + text_of::<A>(self.amount) + ", sigma="@ + text_of::<A>(
                self.sigma,
            ) + ", threshold="@ + text_of::<A>(self.threshold) + ")"@,
    {
        let mut out = String::from_str("SharpenParams(amount=");
        out.append(text::<A>(self.amount).as_str());
        out.append(", sigma=");
        out.append(text::<A>(self.sigma).as_str());
        out.append(", threshold=");
        out.append(text::<A>(self.threshold).as_str());
        out.append(")");
        out
    }
}

/// What is wrong with the parameters, if anything.
pub open spec fn sharpen_fault<A: Arithmetic>(params: SharpenParams) -> Option<Report> {
    if !single::is_non_negative(params.amount) {
        Some(
            unexpected::<A>(
                "amount"@,
                params.amount,
                ", expected a finite value of at least 0 (this kernel adds detail; for smoothing use blur or a negative local_contrast strength)"@,
            ),
        )
    } else if !single::is_non_negative(params.threshold) {
        Some(
            unexpected::<A>(
                "threshold"@,
                params.threshold,
                ", expected a finite value of at least 0"@,
            ),
        )
    } else {
        sigma_fault::<A>(params.sigma)
    }
}

/// Holds the parameters to their domain.
pub fn validate<A: Arithmetic>(params: &SharpenParams) -> (r: Result<(), PhaiosError>)
    requires
        faithful::<A>(),
    ensures
        match r {
            Ok(()) => sharpen_fault::<A>(*params) is None,
            Err(e) => sharpen_fault::<A>(*params) == Some(e@),
        },
{
    if !single::is_non_negative(params.amount) {
        return Err(
            refuse::<A>(
                "amount",
                params.amount,
                ", expected a finite value of at least 0 (this kernel adds detail; for smoothing use blur or a negative local_contrast strength)",
            ),
        );
    }
    if !single::is_non_negative(params.threshold) {
        return Err(
            refuse::<A>(
                "threshold",
                params.threshold,
                ", expected a finite value of at least 0",
            ),
        );
    }
    crate::blur::validate::<A>(&BlurParams::new(params.sigma, BlurShape::Gaussian))
}

/// How much of a detail passes: all of it without a threshold; otherwise a
/// smooth step from none at the threshold to all at twice the threshold.
pub open spec fn gate<A: Arithmetic>(d: u32, threshold: u32) -> u32 {
    if single::same(threshold, 0) {
        single::ONE
    } else {
        let span = times_of::<A>(minus_of::<A>(SOFT_KNEE_SPAN, single::ONE), threshold);
        let u = single::clamped(
            over_of::<A>(minus_of::<A>(single::magnitude(d), threshold), span),
            0,
            single::ONE,
        );
        times_of::<A>(times_of::<A>(u, u), minus_of::<A>(THREE, times_of::<A>(single::TWO, u)))
    }
}

/// How much of a detail passes the threshold.
pub fn soft_gate<A: Arithmetic>(d: u32, threshold: u32) -> (r: u32)
    requires
        faithful::<A>(),
    ensures
        r == gate::<A>(d, threshold),
{
    if single::same(threshold, 0) {
        return single::ONE;
    }
    let span: u32 = times::<A>(minus::<A>(SOFT_KNEE_SPAN, single::ONE), threshold);
    let u: u32 = single::clamped(
        over::<A>(minus::<A>(single::magnitude(d), threshold), span),
        0,
        single::ONE,
    );
    times::<A>(times::<A>(u, u), minus::<A>(THREE, times::<A>(single::TWO, u)))
}

/// A sample with its detail amplified.
pub open spec fn crisper<A: Arithmetic>(v: u32, b: u32, params: SharpenParams) -> u32 {
    let detail = minus_of::<A>(v, b);
    plus_of::<A>(
        v,
        times_of::<A>(times_of::<A>(params.amount, gate::<A>(detail, params.threshold)), detail),
    )
}

/// Whether sharpening leaves every image alone.
pub open spec fn idle(params: SharpenParams) -> bool {
    single::same(params.amount, 0) || single::same(params.sigma, 0)
}

/// A raster sharpened.
pub open spec fn sharpened<A: Arithmetic>(r: Raster<u32>, params: SharpenParams) -> Raster<u32> {
    if idle(params) {
        r
    } else {
        let soft = blurred::<A>(r, params.sigma);
        tabulate(
            r.shape,
            |y: int, x: int, k: int| crisper::<A>(r.at(y, x, k), soft.at(y, x, k), params),
        )
    }
}

/// Sharpens an image.
pub fn sharpen<A: Arithmetic>(img: &Image, params: &SharpenParams) -> (r: Result<
    Image,
    PhaiosError,
>)
    requires
        faithful::<A>(),
    ensures
        match r {
            Ok(out) => sharpen_fault::<A>(*params) is None && permitted::<u32>(img@.shape) && out@
                == sharpened::<A>(img@, *params),
            Err(e) => match sharpen_fault::<A>(*params) {
                Some(fault) => e@ == fault,
                None => refusal::<u32>(img@.shape, e@),
            },
        },
{
    if let Err(e) = validate::<A>(params) {
        return Err(e);
    }
    if single::same(params.amount, 0) || single::same(params.sigma, 0) {
        return copied(img);
    }
    let soft = match blur::<A>(img, &BlurParams::new(params.sigma, BlurShape::Gaussian)) {
        Ok(soft) => soft,
        Err(e) => return Err(e),
    };
    let make = |y: usize, x: usize, k: usize| -> (s: u32)
        requires
            faithful::<A>(),
            inside(img@.shape, y as int, x as int, k as int),
            soft@.shape == img@.shape,
        ensures
            s == crisper::<A>(
                img@.at(y as int, x as int, k as int),
                soft@.at(y as int, x as int, k as int),
                *params,
            ),
        {
            let v: u32 = img.cell(y, x, k);
            let detail: u32 = minus::<A>(v, soft.cell(y, x, k));
            plus::<A>(
                v,
                times::<A>(
                    times::<A>(params.amount, soft_gate::<A>(detail, params.threshold)),
                    detail,
                ),
            )
        };
    let r = image(img.dim(), make);
    if let Ok(out) = &r {
        proof {
            is_tabulated(
                out@,
                |y: int, x: int, k: int|
                    crisper::<A>(img@.at(y, x, k), soft@.at(y, x, k), *params),
            );
        }
    }
    r
}

/// No amount and no blur each leave the image as it is.
pub proof fn idle_parameters_change_nothing<A: Arithmetic>(r: Raster<u32>, params: SharpenParams)
    requires
        single::same(params.amount, 0) || single::same(params.sigma, 0),
    ensures
        sharpened::<A>(r, params) == r,
{
}

/// Without a threshold every detail passes whole.
pub proof fn no_threshold_passes_everything<A: Arithmetic>(d: u32, threshold: u32)
    requires
        single::same(threshold, 0),
    ensures
        gate::<A>(d, threshold) == single::ONE,
{
}

/// A detail and its negative pass alike.
pub proof fn gate_is_even<A: Arithmetic>(d: u32, threshold: u32)
    ensures
        gate::<A>(single::negated(d), threshold) == gate::<A>(d, threshold),
{
}

/// Between nothing and everything lies a span as wide as the threshold.
proof fn ramp_width<A: Arithmetic>(threshold: u32)
    requires
        rounds::<A>(),
        single::is_finite(threshold),
    ensures
        ({
            let span = times_of::<A>(minus_of::<A>(SOFT_KNEE_SPAN, single::ONE), threshold);
            single::is_finite(span) && value(span) == value(threshold)
        }),
{
    small_numbers();
    minus_halves::<A>(SOFT_KNEE_SPAN, 4, single::ONE, 2);
    one_is_one(minus_of::<A>(SOFT_KNEE_SPAN, single::ONE));
    times_one::<A>(threshold);
}

/// Details up to the threshold do not pass.
pub proof fn gate_is_shut_up_to_the_threshold<A: Arithmetic>(d: u32, threshold: u32)
    requires
        rounds::<A>(),
        single::is_finite(threshold),
        single::less(0, threshold),
        single::at_most(single::magnitude(d), threshold),
    ensures
        single::same(gate::<A>(d, threshold), 0),
{
    small_numbers();
    half_is_positive();
    ramp_width::<A>(threshold);
    values_are_ordered(0, threshold);
    let m = single::magnitude(d);
    values_are_ordered(m, threshold);
    values_are_ordered(0, m);
    negated_value(threshold);
    negated_value(single::ONE);
    let span = times_of::<A>(minus_of::<A>(SOFT_KNEE_SPAN, single::ONE), threshold);
    // At most nothing is left above the threshold, and the ramp scales it to a
    // number between minus one and zero.
    let excess = minus_of::<A>(m, threshold);
    minus_rounds::<A>(m, threshold);
    rounded_is_finite(excess, value(m) - value(threshold), 1, single::negated(threshold), 0);
    let share = over_of::<A>(excess, span);
    over_rounds::<A>(excess, span);
    let (e, t, h) = (value(excess), value(threshold), 2 * half());
    assert(-h * t <= e * h <= 0 * t) by (nonlinear_arith)
        requires
            -t <= e <= 0,
            h > 0,
    ;
    rounded_is_finite(share, e * h, value(span), single::negated(single::ONE), 0);
    values_are_ordered(share, 0);
    values_are_ordered(single::ONE, share);
    let u = single::clamped(share, 0, single::ONE);
    assert(single::same(u, 0));
    values_are_ordered(u, 0);
    times_zero::<A>(u, u);
    let square = times_of::<A>(u, u);
    times_zero::<A>(single::TWO, u);
    let twice = times_of::<A>(single::TWO, u);
    values_are_ordered(square, 0);
    minus_exact::<A>(THREE, twice, THREE);
    times_zero::<A>(minus_of::<A>(THREE, twice), square);
    values_are_ordered(gate::<A>(d, threshold), 0);
}

/// Details from twice the threshold on pass whole.
pub proof fn gate_is_open_past_the_ramp<A: Arithmetic>(d: u32, threshold: u32)
    requires
        rounds::<A>(),
        single::is_finite(threshold),
        single::less(0, threshold),
        single::is_infinite(d) || single::is_finite(d) && value(single::magnitude(d)) >= 2 * value(
            threshold,
        ),
    ensures
        gate::<A>(d, threshold) == single::ONE,
{
    small_numbers();
    half_is_positive();
    ramp_width::<A>(threshold);
    values_are_ordered(0, threshold);
    let m = single::magnitude(d);
    let span = times_of::<A>(minus_of::<A>(SOFT_KNEE_SPAN, single::ONE), threshold);
    let excess = minus_of::<A>(m, threshold);
    let share = over_of::<A>(excess, span);
    if single::is_infinite(d) {
        minus_of_infinity::<A>(threshold, m);
        infinity_over::<A>(excess, span);
        over_sign::<A>(excess, span);
        positive_is_unsigned(span);
    } else {
        minus_rounds::<A>(m, threshold);
        rounded_is_finite(excess, value(m) - value(threshold), 1, threshold, m);
        over_rounds::<A>(excess, span);
        let (e, t, h) = (value(excess), value(threshold), 2 * half());
        assert(h * t <= e * h) by (nonlinear_arith)
            requires
                t <= e,
                h > 0,
        ;
        rounded_at_least(share, e * h, value(span), single::ONE);
    }
    assert(single::at_most(single::ONE, share));
    let u = single::clamped(share, 0, single::ONE);
    assert(u == single::ONE);
    times_halves::<A>(u, 2, u, 2, 2);
    one_is_one(times_of::<A>(u, u));
    times_halves::<A>(single::TWO, 4, u, 2, 4);
    minus_halves::<A>(THREE, 6, times_of::<A>(single::TWO, u), 4);
    one_is_one(minus_of::<A>(THREE, times_of::<A>(single::TWO, u)));
}

/// Where the detail stays at or under the threshold, the sample keeps its value.
pub proof fn quiet_details_are_left_alone<A: Arithmetic>(v: u32, b: u32, params: SharpenParams)
    requires
        rounds::<A>(),
        sharpen_fault::<A>(params) is None,
        single::is_finite(v),
        single::less(0, params.threshold),
        single::at_most(single::magnitude(minus_of::<A>(v, b)), params.threshold),
    ensures
        single::same(crisper::<A>(v, b, params), v),
{
    small_numbers();
    let detail = minus_of::<A>(v, b);
    let open = gate::<A>(detail, params.threshold);
    gate_is_shut_up_to_the_threshold::<A>(detail, params.threshold);
    times_zero::<A>(params.amount, open);
    let gain = times_of::<A>(params.amount, open);
    values_are_ordered(gain, 0);
    times_zero::<A>(detail, gain);
    plus_zero::<A>(v, times_of::<A>(gain, detail));
    values_are_ordered(crisper::<A>(v, b, params), v);
}

} // verus!
