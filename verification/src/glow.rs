//! Glow: the light above a threshold is scattered by a blur and added back.

use vstd::prelude::*;

use crate::allocation::{copied, image, permitted, refusal};
use crate::arith::{
    faithful, minus, minus_of, plus, plus_of, text, text_of, times, times_of, Arithmetic,
};
use crate::blur::{
    blur, blur_keeps_the_shape, blurred, darkness_stays_dark, has_finite_taps, sigma_fault, taps,
    BlurParams, BlurShape, BOX_CROSSOVER_SIGMA,
};
use crate::error::{PhaiosError, Report};
use crate::raster::{inside, is_tabulated, tabulate, tabulated, Image, Raster};
use crate::remark::{refuse, unexpected};
use crate::rounding::{
    half, half_is_positive, keeps_zero, minus_of_infinity, minus_rounds, minus_spreads_nan,
    plus_of_infinity, plus_rounds, plus_zero, rounded_at_least, rounded_at_most, rounds,
    small_numbers, times_rounds, times_zero, value, values_are_ordered,
};
use crate::single;

verus! {

/// The pattern of 8, the default sigma.
pub const DEFAULT_SIGMA: u32 = 0x4100_0000;

/// Parameters for [`glow`].
#[derive(Clone, Copy, Debug)]
pub struct GlowParams {
    /// Light up to here does not scatter, a single-precision bit pattern.
    pub threshold: u32,
    /// Standard deviation of the scatter in pixels.
    pub sigma: u32,
    /// How much of the scattered light is added.
    pub amount: u32,
}

impl Default for GlowParams {
    fn default() -> (r: Self)
        ensures
            r == (GlowParams { threshold: 0, sigma: DEFAULT_SIGMA, amount: 0 }),
    {
        GlowParams { threshold: 0, sigma: DEFAULT_SIGMA, amount: 0 }
    }
}

impl GlowParams {
    /// Parameters from threshold, sigma and amount.
    pub fn new(threshold: u32, sigma: u32, amount: u32) -> (r: Self)
        ensures
            r == (GlowParams { threshold, sigma, amount }),
    {
        GlowParams { threshold, sigma, amount }
    }

    /// Whether all three fields match by their bits.
    pub fn __eq__(&self, other: &Self) -> (r: bool)
        ensures
            r == (*self == *other),
    {
        self.threshold == other.threshold && self.sigma == other.sigma && self.amount
            == other.amount
    }

    /// A debug representation.
    pub fn __repr__<A: Arithmetic>(&self) -> (r: String)
        requires
            faithful::<A>(),
        ensures
            r@ == "GlowParams(threshold="@ + text_of::<A>(self.threshold) + ", sigma="@ + text_of::<A>(
                self.sigma,
            ) + ", amount="@ + text_of::<A>(self.amount) + ")"@,
    {
        let mut out = String::from_str("GlowParams(threshold=");
        out.append(text::<A>(self.threshold).as_str());
        out.append(", sigma=");
        out.append(text::<A>(self.sigma).as_str());
        out.append(", amount=");
        out.append(text::<A>(self.amount).as_str());
        out.append(")");
        out
    }
}

/// What is wrong with the parameters, if anything.
pub open spec fn glow_fault<A: Arithmetic>(params: GlowParams) -> Option<Report> {
    if !single::is_non_negative(params.threshold) {
        Some(
            unexpected::<A>(
                "threshold"@,
                params.threshold,
                ", expected a finite value of at least 0"@,
            ),
        )
    } else if !single::is_non_negative(params.amount) {
        Some(
            unexpected::<A>(
                "amount"@,
                params.amount,
                ", expected a finite value of at least 0 (this kernel adds light; for detail enhancement use local_contrast)"@,
            ),
        )
    } else {
        sigma_fault::<A>(params.sigma)
    }
}

/// Holds the parameters to their domain.
pub fn validate<A: Arithmetic>(params: &GlowParams) -> (r: Result<(), PhaiosError>)
    requires
        faithful::<A>(),
    ensures
        match r {
            Ok(()) => glow_fault::<A>(*params) is None,
            Err(e) => glow_fault::<A>(*params) == Some(e@),
        },
{
    if !single::is_non_negative(params.threshold) {
        return Err(
            refuse::<A>(
                "threshold",
                params.threshold,
                ", expected a finite value of at least 0",
            ),
        );
    }
    if !single::is_non_negative(params.amount) {
        return Err(
            refuse::<A>(
                "amount",
                params.amount,
                ", expected a finite value of at least 0 (this kernel adds light; for detail enhancement use local_contrast)",
            ),
        );
    }
    crate::blur::validate::<A>(&BlurParams::new(params.sigma, BlurShape::Gaussian))
}

/// The light of a sample that scatters: what lies above the threshold.
pub open spec fn scattered<A: Arithmetic>(value: u32, threshold: u32) -> u32 {
    let excess = minus_of::<A>(value, threshold);
    if single::less(0, excess) {
        excess
    } else {
        0
    }
}

/// The light of a sample that scatters.
pub fn scatter_weight<A: Arithmetic>(value: u32, threshold: u32) -> (r: u32)
    requires
        faithful::<A>(),
    ensures
        r == scattered::<A>(value, threshold),
{
    let excess: u32 = minus::<A>(value, threshold);
    if single::less(0, excess) {
        excess
    } else {
        0
    }
}

/// The light of a raster that scatters.
pub open spec fn emitted<A: Arithmetic>(r: Raster<u32>, threshold: u32) -> Raster<u32> {
    tabulate(r.shape, |y: int, x: int, k: int| scattered::<A>(r.at(y, x, k), threshold))
}

/// A raster with its glow.
pub open spec fn glowing<A: Arithmetic>(r: Raster<u32>, params: GlowParams) -> Raster<u32> {
    if single::same(params.amount, 0) {
        r
    } else {
        let spread = blurred::<A>(emitted::<A>(r, params.threshold), params.sigma);
        tabulate(
            r.shape,
            |y: int, x: int, k: int|
                plus_of::<A>(r.at(y, x, k), times_of::<A>(params.amount, spread.at(y, x, k))),
        )
    }
}

/// Adds the glow of an image to it.
pub fn glow<A: Arithmetic>(img: &Image, params: &GlowParams) -> (r: Result<Image, PhaiosError>)
    requires
        faithful::<A>(),
    ensures
        match r {
            Ok(out) => glow_fault::<A>(*params) is None && permitted::<u32>(img@.shape) && out@
                == glowing::<A>(img@, *params),
            Err(e) => match glow_fault::<A>(*params) {
                Some(fault) => e@ == fault,
                None => refusal::<u32>(img@.shape, e@),
            },
        },
{
    if let Err(e) = validate::<A>(params) {
        return Err(e);
    }
    if single::same(params.amount, 0) {
        return copied(img);
    }
    let emit = |y: usize, x: usize, k: usize| -> (s: u32)
        requires
            faithful::<A>(),
            inside(img@.shape, y as int, x as int, k as int),
        ensures
            s == scattered::<A>(img@.at(y as int, x as int, k as int), params.threshold),
        { scatter_weight::<A>(img.cell(y, x, k), params.threshold) };
    let light = match image(img.dim(), emit) {
        Ok(light) => light,
        Err(e) => return Err(e),
    };
    proof {
        is_tabulated(
            light@,
            |y: int, x: int, k: int| scattered::<A>(img@.at(y, x, k), params.threshold),
        );
    }
    let spread = match blur::<A>(&light, &BlurParams::new(params.sigma, BlurShape::Gaussian)) {
        Ok(spread) => spread,
        Err(e) => return Err(e),
    };
    let make = |y: usize, x: usize, k: usize| -> (s: u32)
        requires
            faithful::<A>(),
            inside(img@.shape, y as int, x as int, k as int),
            spread@.shape == img@.shape,
        ensures
            s == plus_of::<A>(
                img@.at(y as int, x as int, k as int),
                times_of::<A>(params.amount, spread@.at(y as int, x as int, k as int)),
            ),
        { plus::<A>(img.cell(y, x, k), times::<A>(params.amount, spread.cell(y, x, k))) };
    let r = image(img.dim(), make);
    if let Ok(out) = &r {
        proof {
            is_tabulated(
                out@,
                |y: int, x: int, k: int|
                    plus_of::<A>(img@.at(y, x, k), times_of::<A>(params.amount, spread@.at(y, x, k))),
            );
        }
    }
    r
}

/// No amount leaves the image as it is.
pub proof fn no_amount_is_the_identity<A: Arithmetic>(r: Raster<u32>, params: GlowParams)
    requires
        single::same(params.amount, 0),
    ensures
        glowing::<A>(r, params) == r,
{
}

/// Scattered light is never negative and always a number.
pub proof fn scattered_light_is_light<A: Arithmetic>(value: u32, threshold: u32)
    ensures
        single::at_most(0, scattered::<A>(value, threshold)),
{
}

/// What is not a number scatters no light, so it does not spread.
pub proof fn not_a_number_scatters_nothing<A: Arithmetic>(value: u32, threshold: u32)
    requires
        rounds::<A>(),
        single::is_nan(value),
    ensures
        scattered::<A>(value, threshold) == 0,
{
    minus_spreads_nan::<A>(value, threshold);
}

/// Light that is not negative does not darken a sample.
proof fn added_light_does_not_darken<A: Arithmetic>(v: u32, spread: u32, amount: u32)
    requires
        rounds::<A>(),
        single::is_finite(v),
        single::is_non_negative(amount),
        single::is_non_negative(spread),
    ensures
        single::at_most(v, plus_of::<A>(v, times_of::<A>(amount, spread))),
{
    small_numbers();
    half_is_positive();
    values_are_ordered(0, amount);
    values_are_ordered(0, spread);
    let light = times_of::<A>(amount, spread);
    times_rounds::<A>(amount, spread);
    let (a, s) = (value(amount), value(spread));
    assert(0 * (2 * half()) <= a * s) by (nonlinear_arith)
        requires
            a >= 0,
            s >= 0,
    ;
    rounded_at_least(light, a * s, 2 * half(), 0);
    if single::is_finite(light) {
        values_are_ordered(0, light);
        plus_rounds::<A>(v, light);
        rounded_at_least(plus_of::<A>(v, light), value(v) + value(light), 1, v);
    } else {
        plus_of_infinity::<A>(v, light);
    }
}

/// Glow only adds light: no finite sample gets darker, wherever the blur hands on
/// light that is finite and not negative.
pub proof fn glow_only_adds_light<A: Arithmetic>(
    r: Raster<u32>,
    params: GlowParams,
    y: int,
    x: int,
    k: int,
)
    requires
        rounds::<A>(),
        glow_fault::<A>(params) is None,
        inside(r.shape, y, x, k),
        single::is_finite(r.at(y, x, k)),
        single::is_non_negative(
            blurred::<A>(emitted::<A>(r, params.threshold), params.sigma).at(y, x, k),
        ),
    ensures
        single::at_most(r.at(y, x, k), glowing::<A>(r, params).at(y, x, k)),
{
    let spread = blurred::<A>(emitted::<A>(r, params.threshold), params.sigma);
    let f = |y: int, x: int, k: int|
        plus_of::<A>(r.at(y, x, k), times_of::<A>(params.amount, spread.at(y, x, k)));
    tabulated(r.shape, f);
    added_light_does_not_darken::<A>(r.at(y, x, k), spread.at(y, x, k), params.amount);
}

/// What does not exceed the threshold scatters no light.
pub proof fn nothing_up_to_the_threshold_scatters<A: Arithmetic>(v: u32, threshold: u32)
    requires
        rounds::<A>(),
        single::is_finite(threshold),
        single::at_most(v, threshold),
    ensures
        scattered::<A>(v, threshold) == 0,
{
    small_numbers();
    if single::is_infinite(v) {
        minus_of_infinity::<A>(threshold, v);
    } else {
        values_are_ordered(v, threshold);
        minus_rounds::<A>(v, threshold);
        rounded_at_most(minus_of::<A>(v, threshold), value(v) - value(threshold), 1, 0);
    }
}

/// A threshold that nothing exceeds leaves every sample its value.
pub proof fn a_threshold_above_everything_changes_nothing<A: Arithmetic>(
    r: Raster<u32>,
    params: GlowParams,
    y: int,
    x: int,
    k: int,
)
    requires
        rounds::<A>(),
        keeps_zero::<A>(),
        glow_fault::<A>(params) is None,
        single::less(params.sigma, BOX_CROSSOVER_SIGMA) ==> has_finite_taps(
            taps::<A>(params.sigma),
        ),
        forall|y: int, x: int, k: int|
            inside(r.shape, y, x, k) ==> single::at_most(
                #[trigger] r.at(y, x, k),
                params.threshold,
            ),
        inside(r.shape, y, x, k),
    ensures
        single::same(glowing::<A>(r, params).at(y, x, k), r.at(y, x, k)),
{
    small_numbers();
    let light = emitted::<A>(r, params.threshold);
    let lit = |y: int, x: int, k: int| scattered::<A>(r.at(y, x, k), params.threshold);
    tabulated(r.shape, lit);
    assert forall|y: int, x: int, k: int| inside(light.shape, y, x, k) implies single::same(
        #[trigger] light.at(y, x, k),
        0,
    ) by {
        assert(light.at(y, x, k) == lit(y, x, k));
        nothing_up_to_the_threshold_scatters::<A>(r.at(y, x, k), params.threshold);
    }
    darkness_stays_dark::<A>(light, params.sigma);
    let spread = blurred::<A>(light, params.sigma);
    blur_keeps_the_shape::<A>(light, params.sigma);
    let glowed = |y: int, x: int, k: int|
        plus_of::<A>(r.at(y, x, k), times_of::<A>(params.amount, spread.at(y, x, k)));
    tabulated(r.shape, glowed);
    let v = r.at(y, x, k);
    let s = spread.at(y, x, k);
    assert(single::same(s, 0));
    times_zero::<A>(params.amount, s);
    let added = times_of::<A>(params.amount, s);
    if single::is_infinite(v) {
        plus_of_infinity::<A>(added, v);
    } else {
        plus_zero::<A>(v, added);
        values_are_ordered(plus_of::<A>(v, added), v);
    }
}

} // verus!
