//! Plans for the kernels that treat each pixel, or each pixel with its
//! neighbours, in one launch.

use vstd::prelude::*;

use crate::allocation::element_count;
use crate::arith::{faithful, minus, minus_of, power, times, times_of, Arithmetic};
use crate::bw::{
    filter_weights, filtered, hsl_fault, rgb_fault, validate_hsl, validate_rgb_shape, ColorFilter,
    HslWeightedParams, LuminanceStandard,
};
use crate::cuda::launch::{copy_acts, copy_device, count_fault, either, map_acts, map_device};
use crate::cuda::plan::{Act, Arg, Element, Plan};
use crate::encode::INVERSE_GAMMA;
use crate::error::{PhaiosError, Report};
use crate::exposure::{exposure_fault, gain_of};
use crate::hot_pixels::{hot_fault, HotPixelParams};
use crate::raster::volume;
use crate::remark::{misshapen, refuse, refuse_shape, unexpected};
use crate::single;

verus! {

/// Plans exposure compensation: the gain is computed here, the kernel multiplies.
pub fn exposure_device<A: Arithmetic>(shape: (usize, usize, usize), stops: u32) -> (r: Result<
    Plan,
    PhaiosError,
>)
    requires
        faithful::<A>(),
    ensures
        match r {
            Ok(plan) => {
                &&& exposure_fault::<A>(stops) is None
                &&& count_fault(shape) is None
                &&& plan.sound(shape, Element::Single)
                &&& plan.shape == shape
                &&& plan.output == 1
                &&& plan@ == map_acts(
                    "exposure"@,
                    "exposure_kernel"@,
                    seq![Arg::Single(gain_of::<A>(stops)), Arg::Long(volume(shape) as i64)],
                    volume(shape),
                    volume(shape),
                    volume(shape),
                    "kernel launch failed"@,
                )
            },
            Err(e) => either(exposure_fault::<A>(stops), count_fault(shape)) == Some(e@),
        },
{
    if let Err(e) = crate::exposure::validate::<A>(stops) {
        return Err(e);
    }
    let n = match element_count(shape) {
        Ok(n) => n,
        Err(e) => return Err(e),
    };
    let gain: u32 = power::<A>(single::TWO, stops);
    let tail: Vec<Arg> = vec![Arg::Single(gain), Arg::Long(n as i64)];
    proof {
        assert(tail@ =~= seq![Arg::Single(gain_of::<A>(stops)), Arg::Long(n as i64)]);
    }
    Ok(
        map_device(
            shape,
            n,
            shape,
            n,
            "exposure",
            "exposure_kernel",
            tail,
            n,
            "kernel launch failed",
        ),
    )
}

/// Plans the sRGB transfer.
pub fn encode_srgb_device(shape: (usize, usize, usize)) -> (r: Result<Plan, PhaiosError>)
    ensures
        match r {
            Ok(plan) => {
                &&& count_fault(shape) is None
                &&& plan.sound(shape, Element::Single)
                &&& plan.shape == shape
                &&& plan.output == 1
                &&& plan@ == map_acts(
                    "encode_srgb"@,
                    "encode_srgb_kernel"@,
                    seq![Arg::Single(INVERSE_GAMMA), Arg::Long(volume(shape) as i64)],
                    volume(shape),
                    volume(shape),
                    volume(shape),
                    "kernel launch failed"@,
                )
            },
            Err(e) => count_fault(shape) == Some(e@),
        },
{
    let n = match element_count(shape) {
        Ok(n) => n,
        Err(e) => return Err(e),
    };
    let tail: Vec<Arg> = vec![Arg::Single(INVERSE_GAMMA), Arg::Long(n as i64)];
    proof {
        assert(tail@ =~= seq![Arg::Single(INVERSE_GAMMA), Arg::Long(n as i64)]);
    }
    Ok(
        map_device(
            shape,
            n,
            shape,
            n,
            "encode_srgb",
            "encode_srgb_kernel",
            tail,
            n,
            "kernel launch failed",
        ),
    )
}

/// What is wrong with a shape that is to be collapsed from three channels to
/// one, if anything.
pub open spec fn collapse_fault(shape: (usize, usize, usize)) -> Option<Report> {
    either(rgb_fault(shape), count_fault(shape))
}

/// The steps of a weighted sum of three channels.
pub open spec fn dot3_acts(shape: (usize, usize, usize), weights: Seq<u32>) -> Seq<Act> {
    let pixels = volume((shape.0, shape.1, 1));
    map_acts(
        "luminance_bw"@,
        "luminance_bw_kernel"@,
        seq![
            Arg::Single(weights[0]),
            Arg::Single(weights[1]),
            Arg::Single(weights[2]),
            Arg::Long(pixels as i64),
        ],
        volume(shape),
        pixels,
        pixels,
        "kernel launch failed"@,
    )
}

/// The pixels of a shape, where its elements can be counted.
fn pixel_count(shape: (usize, usize, usize)) -> (r: Result<(usize, usize), PhaiosError>)
    requires
        shape.2 >= 1,
    ensures
        match r {
            Ok((n, pixels)) => count_fault(shape) is None && n == volume(shape) && pixels
                == volume((shape.0, shape.1, 1)),
            Err(e) => count_fault(shape) == Some(e@),
        },
{
    match element_count(shape) {
        Ok(n) => {
            proof {
                assert(0 <= shape.0 * shape.1) by (nonlinear_arith);
                assert(volume((shape.0, shape.1, 1)) == shape.0 * shape.1) by (nonlinear_arith)
                    requires
                        volume((shape.0, shape.1, 1)) == shape.0 * shape.1 * 1,
                ;
            }
            Ok((n, shape.0 * shape.1))
        },
        Err(e) => Err(e),
    }
}

/// Plans a weighted sum of three channels, the one launch behind all three ways
/// to black and white.
pub fn dot3_device(shape: (usize, usize, usize), weights: [u32; 3]) -> (r: Result<
    Plan,
    PhaiosError,
>)
    ensures
        match r {
            Ok(plan) => {
                &&& collapse_fault(shape) is None
                &&& plan.sound(shape, Element::Single)
                &&& plan.shape == (shape.0, shape.1, 1usize)
                &&& plan.output == 1
                &&& plan@ == dot3_acts(shape, weights@)
            },
            Err(e) => collapse_fault(shape) == Some(e@),
        },
{
    if let Err(e) = validate_rgb_shape(shape) {
        return Err(e);
    }
    let (n, pixels) = match pixel_count(shape) {
        Ok(t) => t,
        Err(e) => return Err(e),
    };
    let tail: Vec<Arg> = vec![
        Arg::Single(weights[0]),
        Arg::Single(weights[1]),
        Arg::Single(weights[2]),
        Arg::Long(pixels as i64),
    ];
    proof {
        assert(tail@ =~= seq![
            Arg::Single(weights@[0]),
            Arg::Single(weights@[1]),
            Arg::Single(weights@[2]),
            Arg::Long(pixels as i64),
        ]);
    }
    Ok(
        map_device(
            shape,
            n,
            (shape.0, shape.1, 1),
            pixels,
            "luminance_bw",
            "luminance_bw_kernel",
            tail,
            pixels,
            "kernel launch failed",
        ),
    )
}

/// Plans the luminance of a standard.
pub fn luminance_bw_device(shape: (usize, usize, usize), standard: LuminanceStandard) -> (r: Result<
    Plan,
    PhaiosError,
>)
    ensures
        match r {
            Ok(plan) => {
                &&& collapse_fault(shape) is None
                &&& plan.sound(shape, Element::Single)
                &&& plan.shape == (shape.0, shape.1, 1usize)
                &&& plan.output == 1
                &&& plan@ == dot3_acts(shape, standard.coefficients())
            },
            Err(e) => collapse_fault(shape) == Some(e@),
        },
{
    dot3_device(shape, standard.weights())
}

/// Plans a mixer with weights of the caller's.
pub fn channel_mixer_bw_device(shape: (usize, usize, usize), weights: [u32; 3]) -> (r: Result<
    Plan,
    PhaiosError,
>)
    ensures
        match r {
            Ok(plan) => {
                &&& collapse_fault(shape) is None
                &&& plan.sound(shape, Element::Single)
                &&& plan.shape == (shape.0, shape.1, 1usize)
                &&& plan.output == 1
                &&& plan@ == dot3_acts(shape, weights@)
            },
            Err(e) => collapse_fault(shape) == Some(e@),
        },
{
    dot3_device(shape, weights)
}

/// Plans a conversion behind a colour filter. The weights are combined here.
pub fn color_filter_bw_device<A: Arithmetic>(
    shape: (usize, usize, usize),
    filter: ColorFilter,
    standard: LuminanceStandard,
) -> (r: Result<Plan, PhaiosError>)
    requires
        faithful::<A>(),
    ensures
        match r {
            Ok(plan) => {
                &&& collapse_fault(shape) is None
                &&& plan.sound(shape, Element::Single)
                &&& plan.shape == (shape.0, shape.1, 1usize)
                &&& plan.output == 1
                &&& plan@ == dot3_acts(shape, filtered::<A>(filter, standard))
            },
            Err(e) => collapse_fault(shape) == Some(e@),
        },
{
    dot3_device(shape, filter_weights::<A>(filter, standard))
}

/// The steps of a conversion weighted by hue.
pub open spec fn hsl_acts<A: Arithmetic>(
    shape: (usize, usize, usize),
    params: HslWeightedParams,
) -> Seq<Act> {
    let pixels = volume((shape.0, shape.1, 1));
    let lw = params.standard.coefficients();
    let hw = params.hue_weights@;
    map_acts(
        "hsl_bw"@,
        "hsl_bw_kernel"@,
        seq![
            Arg::Single(lw[0]),
            Arg::Single(lw[1]),
            Arg::Single(lw[2]),
            Arg::Single(hw[0]),
            Arg::Single(hw[1]),
            Arg::Single(hw[2]),
            Arg::Single(hw[3]),
            Arg::Single(hw[4]),
            Arg::Single(hw[5]),
            Arg::Single(hw[6]),
            Arg::Single(hw[7]),
            Arg::Single(times_of::<A>(times_of::<A>(single::TWO, params.sigma_deg), params.sigma_deg)),
            Arg::Long(pixels as i64),
        ],
        volume(shape),
        pixels,
        pixels,
        "kernel launch failed"@,
    )
}

/// Plans a conversion weighted by hue.
pub fn hsl_bw_device<A: Arithmetic>(
    shape: (usize, usize, usize),
    params: &HslWeightedParams,
) -> (r: Result<Plan, PhaiosError>)
    requires
        faithful::<A>(),
    ensures
        match r {
            Ok(plan) => {
                &&& rgb_fault(shape) is None
                &&& hsl_fault::<A>(*params) is None
                &&& count_fault(shape) is None
                &&& plan.sound(shape, Element::Single)
                &&& plan.shape == (shape.0, shape.1, 1usize)
                &&& plan.output == 1
                &&& plan@ == hsl_acts::<A>(shape, *params)
            },
            Err(e) => either(
                rgb_fault(shape),
                either(hsl_fault::<A>(*params), count_fault(shape)),
            ) == Some(e@),
        },
{
    if let Err(e) = validate_rgb_shape(shape) {
        return Err(e);
    }
    if let Err(e) = validate_hsl::<A>(params) {
        return Err(e);
    }
    let (n, pixels) = match pixel_count(shape) {
        Ok(t) => t,
        Err(e) => return Err(e),
    };
    let lw: [u32; 3] = params.standard.weights();
    let hw: [u32; 8] = params.hue_weights;
    let spread: u32 = times::<A>(times::<A>(single::TWO, params.sigma_deg), params.sigma_deg);
    let tail: Vec<Arg> = vec![
        Arg::Single(lw[0]),
        Arg::Single(lw[1]),
        Arg::Single(lw[2]),
        Arg::Single(hw[0]),
        Arg::Single(hw[1]),
        Arg::Single(hw[2]),
        Arg::Single(hw[3]),
        Arg::Single(hw[4]),
        Arg::Single(hw[5]),
        Arg::Single(hw[6]),
        Arg::Single(hw[7]),
        Arg::Single(spread),
        Arg::Long(pixels as i64),
    ];
    proof {
        assert(tail@ =~= seq![
            Arg::Single(lw@[0]),
            Arg::Single(lw@[1]),
            Arg::Single(lw@[2]),
            Arg::Single(hw@[0]),
            Arg::Single(hw@[1]),
            Arg::Single(hw@[2]),
            Arg::Single(hw@[3]),
            Arg::Single(hw@[4]),
            Arg::Single(hw@[5]),
            Arg::Single(hw@[6]),
            Arg::Single(hw@[7]),
            Arg::Single(spread),
            Arg::Long(pixels as i64),
        ]);
    }
    Ok(
        map_device(
            shape,
            n,
            (shape.0, shape.1, 1),
            pixels,
            "hsl_bw",
            "hsl_bw_kernel",
            tail,
            pixels,
            "kernel launch failed",
        ),
    )
}

/// The steps of the removal of hot pixels.
pub open spec fn hot_acts(shape: (usize, usize, usize), params: HotPixelParams) -> Seq<Act> {
    map_acts(
        "hot_pixels"@,
        "hot_pixels_kernel"@,
        seq![
            Arg::Single(params.threshold),
            Arg::Single(params.relative),
            Arg::Int(shape.0 as i32),
            Arg::Int(shape.1 as i32),
            Arg::Int(shape.2 as i32),
            Arg::Long(volume(shape) as i64),
        ],
        volume(shape),
        volume(shape),
        volume(shape),
        "kernel launch failed"@,
    )
}

/// Plans the removal of hot pixels.
pub fn hot_pixels_device<A: Arithmetic>(
    shape: (usize, usize, usize),
    params: &HotPixelParams,
) -> (r: Result<Plan, PhaiosError>)
    requires
        faithful::<A>(),
    ensures
        match r {
            Ok(plan) => {
                &&& hot_fault::<A>(*params) is None
                &&& count_fault(shape) is None
                &&& plan.sound(shape, Element::Single)
                &&& plan.shape == shape
                &&& plan.output == 1
                &&& plan@ == hot_acts(shape, *params)
            },
            Err(e) => either(hot_fault::<A>(*params), count_fault(shape)) == Some(e@),
        },
{
    if let Err(e) = crate::hot_pixels::validate::<A>(params) {
        return Err(e);
    }
    let n = match element_count(shape) {
        Ok(n) => n,
        Err(e) => return Err(e),
    };
    let tail: Vec<Arg> = vec![
        Arg::Single(params.threshold),
        Arg::Single(params.relative),
        Arg::Int(shape.0 as i32),
        Arg::Int(shape.1 as i32),
        Arg::Int(shape.2 as i32),
        Arg::Long(n as i64),
    ];
    proof {
        assert(tail@ =~= seq![
            Arg::Single(params.threshold),
            Arg::Single(params.relative),
            Arg::Int(shape.0 as i32),
            Arg::Int(shape.1 as i32),
            Arg::Int(shape.2 as i32),
            Arg::Long(n as i64),
        ]);
    }
    Ok(
        map_device(
            shape,
            n,
            shape,
            n,
            "hot_pixels",
            "hot_pixels_kernel",
            tail,
            n,
            "kernel launch failed",
        ),
    )
}

/// The steps of a tone curve: a copy where the curve is the identity.
pub open spec fn tone_acts(
    shape: (usize, usize, usize),
    slope: u32,
    offset: u32,
    power: u32,
) -> Seq<Act> {
    if single::same(slope, single::ONE) && single::same(offset, 0) && single::same(
        power,
        single::ONE,
    ) {
        copy_acts(volume(shape))
    } else {
        map_acts(
            "tone_curve"@,
            "tone_curve_kernel"@,
            seq![
                Arg::Single(slope),
                Arg::Single(offset),
                Arg::Single(power),
                Arg::Int(
                    if single::same(power, single::ONE) {
                        1
                    } else {
                        0
                    },
                ),
                Arg::Long(volume(shape) as i64),
            ],
            volume(shape),
            volume(shape),
            volume(shape),
            "kernel launch failed"@,
        )
    }
}

/// What is wrong with a tone curve, if anything.
pub open spec fn tone_fault<A: Arithmetic>(slope: u32, offset: u32, power: u32) -> Option<Report> {
    if !single::is_finite(slope) {
        Some(unexpected::<A>("slope"@, slope, ", expected a finite value"@))
    } else if !single::is_finite(offset) {
        Some(unexpected::<A>("offset"@, offset, ", expected a finite value"@))
    } else if !single::is_finite(power) || single::at_most(power, 0) {
        Some(unexpected::<A>("power"@, power, ", expected a finite value > 0"@))
    } else {
        None
    }
}

fn validate_tone_curve<A: Arithmetic>(slope: u32, offset: u32, power: u32) -> (r: Result<
    (),
    PhaiosError,
>)
    requires
        faithful::<A>(),
    ensures
        match r {
            Ok(()) => tone_fault::<A>(slope, offset, power) is None,
            Err(e) => tone_fault::<A>(slope, offset, power) == Some(e@),
        },
{
    if !single::is_finite(slope) {
        return Err(refuse::<A>("slope", slope, ", expected a finite value"));
    }
    if !single::is_finite(offset) {
        return Err(refuse::<A>("offset", offset, ", expected a finite value"));
    }
    if !single::is_finite(power) || single::at_most(power, 0) {
        return Err(refuse::<A>("power", power, ", expected a finite value > 0"));
    }
    Ok(())
}

/// Plans a tone curve of slope, offset and power.
pub fn tone_curve_device<A: Arithmetic>(
    shape: (usize, usize, usize),
    slope: u32,
    offset: u32,
    power: u32,
) -> (r: Result<Plan, PhaiosError>)
    requires
        faithful::<A>(),
    ensures
        match r {
            Ok(plan) => {
                &&& tone_fault::<A>(slope, offset, power) is None
                &&& count_fault(shape) is None
                &&& plan.sound(shape, Element::Single)
                &&& plan.shape == shape
                &&& plan.output == 1
                &&& plan@ == tone_acts(shape, slope, offset, power)
            },
            Err(e) => either(tone_fault::<A>(slope, offset, power), count_fault(shape)) == Some(e@),
        },
{
    if let Err(e) = validate_tone_curve::<A>(slope, offset, power) {
        return Err(e);
    }
    if single::same(slope, single::ONE) && single::same(offset, 0) && single::same(
        power,
        single::ONE,
    ) {
        return copy_device(shape);
    }
    let n = match element_count(shape) {
        Ok(n) => n,
        Err(e) => return Err(e),
    };
    let unit: i32 = if single::same(power, single::ONE) {
        1
    } else {
        0
    };
    let tail: Vec<Arg> = vec![
        Arg::Single(slope),
        Arg::Single(offset),
        Arg::Single(power),
        Arg::Int(unit),
        Arg::Long(n as i64),
    ];
    proof {
        assert(tail@ =~= seq![
            Arg::Single(slope),
            Arg::Single(offset),
            Arg::Single(power),
            Arg::Int(unit),
            Arg::Long(n as i64),
        ]);
    }
    Ok(
        map_device(
            shape,
            n,
            shape,
            n,
            "tone_curve",
            "tone_curve_kernel",
            tail,
            n,
            "kernel launch failed",
        ),
    )
}

/// The steps of a vignette: a copy where it has no amount.
pub open spec fn vignette_acts<A: Arithmetic>(
    shape: (usize, usize, usize),
    amount: u32,
    feather: u32,
    roundness: u32,
) -> Seq<Act> {
    if single::same(amount, 0) || volume(shape) == 0 {
        copy_acts(volume(shape))
    } else {
        map_acts(
            "vignette"@,
            "vignette_kernel"@,
            seq![
                Arg::Int(shape.0 as i32),
                Arg::Int(shape.1 as i32),
                Arg::Int(shape.2 as i32),
                Arg::Single(amount),
                Arg::Single(minus_of::<A>(single::ONE, feather)),
                Arg::Single(roundness),
            ],
            volume(shape),
            volume(shape),
            volume(shape),
            "kernel launch failed"@,
        )
    }
}

/// What is wrong with a vignette, if anything.
pub open spec fn vignette_fault<A: Arithmetic>(amount: u32, feather: u32, roundness: u32) -> Option<
    Report,
> {
    if !single::is_finite(amount) {
        Some(unexpected::<A>("amount"@, amount, ", expected a finite value"@))
    } else if !single::is_unit(feather) {
        Some(unexpected::<A>("feather"@, feather, ", expected a value in 0..=1"@))
    } else if !single::is_unit(roundness) {
        Some(unexpected::<A>("roundness"@, roundness, ", expected a value in 0..=1"@))
    } else {
        None
    }
}

fn validate_vignette<A: Arithmetic>(amount: u32, feather: u32, roundness: u32) -> (r: Result<
    (),
    PhaiosError,
>)
    requires
        faithful::<A>(),
    ensures
        match r {
            Ok(()) => vignette_fault::<A>(amount, feather, roundness) is None,
            Err(e) => vignette_fault::<A>(amount, feather, roundness) == Some(e@),
        },
{
    if !single::is_finite(amount) {
        return Err(refuse::<A>("amount", amount, ", expected a finite value"));
    }
    if !single::is_unit(feather) {
        return Err(refuse::<A>("feather", feather, ", expected a value in 0..=1"));
    }
    if !single::is_unit(roundness) {
        return Err(refuse::<A>("roundness", roundness, ", expected a value in 0..=1"));
    }
    Ok(())
}

/// Plans a vignette of amount, feather and roundness.
pub fn vignette_device<A: Arithmetic>(
    shape: (usize, usize, usize),
    amount: u32,
    feather: u32,
    roundness: u32,
) -> (r: Result<Plan, PhaiosError>)
    requires
        faithful::<A>(),
    ensures
        match r {
            Ok(plan) => {
                &&& vignette_fault::<A>(amount, feather, roundness) is None
                &&& count_fault(shape) is None
                &&& plan.sound(shape, Element::Single)
                &&& plan.shape == shape
                &&& plan.output == 1
                &&& plan@ == vignette_acts::<A>(shape, amount, feather, roundness)
            },
            Err(e) => either(
                vignette_fault::<A>(amount, feather, roundness),
                count_fault(shape),
            ) == Some(e@),
        },
{
    if let Err(e) = validate_vignette::<A>(amount, feather, roundness) {
        return Err(e);
    }
    let n = match element_count(shape) {
        Ok(n) => n,
        Err(e) => return Err(e),
    };
    if single::same(amount, 0) || n == 0 {
        return copy_device(shape);
    }
    let inner: u32 = minus::<A>(single::ONE, feather);
    let tail: Vec<Arg> = vec![
        Arg::Int(shape.0 as i32),
        Arg::Int(shape.1 as i32),
        Arg::Int(shape.2 as i32),
        Arg::Single(amount),
        Arg::Single(inner),
        Arg::Single(roundness),
    ];
    proof {
        assert(tail@ =~= seq![
            Arg::Int(shape.0 as i32),
            Arg::Int(shape.1 as i32),
            Arg::Int(shape.2 as i32),
            Arg::Single(amount),
            Arg::Single(inner),
            Arg::Single(roundness),
        ]);
    }
    Ok(
        map_device(
            shape,
            n,
            shape,
            n,
            "vignette",
            "vignette_kernel",
            tail,
            n,
            "kernel launch failed",
        ),
    )
}

/// The numbers that split toning hands to its kernel.
#[derive(Clone, Copy, Debug)]
pub struct SplitTone {
    /// What a neutral colour's row of the matrix adds up to.
    pub row_sum: u32,
    /// Where the crossfade from shadows to highlights begins.
    pub edge0: u32,
    /// Where it ends.
    pub edge1: u32,
    /// The colour of the shadows.
    pub shadow: (u32, u32),
    /// The colour of the highlights.
    pub highlight: (u32, u32),
}

/// The steps of split toning.
pub open spec fn split_acts(shape: (usize, usize, usize), tone: SplitTone) -> Seq<Act> {
    let colour = volume((shape.0, shape.1, 3));
    map_acts(
        "split_toning"@,
        "split_toning_kernel"@,
        seq![
            Arg::Single(tone.row_sum),
            Arg::Single(tone.edge0),
            Arg::Single(tone.edge1),
            Arg::Single(tone.shadow.0),
            Arg::Single(tone.shadow.1),
            Arg::Single(tone.highlight.0),
            Arg::Single(tone.highlight.1),
            Arg::Long(volume(shape) as i64),
        ],
        volume(shape),
        colour,
        volume(shape),
        "kernel launch failed"@,
    )
}

/// What is wrong with the colours of split toning, if anything.
pub open spec fn tint_fault<A: Arithmetic>(tone: SplitTone) -> Option<Report> {
    if !single::is_finite(tone.shadow.0) {
        Some(unexpected::<A>("shadow tint a"@, tone.shadow.0, ", expected a finite value"@))
    } else if !single::is_finite(tone.shadow.1) {
        Some(unexpected::<A>("shadow tint b"@, tone.shadow.1, ", expected a finite value"@))
    } else if !single::is_finite(tone.highlight.0) {
        Some(unexpected::<A>("highlight tint a"@, tone.highlight.0, ", expected a finite value"@))
    } else if !single::is_finite(tone.highlight.1) {
        Some(unexpected::<A>("highlight tint b"@, tone.highlight.1, ", expected a finite value"@))
    } else {
        None
    }
}

/// What is wrong with split toning of an image of some shape, if anything.
pub open spec fn split_fault<A: Arithmetic>(
    shape: (usize, usize, usize),
    tone: SplitTone,
) -> Option<Report> {
    if shape.2 != 1 {
        Some(misshapen("split_toning expects (H, W, 1) luminance input"@, shape))
    } else {
        tint_fault::<A>(tone)
    }
}

fn validate_split<A: Arithmetic>(shape: (usize, usize, usize), tone: &SplitTone) -> (r: Result<
    (),
    PhaiosError,
>)
    requires
        faithful::<A>(),
    ensures
        match r {
            Ok(()) => split_fault::<A>(shape, *tone) is None,
            Err(e) => split_fault::<A>(shape, *tone) == Some(e@),
        },
{
    if shape.2 != 1 {
        return Err(refuse_shape("split_toning expects (H, W, 1) luminance input", shape));
    }
    if !single::is_finite(tone.shadow.0) {
        return Err(refuse::<A>("shadow tint a", tone.shadow.0, ", expected a finite value"));
    }
    if !single::is_finite(tone.shadow.1) {
        return Err(refuse::<A>("shadow tint b", tone.shadow.1, ", expected a finite value"));
    }
    if !single::is_finite(tone.highlight.0) {
        return Err(refuse::<A>("highlight tint a", tone.highlight.0, ", expected a finite value"));
    }
    if !single::is_finite(tone.highlight.1) {
        return Err(refuse::<A>("highlight tint b", tone.highlight.1, ", expected a finite value"));
    }
    Ok(())
}

/// Plans split toning: an image of one channel becomes one of three.
pub fn split_toning_device<A: Arithmetic>(
    shape: (usize, usize, usize),
    tone: &SplitTone,
) -> (r: Result<Plan, PhaiosError>)
    requires
        faithful::<A>(),
    ensures
        match r {
            Ok(plan) => {
                &&& split_fault::<A>(shape, *tone) is None
                &&& count_fault((shape.0, shape.1, 3)) is None
                &&& plan.sound(shape, Element::Single)
                &&& plan.shape == (shape.0, shape.1, 3usize)
                &&& plan.output == 1
                &&& plan@ == split_acts(shape, *tone)
            },
            Err(e) => either(
                split_fault::<A>(shape, *tone),
                count_fault((shape.0, shape.1, 3)),
            ) == Some(e@),
        },
{
    if let Err(e) = validate_split::<A>(shape, tone) {
        return Err(e);
    }
    let (colour, n) = match pixel_count((shape.0, shape.1, 3)) {
        Ok(t) => t,
        Err(e) => return Err(e),
    };
    let tail: Vec<Arg> = vec![
        Arg::Single(tone.row_sum),
        Arg::Single(tone.edge0),
        Arg::Single(tone.edge1),
        Arg::Single(tone.shadow.0),
        Arg::Single(tone.shadow.1),
        Arg::Single(tone.highlight.0),
        Arg::Single(tone.highlight.1),
        Arg::Long(n as i64),
    ];
    proof {
        assert(tail@ =~= seq![
            Arg::Single(tone.row_sum),
            Arg::Single(tone.edge0),
            Arg::Single(tone.edge1),
            Arg::Single(tone.shadow.0),
            Arg::Single(tone.shadow.1),
            Arg::Single(tone.highlight.0),
            Arg::Single(tone.highlight.1),
            Arg::Long(n as i64),
        ]);
    }
    Ok(
        map_device(
            shape,
            n,
            (shape.0, shape.1, 3),
            colour,
            "split_toning",
            "split_toning_kernel",
            tail,
            n,
            "kernel launch failed",
        ),
    )
}

} // verus!
