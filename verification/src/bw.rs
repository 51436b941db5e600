//! Black-and-white conversion: standard luminance, channel mixer, coloured
//! filter and hue-weighted luminance.
//!
//! Every conversion takes `(H, W, 3)` and gives `(H, W, 1)`.

use vstd::prelude::*;

use crate::allocation::{image, permitted, refusal};
use crate::arith::{
    debug_text, debug_text_of, exp, exp_of, faithful, minus, minus_of, over, over_of, plus, plus_of,
    remainder, remainder_of, text, text_of, times, times_of, Arithmetic,
};
use crate::error::{PhaiosError, Report};
use crate::raster::{is_tabulated, tabulate, Image, Raster};
use crate::remark::{misshapen, refuse, refuse_shape, unexpected};
use crate::rounding::{
    minus_exact, one_is_one, plus_zero, rounds, small_numbers, times_one, times_zero, value,
    values_are_ordered,
};
use crate::single;

verus! {

/// Luminance standard of ITU-R for black-and-white conversion.
#[derive(Clone, Copy, PartialEq, Eq, Structural, Hash, Debug)]
pub enum LuminanceStandard {
    /// BT.601: `(0.2990, 0.5870, 0.1140)`.
    Bt601,
    /// BT.709: `(0.2126, 0.7152, 0.0722)`.
    Bt709,
    /// BT.2020: `(0.2627, 0.6780, 0.0593)`.
    Bt2020,
}

impl Default for LuminanceStandard {
    fn default() -> (r: Self)
        ensures
            r == LuminanceStandard::Bt709,
    {
        LuminanceStandard::Bt709
    }
}

impl LuminanceStandard {
    /// The weights of red, green and blue, as single-precision bit patterns.
    pub open spec fn coefficients(self) -> Seq<u32> {
        match self {
            LuminanceStandard::Bt601 => seq![0x3E99_1687u32, 0x3F16_45A2u32, 0x3DE9_78D5u32],
            LuminanceStandard::Bt709 => seq![0x3E59_B3D0u32, 0x3F37_1759u32, 0x3D93_DD98u32],
            LuminanceStandard::Bt2020 => seq![0x3E86_809Du32, 0x3F2D_9168u32, 0x3D72_E48Fu32],
        }
    }

    /// How the standard prints.
    pub open spec fn label(self) -> Seq<char> {
        match self {
            LuminanceStandard::Bt601 => "Bt601"@,
            LuminanceStandard::Bt709 => "Bt709"@,
            LuminanceStandard::Bt2020 => "Bt2020"@,
        }
    }

    /// The weights of red, green and blue.
    pub fn weights(self) -> (r: [u32; 3])
        ensures
            r@ == self.coefficients(),
    {
        let r: [u32; 3] = match self {
            LuminanceStandard::Bt601 => [0x3E99_1687, 0x3F16_45A2, 0x3DE9_78D5],
            LuminanceStandard::Bt709 => [0x3E59_B3D0, 0x3F37_1759, 0x3D93_DD98],
            LuminanceStandard::Bt2020 => [0x3E86_809D, 0x3F2D_9168, 0x3D72_E48F],
        };
        assert(r@ =~= self.coefficients());
        r
    }

    /// How the standard prints.
    pub(crate) fn name(self) -> (r: &'static str)
        ensures
            r@ == self.label(),
    {
        match self {
            LuminanceStandard::Bt601 => "Bt601",
            LuminanceStandard::Bt709 => "Bt709",
            LuminanceStandard::Bt2020 => "Bt2020",
        }
    }
}

/// Coloured-filter preset in the manner of Wratten gels.
#[derive(Clone, Copy, PartialEq, Eq, Structural, Hash, Debug)]
pub enum ColorFilter {
    /// No filtration: `(1.00, 1.00, 1.00)`.
    NoFilter,
    /// Yellow: `(1.00, 0.90, 0.30)`.
    Yellow8K2,
    /// Orange: `(1.00, 0.55, 0.10)`.
    Orange21,
    /// Red: `(1.00, 0.10, 0.02)`.
    Red25A,
    /// Green: `(0.20, 1.00, 0.30)`.
    Green11X1,
    /// Blue: `(0.10, 0.30, 1.00)`.
    Blue47C5,
}

impl Default for ColorFilter {
    fn default() -> (r: Self)
        ensures
            r == ColorFilter::NoFilter,
    {
        ColorFilter::NoFilter
    }
}

impl ColorFilter {
    /// What the filter lets through of red, green and blue, as single-precision
    /// bit patterns.
    pub open spec fn passes(self) -> Seq<u32> {
        match self {
            ColorFilter::NoFilter => seq![0x3F80_0000u32, 0x3F80_0000u32, 0x3F80_0000u32],
            ColorFilter::Yellow8K2 => seq![0x3F80_0000u32, 0x3F66_6666u32, 0x3E99_999Au32],
            ColorFilter::Orange21 => seq![0x3F80_0000u32, 0x3F0C_CCCDu32, 0x3DCC_CCCDu32],
            ColorFilter::Red25A => seq![0x3F80_0000u32, 0x3DCC_CCCDu32, 0x3CA3_D70Au32],
            ColorFilter::Green11X1 => seq![0x3E4C_CCCDu32, 0x3F80_0000u32, 0x3E99_999Au32],
            ColorFilter::Blue47C5 => seq![0x3DCC_CCCDu32, 0x3E99_999Au32, 0x3F80_0000u32],
        }
    }

    /// What the filter lets through of red, green and blue.
    pub fn transmission(self) -> (r: [u32; 3])
        ensures
            r@ == self.passes(),
    {
        let r: [u32; 3] = match self {
            ColorFilter::NoFilter => [0x3F80_0000, 0x3F80_0000, 0x3F80_0000],
            ColorFilter::Yellow8K2 => [0x3F80_0000, 0x3F66_6666, 0x3E99_999A],
            ColorFilter::Orange21 => [0x3F80_0000, 0x3F0C_CCCD, 0x3DCC_CCCD],
            ColorFilter::Red25A => [0x3F80_0000, 0x3DCC_CCCD, 0x3CA3_D70A],
            ColorFilter::Green11X1 => [0x3E4C_CCCD, 0x3F80_0000, 0x3E99_999A],
            ColorFilter::Blue47C5 => [0x3DCC_CCCD, 0x3E99_999A, 0x3F80_0000],
        };
        assert(r@ =~= self.passes());
        r
    }
}

/// What is wrong with converting an image of some shape, if anything: it has
/// not three channels.
pub open spec fn rgb_fault(shape: (usize, usize, usize)) -> Option<Report> {
    if shape.2 != 3 {
        Some(misshapen("expected (H, W, 3) RGB array"@, shape))
    } else {
        None
    }
}

/// Holds a shape to three channels.
pub fn validate_rgb_shape(shape: (usize, usize, usize)) -> (r: Result<(), PhaiosError>)
    ensures
        match r {
            Ok(()) => rgb_fault(shape) is None,
            Err(e) => rgb_fault(shape) == Some(e@),
        },
{
    if shape.2 != 3 {
        return Err(refuse_shape("expected (H, W, 3) RGB array", shape));
    }
    Ok(())
}

/// Holds an image to three channels.
pub fn validate_rgb(img: &Image) -> (r: Result<(), PhaiosError>)
    ensures
        match r {
            Ok(()) => rgb_fault(img@.shape) is None,
            Err(e) => rgb_fault(img@.shape) == Some(e@),
        },
{
    validate_rgb_shape(img.dim())
}

/// The weighted sum of a pixel's channels, red first.
pub open spec fn dot<A: Arithmetic>(weights: Seq<u32>, r: u32, g: u32, b: u32) -> u32 {
    plus_of::<A>(
        plus_of::<A>(times_of::<A>(weights[0], r), times_of::<A>(weights[1], g)),
        times_of::<A>(weights[2], b),
    )
}

fn dot3<A: Arithmetic>(weights: [u32; 3], r: u32, g: u32, b: u32) -> (v: u32)
    requires
        faithful::<A>(),
    ensures
        v == dot::<A>(weights@, r, g, b),
{
    plus::<A>(
        plus::<A>(times::<A>(weights[0], r), times::<A>(weights[1], g)),
        times::<A>(weights[2], b),
    )
}

/// A raster of three channels collapsed by weights.
pub open spec fn weighted<A: Arithmetic>(r: Raster<u32>, weights: Seq<u32>) -> Raster<u32> {
    tabulate(
        (r.shape.0, r.shape.1, 1),
        |y: int, x: int, k: int|
            dot::<A>(weights, r.at(y, x, 0), r.at(y, x, 1), r.at(y, x, 2)),
    )
}

/// Arbitrary-weight channel mixer.
pub fn channel_mixer_bw<A: Arithmetic>(img: &Image, weights: [u32; 3]) -> (r: Result<
    Image,
    PhaiosError,
>)
    requires
        faithful::<A>(),
    ensures
        match r {
            Ok(out) => rgb_fault(img@.shape) is None && permitted::<u32>(
                (img@.shape.0, img@.shape.1, 1),
            ) && out@ == weighted::<A>(img@, weights@),
            Err(e) => match rgb_fault(img@.shape) {
                Some(fault) => e@ == fault,
                None => refusal::<u32>((img@.shape.0, img@.shape.1, 1), e@),
            },
        },
{
    if let Err(e) = validate_rgb(img) {
        return Err(e);
    }
    let (h, w, _c) = img.dim();
    let make = |y: usize, x: usize, k: usize| -> (s: u32)
        requires
            faithful::<A>(),
            y < img@.shape.0,
            x < img@.shape.1,
            img@.shape.2 == 3,
        ensures
            s == dot::<A>(
                weights@,
                img@.at(y as int, x as int, 0),
                img@.at(y as int, x as int, 1),
                img@.at(y as int, x as int, 2),
            ),
        { dot3::<A>(weights, img.cell(y, x, 0), img.cell(y, x, 1), img.cell(y, x, 2)) };
    let r = image((h, w, 1), make);
    if let Ok(out) = &r {
        proof {
            is_tabulated(
                out@,
                |y: int, x: int, k: int|
                    dot::<A>(weights@, img@.at(y, x, 0), img@.at(y, x, 1), img@.at(y, x, 2)),
            );
        }
    }
    r
}

/// Standard luminance.
pub fn luminance_bw<A: Arithmetic>(img: &Image, standard: LuminanceStandard) -> (r: Result<
    Image,
    PhaiosError,
>)
    requires
        faithful::<A>(),
    ensures
        match r {
            Ok(out) => rgb_fault(img@.shape) is None && permitted::<u32>(
                (img@.shape.0, img@.shape.1, 1),
            ) && out@ == weighted::<A>(img@, standard.coefficients()),
            Err(e) => match rgb_fault(img@.shape) {
                Some(fault) => e@ == fault,
                None => refusal::<u32>((img@.shape.0, img@.shape.1, 1), e@),
            },
        },
{
    channel_mixer_bw::<A>(img, standard.weights())
}

/// The weights of a luminance standard behind a coloured filter.
pub open spec fn filtered<A: Arithmetic>(filter: ColorFilter, standard: LuminanceStandard) -> Seq<
    u32,
> {
    seq![
        times_of::<A>(filter.passes()[0], standard.coefficients()[0]),
        times_of::<A>(filter.passes()[1], standard.coefficients()[1]),
        times_of::<A>(filter.passes()[2], standard.coefficients()[2]),
    ]
}

/// The weights of a luminance standard behind a coloured filter.
pub fn filter_weights<A: Arithmetic>(filter: ColorFilter, standard: LuminanceStandard) -> (r: [u32;
    3])
    requires
        faithful::<A>(),
    ensures
        r@ == filtered::<A>(filter, standard),
{
    let t = filter.transmission();
    let lw = standard.weights();
    let r: [u32; 3] = [
        times::<A>(t[0], lw[0]),
        times::<A>(t[1], lw[1]),
        times::<A>(t[2], lw[2]),
    ];
    assert(r@ =~= filtered::<A>(filter, standard));
    r
}

/// Coloured-filter simulation.
pub fn color_filter_bw<A: Arithmetic>(
    img: &Image,
    filter: ColorFilter,
    standard: LuminanceStandard,
) -> (r: Result<Image, PhaiosError>)
    requires
        faithful::<A>(),
    ensures
        match r {
            Ok(out) => rgb_fault(img@.shape) is None && permitted::<u32>(
                (img@.shape.0, img@.shape.1, 1),
            ) && out@ == weighted::<A>(img@, filtered::<A>(filter, standard)),
            Err(e) => match rgb_fault(img@.shape) {
                Some(fault) => e@ == fault,
                None => refusal::<u32>((img@.shape.0, img@.shape.1, 1), e@),
            },
        },
{
    channel_mixer_bw::<A>(img, filter_weights::<A>(filter, standard))
}

/// Parameters for [`hsl_bw`].
#[derive(Clone, Copy, Debug)]
pub struct HslWeightedParams {
    /// The weights of the eight hue bands, as single-precision bit patterns.
    pub hue_weights: [u32; 8],
    /// The luminance standard underneath.
    pub standard: LuminanceStandard,
    /// The width of a band in degrees.
    pub sigma_deg: u32,
}

/// The pattern of 30.
pub const THIRTY: u32 = 0x41F0_0000;

impl Default for HslWeightedParams {
    fn default() -> (r: Self)
        ensures
            r.hue_weights@ == seq![0u32, 0u32, 0u32, 0u32, 0u32, 0u32, 0u32, 0u32],
            r.standard == LuminanceStandard::Bt709,
            r.sigma_deg == THIRTY,
    {
        let hue_weights: [u32; 8] = [0, 0, 0, 0, 0, 0, 0, 0];
        assert(hue_weights@ =~= seq![0u32, 0u32, 0u32, 0u32, 0u32, 0u32, 0u32, 0u32]);
        HslWeightedParams { hue_weights, standard: LuminanceStandard::Bt709, sigma_deg: THIRTY }
    }
}

/// The first `n` weights as a list prints them, without the brackets.
pub open spec fn weights_text<A: Arithmetic>(weights: Seq<u32>, n: int) -> Seq<char>
    decreases n,
{
    if n <= 0 {
        Seq::empty()
    } else if n == 1 {
        debug_text_of::<A>(weights[0])
    } else {
        weights_text::<A>(weights, n - 1) + ", "@ + debug_text_of::<A>(weights[n - 1])
    }
}

impl HslWeightedParams {
    /// Parameters from band weights, standard and band width.
    pub fn new(hue_weights: [u32; 8], standard: LuminanceStandard, sigma_deg: u32) -> (r: Self)
        ensures
            r == (HslWeightedParams { hue_weights, standard, sigma_deg }),
    {
        HslWeightedParams { hue_weights, standard, sigma_deg }
    }

    /// Whether all fields match, the numbers by their bits.
    pub fn __eq__(&self, other: &Self) -> (r: bool)
        ensures
            r == (self.standard == other.standard && self.sigma_deg == other.sigma_deg
                && self.hue_weights@ == other.hue_weights@),
    {
        let mut same = self.standard == other.standard && self.sigma_deg == other.sigma_deg;
        let mut i: usize = 0;
        while i < 8
            invariant
                i <= 8,
                same == (self.standard == other.standard && self.sigma_deg == other.sigma_deg && (
                forall|j: int| 0 <= j < i ==> self.hue_weights@[j] == other.hue_weights@[j])),
            decreases 8 - i,
        {
            same = same && self.hue_weights[i] == other.hue_weights[i];
            i = i + 1;
        }
        proof {
            if same {
                assert(self.hue_weights@ =~= other.hue_weights@);
            }
        }
        same
    }

    /// A debug representation.
    pub fn __repr__<A: Arithmetic>(&self) -> (r: String)
        requires
            faithful::<A>(),
        ensures
            r@ == "HslWeightedParams(hue_weights=["@ + weights_text::<A>(self.hue_weights@, 8)
                + "], standard="@ + self.standard.label() + ", sigma_deg="@ + text_of::<A>(
                self.sigma_deg,
            ) + ")"@,
    {
        let mut inner = String::new();
        let mut i: usize = 0;
        assert(inner@ =~= Seq::<char>::empty());
        while i < 8
            invariant
                faithful::<A>(),
                i <= 8,
                inner@ == weights_text::<A>(self.hue_weights@, i as int),
            decreases 8 - i,
        {
            if i > 0 {
                inner.append(", ");
            }
            inner.append(debug_text::<A>(self.hue_weights[i]).as_str());
            assert(inner@ =~= weights_text::<A>(self.hue_weights@, i + 1));
            i = i + 1;
        }
        let mut out = String::from_str("HslWeightedParams(hue_weights=[");
        out.append(inner.as_str());
        out.append("], standard=");
        out.append(self.standard.name());
        out.append(", sigma_deg=");
        out.append(text::<A>(self.sigma_deg).as_str());
        out.append(")");
        out
    }
}

/// The pattern of 60.
pub const SIXTY: u32 = 0x4270_0000;

/// The pattern of 180.
pub const HALF_TURN: u32 = 0x4334_0000;

/// The pattern of 360.
pub const FULL_TURN: u32 = 0x43B4_0000;

/// The pattern of 6.
pub const SIX: u32 = 0x40C0_0000;

/// The centres of the eight hue bands in degrees: 0, 30, 60, 120, 180, 240, 270
/// and 300.
pub open spec fn band_centre(band: int) -> u32 {
    if band == 0 {
        0
    } else if band == 1 {
        THIRTY
    } else if band == 2 {
        SIXTY
    } else if band == 3 {
        0x42F0_0000
    } else if band == 4 {
        HALF_TURN
    } else if band == 5 {
        0x4370_0000
    } else if band == 6 {
        0x4387_0000
    } else {
        0x4396_0000
    }
}

/// The names of the eight hue bands.
pub open spec fn band_name(band: int) -> Seq<char> {
    if band == 0 {
        "red"@
    } else if band == 1 {
        "orange"@
    } else if band == 2 {
        "yellow"@
    } else if band == 3 {
        "green"@
    } else if band == 4 {
        "aqua"@
    } else if band == 5 {
        "blue"@
    } else if band == 6 {
        "purple"@
    } else {
        "magenta"@
    }
}

/// The centre of a hue band in degrees.
pub fn hue_band_centre(band: usize) -> (r: u32)
    requires
        band < 8,
    ensures
        r == band_centre(band as int),
{
    match band {
        0 => 0,
        1 => THIRTY,
        2 => SIXTY,
        3 => 0x42F0_0000,
        4 => HALF_TURN,
        5 => 0x4370_0000,
        6 => 0x4387_0000,
        _ => 0x4396_0000,
    }
}

/// The name of a hue band.
pub fn hue_band_name(band: usize) -> (r: &'static str)
    requires
        band < 8,
    ensures
        r@ == band_name(band as int),
{
    match band {
        0 => "red",
        1 => "orange",
        2 => "yellow",
        3 => "green",
        4 => "aqua",
        5 => "blue",
        6 => "purple",
        _ => "magenta",
    }
}

/// The hue of a pixel in degrees and its chroma as a share of its largest
/// channel. Negative channels count as zero, and a neutral pixel has neither.
pub open spec fn hue_and_chroma<A: Arithmetic>(red: u32, green: u32, blue: u32) -> (u32, u32) {
    let r = single::larger(red, 0);
    let g = single::larger(green, 0);
    let b = single::larger(blue, 0);
    let max = single::larger(single::larger(r, g), b);
    let min = single::smaller(single::smaller(r, g), b);
    let delta = minus_of::<A>(max, min);
    if !(single::less(0, delta) && single::less(0, max)) {
        (0, 0)
    } else {
        let hue = if single::same(max, r) {
            times_of::<A>(SIXTY, remainder_of::<A>(over_of::<A>(minus_of::<A>(g, b), delta), SIX))
        } else if single::same(max, g) {
            times_of::<A>(SIXTY, plus_of::<A>(over_of::<A>(minus_of::<A>(b, r), delta), single::TWO))
        } else {
            times_of::<A>(SIXTY, plus_of::<A>(over_of::<A>(minus_of::<A>(r, g), delta), single::FOUR))
        };
        (
            if single::less(hue, 0) {
                plus_of::<A>(hue, FULL_TURN)
            } else {
                hue
            },
            over_of::<A>(delta, max),
        )
    }
}

/// The hue of a pixel in degrees and its chroma as a share of its largest
/// channel.
pub fn hue_and_chroma_ratio<A: Arithmetic>(red: u32, green: u32, blue: u32) -> (v: (u32, u32))
    requires
        faithful::<A>(),
    ensures
        v == hue_and_chroma::<A>(red, green, blue),
{
    let r: u32 = single::larger(red, 0);
    let g: u32 = single::larger(green, 0);
    let b: u32 = single::larger(blue, 0);
    let max: u32 = single::larger(single::larger(r, g), b);
    let min: u32 = single::smaller(single::smaller(r, g), b);
    let delta: u32 = minus::<A>(max, min);
    if !(single::less(0, delta) && single::less(0, max)) {
        return (0, 0);
    }
    let hue: u32 = if single::same(max, r) {
        times::<A>(SIXTY, remainder::<A>(over::<A>(minus::<A>(g, b), delta), SIX))
    } else if single::same(max, g) {
        times::<A>(SIXTY, plus::<A>(over::<A>(minus::<A>(b, r), delta), single::TWO))
    } else {
        times::<A>(SIXTY, plus::<A>(over::<A>(minus::<A>(r, g), delta), single::FOUR))
    };
    let turned: u32 = if single::less(hue, 0) {
        plus::<A>(hue, FULL_TURN)
    } else {
        hue
    };
    (turned, over::<A>(delta, max))
}

/// The distance between two hues around the circle, in degrees.
pub open spec fn hue_distance<A: Arithmetic>(a: u32, b: u32) -> u32 {
    let d = remainder_of::<A>(single::magnitude(minus_of::<A>(a, b)), FULL_TURN);
    if single::less(HALF_TURN, d) {
        minus_of::<A>(FULL_TURN, d)
    } else {
        d
    }
}

/// The distance between two hues around the circle, in degrees.
pub fn hue_distance_deg<A: Arithmetic>(a: u32, b: u32) -> (r: u32)
    requires
        faithful::<A>(),
    ensures
        r == hue_distance::<A>(a, b),
{
    let d: u32 = remainder::<A>(single::magnitude(minus::<A>(a, b)), FULL_TURN);
    if single::less(HALF_TURN, d) {
        minus::<A>(FULL_TURN, d)
    } else {
        d
    }
}

/// The first band whose weight is not finite, from `band` on.
pub open spec fn weight_fault<A: Arithmetic>(weights: Seq<u32>, band: int) -> Option<Report>
    decreases 8 - band,
{
    if band >= 8 {
        None
    } else if !single::is_finite(weights[band]) {
        Some(
            unexpected::<A>(
                "hue weight for "@ + band_name(band),
                weights[band],
                ", expected a finite value"@,
            ),
        )
    } else {
        weight_fault::<A>(weights, band + 1)
    }
}

/// What is wrong with the parameters, if anything.
pub open spec fn hsl_fault<A: Arithmetic>(params: HslWeightedParams) -> Option<Report> {
    if !single::is_finite(params.sigma_deg) || single::at_most(params.sigma_deg, 0) {
        Some(unexpected::<A>("sigma_deg"@, params.sigma_deg, ", expected a finite value > 0"@))
    } else {
        weight_fault::<A>(params.hue_weights@, 0)
    }
}

/// Holds the parameters to their domain.
pub fn validate_hsl<A: Arithmetic>(params: &HslWeightedParams) -> (r: Result<(), PhaiosError>)
    requires
        faithful::<A>(),
    ensures
        match r {
            Ok(()) => hsl_fault::<A>(*params) is None,
            Err(e) => hsl_fault::<A>(*params) == Some(e@),
        },
{
    if !single::is_finite(params.sigma_deg) || single::at_most(params.sigma_deg, 0) {
        return Err(refuse::<A>("sigma_deg", params.sigma_deg, ", expected a finite value > 0"));
    }
    let mut band: usize = 0;
    while band < 8
        invariant
            faithful::<A>(),
            band <= 8,
            weight_fault::<A>(params.hue_weights@, 0) == weight_fault::<A>(
                params.hue_weights@,
                band as int,
            ),
            single::is_finite(params.sigma_deg) && !single::at_most(params.sigma_deg, 0),
        decreases 8 - band,
    {
        if !single::is_finite(params.hue_weights[band]) {
            let mut name = String::from_str("hue weight for ");
            name.append(hue_band_name(band));
            return Err(
                refuse::<A>(name.as_str(), params.hue_weights[band], ", expected a finite value"),
            );
        }
        band = band + 1;
    }
    Ok(())
}

/// The share of a band in a hue: a Gaussian around the band's centre.
pub open spec fn share<A: Arithmetic>(two_sigma_sq: u32, hue: u32, band: int) -> u32 {
    let d = hue_distance::<A>(hue, band_centre(band));
    exp_of::<A>(over_of::<A>(times_of::<A>(single::negated(d), d), two_sigma_sq))
}

/// The pull of the first `n` bands on a hue: each band's weight times its share.
pub open spec fn pull<A: Arithmetic>(
    weights: Seq<u32>,
    two_sigma_sq: u32,
    hue: u32,
    n: int,
) -> u32
    decreases n,
{
    if n <= 0 {
        0
    } else {
        plus_of::<A>(
            pull::<A>(weights, two_sigma_sq, hue, n - 1),
            times_of::<A>(weights[n - 1], share::<A>(two_sigma_sq, hue, n - 1)),
        )
    }
}

/// The hue-weighted luminance of a pixel, never below zero.
pub open spec fn hue_weighted<A: Arithmetic>(
    params: HslWeightedParams,
    r: u32,
    g: u32,
    b: u32,
) -> u32 {
    let two_sigma_sq = times_of::<A>(
        times_of::<A>(single::TWO, params.sigma_deg),
        params.sigma_deg,
    );
    let (hue, chroma) = hue_and_chroma::<A>(r, g, b);
    let m = pull::<A>(params.hue_weights@, two_sigma_sq, hue, 8);
    single::larger(
        times_of::<A>(
            dot::<A>(params.standard.coefficients(), r, g, b),
            plus_of::<A>(single::ONE, times_of::<A>(m, chroma)),
        ),
        0,
    )
}

fn hue_weigh<A: Arithmetic>(
    params: &HslWeightedParams,
    lw: [u32; 3],
    two_sigma_sq: u32,
    r: u32,
    g: u32,
    b: u32,
) -> (v: u32)
    requires
        faithful::<A>(),
        lw@ == params.standard.coefficients(),
        two_sigma_sq == times_of::<A>(
            times_of::<A>(single::TWO, params.sigma_deg),
            params.sigma_deg,
        ),
    ensures
        v == hue_weighted::<A>(*params, r, g, b),
{
    let base: u32 = dot3::<A>(lw, r, g, b);
    let (hue, chroma): (u32, u32) = hue_and_chroma_ratio::<A>(r, g, b);
    let mut m: u32 = 0;
    let mut band: usize = 0;
    while band < 8
        invariant
            faithful::<A>(),
            band <= 8,
            m == pull::<A>(params.hue_weights@, two_sigma_sq, hue, band as int),
        decreases 8 - band,
    {
        let d: u32 = hue_distance_deg::<A>(hue, hue_band_centre(band));
        m = plus::<A>(
            m,
            times::<A>(
                params.hue_weights[band],
                exp::<A>(over::<A>(times::<A>(single::negated(d), d), two_sigma_sq)),
            ),
        );
        band = band + 1;
    }
    single::larger(times::<A>(base, plus::<A>(single::ONE, times::<A>(m, chroma))), 0)
}

/// What is wrong with a hue-weighted conversion, if anything.
pub open spec fn hsl_bw_fault<A: Arithmetic>(
    shape: (usize, usize, usize),
    params: HslWeightedParams,
) -> Option<Report> {
    match rgb_fault(shape) {
        Some(fault) => Some(fault),
        None => hsl_fault::<A>(params),
    }
}

/// Hue-weighted luminance.
pub fn hsl_bw<A: Arithmetic>(img: &Image, params: &HslWeightedParams) -> (r: Result<
    Image,
    PhaiosError,
>)
    requires
        faithful::<A>(),
    ensures
        match r {
            Ok(out) => hsl_bw_fault::<A>(img@.shape, *params) is None && permitted::<u32>(
                (img@.shape.0, img@.shape.1, 1),
            ) && out@ == tabulate(
                (img@.shape.0, img@.shape.1, 1),
                |y: int, x: int, k: int|
                    hue_weighted::<A>(
                        *params,
                        img@.at(y, x, 0),
                        img@.at(y, x, 1),
                        img@.at(y, x, 2),
                    ),
            ),
            Err(e) => match hsl_bw_fault::<A>(img@.shape, *params) {
                Some(fault) => e@ == fault,
                None => refusal::<u32>((img@.shape.0, img@.shape.1, 1), e@),
            },
        },
{
    if let Err(e) = validate_rgb(img) {
        return Err(e);
    }
    if let Err(e) = validate_hsl::<A>(params) {
        return Err(e);
    }
    let (h, w, _c) = img.dim();
    let lw = params.standard.weights();
    let two_sigma_sq: u32 = times::<A>(
        times::<A>(single::TWO, params.sigma_deg),
        params.sigma_deg,
    );
    let make = |y: usize, x: usize, k: usize| -> (s: u32)
        requires
            faithful::<A>(),
            y < img@.shape.0,
            x < img@.shape.1,
            img@.shape.2 == 3,
            lw@ == params.standard.coefficients(),
            two_sigma_sq == times_of::<A>(
                times_of::<A>(single::TWO, params.sigma_deg),
                params.sigma_deg,
            ),
        ensures
            s == hue_weighted::<A>(
                *params,
                img@.at(y as int, x as int, 0),
                img@.at(y as int, x as int, 1),
                img@.at(y as int, x as int, 2),
            ),
        {
            hue_weigh::<A>(
                params,
                lw,
                two_sigma_sq,
                img.cell(y, x, 0),
                img.cell(y, x, 1),
                img.cell(y, x, 2),
            )
        };
    let r = image((h, w, 1), make);
    if let Ok(out) = &r {
        proof {
            is_tabulated(
                out@,
                |y: int, x: int, k: int|
                    hue_weighted::<A>(
                        *params,
                        img@.at(y, x, 0),
                        img@.at(y, x, 1),
                        img@.at(y, x, 2),
                    ),
            );
        }
    }
    r
}

/// A neutral pixel has neither hue nor chroma.
pub proof fn neutral_has_no_chroma<A: Arithmetic>(v: u32)
    requires
        rounds::<A>(),
        single::is_finite(v),
    ensures
        hue_and_chroma::<A>(v, v, v) == (0u32, 0u32),
{
    small_numbers();
    let m = single::larger(v, 0);
    assert(single::larger(single::larger(m, m), m) == m);
    assert(single::smaller(single::smaller(m, m), m) == m);
    minus_exact::<A>(m, m, 0);
    values_are_ordered(0, minus_of::<A>(m, m));
}

/// Hue-weighted luminance is a number, and never below zero.
pub proof fn hue_weighting_is_never_negative<A: Arithmetic>(
    params: HslWeightedParams,
    r: u32,
    g: u32,
    b: u32,
)
    ensures
        single::at_most(0, hue_weighted::<A>(params, r, g, b)),
{
}

/// Without chroma the hue weights do nothing: a pixel keeps its luminance where
/// that is finite and not negative.
pub proof fn neutral_pixels_ignore_hue_weights<A: Arithmetic>(
    params: HslWeightedParams,
    r: u32,
    g: u32,
    b: u32,
)
    requires
        rounds::<A>(),
        single::same(hue_and_chroma::<A>(r, g, b).1, 0),
        single::is_finite(
            pull::<A>(
                params.hue_weights@,
                times_of::<A>(times_of::<A>(single::TWO, params.sigma_deg), params.sigma_deg),
                hue_and_chroma::<A>(r, g, b).0,
                8,
            ),
        ),
        single::is_non_negative(dot::<A>(params.standard.coefficients(), r, g, b)),
    ensures
        single::same(
            hue_weighted::<A>(params, r, g, b),
            dot::<A>(params.standard.coefficients(), r, g, b),
        ),
{
    small_numbers();
    let two_sigma_sq = times_of::<A>(
        times_of::<A>(single::TWO, params.sigma_deg),
        params.sigma_deg,
    );
    let (hue, chroma) = hue_and_chroma::<A>(r, g, b);
    let m = pull::<A>(params.hue_weights@, two_sigma_sq, hue, 8);
    let base = dot::<A>(params.standard.coefficients(), r, g, b);
    times_zero::<A>(m, chroma);
    let product = times_of::<A>(m, chroma);
    plus_zero::<A>(single::ONE, product);
    one_is_one(plus_of::<A>(single::ONE, product));
    times_one::<A>(base);
    values_are_ordered(times_of::<A>(base, single::ONE), base);
    values_are_ordered(0, times_of::<A>(base, single::ONE));
    values_are_ordered(0, base);
}

/// A conversion without a filter is the luminance conversion.
pub proof fn no_filter_is_plain_luminance<A: Arithmetic>(
    r: Raster<u32>,
    standard: LuminanceStandard,
)
    requires
        rounds::<A>(),
    ensures
        filtered::<A>(ColorFilter::NoFilter, standard) == standard.coefficients(),
        weighted::<A>(r, filtered::<A>(ColorFilter::NoFilter, standard)) == weighted::<A>(
            r,
            standard.coefficients(),
        ),
{
    let c = standard.coefficients();
    assert forall|i: int| 0 <= i < 3 implies filtered::<A>(ColorFilter::NoFilter, standard)[i]
        == c[i] by {
        times_one::<A>(c[i]);
        values_are_ordered(times_of::<A>(single::ONE, c[i]), c[i]);
    }
    assert(filtered::<A>(ColorFilter::NoFilter, standard) =~= c);
}

/// Without hue weights a pixel keeps its luminance, where that is finite and not
/// negative and the bands' shares and the chroma are finite.
pub proof fn no_weights_are_plain_luminance<A: Arithmetic>(
    params: HslWeightedParams,
    r: u32,
    g: u32,
    b: u32,
)
    requires
        rounds::<A>(),
        forall|i: int| 0 <= i < 8 ==> single::same(#[trigger] params.hue_weights@[i], 0),
        ({
            let two_sigma_sq = times_of::<A>(
                times_of::<A>(single::TWO, params.sigma_deg),
                params.sigma_deg,
            );
            let hue = hue_and_chroma::<A>(r, g, b).0;
            forall|i: int|
                0 <= i < 8 ==> single::is_finite(#[trigger] share::<A>(two_sigma_sq, hue, i))
        }),
        single::is_finite(hue_and_chroma::<A>(r, g, b).1),
        single::is_non_negative(dot::<A>(params.standard.coefficients(), r, g, b)),
    ensures
        single::same(
            hue_weighted::<A>(params, r, g, b),
            dot::<A>(params.standard.coefficients(), r, g, b),
        ),
{
    small_numbers();
    let two_sigma_sq = times_of::<A>(
        times_of::<A>(single::TWO, params.sigma_deg),
        params.sigma_deg,
    );
    let (hue, chroma) = hue_and_chroma::<A>(r, g, b);
    no_weights_no_pull::<A>(params.hue_weights@, two_sigma_sq, hue, 8);
    let m = pull::<A>(params.hue_weights@, two_sigma_sq, hue, 8);
    let base = dot::<A>(params.standard.coefficients(), r, g, b);
    values_are_ordered(m, 0);
    times_zero::<A>(chroma, m);
    let product = times_of::<A>(m, chroma);
    plus_zero::<A>(single::ONE, product);
    one_is_one(plus_of::<A>(single::ONE, product));
    times_one::<A>(base);
    values_are_ordered(times_of::<A>(base, single::ONE), base);
    values_are_ordered(0, times_of::<A>(base, single::ONE));
    values_are_ordered(0, base);
}

proof fn no_weights_no_pull<A: Arithmetic>(weights: Seq<u32>, two_sigma_sq: u32, hue: u32, n: int)
    requires
        rounds::<A>(),
        0 <= n <= 8,
        forall|i: int| 0 <= i < 8 ==> single::same(#[trigger] weights[i], 0),
        forall|i: int|
            0 <= i < 8 ==> single::is_finite(#[trigger] share::<A>(two_sigma_sq, hue, i)),
    ensures
        single::is_finite(pull::<A>(weights, two_sigma_sq, hue, n)),
        value(pull::<A>(weights, two_sigma_sq, hue, n)) == 0,
    decreases n,
{
    small_numbers();
    if n > 0 {
        no_weights_no_pull::<A>(weights, two_sigma_sq, hue, n - 1);
        assert(single::same(weights[n - 1], 0));
        times_zero::<A>(share::<A>(two_sigma_sq, hue, n - 1), weights[n - 1]);
        plus_zero::<A>(
            pull::<A>(weights, two_sigma_sq, hue, n - 1),
            times_of::<A>(weights[n - 1], share::<A>(two_sigma_sq, hue, n - 1)),
        );
    }
}

} // verus!
