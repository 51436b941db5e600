//! Black-and-white conversion.

#![allow(dead_code)]

use phaios_core::arith::Arithmetic;
use phaios_core::allocation::image_from_samples;
use phaios_core::bw::{
    hue_band_centre, hue_band_name, ColorFilter, HslWeightedParams, LuminanceStandard,
};
use phaios_core::error::PhaiosError;
use phaios_core::raster::Image;

/// The host's own arithmetic.
struct Ieee;

fn s(a: u32) -> f32 {
    f32::from_bits(a)
}

fn d(a: u64) -> f64 {
    f64::from_bits(a)
}

impl Arithmetic for Ieee {
    fn plus(a: u32, b: u32) -> u32 {
        (s(a) + s(b)).to_bits()
    }
    fn minus(a: u32, b: u32) -> u32 {
        (s(a) - s(b)).to_bits()
    }
    fn times(a: u32, b: u32) -> u32 {
        (s(a) * s(b)).to_bits()
    }
    fn over(a: u32, b: u32) -> u32 {
        (s(a) / s(b)).to_bits()
    }
    fn remainder(a: u32, b: u32) -> u32 {
        (s(a) % s(b)).to_bits()
    }
    fn root(a: u32) -> u32 {
        s(a).sqrt().to_bits()
    }
    fn floor(a: u32) -> u32 {
        s(a).floor().to_bits()
    }
    fn ceil(a: u32) -> u32 {
        s(a).ceil().to_bits()
    }
    fn round(a: u32) -> u32 {
        s(a).round().to_bits()
    }
    fn power(a: u32, b: u32) -> u32 {
        s(a).powf(s(b)).to_bits()
    }
    fn exp(a: u32) -> u32 {
        s(a).exp().to_bits()
    }
    fn ln(a: u32) -> u32 {
        s(a).ln().to_bits()
    }
    fn cos(a: u32) -> u32 {
        s(a).cos().to_bits()
    }
    fn of_count(n: u64) -> u32 {
        (n as f32).to_bits()
    }
    fn of_offset(n: i64) -> u32 {
        (n as f32).to_bits()
    }
    fn to_count(a: u32) -> u64 {
        s(a) as u64
    }
    fn to_offset(a: u32) -> i64 {
        s(a) as i64
    }
    fn widen(a: u32) -> u64 {
        f64::from(s(a)).to_bits()
    }
    fn narrow(a: u64) -> u32 {
        (d(a) as f32).to_bits()
    }
    fn plus64(a: u64, b: u64) -> u64 {
        (d(a) + d(b)).to_bits()
    }
    fn minus64(a: u64, b: u64) -> u64 {
        (d(a) - d(b)).to_bits()
    }
    fn times64(a: u64, b: u64) -> u64 {
        (d(a) * d(b)).to_bits()
    }
    fn over64(a: u64, b: u64) -> u64 {
        (d(a) / d(b)).to_bits()
    }
    fn root64(a: u64) -> u64 {
        d(a).sqrt().to_bits()
    }
    fn floor64(a: u64) -> u64 {
        d(a).floor().to_bits()
    }
    fn exp64(a: u64) -> u64 {
        d(a).exp().to_bits()
    }
    fn sin64(a: u64) -> u64 {
        d(a).sin().to_bits()
    }
    fn cos64(a: u64) -> u64 {
        d(a).cos().to_bits()
    }
    fn radians64(a: u64) -> u64 {
        d(a).to_radians().to_bits()
    }
    fn of_count64(n: u64) -> u64 {
        (n as f64).to_bits()
    }
    fn to_count64(a: u64) -> u64 {
        d(a) as u64
    }
    fn text(a: u32) -> String {
        format!("{}", s(a))
    }
    fn debug_text(a: u32) -> String {
        format!("{:?}", s(a))
    }
}

/// The bits of a number, as parameters take it.
fn b(v: f32) -> u32 {
    v.to_bits()
}

/// An image with its samples as numbers.
#[derive(Clone, Debug, PartialEq)]
struct Frame {
    shape: (usize, usize, usize),
    samples: Vec<f32>,
}

impl Frame {
    fn from_shape_fn<F: Fn((usize, usize, usize)) -> f32>(
        shape: (usize, usize, usize),
        f: F,
    ) -> Frame {
        let mut samples = Vec::new();
        for y in 0..shape.0 {
            for x in 0..shape.1 {
                for k in 0..shape.2 {
                    samples.push(f((y, x, k)));
                }
            }
        }
        Frame { shape, samples }
    }

    fn from_elem(shape: (usize, usize, usize), v: f32) -> Frame {
        Frame::from_shape_fn(shape, |_| v)
    }

    fn zeros(shape: (usize, usize, usize)) -> Frame {
        Frame::from_elem(shape, 0.0)
    }

    fn of(img: &Image) -> Frame {
        Frame::from_shape_fn(img.dim(), |(y, x, k)| f32::from_bits(img.get(y, x, k).unwrap()))
    }

    fn image(&self) -> Image {
        let bits: Vec<u32> = self.samples.iter().map(|v| v.to_bits()).collect();
        image_from_samples(self.shape, bits).unwrap()
    }

    fn dim(&self) -> (usize, usize, usize) {
        self.shape
    }

    fn iter(&self) -> std::slice::Iter<'_, f32> {
        self.samples.iter()
    }

    fn bits(&self) -> Vec<u32> {
        self.samples.iter().map(|v| v.to_bits()).collect()
    }

    /// Every `dy`-th row and every `dx`-th column, through a strided view.
    fn strided(&self, dy: isize, dx: isize) -> Image {
        let array = ndarray::Array3::from_shape_vec(self.shape, self.samples.clone()).unwrap();
        let rows = array.slice_axis(ndarray::Axis(0), ndarray::Slice::new(0, None, dy));
        let view = rows.slice_axis(ndarray::Axis(1), ndarray::Slice::new(0, None, dx));
        let bits: Vec<u32> = view.iter().map(|v| v.to_bits()).collect();
        image_from_samples(view.dim(), bits).unwrap()
    }

    /// Every `dy`-th row and every `dx`-th column.
    fn every(&self, dy: usize, dx: usize) -> Frame {
        let (h, w, c) = self.shape;
        Frame::from_shape_fn((h.div_ceil(dy), w.div_ceil(dx), c), |(y, x, k)| {
            self[[y * dy, x * dx, k]]
        })
    }
}

impl std::ops::Index<[usize; 3]> for Frame {
    type Output = f32;

    fn index(&self, at: [usize; 3]) -> &f32 {
        let [y, x, k] = at;
        let (h, w, c) = self.shape;
        assert!(y < h && x < w && k < c);
        &self.samples[(y * w + x) * c + k]
    }
}

impl std::ops::IndexMut<[usize; 3]> for Frame {
    fn index_mut(&mut self, at: [usize; 3]) -> &mut f32 {
        let [y, x, k] = at;
        let (h, w, c) = self.shape;
        assert!(y < h && x < w && k < c);
        &mut self.samples[(y * w + x) * c + k]
    }
}

fn pixel(samples: &[f32]) -> Frame {
    Frame { shape: (1, 1, samples.len()), samples: samples.to_vec() }
}

fn hsl_params(weights: [f32; 8], standard: LuminanceStandard, sigma: f32) -> HslWeightedParams {
    HslWeightedParams::new(weights.map(|v| v.to_bits()), standard, b(sigma))
}

fn weights(standard: LuminanceStandard) -> [f32; 3] {
    standard.weights().map(f32::from_bits)
}

fn luminance_bw(img: &Frame, standard: LuminanceStandard) -> Result<Frame, PhaiosError> {
    phaios_core::bw::luminance_bw::<Ieee>(&img.image(), standard).map(|out| Frame::of(&out))
}

fn channel_mixer_bw(img: &Frame, weights: [f32; 3]) -> Result<Frame, PhaiosError> {
    phaios_core::bw::channel_mixer_bw::<Ieee>(&img.image(), weights.map(|v| v.to_bits()))
        .map(|out| Frame::of(&out))
}

fn color_filter_bw(
    img: &Frame,
    filter: ColorFilter,
    standard: LuminanceStandard,
) -> Result<Frame, PhaiosError> {
    phaios_core::bw::color_filter_bw::<Ieee>(&img.image(), filter, standard)
        .map(|out| Frame::of(&out))
}

fn hsl_bw(img: &Frame, params: &HslWeightedParams) -> Result<Frame, PhaiosError> {
    phaios_core::bw::hsl_bw::<Ieee>(&img.image(), params).map(|out| Frame::of(&out))
}

fn hue_and_chroma_ratio(red: f32, green: f32, blue: f32) -> (f32, f32) {
    let (hue, chroma) =
        phaios_core::bw::hue_and_chroma_ratio::<Ieee>(b(red), b(green), b(blue));
    (f32::from_bits(hue), f32::from_bits(chroma))
}

fn hue_distance_deg(one: f32, other: f32) -> f32 {
    f32::from_bits(phaios_core::bw::hue_distance_deg::<Ieee>(b(one), b(other)))
}

fn rgb_pixel(r: f32, g: f32, b: f32) -> Frame {
    pixel(&[r, g, b])
}

#[test]
fn bt709_weights_sum_to_one() {
    let w = weights(LuminanceStandard::Bt709);
    let sum: f32 = w.iter().sum();
    assert!((sum - 1.0).abs() < 1e-5, "BT.709 weights sum = {sum}");
}

const REFERENCE_WEIGHTS: [(LuminanceStandard, [f32; 3]); 3] = [
    (LuminanceStandard::Bt601, [0.2990, 0.5870, 0.1140]),
    (LuminanceStandard::Bt709, [0.2126, 0.7152, 0.0722]),
    (LuminanceStandard::Bt2020, [0.2627, 0.6780, 0.0593]),
];

#[test]
fn each_standard_applies_its_own_coefficients() {
    for (standard, want) in REFERENCE_WEIGHTS {
        assert_eq!(weights(standard), want, "{standard:?} table");

        for (channel, w) in want.iter().enumerate() {
            let mut rgb = [0.0_f32; 3];
            rgb[channel] = 1.0;
            let img = rgb_pixel(rgb[0], rgb[1], rgb[2]);
            let got = luminance_bw(&img, standard).unwrap()[[0, 0, 0]];
            assert!(
                (got - w).abs() < 1e-6,
                "{standard:?} on pure channel {channel}: got {got}, want {w}"
            );
        }
    }
}

#[test]
fn every_standard_is_neutral_preserving() {
    for (standard, _) in REFERENCE_WEIGHTS {
        let sum: f32 = weights(standard).iter().sum();
        assert!(
            (sum - 1.0).abs() < 1e-5,
            "{standard:?} weights sum to {sum}, expected 1"
        );

        let grey = rgb_pixel(0.18, 0.18, 0.18);
        let got = luminance_bw(&grey, standard).unwrap()[[0, 0, 0]];
        assert!(
            (got - 0.18).abs() < 1e-6,
            "{standard:?} shifted 18% grey to {got}"
        );
    }
}

#[test]
fn bt709_red_luminance() {
    let img = rgb_pixel(1.0, 0.0, 0.0);
    let out = luminance_bw(&img, LuminanceStandard::Bt709).unwrap();
    let diff = (out[[0, 0, 0]] - 0.2126_f32).abs();
    assert!(diff < 1e-6, "got {}, expected 0.2126", out[[0, 0, 0]]);
}

#[test]
fn bt709_green_luminance() {
    let img = rgb_pixel(0.0, 1.0, 0.0);
    let out = luminance_bw(&img, LuminanceStandard::Bt709).unwrap();
    let diff = (out[[0, 0, 0]] - 0.7152_f32).abs();
    assert!(diff < 1e-6, "got {}, expected 0.7152", out[[0, 0, 0]]);
}

#[test]
fn channel_mixer_red_only() {
    let img = rgb_pixel(0.7, 0.3, 0.5);
    let out = channel_mixer_bw(&img, [1.0, 0.0, 0.0]).unwrap();
    let diff = (out[[0, 0, 0]] - 0.7_f32).abs();
    assert!(
        diff < 1e-7,
        "expected red channel 0.7, got {}",
        out[[0, 0, 0]]
    );
}

#[test]
fn red_filter_on_pure_blue() {
    let img = rgb_pixel(0.0, 0.0, 1.0);
    let out =
        color_filter_bw(&img, ColorFilter::Red25A, LuminanceStandard::Bt709).unwrap();
    assert!(
        out[[0, 0, 0]] < 0.05,
        "red filter + pure blue should be nearly black, got {}",
        out[[0, 0, 0]]
    );
}

#[test]
fn shape_error_on_single_channel() {
    let img = Frame::zeros((4, 4, 1));
    assert!(luminance_bw(&img, LuminanceStandard::Bt709).is_err());
}

#[test]
fn hue_of_primaries_and_secondaries() {
    let cases = [
        ((1.0, 0.0, 0.0), 0.0),
        ((1.0, 1.0, 0.0), 60.0),
        ((0.0, 1.0, 0.0), 120.0),
        ((0.0, 1.0, 1.0), 180.0),
        ((0.0, 0.0, 1.0), 240.0),
        ((1.0, 0.0, 1.0), 300.0),
    ];
    for ((r, g, b), expected) in cases {
        let (hue, chroma) = hue_and_chroma_ratio(r, g, b);
        assert!(
            (hue - expected).abs() < 1e-3,
            "rgb({r}, {g}, {b}): expected hue {expected}, got {hue}"
        );
        assert!((chroma - 1.0).abs() < 1e-6, "expected full chroma");
    }
}

#[test]
fn neutral_has_zero_chroma() {
    for v in [0.0_f32, 0.18, 1.0, 4.0] {
        let (_, chroma) = hue_and_chroma_ratio(v, v, v);
        assert_eq!(chroma, 0.0, "neutral {v} should have zero chroma");
    }
}

#[test]
fn chroma_ratio_is_exposure_invariant() {
    let (h1, c1) = hue_and_chroma_ratio(0.4, 0.2, 0.1);
    let (h2, c2) = hue_and_chroma_ratio(1.6, 0.8, 0.4);
    assert!((h1 - h2).abs() < 1e-4, "hue moved: {h1} vs {h2}");
    assert!((c1 - c2).abs() < 1e-6, "chroma moved: {c1} vs {c2}");
}

#[test]
fn hue_distance_wraps_around_the_circle() {
    assert!((hue_distance_deg(350.0, 0.0) - 10.0).abs() < 1e-4);
    assert!((hue_distance_deg(10.0, 350.0) - 20.0).abs() < 1e-4);
    assert!((hue_distance_deg(0.0, 180.0) - 180.0).abs() < 1e-4);
    assert!((hue_distance_deg(270.0, 30.0) - 120.0).abs() < 1e-4);
}

#[test]
fn zero_weights_match_plain_luminance() {
    let img = Frame::from_shape_fn((8, 8, 3), |(y, x, c)| {
        (y * 24 + x * 3 + c) as f32 / 192.0
    });
    let hsl = hsl_bw(&img, &HslWeightedParams::default()).unwrap();
    let plain = luminance_bw(&img, LuminanceStandard::Bt709).unwrap();
    for (&a, &b) in hsl.iter().zip(plain.iter()) {
        assert!((a - b).abs() < 1e-6, "{a} vs {b}");
    }
}

#[test]
fn neutral_pixels_ignore_hue_weights() {
    let img = rgb_pixel(0.5, 0.5, 0.5);
    let params = hsl_params([1.0; 8], LuminanceStandard::Bt709, 30.0);
    let out = hsl_bw(&img, &params).unwrap();
    assert!(
        (out[[0, 0, 0]] - 0.5).abs() < 1e-6,
        "got {}",
        out[[0, 0, 0]]
    );
}

#[test]
fn red_weight_doubles_a_saturated_red() {
    let img = rgb_pixel(1.0, 0.0, 0.0);
    let mut weights = [0.0_f32; 8];
    weights[0] = 1.0;
    let params = hsl_params(weights, LuminanceStandard::Bt709, 30.0);
    let out = hsl_bw(&img, &params).unwrap();
    let expected = 2.0 * 0.2126;
    assert!(
        (out[[0, 0, 0]] - expected).abs() < 1e-5,
        "expected {expected}, got {}",
        out[[0, 0, 0]]
    );
}

#[test]
fn output_is_clamped_at_zero() {
    let img = rgb_pixel(1.0, 0.0, 0.0);
    let mut weights = [0.0_f32; 8];
    weights[0] = -3.0;
    let params = hsl_params(weights, LuminanceStandard::Bt709, 30.0);
    let out = hsl_bw(&img, &params).unwrap();
    assert_eq!(out[[0, 0, 0]], 0.0);
}

#[test]
fn band_influence_wraps_across_zero() {
    let mut weights = [0.0_f32; 8];
    weights[0] = 1.0;
    let params = hsl_params(weights, LuminanceStandard::Bt709, 30.0);

    let below = hsl_bw(&rgb_pixel(1.0, 0.0, 1.0 / 6.0), &params).unwrap();
    let above = hsl_bw(&rgb_pixel(1.0, 1.0 / 6.0, 0.0), &params).unwrap();

    let ratio_below = below[[0, 0, 0]] / (0.2126 + 0.0722 / 6.0);
    let ratio_above = above[[0, 0, 0]] / (0.2126 + 0.7152 / 6.0);
    assert!(
        (ratio_below - ratio_above).abs() < 0.02,
        "wrap-around asymmetry: {ratio_below} vs {ratio_above}"
    );
    assert!(ratio_below > 1.8, "10° from centre should stay strong");
}

#[test]
fn sigma_controls_band_overlap() {
    let mut weights = [0.0_f32; 8];
    weights[2] = 1.0;
    let green = rgb_pixel(0.0, 1.0, 0.0);

    let narrow = hsl_bw(
        &green,
        &hsl_params(weights, LuminanceStandard::Bt709, 10.0),
    )
    .unwrap();
    let wide = hsl_bw(
        &green,
        &hsl_params(weights, LuminanceStandard::Bt709, 60.0),
    )
    .unwrap();

    assert!((narrow[[0, 0, 0]] - 0.7152).abs() < 1e-4, "narrow leaked");
    assert!(wide[[0, 0, 0]] > 0.85, "wide sigma should reach green");
}

#[test]
fn bw_rejects_invalid_parameters() {
    let img = rgb_pixel(0.5, 0.2, 0.1);
    for bad_sigma in [0.0, -1.0, f32::NAN, f32::INFINITY] {
        let params = hsl_params([0.0; 8], LuminanceStandard::Bt709, bad_sigma);
        assert!(matches!(
            hsl_bw(&img, &params).unwrap_err(),
            PhaiosError::Parameter(_)
        ));
    }
    let mut weights = [0.0_f32; 8];
    weights[3] = f32::NAN;
    let params = hsl_params(weights, LuminanceStandard::Bt709, 30.0);
    assert!(matches!(
        hsl_bw(&img, &params).unwrap_err(),
        PhaiosError::Parameter(_)
    ));
}

#[test]
fn bw_accepts_non_contiguous_input() {
    let img = Frame::from_shape_fn((6, 4, 3), |(y, x, c)| {
        ((y * 12 + x * 3 + c) % 7) as f32 / 7.0
    });
    let strided = Frame::of(&img.strided(2, 1));
    let params = hsl_params([0.3; 8], LuminanceStandard::Bt709, 30.0);
    let out = hsl_bw(&strided, &params).unwrap();
    assert_eq!(out.dim(), (3, 4, 1));
    assert_eq!(out, hsl_bw(&img.every(2, 1), &params).unwrap());
}

#[test]
fn bands_are_named_and_placed() {
    let names = ["red", "orange", "yellow", "green", "aqua", "blue", "purple", "magenta"];
    let centres = [0.0_f32, 30.0, 60.0, 120.0, 180.0, 240.0, 270.0, 300.0];
    for band in 0..8 {
        assert_eq!(hue_band_name(band), names[band]);
        assert_eq!(f32::from_bits(hue_band_centre(band)), centres[band]);
    }
}

#[test]
fn a_filter_passes_its_share_of_each_channel() {
    let shares = [
        (ColorFilter::Yellow8K2, [1.00_f32, 0.90, 0.30]),
        (ColorFilter::Orange21, [1.00, 0.55, 0.10]),
        (ColorFilter::Red25A, [1.00, 0.10, 0.02]),
        (ColorFilter::Green11X1, [0.20, 1.00, 0.30]),
        (ColorFilter::Blue47C5, [0.10, 0.30, 1.00]),
    ];
    let weights = weights(LuminanceStandard::Bt709);
    for (filter, share) in shares {
        assert_eq!(filter.transmission().map(f32::from_bits), share);
        for channel in 0..3 {
            let mut rgb = [0.0_f32; 3];
            rgb[channel] = 1.0;
            let out = color_filter_bw(&pixel(&rgb), filter, LuminanceStandard::Bt709).unwrap();
            assert_eq!(out[[0, 0, 0]], share[channel] * weights[channel]);
        }
    }
}

#[test]
fn without_a_filter_the_luminance_is_plain() {
    let img = Frame::from_shape_fn((4, 5, 3), |(y, x, c)| ((y * 15 + x * 3 + c) % 11) as f32 / 7.0);
    for (standard, _) in REFERENCE_WEIGHTS {
        let plain = luminance_bw(&img, standard).unwrap();
        let through = color_filter_bw(&img, ColorFilter::NoFilter, standard).unwrap();
        assert_eq!(plain.bits(), through.bits());
    }
}

#[test]
fn every_conversion_wants_three_channels() {
    let img = Frame::zeros((2, 2, 4));
    for said in [
        luminance_bw(&img, LuminanceStandard::Bt709).unwrap_err(),
        channel_mixer_bw(&img, [1.0, 0.0, 0.0]).unwrap_err(),
        color_filter_bw(&img, ColorFilter::Red25A, LuminanceStandard::Bt709).unwrap_err(),
        hsl_bw(&img, &HslWeightedParams::default()).unwrap_err(),
    ] {
        assert!(matches!(said, PhaiosError::Shape(_)));
        assert!(said.to_string().contains('4'));
    }
}

#[test]
fn hsl_params_compare_and_print() {
    let a = hsl_params([0.0; 8], LuminanceStandard::Bt709, 30.0);
    assert!(a.__eq__(&HslWeightedParams::default()));
    assert!(!a.__eq__(&hsl_params([0.0; 8], LuminanceStandard::Bt601, 30.0)));
    assert!(!a.__eq__(&hsl_params([0.0; 8], LuminanceStandard::Bt709, 31.0)));
    let mut weights = [0.0_f32; 8];
    weights[7] = 0.5;
    assert!(!a.__eq__(&hsl_params(weights, LuminanceStandard::Bt709, 30.0)));
    assert!(a.__repr__::<Ieee>().starts_with("HslWeightedParams("));
}
