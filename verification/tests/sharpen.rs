//! Unsharp masking.

#![allow(dead_code)]

use phaios_core::arith::Arithmetic;
use phaios_core::allocation::image_from_samples;
use phaios_core::blur::{self, BlurParams, BlurShape, MAX_SIGMA};
use phaios_core::error::PhaiosError;
use phaios_core::raster::Image;
use phaios_core::sharpen::{SharpenParams, SOFT_KNEE_SPAN};

/// The host's own arithmetic.
struct Ieee;

fn s(a: u32) -> f32 {
    f32::from_bits(a)
}

fn d(a: u64) -> f64 {
    f64::from_bits(a)
}

impl Arithmetic for Ieee {
    fn plus(a: u32, b: u32) -> u32 {
        (s(a) + s(b)).to_bits()
    }
    fn minus(a: u32, b: u32) -> u32 {
        (s(a) - s(b)).to_bits()
    }
    fn times(a: u32, b: u32) -> u32 {
        (s(a) * s(b)).to_bits()
    }
    fn over(a: u32, b: u32) -> u32 {
        (s(a) / s(b)).to_bits()
    }
    fn remainder(a: u32, b: u32) -> u32 {
        (s(a) % s(b)).to_bits()
    }
    fn root(a: u32) -> u32 {
        s(a).sqrt().to_bits()
    }
    fn floor(a: u32) -> u32 {
        s(a).floor().to_bits()
    }
    fn ceil(a: u32) -> u32 {
        s(a).ceil().to_bits()
    }
    fn round(a: u32) -> u32 {
        s(a).round().to_bits()
    }
    fn power(a: u32, b: u32) -> u32 {
        s(a).powf(s(b)).to_bits()
    }
    fn exp(a: u32) -> u32 {
        s(a).exp().to_bits()
    }
    fn ln(a: u32) -> u32 {
        s(a).ln().to_bits()
    }
    fn cos(a: u32) -> u32 {
        s(a).cos().to_bits()
    }
    fn of_count(n: u64) -> u32 {
        (n as f32).to_bits()
    }
    fn of_offset(n: i64) -> u32 {
        (n as f32).to_bits()
    }
    fn to_count(a: u32) -> u64 {
        s(a) as u64
    }
    fn to_offset(a: u32) -> i64 {
        s(a) as i64
    }
    fn widen(a: u32) -> u64 {
        f64::from(s(a)).to_bits()
    }
    fn narrow(a: u64) -> u32 {
        (d(a) as f32).to_bits()
    }
    fn plus64(a: u64, b: u64) -> u64 {
        (d(a) + d(b)).to_bits()
    }
    fn minus64(a: u64, b: u64) -> u64 {
        (d(a) - d(b)).to_bits()
    }
    fn times64(a: u64, b: u64) -> u64 {
        (d(a) * d(b)).to_bits()
    }
    fn over64(a: u64, b: u64) -> u64 {
        (d(a) / d(b)).to_bits()
    }
    fn root64(a: u64) -> u64 {
        d(a).sqrt().to_bits()
    }
    fn floor64(a: u64) -> u64 {
        d(a).floor().to_bits()
    }
    fn exp64(a: u64) -> u64 {
        d(a).exp().to_bits()
    }
    fn sin64(a: u64) -> u64 {
        d(a).sin().to_bits()
    }
    fn cos64(a: u64) -> u64 {
        d(a).cos().to_bits()
    }
    fn radians64(a: u64) -> u64 {
        d(a).to_radians().to_bits()
    }
    fn of_count64(n: u64) -> u64 {
        (n as f64).to_bits()
    }
    fn to_count64(a: u64) -> u64 {
        d(a) as u64
    }
    fn text(a: u32) -> String {
        format!("{}", s(a))
    }
    fn debug_text(a: u32) -> String {
        format!("{:?}", s(a))
    }
}

/// The bits of a number, as parameters take it.
fn b(v: f32) -> u32 {
    v.to_bits()
}

/// An image with its samples as numbers.
#[derive(Clone, Debug, PartialEq)]
struct Frame {
    shape: (usize, usize, usize),
    samples: Vec<f32>,
}

impl Frame {
    fn from_shape_fn<F: Fn((usize, usize, usize)) -> f32>(
        shape: (usize, usize, usize),
        f: F,
    ) -> Frame {
        let mut samples = Vec::new();
        for y in 0..shape.0 {
            for x in 0..shape.1 {
                for k in 0..shape.2 {
                    samples.push(f((y, x, k)));
                }
            }
        }
        Frame { shape, samples }
    }

    fn from_elem(shape: (usize, usize, usize), v: f32) -> Frame {
        Frame::from_shape_fn(shape, |_| v)
    }

    fn zeros(shape: (usize, usize, usize)) -> Frame {
        Frame::from_elem(shape, 0.0)
    }

    fn of(img: &Image) -> Frame {
        Frame::from_shape_fn(img.dim(), |(y, x, k)| f32::from_bits(img.get(y, x, k).unwrap()))
    }

    fn image(&self) -> Image {
        let bits: Vec<u32> = self.samples.iter().map(|v| v.to_bits()).collect();
        image_from_samples(self.shape, bits).unwrap()
    }

    fn dim(&self) -> (usize, usize, usize) {
        self.shape
    }

    fn iter(&self) -> std::slice::Iter<'_, f32> {
        self.samples.iter()
    }

    fn bits(&self) -> Vec<u32> {
        self.samples.iter().map(|v| v.to_bits()).collect()
    }

    /// Every `dy`-th row and every `dx`-th column, through a strided view.
    fn strided(&self, dy: isize, dx: isize) -> Image {
        let array = ndarray::Array3::from_shape_vec(self.shape, self.samples.clone()).unwrap();
        let rows = array.slice_axis(ndarray::Axis(0), ndarray::Slice::new(0, None, dy));
        let view = rows.slice_axis(ndarray::Axis(1), ndarray::Slice::new(0, None, dx));
        let bits: Vec<u32> = view.iter().map(|v| v.to_bits()).collect();
        image_from_samples(view.dim(), bits).unwrap()
    }

    /// Every `dy`-th row and every `dx`-th column.
    fn every(&self, dy: usize, dx: usize) -> Frame {
        let (h, w, c) = self.shape;
        Frame::from_shape_fn((h.div_ceil(dy), w.div_ceil(dx), c), |(y, x, k)| {
            self[[y * dy, x * dx, k]]
        })
    }
}

impl std::ops::Index<[usize; 3]> for Frame {
    type Output = f32;

    fn index(&self, at: [usize; 3]) -> &f32 {
        let [y, x, k] = at;
        let (h, w, c) = self.shape;
        assert!(y < h && x < w && k < c);
        &self.samples[(y * w + x) * c + k]
    }
}

impl std::ops::IndexMut<[usize; 3]> for Frame {
    fn index_mut(&mut self, at: [usize; 3]) -> &mut f32 {
        let [y, x, k] = at;
        let (h, w, c) = self.shape;
        assert!(y < h && x < w && k < c);
        &mut self.samples[(y * w + x) * c + k]
    }
}

fn sharpen_params(amount: f32, sigma: f32, threshold: f32) -> SharpenParams {
    SharpenParams::new(b(amount), b(sigma), b(threshold))
}

fn validate(params: &SharpenParams) -> Result<(), PhaiosError> {
    phaios_core::sharpen::validate::<Ieee>(params)
}

fn soft_gate(detail: f32, threshold: f32) -> f32 {
    f32::from_bits(phaios_core::sharpen::soft_gate::<Ieee>(b(detail), b(threshold)))
}

fn sharpen(img: &Frame, params: &SharpenParams) -> Result<Frame, PhaiosError> {
    phaios_core::sharpen::sharpen::<Ieee>(&img.image(), params).map(|out| Frame::of(&out))
}

#[test]
fn soft_gate_is_one_at_zero_threshold_including_zero_detail() {
    for d in [0.0_f32, -3.0, 0.2, 100.0] {
        assert_eq!(
            soft_gate(d, 0.0),
            1.0,
            "d={d} threshold=0 must give T=1 exactly"
        );
    }
}

#[test]
fn soft_gate_is_zero_at_the_threshold_and_one_at_the_ramp_end() {
    let threshold = 0.4_f32;
    assert_eq!(soft_gate(threshold, threshold), 0.0);
    assert_eq!(soft_gate(-threshold, threshold), 0.0);

    let ramp_end = f32::from_bits(SOFT_KNEE_SPAN) * threshold;
    assert!((soft_gate(ramp_end, threshold) - 1.0).abs() < 1e-6);
    assert!((soft_gate(-ramp_end, threshold) - 1.0).abs() < 1e-6);
}

#[test]
fn soft_gate_is_flat_below_the_threshold_and_above_the_ramp() {
    let threshold = 0.2_f32;
    assert_eq!(soft_gate(0.0, threshold), 0.0);
    assert_eq!(soft_gate(0.1, threshold), 0.0);
    assert_eq!(soft_gate(10.0, threshold), 1.0);
}

#[test]
fn soft_gate_is_even_in_detail() {
    let threshold = 0.3_f32;
    for d in [0.05_f32, 0.3, 0.45, 0.6, 1.5] {
        assert_eq!(soft_gate(d, threshold), soft_gate(-d, threshold), "d={d}");
    }
}

#[test]
fn sharpen_validate_accepts_the_boundary_values() {
    assert!(validate(&sharpen_params(0.0, 0.0, 0.0)).is_ok());
    assert!(validate(&sharpen_params(0.0, f32::from_bits(MAX_SIGMA), 0.0)).is_ok());
}

#[test]
fn sharpen_validate_rejects_out_of_domain_amount() {
    for amount in [-0.1_f32, f32::NAN, f32::NEG_INFINITY, f32::INFINITY] {
        let err = validate(&sharpen_params(amount, 1.0, 0.0)).unwrap_err().to_string();
        assert!(
            err.contains("amount is"),
            "amount={amount}: {err}"
        );
    }
}

#[test]
fn sharpen_validate_rejects_out_of_domain_threshold() {
    for threshold in [-0.1_f32, f32::NAN, f32::NEG_INFINITY, f32::INFINITY] {
        let err = validate(&sharpen_params(0.5, 1.0, threshold)).unwrap_err().to_string();
        assert!(
            err.contains("threshold is"),
            "threshold={threshold}: {err}"
        );
    }
}

#[test]
fn validate_delegates_sigma_message_to_blur_verbatim() {
    for bad_sigma in [
        -1.0_f32,
        f32::NAN,
        f32::INFINITY,
        f32::from_bits(MAX_SIGMA) * 2.0,
    ] {
        let sharpen_msg = validate(&sharpen_params(0.5, bad_sigma, 0.0))
            .unwrap_err()
            .to_string();
        let blur_msg = blur::validate::<Ieee>(&BlurParams::new(b(bad_sigma), BlurShape::Gaussian))
            .unwrap_err()
            .to_string();
        assert_eq!(sharpen_msg, blur_msg, "sigma={bad_sigma}");
    }
}

#[test]
fn sharpen_params_equality_repr_and_defaults() {
    let a = sharpen_params(0.5, 1.2, 0.02);
    assert!(a.__eq__(&sharpen_params(0.5, 1.2, 0.02)));
    assert!(!a.__eq__(&sharpen_params(0.5, 1.2, 0.03)));
    assert_eq!(
        a.__repr__::<Ieee>(),
        "SharpenParams(amount=0.5, sigma=1.2, threshold=0.02)"
    );
    let d = SharpenParams::default();
    assert_eq!(
        (f32::from_bits(d.amount), f32::from_bits(d.sigma), f32::from_bits(d.threshold)),
        (0.0, 0.0, 0.0)
    );
}

#[test]
fn idle_sharpening_is_the_identity() {
    let img = Frame::from_shape_fn((6, 5, 3), |(y, x, c)| ((y * 15 + x * 3 + c) % 7) as f32 / 7.0);
    assert_eq!(sharpen(&img, &sharpen_params(0.0, 2.0, 0.1)).unwrap().bits(), img.bits());
    assert_eq!(sharpen(&img, &sharpen_params(1.0, 0.0, 0.1)).unwrap(), img);
}

#[test]
fn an_edge_overshoots_on_both_sides() {
    let img = Frame::from_shape_fn((1, 40, 1), |(_, x, _)| if x < 20 { 0.25 } else { 0.75 });
    let out = sharpen(&img, &sharpen_params(1.0, 1.5, 0.0)).unwrap();
    assert!(out[[0, 19, 0]] < 0.25);
    assert!(out[[0, 20, 0]] > 0.75);
    assert!((out[[0, 0, 0]] - 0.25).abs() < 1e-6);
    // The detail is weaker than this threshold everywhere.
    let gated = sharpen(&img, &sharpen_params(1.0, 1.5, 0.6)).unwrap();
    assert_eq!(gated, img);
}
