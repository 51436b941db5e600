//! Hot pixel removal.

#![allow(dead_code)]

use phaios_core::arith::Arithmetic;
use phaios_core::allocation::image_from_samples;
use phaios_core::error::PhaiosError;
use phaios_core::film_grain::splitmix64;
use phaios_core::hot_pixels::HotPixelParams;
use phaios_core::raster::Image;

/// The host's own arithmetic.
struct Ieee;

fn s(a: u32) -> f32 {
    f32::from_bits(a)
}

fn d(a: u64) -> f64 {
    f64::from_bits(a)
}

impl Arithmetic for Ieee {
    fn plus(a: u32, b: u32) -> u32 {
        (s(a) + s(b)).to_bits()
    }
    fn minus(a: u32, b: u32) -> u32 {
        (s(a) - s(b)).to_bits()
    }
    fn times(a: u32, b: u32) -> u32 {
        (s(a) * s(b)).to_bits()
    }
    fn over(a: u32, b: u32) -> u32 {
        (s(a) / s(b)).to_bits()
    }
    fn remainder(a: u32, b: u32) -> u32 {
        (s(a) % s(b)).to_bits()
    }
    fn root(a: u32) -> u32 {
        s(a).sqrt().to_bits()
    }
    fn floor(a: u32) -> u32 {
        s(a).floor().to_bits()
    }
    fn ceil(a: u32) -> u32 {
        s(a).ceil().to_bits()
    }
    fn round(a: u32) -> u32 {
        s(a).round().to_bits()
    }
    fn power(a: u32, b: u32) -> u32 {
        s(a).powf(s(b)).to_bits()
    }
    fn exp(a: u32) -> u32 {
        s(a).exp().to_bits()
    }
    fn ln(a: u32) -> u32 {
        s(a).ln().to_bits()
    }
    fn cos(a: u32) -> u32 {
        s(a).cos().to_bits()
    }
    fn of_count(n: u64) -> u32 {
        (n as f32).to_bits()
    }
    fn of_offset(n: i64) -> u32 {
        (n as f32).to_bits()
    }
    fn to_count(a: u32) -> u64 {
        s(a) as u64
    }
    fn to_offset(a: u32) -> i64 {
        s(a) as i64
    }
    fn widen(a: u32) -> u64 {
        f64::from(s(a)).to_bits()
    }
    fn narrow(a: u64) -> u32 {
        (d(a) as f32).to_bits()
    }
    fn plus64(a: u64, b: u64) -> u64 {
        (d(a) + d(b)).to_bits()
    }
    fn minus64(a: u64, b: u64) -> u64 {
        (d(a) - d(b)).to_bits()
    }
    fn times64(a: u64, b: u64) -> u64 {
        (d(a) * d(b)).to_bits()
    }
    fn over64(a: u64, b: u64) -> u64 {
        (d(a) / d(b)).to_bits()
    }
    fn root64(a: u64) -> u64 {
        d(a).sqrt().to_bits()
    }
    fn floor64(a: u64) -> u64 {
        d(a).floor().to_bits()
    }
    fn exp64(a: u64) -> u64 {
        d(a).exp().to_bits()
    }
    fn sin64(a: u64) -> u64 {
        d(a).sin().to_bits()
    }
    fn cos64(a: u64) -> u64 {
        d(a).cos().to_bits()
    }
    fn radians64(a: u64) -> u64 {
        d(a).to_radians().to_bits()
    }
    fn of_count64(n: u64) -> u64 {
        (n as f64).to_bits()
    }
    fn to_count64(a: u64) -> u64 {
        d(a) as u64
    }
    fn text(a: u32) -> String {
        format!("{}", s(a))
    }
    fn debug_text(a: u32) -> String {
        format!("{:?}", s(a))
    }
}

/// The bits of a number, as parameters take it.
fn b(v: f32) -> u32 {
    v.to_bits()
}

/// An image with its samples as numbers.
#[derive(Clone, Debug, PartialEq)]
struct Frame {
    shape: (usize, usize, usize),
    samples: Vec<f32>,
}

impl Frame {
    fn from_shape_fn<F: Fn((usize, usize, usize)) -> f32>(
        shape: (usize, usize, usize),
        f: F,
    ) -> Frame {
        let mut samples = Vec::new();
        for y in 0..shape.0 {
            for x in 0..shape.1 {
                for k in 0..shape.2 {
                    samples.push(f((y, x, k)));
                }
            }
        }
        Frame { shape, samples }
    }

    fn from_elem(shape: (usize, usize, usize), v: f32) -> Frame {
        Frame::from_shape_fn(shape, |_| v)
    }

    fn zeros(shape: (usize, usize, usize)) -> Frame {
        Frame::from_elem(shape, 0.0)
    }

    fn of(img: &Image) -> Frame {
        Frame::from_shape_fn(img.dim(), |(y, x, k)| f32::from_bits(img.get(y, x, k).unwrap()))
    }

    fn image(&self) -> Image {
        let bits: Vec<u32> = self.samples.iter().map(|v| v.to_bits()).collect();
        image_from_samples(self.shape, bits).unwrap()
    }

    fn dim(&self) -> (usize, usize, usize) {
        self.shape
    }

    fn iter(&self) -> std::slice::Iter<'_, f32> {
        self.samples.iter()
    }

    fn bits(&self) -> Vec<u32> {
        self.samples.iter().map(|v| v.to_bits()).collect()
    }

    /// Every `dy`-th row and every `dx`-th column, through a strided view.
    fn strided(&self, dy: isize, dx: isize) -> Image {
        let array = ndarray::Array3::from_shape_vec(self.shape, self.samples.clone()).unwrap();
        let rows = array.slice_axis(ndarray::Axis(0), ndarray::Slice::new(0, None, dy));
        let view = rows.slice_axis(ndarray::Axis(1), ndarray::Slice::new(0, None, dx));
        let bits: Vec<u32> = view.iter().map(|v| v.to_bits()).collect();
        image_from_samples(view.dim(), bits).unwrap()
    }

    /// Every `dy`-th row and every `dx`-th column.
    fn every(&self, dy: usize, dx: usize) -> Frame {
        let (h, w, c) = self.shape;
        Frame::from_shape_fn((h.div_ceil(dy), w.div_ceil(dx), c), |(y, x, k)| {
            self[[y * dy, x * dx, k]]
        })
    }
}

impl std::ops::Index<[usize; 3]> for Frame {
    type Output = f32;

    fn index(&self, at: [usize; 3]) -> &f32 {
        let [y, x, k] = at;
        let (h, w, c) = self.shape;
        assert!(y < h && x < w && k < c);
        &self.samples[(y * w + x) * c + k]
    }
}

impl std::ops::IndexMut<[usize; 3]> for Frame {
    fn index_mut(&mut self, at: [usize; 3]) -> &mut f32 {
        let [y, x, k] = at;
        let (h, w, c) = self.shape;
        assert!(y < h && x < w && k < c);
        &mut self.samples[(y * w + x) * c + k]
    }
}

fn hot_params(threshold: f32, relative: f32) -> HotPixelParams {
    HotPixelParams::new(b(threshold), b(relative))
}

fn validate(params: &HotPixelParams) -> Result<(), PhaiosError> {
    phaios_core::hot_pixels::validate::<Ieee>(params)
}

fn median9(window: [f32; 9]) -> f32 {
    f32::from_bits(phaios_core::hot_pixels::median9(window.map(|v| v.to_bits())))
}

fn hot_pixels(img: &Frame, params: &HotPixelParams) -> Result<Frame, PhaiosError> {
    phaios_core::hot_pixels::hot_pixels::<Ieee>(&img.image(), params).map(|out| Frame::of(&out))
}

#[test]
fn hot_pixels_validate_accepts_the_boundary_values() {
    assert!(validate(&hot_params(0.0, 0.0)).is_ok());
    assert!(validate(&hot_params(1.0, 1.0)).is_ok());
}

#[test]
fn hot_pixels_validate_rejects_out_of_domain_threshold() {
    for threshold in [-0.1_f32, f32::NAN, f32::NEG_INFINITY, f32::INFINITY] {
        let err = validate(&hot_params(threshold, 0.0)).unwrap_err().to_string();
        assert!(
            err.contains("threshold is"),
            "threshold={threshold}: {err}"
        );
    }
}

#[test]
fn validate_rejects_out_of_domain_relative() {
    for relative in [-0.1_f32, f32::NAN, f32::NEG_INFINITY, f32::INFINITY] {
        let err = validate(&hot_params(0.05, relative)).unwrap_err().to_string();
        assert!(
            err.contains("relative is"),
            "relative={relative}: {err}"
        );
    }
}

#[test]
fn median9_of_an_increasing_sequence() {
    let window = [1.0_f32, 2.0, 3.0, 4.0, 5.0, 6.0, 7.0, 8.0, 9.0];
    assert_eq!(median9(window).to_bits(), 5.0_f32.to_bits());
}

#[test]
fn median9_of_a_decreasing_sequence() {
    let window = [9.0_f32, 8.0, 7.0, 6.0, 5.0, 4.0, 3.0, 2.0, 1.0];
    assert_eq!(median9(window).to_bits(), 5.0_f32.to_bits());
}

#[test]
fn median9_of_a_constant_window() {
    let window = [3.5_f32; 9];
    assert_eq!(median9(window).to_bits(), 3.5_f32.to_bits());
}

#[test]
fn median9_with_one_duplicate_at_each_position() {
    let base = [1.0_f32, 2.0, 3.0, 4.0, 5.0, 6.0, 7.0, 8.0, 9.0];
    for i in 0..9 {
        let mut window = base;
        window[i] = base[(i + 1) % 9];
        let mut sorted = window;
        sorted.sort_by(|a, b| a.partial_cmp(b).unwrap());
        let expected = sorted[4];
        assert_eq!(
            median9(window).to_bits(),
            expected.to_bits(),
            "duplicate at position {i}: window={window:?}"
        );
    }
}

#[test]
fn median9_of_a_reversed_arbitrary_window() {
    let window = [5.0_f32, 1.0, 9.0, 2.0, 8.0, 3.0, 7.0, 4.0, 6.0];
    let mut sorted = window;
    sorted.sort_by(|a, b| a.partial_cmp(b).unwrap());
    let expected = sorted[4];
    assert_eq!(
        median9(window).to_bits(),
        expected.to_bits(),
        "window={window:?}"
    );

    let mut reversed = window;
    reversed.reverse();
    assert_eq!(
        median9(reversed).to_bits(),
        expected.to_bits(),
        "reversed={reversed:?}"
    );
}

#[test]
fn median9_matches_a_sort_based_reference_over_10000_random_windows() {
    let mut state = 0x9E37_79B9_7F4A_7C15_u64;
    for i in 0..10_000_u32 {
        let mut window = [0.0_f32; 9];
        for slot in window.iter_mut() {
            state = splitmix64(state);
            let bits24 = (state >> 40) as i32;
            *slot = (bits24 - 0x0080_0000) as f32 / 8192.0;
        }
        let mut sorted = window;
        sorted.sort_by(|a, b| a.partial_cmp(b).unwrap());
        let expected = sorted[4];
        let got = median9(window);
        assert_eq!(
            got.to_bits(),
            expected.to_bits(),
            "case {i}: window={window:?} expected {expected} got {got}"
        );
    }
}

#[test]
fn median9_returns_a_finite_value_when_exactly_one_input_is_nan() {
    let mut window = [1.0_f32, 2.0, 3.0, 4.0, 5.0, 6.0, 7.0, 8.0, 9.0];
    window[3] = f32::NAN;
    assert!(!median9(window).is_nan(), "single NaN must not propagate");
}

#[test]
fn hot_pixels_params_equality_repr_and_defaults() {
    let a = hot_params(0.05, 0.1);
    assert!(a.__eq__(&hot_params(0.05, 0.1)));
    assert!(!a.__eq__(&hot_params(0.05, 0.2)));
    assert!(!a.__eq__(&hot_params(0.06, 0.1)));
    assert_eq!(a.__repr__::<Ieee>(), "HotPixelParams(threshold=0.05, relative=0.1)");

    let default_relative = hot_params(0.05, 0.0);
    assert_eq!(f32::from_bits(default_relative.relative), 0.0);
}

#[test]
fn a_lone_spike_takes_the_median_and_nothing_else_moves() {
    let mut img = Frame::from_shape_fn((7, 7, 3), |(y, x, c)| (y + x + c) as f32 / 20.0);
    img[[3, 3, 1]] = 5.0;
    let out = hot_pixels(&img, &hot_params(0.5, 0.0)).unwrap();
    // The window around (3, 3) in channel 1 holds 5, 6, 6, 7, 7, 8, 8, 9 twentieths
    // and the spike: its median is the second 7.
    assert_eq!(out[[3, 3, 1]], 7.0 / 20.0);
    let mut expected = img.clone();
    expected[[3, 3, 1]] = 7.0 / 20.0;
    assert_eq!(out, expected);
}

#[test]
fn dead_pixels_count_too_and_edges_reach_outwards() {
    let mut img = Frame::from_elem((4, 5, 1), 0.5);
    img[[0, 0, 0]] = 0.0;
    img[[3, 4, 0]] = 9.0;
    let out = hot_pixels(&img, &hot_params(0.1, 0.0)).unwrap();
    assert_eq!(out[[0, 0, 0]], 0.5);
    assert_eq!(out[[3, 4, 0]], 0.5);
}

#[test]
fn a_large_threshold_leaves_every_sample() {
    let img = Frame::from_shape_fn((4, 4, 2), |(y, x, c)| ((y * 8 + x * 2 + c) % 5) as f32);
    assert_eq!(hot_pixels(&img, &hot_params(100.0, 0.0)).unwrap(), img);
    // A relative tolerance widens the band with the median.
    assert_eq!(hot_pixels(&img, &hot_params(4.0, 1.0)).unwrap(), img);
}

#[test]
fn hot_pixels_takes_an_empty_image() {
    let out = hot_pixels(&Frame::zeros((0, 3, 2)), &hot_params(0.1, 0.1)).unwrap();
    assert_eq!(out.dim(), (0, 3, 2));
}

#[test]
fn a_median_ignores_the_order_of_its_window() {
    let window = [0.5, -1.0, 2.0, 0.5, 7.0, 0.25, -3.0, 1.5, 0.75];
    for turn in 0..9 {
        let mut turned = window;
        turned.rotate_left(turn);
        assert_eq!(median9(turned), 0.5);
        turned.swap(0, 4);
        turned.swap(2, 7);
        assert_eq!(median9(turned), 0.5);
    }
}
