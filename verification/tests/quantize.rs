//! Quantisation to integer codes.

#![allow(dead_code)]

use phaios_core::arith::Arithmetic;
use phaios_core::allocation::image_from_samples;
use phaios_core::error::PhaiosError;
use phaios_core::film_grain::pixel_hash;
use phaios_core::quantize::{
    quantize_sample, triangular_dither, Dither, QuantizeParams, MAX_CODE16, MAX_CODE8,
};
use phaios_core::raster::Image;

/// The host's own arithmetic.
struct Ieee;

fn s(a: u32) -> f32 {
    f32::from_bits(a)
}

fn d(a: u64) -> f64 {
    f64::from_bits(a)
}

impl Arithmetic for Ieee {
    fn plus(a: u32, b: u32) -> u32 {
        (s(a) + s(b)).to_bits()
    }
    fn minus(a: u32, b: u32) -> u32 {
        (s(a) - s(b)).to_bits()
    }
    fn times(a: u32, b: u32) -> u32 {
        (s(a) * s(b)).to_bits()
    }
    fn over(a: u32, b: u32) -> u32 {
        (s(a) / s(b)).to_bits()
    }
    fn remainder(a: u32, b: u32) -> u32 {
        (s(a) % s(b)).to_bits()
    }
    fn root(a: u32) -> u32 {
        s(a).sqrt().to_bits()
    }
    fn floor(a: u32) -> u32 {
        s(a).floor().to_bits()
    }
    fn ceil(a: u32) -> u32 {
        s(a).ceil().to_bits()
    }
    fn round(a: u32) -> u32 {
        s(a).round().to_bits()
    }
    fn power(a: u32, b: u32) -> u32 {
        s(a).powf(s(b)).to_bits()
    }
    fn exp(a: u32) -> u32 {
        s(a).exp().to_bits()
    }
    fn ln(a: u32) -> u32 {
        s(a).ln().to_bits()
    }
    fn cos(a: u32) -> u32 {
        s(a).cos().to_bits()
    }
    fn of_count(n: u64) -> u32 {
        (n as f32).to_bits()
    }
    fn of_offset(n: i64) -> u32 {
        (n as f32).to_bits()
    }
    fn to_count(a: u32) -> u64 {
        s(a) as u64
    }
    fn to_offset(a: u32) -> i64 {
        s(a) as i64
    }
    fn widen(a: u32) -> u64 {
        f64::from(s(a)).to_bits()
    }
    fn narrow(a: u64) -> u32 {
        (d(a) as f32).to_bits()
    }
    fn plus64(a: u64, b: u64) -> u64 {
        (d(a) + d(b)).to_bits()
    }
    fn minus64(a: u64, b: u64) -> u64 {
        (d(a) - d(b)).to_bits()
    }
    fn times64(a: u64, b: u64) -> u64 {
        (d(a) * d(b)).to_bits()
    }
    fn over64(a: u64, b: u64) -> u64 {
        (d(a) / d(b)).to_bits()
    }
    fn root64(a: u64) -> u64 {
        d(a).sqrt().to_bits()
    }
    fn floor64(a: u64) -> u64 {
        d(a).floor().to_bits()
    }
    fn exp64(a: u64) -> u64 {
        d(a).exp().to_bits()
    }
    fn sin64(a: u64) -> u64 {
        d(a).sin().to_bits()
    }
    fn cos64(a: u64) -> u64 {
        d(a).cos().to_bits()
    }
    fn radians64(a: u64) -> u64 {
        d(a).to_radians().to_bits()
    }
    fn of_count64(n: u64) -> u64 {
        (n as f64).to_bits()
    }
    fn to_count64(a: u64) -> u64 {
        d(a) as u64
    }
    fn text(a: u32) -> String {
        format!("{}", s(a))
    }
    fn debug_text(a: u32) -> String {
        format!("{:?}", s(a))
    }
}

/// The bits of a number, as parameters take it.
fn b(v: f32) -> u32 {
    v.to_bits()
}

/// An image with its samples as numbers.
#[derive(Clone, Debug, PartialEq)]
struct Frame {
    shape: (usize, usize, usize),
    samples: Vec<f32>,
}

impl Frame {
    fn from_shape_fn<F: Fn((usize, usize, usize)) -> f32>(
        shape: (usize, usize, usize),
        f: F,
    ) -> Frame {
        let mut samples = Vec::new();
        for y in 0..shape.0 {
            for x in 0..shape.1 {
                for k in 0..shape.2 {
                    samples.push(f((y, x, k)));
                }
            }
        }
        Frame { shape, samples }
    }

    fn from_elem(shape: (usize, usize, usize), v: f32) -> Frame {
        Frame::from_shape_fn(shape, |_| v)
    }

    fn zeros(shape: (usize, usize, usize)) -> Frame {
        Frame::from_elem(shape, 0.0)
    }

    fn of(img: &Image) -> Frame {
        Frame::from_shape_fn(img.dim(), |(y, x, k)| f32::from_bits(img.get(y, x, k).unwrap()))
    }

    fn image(&self) -> Image {
        let bits: Vec<u32> = self.samples.iter().map(|v| v.to_bits()).collect();
        image_from_samples(self.shape, bits).unwrap()
    }

    fn dim(&self) -> (usize, usize, usize) {
        self.shape
    }

    fn iter(&self) -> std::slice::Iter<'_, f32> {
        self.samples.iter()
    }

    fn bits(&self) -> Vec<u32> {
        self.samples.iter().map(|v| v.to_bits()).collect()
    }

    /// Every `dy`-th row and every `dx`-th column, through a strided view.
    fn strided(&self, dy: isize, dx: isize) -> Image {
        let array = ndarray::Array3::from_shape_vec(self.shape, self.samples.clone()).unwrap();
        let rows = array.slice_axis(ndarray::Axis(0), ndarray::Slice::new(0, None, dy));
        let view = rows.slice_axis(ndarray::Axis(1), ndarray::Slice::new(0, None, dx));
        let bits: Vec<u32> = view.iter().map(|v| v.to_bits()).collect();
        image_from_samples(view.dim(), bits).unwrap()
    }

    /// Every `dy`-th row and every `dx`-th column.
    fn every(&self, dy: usize, dx: usize) -> Frame {
        let (h, w, c) = self.shape;
        Frame::from_shape_fn((h.div_ceil(dy), w.div_ceil(dx), c), |(y, x, k)| {
            self[[y * dy, x * dx, k]]
        })
    }
}

impl std::ops::Index<[usize; 3]> for Frame {
    type Output = f32;

    fn index(&self, at: [usize; 3]) -> &f32 {
        let [y, x, k] = at;
        let (h, w, c) = self.shape;
        assert!(y < h && x < w && k < c);
        &self.samples[(y * w + x) * c + k]
    }
}

impl std::ops::IndexMut<[usize; 3]> for Frame {
    fn index_mut(&mut self, at: [usize; 3]) -> &mut f32 {
        let [y, x, k] = at;
        let (h, w, c) = self.shape;
        assert!(y < h && x < w && k < c);
        &mut self.samples[(y * w + x) * c + k]
    }
}

fn pixel(samples: &[f32]) -> Frame {
    Frame { shape: (1, 1, samples.len()), samples: samples.to_vec() }
}

/// A quantised image.
#[derive(Debug, PartialEq)]
struct Codes<T> {
    shape: (usize, usize, usize),
    codes: Vec<T>,
}

impl<T: Copy> Codes<T> {
    fn read<F: Fn(usize, usize, usize) -> Option<T>>(
        shape: (usize, usize, usize),
        get: F,
    ) -> Codes<T> {
        let mut codes = Vec::new();
        for y in 0..shape.0 {
            for x in 0..shape.1 {
                for k in 0..shape.2 {
                    codes.push(get(y, x, k).unwrap());
                }
            }
        }
        Codes { shape, codes }
    }

    fn dim(&self) -> (usize, usize, usize) {
        self.shape
    }

    fn at(&self, at: [usize; 3]) -> T {
        self.codes[(at[0] * self.shape.1 + at[1]) * self.shape.2 + at[2]]
    }

    fn iter(&self) -> std::slice::Iter<'_, T> {
        self.codes.iter()
    }
}

fn quantize_u8(img: &Frame, params: &QuantizeParams) -> Result<Codes<u8>, PhaiosError> {
    phaios_core::quantize::quantize_u8::<Ieee>(&img.image(), params)
        .map(|out| Codes::read(out.dim(), |y, x, k| out.get(y, x, k)))
}

fn quantize_u16(img: &Frame, params: &QuantizeParams) -> Result<Codes<u16>, PhaiosError> {
    phaios_core::quantize::quantize_u16::<Ieee>(&img.image(), params)
        .map(|out| Codes::read(out.dim(), |y, x, k| out.get(y, x, k)))
}

fn triangular(bits: u64) -> f32 {
    f32::from_bits(triangular_dither::<Ieee>(bits))
}

fn u8_of(v: f32, params: &QuantizeParams) -> u8 {
    quantize_u8(&pixel(&[v]), params).unwrap().at([0, 0, 0])
}

#[test]
fn endpoints_and_midpoint_land_where_they_should() {
    let p = QuantizeParams::default();
    assert_eq!(u8_of(0.0, &p), 0);
    assert_eq!(u8_of(1.0, &p), 255);
    assert_eq!(u8_of(0.5, &p), 128);
    let img = pixel(&[0.0_f32, 0.5, 1.0]);
    let out = quantize_u16(&img, &p).unwrap();
    assert_eq!(out.at([0, 0, 0]), 0);
    assert_eq!(out.at([0, 0, 2]), 65535);
}

#[test]
fn out_of_range_clamps_and_nan_is_zero() {
    let p = QuantizeParams::default();
    assert_eq!(u8_of(-0.5, &p), 0);
    assert_eq!(u8_of(-1e30, &p), 0);
    assert_eq!(u8_of(1.5, &p), 255);
    assert_eq!(u8_of(1e30, &p), 255);
    assert_eq!(u8_of(f32::INFINITY, &p), 255);
    assert_eq!(u8_of(f32::NEG_INFINITY, &p), 0);
    assert_eq!(u8_of(f32::NAN, &p), 0);
}

#[test]
fn undithered_is_plain_rounding() {
    let p = QuantizeParams::default();
    for i in 0..=255_u32 {
        let v = i as f32 / 255.0;
        assert_eq!(u8_of(v, &p), i as u8, "code {i} must round-trip");
    }
}

#[test]
fn dither_is_deterministic_from_the_seed() {
    let img =
        Frame::from_shape_fn((16, 16, 1), |(y, x, _)| (y * 16 + x) as f32 / 256.0);
    let p = QuantizeParams::new(Dither::Tpdf, 12345);
    let a = quantize_u8(&img, &p).unwrap();
    let b = quantize_u8(&img, &p).unwrap();
    assert_eq!(a, b, "same seed must give the same bytes");

    let c = quantize_u8(&img, &QuantizeParams::new(Dither::Tpdf, 12346)).unwrap();
    assert_ne!(a, c, "a different seed must give a different pattern");
}

#[test]
fn dither_moves_codes_by_at_most_one() {
    let img = Frame::from_shape_fn((32, 32, 1), |(y, x, _)| {
        ((y * 32 + x) % 256) as f32 / 255.0
    });
    let plain = quantize_u8(&img, &QuantizeParams::default()).unwrap();
    let dithered = quantize_u8(&img, &QuantizeParams::new(Dither::Tpdf, 7)).unwrap();
    for (p, d) in plain.iter().zip(dithered.iter()) {
        let delta = i32::from(*d) - i32::from(*p);
        assert!(
            delta.abs() <= 1,
            "dither must stay within one code: {p} -> {d}"
        );
    }
}

#[test]
fn dither_breaks_up_banding() {
    let img = Frame::from_shape_fn((1, 256, 1), |(_, x, _)| {
        (100.0 + x as f32 / 255.0) / 255.0
    });
    let plain = quantize_u8(&img, &QuantizeParams::default()).unwrap();
    let dithered = quantize_u8(&img, &QuantizeParams::new(Dither::Tpdf, 99)).unwrap();

    let plain_transitions = plain
        .iter()
        .zip(plain.iter().skip(1))
        .filter(|(a, b)| a != b)
        .count();
    let dithered_transitions = dithered
        .iter()
        .zip(dithered.iter().skip(1))
        .filter(|(a, b)| a != b)
        .count();

    assert!(
        plain_transitions <= 1,
        "plain rounding should give one hard step, got {plain_transitions}"
    );
    assert!(
        dithered_transitions > 20,
        "dither should disperse the step into many, got {dithered_transitions}"
    );
}

#[test]
fn dither_preserves_the_mean() {
    let img = Frame::from_elem((64, 64, 1), 0.5019608);
    let plain = quantize_u8(&img, &QuantizeParams::default()).unwrap();
    let dithered = quantize_u8(&img, &QuantizeParams::new(Dither::Tpdf, 4)).unwrap();
    let mean = |a: &Codes<u8>| a.iter().map(|v| f64::from(*v)).sum::<f64>() / a.codes.len() as f64;
    assert!(
        (mean(&dithered) - mean(&plain)).abs() < 0.05,
        "dither must be zero-mean: {} vs {}",
        mean(&dithered),
        mean(&plain)
    );
}

#[test]
fn dither_none_ignores_the_seed() {
    let img = Frame::from_shape_fn((8, 8, 1), |(y, x, _)| (y + x) as f32 / 16.0);
    let a = quantize_u8(&img, &QuantizeParams::new(Dither::Off, 1)).unwrap();
    let b = quantize_u8(&img, &QuantizeParams::new(Dither::Off, 999)).unwrap();
    assert_eq!(a, b);
}

#[test]
fn quantize_accepts_any_layout_and_channel_count() {
    let img = Frame::from_shape_fn((6, 9, 3), |(y, x, c)| {
        ((y * 9 + x) * 3 + c) as f32 / 200.0
    });
    let strided = Frame::of(&img.strided(2, 3));
    let owned = img.every(2, 3);
    let p = QuantizeParams::new(Dither::Tpdf, 5);
    let a = quantize_u8(&strided, &p).unwrap();
    let b = quantize_u8(&owned, &p).unwrap();
    assert_eq!(a, b, "layout must not change the result");
}

#[test]
fn quantize_empty_input_is_accepted() {
    let img = Frame::zeros((0, 4, 3));
    assert_eq!(
        quantize_u8(&img, &QuantizeParams::default())
            .unwrap()
            .dim(),
        (0, 4, 3)
    );
    assert_eq!(
        quantize_u16(&img, &QuantizeParams::default())
            .unwrap()
            .dim(),
        (0, 4, 3)
    );
}

#[test]
fn quantize_params_equality_and_repr() {
    let a = QuantizeParams::new(Dither::Tpdf, 7);
    assert!(a.__eq__(&QuantizeParams::new(Dither::Tpdf, 7)));
    assert!(!a.__eq__(&QuantizeParams::new(Dither::Off, 7)));
    assert!(!a.__eq__(&QuantizeParams::new(Dither::Tpdf, 8)));
    assert_eq!(a.__repr__(), "QuantizeParams(dither=Dither.Tpdf, seed=7)");
    assert_eq!(QuantizeParams::default().dither, Dither::Off);
}

#[test]
fn dither_is_bounded_centred_and_triangular() {
    let n = 400_000;
    let mut sum = 0.0_f64;
    let mut sum_sq = 0.0_f64;
    for i in 0..n {
        let d = f64::from(triangular(pixel_hash(42, i as u64, 0)));
        assert!((-1.0..=1.0).contains(&d), "dither out of range: {d}");
        sum += d;
        sum_sq += d * d;
    }
    let mean = sum / f64::from(n);
    let variance = sum_sq / f64::from(n) - mean * mean;

    assert!(mean.abs() < 0.005, "dither mean should be ~0, got {mean}");
    assert!(
        (variance - 1.0 / 6.0).abs() < 0.01,
        "dither variance should be 1/6 = 0.1667 (triangular); got {variance:.4}. \
         0.333 would mean a uniform deviate, which does not decorrelate \
         the quantisation error the way TPDF does."
    );
}

#[test]
fn a_code_is_the_scaled_sample_plus_its_dither() {
    let code = |v: f32, dither: f32, max: u32| {
        f32::from_bits(quantize_sample::<Ieee>(b(v), b(dither), max))
    };
    assert_eq!(f32::from_bits(MAX_CODE8), 255.0);
    assert_eq!(f32::from_bits(MAX_CODE16), 65535.0);
    assert_eq!(code(0.5, 0.0, MAX_CODE8), 128.0);
    assert_eq!(code(0.5, -0.9, MAX_CODE8), 127.0);
    assert_eq!(code(1.0, 0.9, MAX_CODE8), 255.0);
    assert_eq!(code(0.25, 0.0, MAX_CODE16), 16384.0);
}

#[test]
fn the_widest_dither_moves_a_code_by_one() {
    let widest = triangular((0xFF_FFFF << 40) | (0xFF_FFFF << 16));
    assert_eq!(widest, 1.0 - 0.5_f32.powi(23));
    assert_eq!(triangular(0), -1.0);
    for max in [MAX_CODE8, MAX_CODE16] {
        let top = f32::from_bits(max);
        for n in [0.0_f32, 1.0, 2.0, 3.0, 63.0, 64.0, 127.0, 128.0, top - 1.0, top] {
            for edge in [n + 0.5, f32::from_bits((n + 0.5).to_bits() - 1)] {
                let v = b(edge / top);
                let plain = f32::from_bits(quantize_sample::<Ieee>(v, 0, max));
                for dither in [-1.0, -0.5, 0.5, widest] {
                    let moved = f32::from_bits(quantize_sample::<Ieee>(v, b(dither), max));
                    assert!((moved - plain).abs() <= 1.0, "{edge} + {dither}: {plain} -> {moved}");
                }
            }
        }
    }
}
