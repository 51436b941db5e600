//! Display encoding.

#![allow(dead_code)]

use phaios_core::arith::Arithmetic;
use phaios_core::allocation::image_from_samples;
use phaios_core::encode::THRESHOLD;
use phaios_core::error::PhaiosError;
use phaios_core::raster::Image;

/// The host's own arithmetic.
struct Ieee;

fn s(a: u32) -> f32 {
    f32::from_bits(a)
}

fn d(a: u64) -> f64 {
    f64::from_bits(a)
}

impl Arithmetic for Ieee {
    fn plus(a: u32, b: u32) -> u32 {
        (s(a) + s(b)).to_bits()
    }
    fn minus(a: u32, b: u32) -> u32 {
        (s(a) - s(b)).to_bits()
    }
    fn times(a: u32, b: u32) -> u32 {
        (s(a) * s(b)).to_bits()
    }
    fn over(a: u32, b: u32) -> u32 {
        (s(a) / s(b)).to_bits()
    }
    fn remainder(a: u32, b: u32) -> u32 {
        (s(a) % s(b)).to_bits()
    }
    fn root(a: u32) -> u32 {
        s(a).sqrt().to_bits()
    }
    fn floor(a: u32) -> u32 {
        s(a).floor().to_bits()
    }
    fn ceil(a: u32) -> u32 {
        s(a).ceil().to_bits()
    }
    fn round(a: u32) -> u32 {
        s(a).round().to_bits()
    }
    fn power(a: u32, b: u32) -> u32 {
        s(a).powf(s(b)).to_bits()
    }
    fn exp(a: u32) -> u32 {
        s(a).exp().to_bits()
    }
    fn ln(a: u32) -> u32 {
        s(a).ln().to_bits()
    }
    fn cos(a: u32) -> u32 {
        s(a).cos().to_bits()
    }
    fn of_count(n: u64) -> u32 {
        (n as f32).to_bits()
    }
    fn of_offset(n: i64) -> u32 {
        (n as f32).to_bits()
    }
    fn to_count(a: u32) -> u64 {
        s(a) as u64
    }
    fn to_offset(a: u32) -> i64 {
        s(a) as i64
    }
    fn widen(a: u32) -> u64 {
        f64::from(s(a)).to_bits()
    }
    fn narrow(a: u64) -> u32 {
        (d(a) as f32).to_bits()
    }
    fn plus64(a: u64, b: u64) -> u64 {
        (d(a) + d(b)).to_bits()
    }
    fn minus64(a: u64, b: u64) -> u64 {
        (d(a) - d(b)).to_bits()
    }
    fn times64(a: u64, b: u64) -> u64 {
        (d(a) * d(b)).to_bits()
    }
    fn over64(a: u64, b: u64) -> u64 {
        (d(a) / d(b)).to_bits()
    }
    fn root64(a: u64) -> u64 {
        d(a).sqrt().to_bits()
    }
    fn floor64(a: u64) -> u64 {
        d(a).floor().to_bits()
    }
    fn exp64(a: u64) -> u64 {
        d(a).exp().to_bits()
    }
    fn sin64(a: u64) -> u64 {
        d(a).sin().to_bits()
    }
    fn cos64(a: u64) -> u64 {
        d(a).cos().to_bits()
    }
    fn radians64(a: u64) -> u64 {
        d(a).to_radians().to_bits()
    }
    fn of_count64(n: u64) -> u64 {
        (n as f64).to_bits()
    }
    fn to_count64(a: u64) -> u64 {
        d(a) as u64
    }
    fn text(a: u32) -> String {
        format!("{}", s(a))
    }
    fn debug_text(a: u32) -> String {
        format!("{:?}", s(a))
    }
}

/// The bits of a number, as parameters take it.
fn b(v: f32) -> u32 {
    v.to_bits()
}

/// An image with its samples as numbers.
#[derive(Clone, Debug, PartialEq)]
struct Frame {
    shape: (usize, usize, usize),
    samples: Vec<f32>,
}

impl Frame {
    fn from_shape_fn<F: Fn((usize, usize, usize)) -> f32>(
        shape: (usize, usize, usize),
        f: F,
    ) -> Frame {
        let mut samples = Vec::new();
        for y in 0..shape.0 {
            for x in 0..shape.1 {
                for k in 0..shape.2 {
                    samples.push(f((y, x, k)));
                }
            }
        }
        Frame { shape, samples }
    }

    fn from_elem(shape: (usize, usize, usize), v: f32) -> Frame {
        Frame::from_shape_fn(shape, |_| v)
    }

    fn zeros(shape: (usize, usize, usize)) -> Frame {
        Frame::from_elem(shape, 0.0)
    }

    fn of(img: &Image) -> Frame {
        Frame::from_shape_fn(img.dim(), |(y, x, k)| f32::from_bits(img.get(y, x, k).unwrap()))
    }

    fn image(&self) -> Image {
        let bits: Vec<u32> = self.samples.iter().map(|v| v.to_bits()).collect();
        image_from_samples(self.shape, bits).unwrap()
    }

    fn dim(&self) -> (usize, usize, usize) {
        self.shape
    }

    fn iter(&self) -> std::slice::Iter<'_, f32> {
        self.samples.iter()
    }

    fn bits(&self) -> Vec<u32> {
        self.samples.iter().map(|v| v.to_bits()).collect()
    }

    /// Every `dy`-th row and every `dx`-th column, through a strided view.
    fn strided(&self, dy: isize, dx: isize) -> Image {
        let array = ndarray::Array3::from_shape_vec(self.shape, self.samples.clone()).unwrap();
        let rows = array.slice_axis(ndarray::Axis(0), ndarray::Slice::new(0, None, dy));
        let view = rows.slice_axis(ndarray::Axis(1), ndarray::Slice::new(0, None, dx));
        let bits: Vec<u32> = view.iter().map(|v| v.to_bits()).collect();
        image_from_samples(view.dim(), bits).unwrap()
    }

    /// Every `dy`-th row and every `dx`-th column.
    fn every(&self, dy: usize, dx: usize) -> Frame {
        let (h, w, c) = self.shape;
        Frame::from_shape_fn((h.div_ceil(dy), w.div_ceil(dx), c), |(y, x, k)| {
            self[[y * dy, x * dx, k]]
        })
    }
}

impl std::ops::Index<[usize; 3]> for Frame {
    type Output = f32;

    fn index(&self, at: [usize; 3]) -> &f32 {
        let [y, x, k] = at;
        let (h, w, c) = self.shape;
        assert!(y < h && x < w && k < c);
        &self.samples[(y * w + x) * c + k]
    }
}

impl std::ops::IndexMut<[usize; 3]> for Frame {
    fn index_mut(&mut self, at: [usize; 3]) -> &mut f32 {
        let [y, x, k] = at;
        let (h, w, c) = self.shape;
        assert!(y < h && x < w && k < c);
        &mut self.samples[(y * w + x) * c + k]
    }
}

fn encode_pixel(x: f32) -> f32 {
    f32::from_bits(phaios_core::encode::encode_pixel::<Ieee>(b(x)))
}

fn encode_srgb(img: &Frame) -> Result<Frame, PhaiosError> {
    phaios_core::encode::encode_srgb::<Ieee>(&img.image()).map(|out| Frame::of(&out))
}

#[test]
fn srgb_encode_zero_is_zero() {
    assert_eq!(encode_pixel(0.0), 0.0);
}

#[test]
fn srgb_encode_one_is_one() {
    let v = encode_pixel(1.0);
    assert!((v - 1.0).abs() < 1e-5, "encode(1.0) = {v}");
}

#[test]
fn srgb_encode_monotonic() {
    let n = 10_000_usize;
    let mut prev = encode_pixel(0.0);
    for i in 1..=n {
        let x = i as f32 / n as f32;
        let y = encode_pixel(x);
        assert!(
            y >= prev,
            "encode not monotonic at x={x}: encode({})={prev} > encode({x})={y}",
            (i - 1) as f32 / n as f32
        );
        prev = y;
    }
}

#[test]
fn encode_accepts_non_contiguous_input() {
    let img =
        Frame::from_shape_fn((6, 4, 3), |(y, x, c)| (y * 12 + x * 3 + c) as f32 / 72.0);
    let strided = Frame::of(&img.strided(2, 1));

    let out = encode_srgb(&strided).unwrap();
    assert_eq!(out.dim(), (3, 4, 3));
    assert_eq!(out, encode_srgb(&img.every(2, 1)).unwrap());
}

#[test]
fn negative_input_stays_negative() {
    let img = Frame::from_elem((2, 2, 1), -0.05_f32);
    let out = encode_srgb(&img).unwrap();
    for &v in out.iter() {
        assert!(v.is_finite(), "negative input produced {v}");
        assert!((v - 12.92 * -0.05).abs() < 1e-6, "got {v}");
    }
}

#[test]
fn srgb_c0_continuous_at_threshold() {
    let below = encode_pixel(f32::from_bits(THRESHOLD));
    let above = encode_pixel(f32::from_bits(THRESHOLD) * (1.0 + 1e-5));
    assert!(
        (above - below).abs() < 1e-5,
        "discontinuity at threshold: below={below}, above={above}, diff={}",
        (above - below).abs()
    );
}

#[test]
fn the_threshold_is_the_standard_one() {
    assert_eq!(f32::from_bits(THRESHOLD), 0.0031308);
    assert_eq!(encode_pixel(0.002), 12.92_f32 * 0.002);
    assert!((encode_pixel(0.5) - 0.735_357).abs() < 1e-5);
}
