//! Exposure.

#![allow(dead_code)]

use phaios_core::arith::Arithmetic;
use phaios_core::allocation::image_from_samples;
use phaios_core::error::PhaiosError;
use phaios_core::raster::Image;

/// The host's own arithmetic.
struct Ieee;

fn s(a: u32) -> f32 {
    f32::from_bits(a)
}

fn d(a: u64) -> f64 {
    f64::from_bits(a)
}

impl Arithmetic for Ieee {
    fn plus(a: u32, b: u32) -> u32 {
        (s(a) + s(b)).to_bits()
    }
    fn minus(a: u32, b: u32) -> u32 {
        (s(a) - s(b)).to_bits()
    }
    fn times(a: u32, b: u32) -> u32 {
        (s(a) * s(b)).to_bits()
    }
    fn over(a: u32, b: u32) -> u32 {
        (s(a) / s(b)).to_bits()
    }
    fn remainder(a: u32, b: u32) -> u32 {
        (s(a) % s(b)).to_bits()
    }
    fn root(a: u32) -> u32 {
        s(a).sqrt().to_bits()
    }
    fn floor(a: u32) -> u32 {
        s(a).floor().to_bits()
    }
    fn ceil(a: u32) -> u32 {
        s(a).ceil().to_bits()
    }
    fn round(a: u32) -> u32 {
        s(a).round().to_bits()
    }
    fn power(a: u32, b: u32) -> u32 {
        s(a).powf(s(b)).to_bits()
    }
    fn exp(a: u32) -> u32 {
        s(a).exp().to_bits()
    }
    fn ln(a: u32) -> u32 {
        s(a).ln().to_bits()
    }
    fn cos(a: u32) -> u32 {
        s(a).cos().to_bits()
    }
    fn of_count(n: u64) -> u32 {
        (n as f32).to_bits()
    }
    fn of_offset(n: i64) -> u32 {
        (n as f32).to_bits()
    }
    fn to_count(a: u32) -> u64 {
        s(a) as u64
    }
    fn to_offset(a: u32) -> i64 {
        s(a) as i64
    }
    fn widen(a: u32) -> u64 {
        f64::from(s(a)).to_bits()
    }
    fn narrow(a: u64) -> u32 {
        (d(a) as f32).to_bits()
    }
    fn plus64(a: u64, b: u64) -> u64 {
        (d(a) + d(b)).to_bits()
    }
    fn minus64(a: u64, b: u64) -> u64 {
        (d(a) - d(b)).to_bits()
    }
    fn times64(a: u64, b: u64) -> u64 {
        (d(a) * d(b)).to_bits()
    }
    fn over64(a: u64, b: u64) -> u64 {
        (d(a) / d(b)).to_bits()
    }
    fn root64(a: u64) -> u64 {
        d(a).sqrt().to_bits()
    }
    fn floor64(a: u64) -> u64 {
        d(a).floor().to_bits()
    }
    fn exp64(a: u64) -> u64 {
        d(a).exp().to_bits()
    }
    fn sin64(a: u64) -> u64 {
        d(a).sin().to_bits()
    }
    fn cos64(a: u64) -> u64 {
        d(a).cos().to_bits()
    }
    fn radians64(a: u64) -> u64 {
        d(a).to_radians().to_bits()
    }
    fn of_count64(n: u64) -> u64 {
        (n as f64).to_bits()
    }
    fn to_count64(a: u64) -> u64 {
        d(a) as u64
    }
    fn text(a: u32) -> String {
        format!("{}", s(a))
    }
    fn debug_text(a: u32) -> String {
        format!("{:?}", s(a))
    }
}

/// The bits of a number, as parameters take it.
fn b(v: f32) -> u32 {
    v.to_bits()
}

/// An image with its samples as numbers.
#[derive(Clone, Debug, PartialEq)]
struct Frame {
    shape: (usize, usize, usize),
    samples: Vec<f32>,
}

impl Frame {
    fn from_shape_fn<F: Fn((usize, usize, usize)) -> f32>(
        shape: (usize, usize, usize),
        f: F,
    ) -> Frame {
        let mut samples = Vec::new();
        for y in 0..shape.0 {
            for x in 0..shape.1 {
                for k in 0..shape.2 {
                    samples.push(f((y, x, k)));
                }
            }
        }
        Frame { shape, samples }
    }

    fn from_elem(shape: (usize, usize, usize), v: f32) -> Frame {
        Frame::from_shape_fn(shape, |_| v)
    }

    fn zeros(shape: (usize, usize, usize)) -> Frame {
        Frame::from_elem(shape, 0.0)
    }

    fn of(img: &Image) -> Frame {
        Frame::from_shape_fn(img.dim(), |(y, x, k)| f32::from_bits(img.get(y, x, k).unwrap()))
    }

    fn image(&self) -> Image {
        let bits: Vec<u32> = self.samples.iter().map(|v| v.to_bits()).collect();
        image_from_samples(self.shape, bits).unwrap()
    }

    fn dim(&self) -> (usize, usize, usize) {
        self.shape
    }

    fn iter(&self) -> std::slice::Iter<'_, f32> {
        self.samples.iter()
    }

    fn bits(&self) -> Vec<u32> {
        self.samples.iter().map(|v| v.to_bits()).collect()
    }

    /// Every `dy`-th row and every `dx`-th column, through a strided view.
    fn strided(&self, dy: isize, dx: isize) -> Image {
        let array = ndarray::Array3::from_shape_vec(self.shape, self.samples.clone()).unwrap();
        let rows = array.slice_axis(ndarray::Axis(0), ndarray::Slice::new(0, None, dy));
        let view = rows.slice_axis(ndarray::Axis(1), ndarray::Slice::new(0, None, dx));
        let bits: Vec<u32> = view.iter().map(|v| v.to_bits()).collect();
        image_from_samples(view.dim(), bits).unwrap()
    }

    /// Every `dy`-th row and every `dx`-th column.
    fn every(&self, dy: usize, dx: usize) -> Frame {
        let (h, w, c) = self.shape;
        Frame::from_shape_fn((h.div_ceil(dy), w.div_ceil(dx), c), |(y, x, k)| {
            self[[y * dy, x * dx, k]]
        })
    }
}

impl std::ops::Index<[usize; 3]> for Frame {
    type Output = f32;

    fn index(&self, at: [usize; 3]) -> &f32 {
        let [y, x, k] = at;
        let (h, w, c) = self.shape;
        assert!(y < h && x < w && k < c);
        &self.samples[(y * w + x) * c + k]
    }
}

impl std::ops::IndexMut<[usize; 3]> for Frame {
    fn index_mut(&mut self, at: [usize; 3]) -> &mut f32 {
        let [y, x, k] = at;
        let (h, w, c) = self.shape;
        assert!(y < h && x < w && k < c);
        &mut self.samples[(y * w + x) * c + k]
    }
}

fn pixel(samples: &[f32]) -> Frame {
    Frame { shape: (1, 1, samples.len()), samples: samples.to_vec() }
}

fn exposure(img: &Frame, stops: f32) -> Result<Frame, PhaiosError> {
    phaios_core::exposure::exposure::<Ieee>(&img.image(), b(stops)).map(|out| Frame::of(&out))
}

#[test]
fn one_stop_doubles() {
    let img = pixel(&[0.18_f32, 0.5, 1.0]);
    let out = exposure(&img, 1.0).unwrap();
    assert!((out[[0, 0, 0]] - 0.36).abs() < 1e-6);
    assert!((out[[0, 0, 1]] - 1.0).abs() < 1e-6);
    assert!((out[[0, 0, 2]] - 2.0).abs() < 1e-6);
}

#[test]
fn minus_one_stop_halves() {
    let img = pixel(&[0.36_f32]);
    let out = exposure(&img, -1.0).unwrap();
    assert!((out[[0, 0, 0]] - 0.18).abs() < 1e-6);
}

#[test]
fn zero_stops_is_identity() {
    let img = Frame::from_shape_fn((4, 4, 3), |(y, x, c)| (y + x + c) as f32 / 10.0);
    let out = exposure(&img, 0.0).unwrap();
    assert_eq!(out, img);
}

#[test]
fn highlights_are_not_clipped() {
    let img = pixel(&[0.9_f32]);
    let out = exposure(&img, 2.0).unwrap();
    assert!(
        (out[[0, 0, 0]] - 3.6).abs() < 1e-5,
        "got {}",
        out[[0, 0, 0]]
    );
}

#[test]
fn stops_compose_additively() {
    let img = Frame::from_elem((8, 8, 1), 0.1_f32);
    let stepwise = exposure(&exposure(&img, 1.0).unwrap(), 2.0).unwrap();
    let direct = exposure(&img, 3.0).unwrap();
    for (&a, &b) in stepwise.iter().zip(direct.iter()) {
        assert!((a - b).abs() < 1e-6, "{a} vs {b}");
    }
}

#[test]
fn exposure_accepts_any_layout_and_channel_count() {
    let img = Frame::from_shape_fn((6, 4, 3), |(y, x, c)| (y * 12 + x * 3 + c) as f32);
    let strided = Frame::of(&img.strided(2, 1));
    let out = exposure(&strided, 1.0).unwrap();
    assert_eq!(out.dim(), (3, 4, 3));
    assert_eq!(out, exposure(&img.every(2, 1), 1.0).unwrap());

    assert!(exposure(&Frame::zeros((2, 2, 1)), 0.5).is_ok());
}

#[test]
fn rejects_non_finite_stops() {
    let img = pixel(&[0.5_f32]);
    for bad in [f32::NAN, f32::INFINITY, f32::NEG_INFINITY] {
        assert!(matches!(
            exposure(&img, bad).unwrap_err(),
            PhaiosError::Parameter(_)
        ));
    }
}

#[test]
fn doubling_is_exact_and_overflows_to_infinity() {
    let samples = [1e-45_f32, 3e-39, 0.1, -0.7, 1.5e38, 1.8e38, -3e38];
    let img = Frame { shape: (1, 7, 1), samples: samples.to_vec() };
    let out = exposure(&img, 1.0).unwrap();
    for (v, w) in samples.iter().zip(out.iter()) {
        assert_eq!(*w, v * 2.0);
    }
    assert_eq!(out[[0, 5, 0]], f32::INFINITY);
    assert_eq!(out[[0, 6, 0]], f32::NEG_INFINITY);
}
