//! Lookup tables.

#![allow(dead_code)]

use phaios_core::arith::Arithmetic;
use phaios_core::allocation::image_from_samples;
use phaios_core::error::PhaiosError;
use phaios_core::lut::LutParams;
use phaios_core::raster::Image;

/// The host's own arithmetic.
struct Ieee;

fn s(a: u32) -> f32 {
    f32::from_bits(a)
}

fn d(a: u64) -> f64 {
    f64::from_bits(a)
}

impl Arithmetic for Ieee {
    fn plus(a: u32, b: u32) -> u32 {
        (s(a) + s(b)).to_bits()
    }
    fn minus(a: u32, b: u32) -> u32 {
        (s(a) - s(b)).to_bits()
    }
    fn times(a: u32, b: u32) -> u32 {
        (s(a) * s(b)).to_bits()
    }
    fn over(a: u32, b: u32) -> u32 {
        (s(a) / s(b)).to_bits()
    }
    fn remainder(a: u32, b: u32) -> u32 {
        (s(a) % s(b)).to_bits()
    }
    fn root(a: u32) -> u32 {
        s(a).sqrt().to_bits()
    }
    fn floor(a: u32) -> u32 {
        s(a).floor().to_bits()
    }
    fn ceil(a: u32) -> u32 {
        s(a).ceil().to_bits()
    }
    fn round(a: u32) -> u32 {
        s(a).round().to_bits()
    }
    fn power(a: u32, b: u32) -> u32 {
        s(a).powf(s(b)).to_bits()
    }
    fn exp(a: u32) -> u32 {
        s(a).exp().to_bits()
    }
    fn ln(a: u32) -> u32 {
        s(a).ln().to_bits()
    }
    fn cos(a: u32) -> u32 {
        s(a).cos().to_bits()
    }
    fn of_count(n: u64) -> u32 {
        (n as f32).to_bits()
    }
    fn of_offset(n: i64) -> u32 {
        (n as f32).to_bits()
    }
    fn to_count(a: u32) -> u64 {
        s(a) as u64
    }
    fn to_offset(a: u32) -> i64 {
        s(a) as i64
    }
    fn widen(a: u32) -> u64 {
        f64::from(s(a)).to_bits()
    }
    fn narrow(a: u64) -> u32 {
        (d(a) as f32).to_bits()
    }
    fn plus64(a: u64, b: u64) -> u64 {
        (d(a) + d(b)).to_bits()
    }
    fn minus64(a: u64, b: u64) -> u64 {
        (d(a) - d(b)).to_bits()
    }
    fn times64(a: u64, b: u64) -> u64 {
        (d(a) * d(b)).to_bits()
    }
    fn over64(a: u64, b: u64) -> u64 {
        (d(a) / d(b)).to_bits()
    }
    fn root64(a: u64) -> u64 {
        d(a).sqrt().to_bits()
    }
    fn floor64(a: u64) -> u64 {
        d(a).floor().to_bits()
    }
    fn exp64(a: u64) -> u64 {
        d(a).exp().to_bits()
    }
    fn sin64(a: u64) -> u64 {
        d(a).sin().to_bits()
    }
    fn cos64(a: u64) -> u64 {
        d(a).cos().to_bits()
    }
    fn radians64(a: u64) -> u64 {
        d(a).to_radians().to_bits()
    }
    fn of_count64(n: u64) -> u64 {
        (n as f64).to_bits()
    }
    fn to_count64(a: u64) -> u64 {
        d(a) as u64
    }
    fn text(a: u32) -> String {
        format!("{}", s(a))
    }
    fn debug_text(a: u32) -> String {
        format!("{:?}", s(a))
    }
}

/// The bits of a number, as parameters take it.
fn b(v: f32) -> u32 {
    v.to_bits()
}

/// An image with its samples as numbers.
#[derive(Clone, Debug, PartialEq)]
struct Frame {
    shape: (usize, usize, usize),
    samples: Vec<f32>,
}

impl Frame {
    fn from_shape_fn<F: Fn((usize, usize, usize)) -> f32>(
        shape: (usize, usize, usize),
        f: F,
    ) -> Frame {
        let mut samples = Vec::new();
        for y in 0..shape.0 {
            for x in 0..shape.1 {
                for k in 0..shape.2 {
                    samples.push(f((y, x, k)));
                }
            }
        }
        Frame { shape, samples }
    }

    fn from_elem(shape: (usize, usize, usize), v: f32) -> Frame {
        Frame::from_shape_fn(shape, |_| v)
    }

    fn zeros(shape: (usize, usize, usize)) -> Frame {
        Frame::from_elem(shape, 0.0)
    }

    fn of(img: &Image) -> Frame {
        Frame::from_shape_fn(img.dim(), |(y, x, k)| f32::from_bits(img.get(y, x, k).unwrap()))
    }

    fn image(&self) -> Image {
        let bits: Vec<u32> = self.samples.iter().map(|v| v.to_bits()).collect();
        image_from_samples(self.shape, bits).unwrap()
    }

    fn dim(&self) -> (usize, usize, usize) {
        self.shape
    }

    fn iter(&self) -> std::slice::Iter<'_, f32> {
        self.samples.iter()
    }

    fn bits(&self) -> Vec<u32> {
        self.samples.iter().map(|v| v.to_bits()).collect()
    }

    /// Every `dy`-th row and every `dx`-th column, through a strided view.
    fn strided(&self, dy: isize, dx: isize) -> Image {
        let array = ndarray::Array3::from_shape_vec(self.shape, self.samples.clone()).unwrap();
        let rows = array.slice_axis(ndarray::Axis(0), ndarray::Slice::new(0, None, dy));
        let view = rows.slice_axis(ndarray::Axis(1), ndarray::Slice::new(0, None, dx));
        let bits: Vec<u32> = view.iter().map(|v| v.to_bits()).collect();
        image_from_samples(view.dim(), bits).unwrap()
    }

    /// Every `dy`-th row and every `dx`-th column.
    fn every(&self, dy: usize, dx: usize) -> Frame {
        let (h, w, c) = self.shape;
        Frame::from_shape_fn((h.div_ceil(dy), w.div_ceil(dx), c), |(y, x, k)| {
            self[[y * dy, x * dx, k]]
        })
    }
}

impl std::ops::Index<[usize; 3]> for Frame {
    type Output = f32;

    fn index(&self, at: [usize; 3]) -> &f32 {
        let [y, x, k] = at;
        let (h, w, c) = self.shape;
        assert!(y < h && x < w && k < c);
        &self.samples[(y * w + x) * c + k]
    }
}

impl std::ops::IndexMut<[usize; 3]> for Frame {
    fn index_mut(&mut self, at: [usize; 3]) -> &mut f32 {
        let [y, x, k] = at;
        let (h, w, c) = self.shape;
        assert!(y < h && x < w && k < c);
        &mut self.samples[(y * w + x) * c + k]
    }
}

fn pixel(samples: &[f32]) -> Frame {
    Frame { shape: (1, 1, samples.len()), samples: samples.to_vec() }
}

fn lut_params(min: f32, max: f32) -> LutParams {
    LutParams::new(b(min), b(max))
}

fn apply_lut(img: &Frame, lut: &Vec<f32>, params: &LutParams) -> Result<Frame, PhaiosError> {
    let entries: Vec<u32> = lut.iter().map(|v| v.to_bits()).collect();
    phaios_core::lut::apply_lut::<Ieee>(&img.image(), &entries, params).map(|out| Frame::of(&out))
}

fn identity_lut(n: usize) -> Vec<f32> {
    (0..n).map(|i| i as f32 / (n - 1) as f32).collect()
}

fn apply(v: f32, lut: &Vec<f32>, min: f32, max: f32) -> f32 {
    apply_lut(&pixel(&[v]), &lut, &lut_params(min, max)).unwrap()[[0, 0, 0]]
}

#[test]
fn an_identity_table_is_the_identity() {
    let lut = identity_lut(256);
    for i in 0..256 {
        let v = i as f32 / 255.0;
        let got = apply(v, &lut, 0.0, 1.0);
        assert!((got - v).abs() < 1e-6, "identity table moved {v} to {got}");
    }
}

#[test]
fn endpoints_hit_the_end_entries_exactly() {
    let lut = vec![0.25_f32, 0.5, 0.75];
    assert_eq!(apply(0.0, &lut, 0.0, 1.0), 0.25);
    assert_eq!(apply(1.0, &lut, 0.0, 1.0), 0.75);
    assert_eq!(apply(0.5, &lut, 0.0, 1.0), 0.5, "the middle knot");
}

#[test]
fn interpolation_is_linear_between_knots() {
    let lut = vec![0.0_f32, 1.0];
    for (v, want) in [
        (0.0, 0.0),
        (0.25, 0.25),
        (0.5, 0.5),
        (0.75, 0.75),
        (1.0, 1.0),
    ] {
        let got = apply(v, &lut, 0.0, 1.0);
        assert!((got - want).abs() < 1e-6, "at {v}: got {got}, want {want}");
    }
}

#[test]
fn outside_the_domain_clamps_rather_than_extrapolating() {
    let lut = vec![0.2_f32, 0.8];
    assert_eq!(apply(-5.0, &lut, 0.0, 1.0), 0.2);
    assert_eq!(apply(5.0, &lut, 0.0, 1.0), 0.8);
    assert_eq!(apply(f32::NEG_INFINITY, &lut, 0.0, 1.0), 0.2);
    assert_eq!(apply(f32::INFINITY, &lut, 0.0, 1.0), 0.8);
}

#[test]
fn nan_propagates_rather_than_being_invented_away() {
    let lut = identity_lut(16);
    assert!(apply(f32::NAN, &lut, 0.0, 1.0).is_nan());
}

#[test]
fn a_non_monotone_table_is_allowed() {
    let lut: Vec<f32> = (0..256)
        .map(|i| {
        let t = i as f32 / 255.0;
        if t < 0.5 { t * 2.0 } else { (1.0 - t) * 2.0 }
        })
        .collect();
    assert!(
        apply_lut(
            &Frame::from_elem((4, 4, 1), 0.75),
            &lut,
            &LutParams::default()
        )
        .is_ok()
    );
    let low = apply(0.25, &lut, 0.0, 1.0);
    let high = apply(0.75, &lut, 0.0, 1.0);
    assert!(
        (low - high).abs() < 1e-3,
        "the fold should be symmetric: {low} vs {high}"
    );
}

#[test]
fn a_custom_domain_rescales_the_table() {
    let lut = vec![0.0_f32, 1.0];
    assert!((apply(2.0, &lut, 0.0, 4.0) - 0.5).abs() < 1e-6);
    assert_eq!(apply(4.0, &lut, 0.0, 4.0), 1.0);
    assert_eq!(apply(0.0, &lut, 0.0, 4.0), 0.0);
}

#[test]
fn two_entry_and_large_tables_both_work() {
    for n in [2_usize, 3, 17, 256, 4096, 65536] {
        let lut = identity_lut(n);
        let got = apply(0.5, &lut, 0.0, 1.0);
        assert!((got - 0.5).abs() < 1e-4, "n={n}: 0.5 -> {got}");
    }
}

#[test]
fn accepts_any_layout_and_a_strided_table() {
    let img = Frame::from_shape_fn((10, 14, 3), |(y, x, c)| {
        ((y * 14 + x + c) % 100) as f32 / 99.0
    });
    let lut = identity_lut(64);
    let strided_img = Frame::of(&img.strided(2, 3));
    let owned_img = img.every(2, 3);
    let p = LutParams::default();
    assert_eq!(
        apply_lut(&strided_img, &lut, &p).unwrap(),
        apply_lut(&owned_img, &lut, &p).unwrap()
    );

    let wide = identity_lut(128);
    let table = ndarray::Array1::from_vec(wide.clone());
    let strided_lut: Vec<f32> =
        table.slice_axis(ndarray::Axis(0), ndarray::Slice::new(0, None, 2)).iter().copied().collect();
    let compact: Vec<f32> = wide.iter().step_by(2).copied().collect();
    assert_eq!(
        apply_lut(&img, &strided_lut, &p).unwrap(),
        apply_lut(&img, &compact, &p).unwrap()
    );
}

#[test]
fn empty_image_is_accepted() {
    let lut = identity_lut(8);
    let img = Frame::zeros((0, 3, 1));
    assert_eq!(
        apply_lut(&img, &lut, &LutParams::default())
            .unwrap()
            .dim(),
        (0, 3, 1)
    );
}

#[test]
fn rejects_bad_tables_and_domains() {
    let img = pixel(&[0.5_f32]);
    let good = identity_lut(8);

    assert!(apply_lut(&img, &vec![0.5_f32], &LutParams::default()).is_err());
    assert!(
        apply_lut(
            &img,
            &Vec::new(),
            &LutParams::default()
        )
        .is_err()
    );
    assert!(
        apply_lut(
            &img,
            &vec![0.0_f32, f32::NAN],
            &LutParams::default()
        )
        .is_err()
    );
    assert!(
        apply_lut(
            &img,
            &vec![0.0_f32, f32::INFINITY],
            &LutParams::default()
        )
        .is_err()
    );
    for p in [
        lut_params(1.0, 0.0),
        lut_params(0.0, 0.0),
        lut_params(f32::NAN, 1.0),
        lut_params(0.0, f32::INFINITY),
        lut_params(-3.0e38, 3.0e38),
        lut_params(f32::MIN, f32::MAX),
    ] {
        assert!(apply_lut(&img, &good, &p).is_err(), "{p:?}");
    }
}

#[test]
fn a_non_zero_domain_minimum_shifts_the_lookup() {
    let lut = vec![0.0_f32, 1.0];
    assert_eq!(apply(2.0, &lut, 2.0, 4.0), 0.0);
    assert!((apply(3.0, &lut, 2.0, 4.0) - 0.5).abs() < 1e-6);
    assert_eq!(apply(4.0, &lut, 2.0, 4.0), 1.0);
    assert!((apply(0.0, &lut, -1.0, 1.0) - 0.5).abs() < 1e-6);
    assert_eq!(apply(-1.0, &lut, -1.0, 1.0), 0.0);
}

#[test]
fn a_reversed_table_works_and_matches_its_compacted_copy() {
    let img =
        Frame::from_shape_fn((5, 7, 1), |(y, x, _)| ((y * 7 + x) % 32) as f32 / 31.0);
    let wide = identity_lut(64);
    let table = ndarray::Array1::from_vec(wide.clone());
    let view = table.slice_axis(ndarray::Axis(0), ndarray::Slice::new(0, None, -1));
    assert!(view.as_slice().is_none(), "the test needs a genuinely non-contiguous view");
    let reversed: Vec<f32> = view.iter().copied().collect();
    let compacted: Vec<f32> = wide.iter().rev().copied().collect();
    let p = LutParams::default();
    let a = apply_lut(&img, &reversed, &p).unwrap();
    let b = apply_lut(&img, &compacted, &p).unwrap();
    assert_eq!(a, b, "a reversed table must give its compacted answer");
    let mid = apply_lut(&pixel(&[0.25_f32]), &reversed, &p).unwrap()[[0, 0, 0]];
    assert!(
        (mid - 0.75).abs() < 0.02,
        "reversed identity should invert: {mid}"
    );
}

#[test]
fn interpolation_cannot_overflow_between_finite_entries() {
    let lut = vec![-3.0e38_f32, 3.0e38];
    for i in 0..=10 {
        let v = i as f32 / 10.0;
        let got = apply(v, &lut, 0.0, 1.0);
        assert!(
            got.is_finite(),
            "interpolating a finite table produced {got} at {v}"
        );
        assert!(got.abs() <= 3.0e38, "and it must stay within the knots");
    }
}

#[test]
fn nan_keeps_its_own_bit_pattern() {
    let lut = identity_lut(16);
    let negative_nan = f32::from_bits(0xFFC0_0000);
    assert!(negative_nan.is_nan() && negative_nan.is_sign_negative());
    let out = apply(negative_nan, &lut, 0.0, 1.0);
    assert_eq!(
        out.to_bits(),
        negative_nan.to_bits(),
        "the caller's NaN must be propagated, not replaced"
    );
}

#[test]
fn lut_params_equality_and_repr() {
    let a = lut_params(0.0, 1.0);
    assert!(a.__eq__(&LutParams::default()));
    assert!(!a.__eq__(&lut_params(0.0, 4.0)));
    assert_eq!(a.__repr__::<Ieee>(), "LutParams(min=0, max=1)");
}

#[test]
fn lut_faults_say_what_is_wrong() {
    let img = pixel(&[0.5]);
    let said = |lut: &Vec<f32>, min: f32, max: f32| {
        apply_lut(&img, lut, &lut_params(min, max)).unwrap_err().to_string()
    };
    assert!(said(&vec![0.5], 0.0, 1.0).contains('1'));
    assert!(said(&vec![0.0, f32::NAN], 0.0, 1.0).contains("NaN"));
    assert!(said(&vec![0.0, 1.0], 1.0, 0.0).contains("min"));
}
