//! Glow around bright regions.

#![allow(dead_code)]

use phaios_core::arith::Arithmetic;
use phaios_core::allocation::image_from_samples;
use phaios_core::error::PhaiosError;
use phaios_core::glow::{GlowParams, DEFAULT_SIGMA};
use phaios_core::raster::Image;

/// The host's own arithmetic.
struct Ieee;

fn s(a: u32) -> f32 {
    f32::from_bits(a)
}

fn d(a: u64) -> f64 {
    f64::from_bits(a)
}

impl Arithmetic for Ieee {
    fn plus(a: u32, b: u32) -> u32 {
        (s(a) + s(b)).to_bits()
    }
    fn minus(a: u32, b: u32) -> u32 {
        (s(a) - s(b)).to_bits()
    }
    fn times(a: u32, b: u32) -> u32 {
        (s(a) * s(b)).to_bits()
    }
    fn over(a: u32, b: u32) -> u32 {
        (s(a) / s(b)).to_bits()
    }
    fn remainder(a: u32, b: u32) -> u32 {
        (s(a) % s(b)).to_bits()
    }
    fn root(a: u32) -> u32 {
        s(a).sqrt().to_bits()
    }
    fn floor(a: u32) -> u32 {
        s(a).floor().to_bits()
    }
    fn ceil(a: u32) -> u32 {
        s(a).ceil().to_bits()
    }
    fn round(a: u32) -> u32 {
        s(a).round().to_bits()
    }
    fn power(a: u32, b: u32) -> u32 {
        s(a).powf(s(b)).to_bits()
    }
    fn exp(a: u32) -> u32 {
        s(a).exp().to_bits()
    }
    fn ln(a: u32) -> u32 {
        s(a).ln().to_bits()
    }
    fn cos(a: u32) -> u32 {
        s(a).cos().to_bits()
    }
    fn of_count(n: u64) -> u32 {
        (n as f32).to_bits()
    }
    fn of_offset(n: i64) -> u32 {
        (n as f32).to_bits()
    }
    fn to_count(a: u32) -> u64 {
        s(a) as u64
    }
    fn to_offset(a: u32) -> i64 {
        s(a) as i64
    }
    fn widen(a: u32) -> u64 {
        f64::from(s(a)).to_bits()
    }
    fn narrow(a: u64) -> u32 {
        (d(a) as f32).to_bits()
    }
    fn plus64(a: u64, b: u64) -> u64 {
        (d(a) + d(b)).to_bits()
    }
    fn minus64(a: u64, b: u64) -> u64 {
        (d(a) - d(b)).to_bits()
    }
    fn times64(a: u64, b: u64) -> u64 {
        (d(a) * d(b)).to_bits()
    }
    fn over64(a: u64, b: u64) -> u64 {
        (d(a) / d(b)).to_bits()
    }
    fn root64(a: u64) -> u64 {
        d(a).sqrt().to_bits()
    }
    fn floor64(a: u64) -> u64 {
        d(a).floor().to_bits()
    }
    fn exp64(a: u64) -> u64 {
        d(a).exp().to_bits()
    }
    fn sin64(a: u64) -> u64 {
        d(a).sin().to_bits()
    }
    fn cos64(a: u64) -> u64 {
        d(a).cos().to_bits()
    }
    fn radians64(a: u64) -> u64 {
        d(a).to_radians().to_bits()
    }
    fn of_count64(n: u64) -> u64 {
        (n as f64).to_bits()
    }
    fn to_count64(a: u64) -> u64 {
        d(a) as u64
    }
    fn text(a: u32) -> String {
        format!("{}", s(a))
    }
    fn debug_text(a: u32) -> String {
        format!("{:?}", s(a))
    }
}

/// The bits of a number, as parameters take it.
fn b(v: f32) -> u32 {
    v.to_bits()
}

/// An image with its samples as numbers.
#[derive(Clone, Debug, PartialEq)]
struct Frame {
    shape: (usize, usize, usize),
    samples: Vec<f32>,
}

impl Frame {
    fn from_shape_fn<F: Fn((usize, usize, usize)) -> f32>(
        shape: (usize, usize, usize),
        f: F,
    ) -> Frame {
        let mut samples = Vec::new();
        for y in 0..shape.0 {
            for x in 0..shape.1 {
                for k in 0..shape.2 {
                    samples.push(f((y, x, k)));
                }
            }
        }
        Frame { shape, samples }
    }

    fn from_elem(shape: (usize, usize, usize), v: f32) -> Frame {
        Frame::from_shape_fn(shape, |_| v)
    }

    fn zeros(shape: (usize, usize, usize)) -> Frame {
        Frame::from_elem(shape, 0.0)
    }

    fn of(img: &Image) -> Frame {
        Frame::from_shape_fn(img.dim(), |(y, x, k)| f32::from_bits(img.get(y, x, k).unwrap()))
    }

    fn image(&self) -> Image {
        let bits: Vec<u32> = self.samples.iter().map(|v| v.to_bits()).collect();
        image_from_samples(self.shape, bits).unwrap()
    }

    fn dim(&self) -> (usize, usize, usize) {
        self.shape
    }

    fn iter(&self) -> std::slice::Iter<'_, f32> {
        self.samples.iter()
    }

    fn bits(&self) -> Vec<u32> {
        self.samples.iter().map(|v| v.to_bits()).collect()
    }

    /// Every `dy`-th row and every `dx`-th column, through a strided view.
    fn strided(&self, dy: isize, dx: isize) -> Image {
        let array = ndarray::Array3::from_shape_vec(self.shape, self.samples.clone()).unwrap();
        let rows = array.slice_axis(ndarray::Axis(0), ndarray::Slice::new(0, None, dy));
        let view = rows.slice_axis(ndarray::Axis(1), ndarray::Slice::new(0, None, dx));
        let bits: Vec<u32> = view.iter().map(|v| v.to_bits()).collect();
        image_from_samples(view.dim(), bits).unwrap()
    }

    /// Every `dy`-th row and every `dx`-th column.
    fn every(&self, dy: usize, dx: usize) -> Frame {
        let (h, w, c) = self.shape;
        Frame::from_shape_fn((h.div_ceil(dy), w.div_ceil(dx), c), |(y, x, k)| {
            self[[y * dy, x * dx, k]]
        })
    }
}

impl std::ops::Index<[usize; 3]> for Frame {
    type Output = f32;

    fn index(&self, at: [usize; 3]) -> &f32 {
        let [y, x, k] = at;
        let (h, w, c) = self.shape;
        assert!(y < h && x < w && k < c);
        &self.samples[(y * w + x) * c + k]
    }
}

impl std::ops::IndexMut<[usize; 3]> for Frame {
    fn index_mut(&mut self, at: [usize; 3]) -> &mut f32 {
        let [y, x, k] = at;
        let (h, w, c) = self.shape;
        assert!(y < h && x < w && k < c);
        &mut self.samples[(y * w + x) * c + k]
    }
}

fn pixel(samples: &[f32]) -> Frame {
    Frame { shape: (1, 1, samples.len()), samples: samples.to_vec() }
}

fn glow_params(threshold: f32, sigma: f32, amount: f32) -> GlowParams {
    GlowParams::new(b(threshold), b(sigma), b(amount))
}

fn glow(img: &Frame, params: &GlowParams) -> Result<Frame, PhaiosError> {
    phaios_core::glow::glow::<Ieee>(&img.image(), params).map(|out| Frame::of(&out))
}

fn scatter_weight(value: f32, threshold: f32) -> f32 {
    f32::from_bits(phaios_core::glow::scatter_weight::<Ieee>(b(value), b(threshold)))
}

fn bright_spot(n: usize) -> Frame {
    Frame::from_shape_fn(
        (n, n, 1),
        |(y, x, _)| {
            if y == n / 2 && x == n / 2 { 1.0 } else { 0.05 }
        },
    )
}

#[test]
fn amount_zero_is_the_exact_identity() {
    let img = bright_spot(9);
    for threshold in [0.0_f32, 0.5, 2.0] {
        let out = glow(&img, &glow_params(threshold, 8.0, 0.0)).unwrap();
        for (a, b) in img.iter().zip(out.iter()) {
            assert_eq!(a.to_bits(), b.to_bits());
        }
    }
}

#[test]
fn a_threshold_above_everything_is_also_the_identity() {
    let img = bright_spot(15);
    let out = glow(&img, &glow_params(2.0, 4.0, 0.5)).unwrap();
    for (a, b) in img.iter().zip(out.iter()) {
        assert!((a - b).abs() < 1e-7, "{a} became {b}");
    }
}

#[test]
fn glow_only_adds_light() {
    let img = bright_spot(21);
    let out = glow(&img, &glow_params(0.5, 3.0, 0.4)).unwrap();
    for (a, b) in img.iter().zip(out.iter()) {
        assert!(*b >= *a - 1e-7, "glow darkened {a} to {b}");
    }
}

#[test]
fn light_appears_beside_a_bright_spot() {
    let n = 31;
    let img = Frame::from_shape_fn((n, n, 1), |(y, x, _)| {
        let (dy, dx) = (y.abs_diff(n / 2), x.abs_diff(n / 2));
        if dy <= 1 && dx <= 1 { 1.0 } else { 0.05 }
    });
    let out = glow(&img, &glow_params(0.5, 4.0, 0.6)).unwrap();

    let before = img[[n / 2, n / 2 + 4, 0]];
    let after = out[[n / 2, n / 2 + 4, 0]];
    assert!(
        after > before * 1.10,
        "no halo four pixels out: {before} -> {after}"
    );

    let near = out[[n / 2, n / 2 + 2, 0]] - img[[n / 2, n / 2 + 2, 0]];
    let far = out[[n / 2, n / 2 + 8, 0]] - img[[n / 2, n / 2 + 8, 0]];
    assert!(
        near > far,
        "halo should fall off: {near} at 2px, {far} at 8px"
    );
}

#[test]
fn veiling_glare_lifts_black_in_proportion_to_scene_brightness() {
    let n = 33;
    let dark = Frame::from_shape_fn(
        (n, n, 1),
        |(y, x, _)| {
            if y < 3 && x < 3 { 0.2 } else { 0.0 }
        },
    );
    let bright =
        Frame::from_shape_fn(
            (n, n, 1),
            |(y, x, _)| {
                if y < 3 && x < 3 { 4.0 } else { 0.0 }
            },
        );
    let params = glow_params(0.0, 200.0, 0.5);

    let lift = |img: &Frame| {
        glow(img, &params).unwrap()[[n - 1, n - 1, 0]] - img[[n - 1, n - 1, 0]]
    };
    let (a, b) = (lift(&dark), lift(&bright));
    assert!(a > 0.0, "glare must lift black at all: {a}");
    assert!(
        b > a * 5.0,
        "a brighter scene must lift black further: {a} vs {b}"
    );
}

#[test]
fn the_weight_is_a_soft_knee_not_a_hard_cut() {
    assert_eq!(scatter_weight(0.4, 0.5), 0.0);
    assert_eq!(scatter_weight(0.5, 0.5), 0.0);
    assert!((scatter_weight(0.6, 0.5) - 0.1).abs() < 1e-7);
    assert!((scatter_weight(1.5, 0.5) - 1.0).abs() < 1e-7);
    assert!(scatter_weight(0.5 + 1e-6, 0.5) < 1e-5);
}

#[test]
fn a_nan_sample_is_contained_and_does_not_spread() {
    assert_eq!(scatter_weight(f32::NAN, 0.2), 0.0, "NaN must scatter 0");
    assert_eq!(
        scatter_weight(f32::NEG_INFINITY, 0.2),
        0.0,
        "-inf is below any threshold"
    );

    let mut img = Frame::from_elem((9, 9, 1), 0.5);
    img[[4, 4, 0]] = f32::NAN;
    let out = glow(&img, &glow_params(0.2, 2.0, 1.0)).unwrap();

    let non_finite = out.iter().filter(|v| !v.is_finite()).count();
    assert_eq!(
        non_finite, 1,
        "the NaN spread: {non_finite} of 81 outputs are non-finite"
    );
    assert!(out[[4, 4, 0]].is_nan(), "the poisoned sample stays NaN");

    let mut img = Frame::from_elem((9, 9, 1), 0.5);
    img[[4, 4, 0]] = f32::INFINITY;
    let out = glow(&img, &glow_params(0.2, 2.0, 1.0)).unwrap();
    assert!(
        !out[[0, 0, 0]].is_finite(),
        "an infinite sample is expected to scatter, unlike a NaN"
    );
}

#[test]
fn output_may_exceed_one_by_design() {
    let img = Frame::from_elem((9, 9, 1), 1.0);
    let out = glow(&img, &glow_params(0.0, 2.0, 0.5)).unwrap();
    assert!(out.iter().any(|v| *v > 1.0), "glow should not clamp");
}

#[test]
fn glow_accepts_any_layout_and_channel_count() {
    let img = Frame::from_shape_fn((10, 12, 3), |(y, x, c)| {
        ((y * 12 + x + c) % 20) as f32 / 19.0
    });
    let strided = Frame::of(&img.strided(2, 3));
    let owned = img.every(2, 3);
    let p = glow_params(0.3, 2.0, 0.4);
    assert_eq!(glow(&strided, &p).unwrap(), glow(&owned, &p).unwrap());
}

#[test]
fn glow_empty_input_is_accepted() {
    let img = Frame::zeros((0, 4, 3));
    assert_eq!(
        glow(&img, &glow_params(0.0, 4.0, 0.5))
            .unwrap()
            .dim(),
        (0, 4, 3)
    );
}

#[test]
fn glow_rejects_out_of_domain_parameters() {
    let img = pixel(&[0.5_f32]);
    for (t, s, a) in [
        (-0.1, 4.0, 0.5),
        (f32::NAN, 4.0, 0.5),
        (0.0, 4.0, -0.1),
        (0.0, 4.0, f32::NAN),
        (0.0, -1.0, 0.5),
        (0.0, f32::INFINITY, 0.5),
    ] {
        assert!(
            glow(&img, &glow_params(t, s, a)).is_err(),
            "threshold={t} sigma={s} amount={a} should be rejected"
        );
    }
}

#[test]
fn glow_params_equality_and_repr() {
    let a = glow_params(0.8, 8.0, 0.35);
    assert!(a.__eq__(&glow_params(0.8, 8.0, 0.35)));
    assert!(!a.__eq__(&glow_params(0.8, 8.0, 0.4)));
    assert_eq!(
        a.__repr__::<Ieee>(),
        "GlowParams(threshold=0.8, sigma=8, amount=0.35)"
    );
    assert_eq!(f32::from_bits(GlowParams::default().amount), 0.0);
}

#[test]
fn glow_faults_say_what_is_wrong() {
    let img = pixel(&[0.5]);
    let said = |t: f32, s: f32, a: f32| {
        glow(&img, &glow_params(t, s, a)).unwrap_err().to_string()
    };
    assert!(said(-0.1, 4.0, 0.5).contains("threshold"));
    assert!(said(0.0, -4.0, 0.5).contains("sigma"));
    assert!(said(0.0, 4.0, -0.5).contains("amount"));
}

#[test]
fn glow_defaults_are_idle() {
    let d = GlowParams::default();
    assert_eq!(d.sigma, DEFAULT_SIGMA);
    assert_eq!(f32::from_bits(DEFAULT_SIGMA), 8.0);
    let img = bright_spot(5);
    assert_eq!(glow(&img, &d).unwrap(), img);
}
