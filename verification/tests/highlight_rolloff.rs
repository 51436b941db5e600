//! The highlight shoulder.

#![allow(dead_code)]

use phaios_core::arith::Arithmetic;
use phaios_core::allocation::image_from_samples;
use phaios_core::error::PhaiosError;
use phaios_core::highlight_rolloff::RolloffParams;
use phaios_core::raster::Image;

/// The host's own arithmetic.
struct Ieee;

fn s(a: u32) -> f32 {
    f32::from_bits(a)
}

fn d(a: u64) -> f64 {
    f64::from_bits(a)
}

impl Arithmetic for Ieee {
    fn plus(a: u32, b: u32) -> u32 {
        (s(a) + s(b)).to_bits()
    }
    fn minus(a: u32, b: u32) -> u32 {
        (s(a) - s(b)).to_bits()
    }
    fn times(a: u32, b: u32) -> u32 {
        (s(a) * s(b)).to_bits()
    }
    fn over(a: u32, b: u32) -> u32 {
        (s(a) / s(b)).to_bits()
    }
    fn remainder(a: u32, b: u32) -> u32 {
        (s(a) % s(b)).to_bits()
    }
    fn root(a: u32) -> u32 {
        s(a).sqrt().to_bits()
    }
    fn floor(a: u32) -> u32 {
        s(a).floor().to_bits()
    }
    fn ceil(a: u32) -> u32 {
        s(a).ceil().to_bits()
    }
    fn round(a: u32) -> u32 {
        s(a).round().to_bits()
    }
    fn power(a: u32, b: u32) -> u32 {
        s(a).powf(s(b)).to_bits()
    }
    fn exp(a: u32) -> u32 {
        s(a).exp().to_bits()
    }
    fn ln(a: u32) -> u32 {
        s(a).ln().to_bits()
    }
    fn cos(a: u32) -> u32 {
        s(a).cos().to_bits()
    }
    fn of_count(n: u64) -> u32 {
        (n as f32).to_bits()
    }
    fn of_offset(n: i64) -> u32 {
        (n as f32).to_bits()
    }
    fn to_count(a: u32) -> u64 {
        s(a) as u64
    }
    fn to_offset(a: u32) -> i64 {
        s(a) as i64
    }
    fn widen(a: u32) -> u64 {
        f64::from(s(a)).to_bits()
    }
    fn narrow(a: u64) -> u32 {
        (d(a) as f32).to_bits()
    }
    fn plus64(a: u64, b: u64) -> u64 {
        (d(a) + d(b)).to_bits()
    }
    fn minus64(a: u64, b: u64) -> u64 {
        (d(a) - d(b)).to_bits()
    }
    fn times64(a: u64, b: u64) -> u64 {
        (d(a) * d(b)).to_bits()
    }
    fn over64(a: u64, b: u64) -> u64 {
        (d(a) / d(b)).to_bits()
    }
    fn root64(a: u64) -> u64 {
        d(a).sqrt().to_bits()
    }
    fn floor64(a: u64) -> u64 {
        d(a).floor().to_bits()
    }
    fn exp64(a: u64) -> u64 {
        d(a).exp().to_bits()
    }
    fn sin64(a: u64) -> u64 {
        d(a).sin().to_bits()
    }
    fn cos64(a: u64) -> u64 {
        d(a).cos().to_bits()
    }
    fn radians64(a: u64) -> u64 {
        d(a).to_radians().to_bits()
    }
    fn of_count64(n: u64) -> u64 {
        (n as f64).to_bits()
    }
    fn to_count64(a: u64) -> u64 {
        d(a) as u64
    }
    fn text(a: u32) -> String {
        format!("{}", s(a))
    }
    fn debug_text(a: u32) -> String {
        format!("{:?}", s(a))
    }
}

/// The bits of a number, as parameters take it.
fn b(v: f32) -> u32 {
    v.to_bits()
}

/// An image with its samples as numbers.
#[derive(Clone, Debug, PartialEq)]
struct Frame {
    shape: (usize, usize, usize),
    samples: Vec<f32>,
}

impl Frame {
    fn from_shape_fn<F: Fn((usize, usize, usize)) -> f32>(
        shape: (usize, usize, usize),
        f: F,
    ) -> Frame {
        let mut samples = Vec::new();
        for y in 0..shape.0 {
            for x in 0..shape.1 {
                for k in 0..shape.2 {
                    samples.push(f((y, x, k)));
                }
            }
        }
        Frame { shape, samples }
    }

    fn from_elem(shape: (usize, usize, usize), v: f32) -> Frame {
        Frame::from_shape_fn(shape, |_| v)
    }

    fn zeros(shape: (usize, usize, usize)) -> Frame {
        Frame::from_elem(shape, 0.0)
    }

    fn of(img: &Image) -> Frame {
        Frame::from_shape_fn(img.dim(), |(y, x, k)| f32::from_bits(img.get(y, x, k).unwrap()))
    }

    fn image(&self) -> Image {
        let bits: Vec<u32> = self.samples.iter().map(|v| v.to_bits()).collect();
        image_from_samples(self.shape, bits).unwrap()
    }

    fn dim(&self) -> (usize, usize, usize) {
        self.shape
    }

    fn iter(&self) -> std::slice::Iter<'_, f32> {
        self.samples.iter()
    }

    fn bits(&self) -> Vec<u32> {
        self.samples.iter().map(|v| v.to_bits()).collect()
    }

    /// Every `dy`-th row and every `dx`-th column, through a strided view.
    fn strided(&self, dy: isize, dx: isize) -> Image {
        let array = ndarray::Array3::from_shape_vec(self.shape, self.samples.clone()).unwrap();
        let rows = array.slice_axis(ndarray::Axis(0), ndarray::Slice::new(0, None, dy));
        let view = rows.slice_axis(ndarray::Axis(1), ndarray::Slice::new(0, None, dx));
        let bits: Vec<u32> = view.iter().map(|v| v.to_bits()).collect();
        image_from_samples(view.dim(), bits).unwrap()
    }

    /// Every `dy`-th row and every `dx`-th column.
    fn every(&self, dy: usize, dx: usize) -> Frame {
        let (h, w, c) = self.shape;
        Frame::from_shape_fn((h.div_ceil(dy), w.div_ceil(dx), c), |(y, x, k)| {
            self[[y * dy, x * dx, k]]
        })
    }
}

impl std::ops::Index<[usize; 3]> for Frame {
    type Output = f32;

    fn index(&self, at: [usize; 3]) -> &f32 {
        let [y, x, k] = at;
        let (h, w, c) = self.shape;
        assert!(y < h && x < w && k < c);
        &self.samples[(y * w + x) * c + k]
    }
}

impl std::ops::IndexMut<[usize; 3]> for Frame {
    fn index_mut(&mut self, at: [usize; 3]) -> &mut f32 {
        let [y, x, k] = at;
        let (h, w, c) = self.shape;
        assert!(y < h && x < w && k < c);
        &mut self.samples[(y * w + x) * c + k]
    }
}

fn pixel(samples: &[f32]) -> Frame {
    Frame { shape: (1, 1, samples.len()), samples: samples.to_vec() }
}

fn rolloff_params(knee: f32, white_point: f32) -> RolloffParams {
    RolloffParams::new(b(knee), b(white_point))
}

fn highlight_rolloff(img: &Frame, params: &RolloffParams) -> Result<Frame, PhaiosError> {
    phaios_core::highlight_rolloff::highlight_rolloff::<Ieee>(&img.image(), params)
        .map(|out| Frame::of(&out))
}

fn apply(v: f32, knee: f32, white: f32) -> f32 {
    let img = pixel(&[v]);
    highlight_rolloff(&img, &rolloff_params(knee, white)).unwrap()[[0, 0, 0]]
}

#[test]
fn default_is_a_hard_clip() {
    let p = RolloffParams::default();
    assert_eq!(f32::from_bits(p.knee), 1.0);
    assert_eq!(f32::from_bits(p.white_point), 1.0);
    for v in [-0.5_f32, 0.0, 0.25, 0.999, 1.0, 1.5, 100.0] {
        let got = apply(v, 1.0, 1.0);
        let want = v.min(1.0);
        assert_eq!(
            got.to_bits(),
            want.to_bits(),
            "default must clip exactly: {v} -> {got}, want {want}"
        );
    }
}

#[test]
fn highlight_rolloff_endpoints_are_exact() {
    for (k, w) in [(0.8, 2.0), (0.5, 4.0), (0.0, 1.0), (0.95, 16.0)] {
        assert_eq!(apply(k, k, w), k, "f(knee) must be knee exactly");
        assert_eq!(apply(w, k, w), 1.0, "f(white) must be 1.0 exactly");
    }
}

#[test]
fn never_exceeds_one_and_is_monotonic() {
    for (k, w) in [(0.8, 2.0), (0.5, 4.0), (0.7, 8.0), (0.2, 1.0)] {
        let mut prev = f32::NEG_INFINITY;
        for i in 0..=20_000 {
            let x = i as f32 / 1000.0;
            let y = apply(x, k, w);
            assert!(y <= 1.0, "knee={k} white={w}: f({x}) = {y} exceeds 1.0");
            assert!(y >= prev, "knee={k} white={w}: not monotonic at {x}");
            prev = y;
        }
    }
}

#[test]
fn below_the_knee_is_untouched() {
    for v in [-1.0_f32, 0.0, 0.18, 0.5, 0.7999] {
        assert_eq!(
            apply(v, 0.8, 4.0).to_bits(),
            v.to_bits(),
            "value below the knee must be untouched: {v}"
        );
    }
}

#[test]
fn joins_the_identity_at_slope_one() {
    let (k, w) = (0.8_f32, 4.0_f32);
    let h = 1e-4;
    let slope_below = (apply(k, k, w) - apply(k - h, k, w)) / h;
    let slope_above = (apply(k + h, k, w) - apply(k, k, w)) / h;
    assert!(
        (slope_below - 1.0).abs() < 1e-2,
        "slope below the knee should be 1, got {slope_below}"
    );
    assert!(
        (slope_above - 1.0).abs() < 5e-2,
        "slope above the knee should also be ~1, got {slope_above}"
    );
}

#[test]
fn lands_on_white_flat() {
    let (k, w) = (0.8_f32, 4.0_f32);
    let h = 1e-3;
    let slope = (apply(w, k, w) - apply(w - h, k, w)) / h;
    assert!(
        slope.abs() < 1e-2,
        "the curve should arrive at white flat, slope {slope}"
    );
}

#[test]
fn parabolic_case_is_handled_without_dividing_by_zero() {
    let k = 0.6_f32;
    let w = 2.0 - k;
    for i in 0..=100 {
        let x = k + (w - k) * i as f32 / 100.0;
        let y = apply(x, k, w);
        assert!(y.is_finite(), "degenerate case produced {y} at {x}");
        assert!((k - 1e-6..=1.0 + 1e-6).contains(&y));
    }
    assert_eq!(apply(w, k, w), 1.0);
}

#[test]
fn non_finite_samples_pass_through() {
    assert!(apply(f32::NAN, 0.8, 4.0).is_nan());
    assert_eq!(apply(f32::INFINITY, 0.8, 4.0), 1.0);
    assert_eq!(apply(f32::NEG_INFINITY, 0.8, 4.0), f32::NEG_INFINITY);
}

#[test]
fn highlight_rolloff_rejects_out_of_domain_parameters() {
    let img = pixel(&[0.5_f32]);
    for (k, w) in [
        (1.5, 2.0),
        (-0.1, 2.0),
        (f32::NAN, 2.0),
        (0.5, 0.5),
        (0.5, f32::NAN),
        (0.5, f32::INFINITY),
    ] {
        assert!(
            highlight_rolloff(&img, &rolloff_params(k, w)).is_err(),
            "knee={k} white={w} should be rejected"
        );
    }
}

#[test]
fn highlight_rolloff_accepts_any_layout_and_channel_count() {
    let img = Frame::from_shape_fn((6, 8, 3), |(y, x, c)| {
        (y * 8 + x) as f32 / 10.0 + c as f32
    });
    let strided = Frame::of(&img.strided(2, 3));
    let owned = img.every(2, 3);
    let params = rolloff_params(0.7, 3.0);
    let a = highlight_rolloff(&strided, &params).unwrap();
    let b = highlight_rolloff(&owned, &params).unwrap();
    assert_eq!(a, b);
}

#[test]
fn highlight_rolloff_empty_input_is_accepted() {
    let img = Frame::zeros((0, 5, 1));
    let out = highlight_rolloff(&img, &rolloff_params(0.8, 2.0)).unwrap();
    assert_eq!(out.dim(), (0, 5, 1));
}

#[test]
fn highlight_rolloff_params_equality_and_repr() {
    let a = rolloff_params(0.8, 2.0);
    let b = rolloff_params(0.8, 2.0);
    let c = rolloff_params(0.8, 2.5);
    assert!(a.__eq__(&b));
    assert!(!a.__eq__(&c));
    assert_eq!(a.__repr__::<Ieee>(), "RolloffParams(knee=0.8, white_point=2)");
}

#[test]
fn shoulder_faults_say_what_is_wrong() {
    let img = pixel(&[0.5]);
    let said = |k: f32, w: f32| {
        highlight_rolloff(&img, &rolloff_params(k, w)).unwrap_err().to_string()
    };
    assert!(said(1.5, 2.0).contains("knee"));
    assert!(said(0.5, 0.5).contains("white_point"));
}

#[test]
fn the_shoulder_is_a_parabola_where_it_degenerates() {
    // Knee 0 and white 2: f(x) = x - x * x / 4, so f(1) = 3/4.
    assert!((apply(1.0, 0.0, 2.0) - 0.75).abs() < 1e-6);
}

#[test]
fn nothing_exceeds_white_under_extreme_shoulders() {
    for white in [1.0_f32, 1.000_000_1, 2.0, 1e6, 1e30, 3e38] {
        for knee in [0.0_f32, 1e-30, 0.5, 0.999_999_9, 1.0] {
            for x in [1e-38_f32, 0.3, 0.999_999_9, 1.0, 1.5, 1e5, 1e29, 3.4e38, f32::INFINITY] {
                let y = apply(x, knee, white);
                assert!(!(y > 1.0), "knee={knee} white={white}: f({x}) = {y}");
            }
        }
    }
}

#[test]
fn a_fine_sweep_of_the_shoulder_keeps_its_order() {
    for (knee, white) in [(0.5_f32, 2.0_f32), (0.8, 1.5), (0.0, 3.0), (0.6, 16.0)] {
        let mut last = apply(knee, knee, white);
        for i in 1..=20_000 {
            let v = apply(knee + (white - knee) * (i as f32 / 20_000.0), knee, white);
            assert!(v >= last, "{knee} {white}: {last} then {v}");
            last = v;
        }
    }
}
