//! The shadow toe.

#![allow(dead_code)]

use phaios_core::arith::Arithmetic;
use phaios_core::allocation::image_from_samples;
use phaios_core::error::PhaiosError;
use phaios_core::raster::Image;
use phaios_core::shadow_rolloff::{ShadowRolloffParams, DEFAULT_KNEE};

/// The host's own arithmetic.
struct Ieee;

fn s(a: u32) -> f32 {
    f32::from_bits(a)
}

fn d(a: u64) -> f64 {
    f64::from_bits(a)
}

impl Arithmetic for Ieee {
    fn plus(a: u32, b: u32) -> u32 {
        (s(a) + s(b)).to_bits()
    }
    fn minus(a: u32, b: u32) -> u32 {
        (s(a) - s(b)).to_bits()
    }
    fn times(a: u32, b: u32) -> u32 {
        (s(a) * s(b)).to_bits()
    }
    fn over(a: u32, b: u32) -> u32 {
        (s(a) / s(b)).to_bits()
    }
    fn remainder(a: u32, b: u32) -> u32 {
        (s(a) % s(b)).to_bits()
    }
    fn root(a: u32) -> u32 {
        s(a).sqrt().to_bits()
    }
    fn floor(a: u32) -> u32 {
        s(a).floor().to_bits()
    }
    fn ceil(a: u32) -> u32 {
        s(a).ceil().to_bits()
    }
    fn round(a: u32) -> u32 {
        s(a).round().to_bits()
    }
    fn power(a: u32, b: u32) -> u32 {
        s(a).powf(s(b)).to_bits()
    }
    fn exp(a: u32) -> u32 {
        s(a).exp().to_bits()
    }
    fn ln(a: u32) -> u32 {
        s(a).ln().to_bits()
    }
    fn cos(a: u32) -> u32 {
        s(a).cos().to_bits()
    }
    fn of_count(n: u64) -> u32 {
        (n as f32).to_bits()
    }
    fn of_offset(n: i64) -> u32 {
        (n as f32).to_bits()
    }
    fn to_count(a: u32) -> u64 {
        s(a) as u64
    }
    fn to_offset(a: u32) -> i64 {
        s(a) as i64
    }
    fn widen(a: u32) -> u64 {
        f64::from(s(a)).to_bits()
    }
    fn narrow(a: u64) -> u32 {
        (d(a) as f32).to_bits()
    }
    fn plus64(a: u64, b: u64) -> u64 {
        (d(a) + d(b)).to_bits()
    }
    fn minus64(a: u64, b: u64) -> u64 {
        (d(a) - d(b)).to_bits()
    }
    fn times64(a: u64, b: u64) -> u64 {
        (d(a) * d(b)).to_bits()
    }
    fn over64(a: u64, b: u64) -> u64 {
        (d(a) / d(b)).to_bits()
    }
    fn root64(a: u64) -> u64 {
        d(a).sqrt().to_bits()
    }
    fn floor64(a: u64) -> u64 {
        d(a).floor().to_bits()
    }
    fn exp64(a: u64) -> u64 {
        d(a).exp().to_bits()
    }
    fn sin64(a: u64) -> u64 {
        d(a).sin().to_bits()
    }
    fn cos64(a: u64) -> u64 {
        d(a).cos().to_bits()
    }
    fn radians64(a: u64) -> u64 {
        d(a).to_radians().to_bits()
    }
    fn of_count64(n: u64) -> u64 {
        (n as f64).to_bits()
    }
    fn to_count64(a: u64) -> u64 {
        d(a) as u64
    }
    fn text(a: u32) -> String {
        format!("{}", s(a))
    }
    fn debug_text(a: u32) -> String {
        format!("{:?}", s(a))
    }
}

/// The bits of a number, as parameters take it.
fn b(v: f32) -> u32 {
    v.to_bits()
}

/// An image with its samples as numbers.
#[derive(Clone, Debug, PartialEq)]
struct Frame {
    shape: (usize, usize, usize),
    samples: Vec<f32>,
}

impl Frame {
    fn from_shape_fn<F: Fn((usize, usize, usize)) -> f32>(
        shape: (usize, usize, usize),
        f: F,
    ) -> Frame {
        let mut samples = Vec::new();
        for y in 0..shape.0 {
            for x in 0..shape.1 {
                for k in 0..shape.2 {
                    samples.push(f((y, x, k)));
                }
            }
        }
        Frame { shape, samples }
    }

    fn from_elem(shape: (usize, usize, usize), v: f32) -> Frame {
        Frame::from_shape_fn(shape, |_| v)
    }

    fn zeros(shape: (usize, usize, usize)) -> Frame {
        Frame::from_elem(shape, 0.0)
    }

    fn of(img: &Image) -> Frame {
        Frame::from_shape_fn(img.dim(), |(y, x, k)| f32::from_bits(img.get(y, x, k).unwrap()))
    }

    fn image(&self) -> Image {
        let bits: Vec<u32> = self.samples.iter().map(|v| v.to_bits()).collect();
        image_from_samples(self.shape, bits).unwrap()
    }

    fn dim(&self) -> (usize, usize, usize) {
        self.shape
    }

    fn iter(&self) -> std::slice::Iter<'_, f32> {
        self.samples.iter()
    }

    fn bits(&self) -> Vec<u32> {
        self.samples.iter().map(|v| v.to_bits()).collect()
    }

    /// Every `dy`-th row and every `dx`-th column, through a strided view.
    fn strided(&self, dy: isize, dx: isize) -> Image {
        let array = ndarray::Array3::from_shape_vec(self.shape, self.samples.clone()).unwrap();
        let rows = array.slice_axis(ndarray::Axis(0), ndarray::Slice::new(0, None, dy));
        let view = rows.slice_axis(ndarray::Axis(1), ndarray::Slice::new(0, None, dx));
        let bits: Vec<u32> = view.iter().map(|v| v.to_bits()).collect();
        image_from_samples(view.dim(), bits).unwrap()
    }

    /// Every `dy`-th row and every `dx`-th column.
    fn every(&self, dy: usize, dx: usize) -> Frame {
        let (h, w, c) = self.shape;
        Frame::from_shape_fn((h.div_ceil(dy), w.div_ceil(dx), c), |(y, x, k)| {
            self[[y * dy, x * dx, k]]
        })
    }
}

impl std::ops::Index<[usize; 3]> for Frame {
    type Output = f32;

    fn index(&self, at: [usize; 3]) -> &f32 {
        let [y, x, k] = at;
        let (h, w, c) = self.shape;
        assert!(y < h && x < w && k < c);
        &self.samples[(y * w + x) * c + k]
    }
}

impl std::ops::IndexMut<[usize; 3]> for Frame {
    fn index_mut(&mut self, at: [usize; 3]) -> &mut f32 {
        let [y, x, k] = at;
        let (h, w, c) = self.shape;
        assert!(y < h && x < w && k < c);
        &mut self.samples[(y * w + x) * c + k]
    }
}

fn pixel(samples: &[f32]) -> Frame {
    Frame { shape: (1, 1, samples.len()), samples: samples.to_vec() }
}

fn shadow_params(knee: f32, strength: f32) -> ShadowRolloffParams {
    ShadowRolloffParams::new(b(knee), b(strength))
}

fn shadow_rolloff(img: &Frame, params: &ShadowRolloffParams) -> Result<Frame, PhaiosError> {
    phaios_core::shadow_rolloff::shadow_rolloff::<Ieee>(&img.image(), params)
        .map(|out| Frame::of(&out))
}

fn apply(v: f32, knee: f32, strength: f32) -> f32 {
    let img = pixel(&[v]);
    shadow_rolloff(&img, &shadow_params(knee, strength)).unwrap()[[0, 0, 0]]
}

#[test]
fn default_is_the_exact_identity() {
    let p = ShadowRolloffParams::default();
    assert_eq!(f32::from_bits(p.strength), 0.0);
    for v in [-0.5_f32, 0.0, 0.001, 0.1, 0.2, 0.5, 1.0, 100.0] {
        let got = shadow_rolloff(&pixel(&[v]), &p).unwrap()[[0, 0, 0]];
        assert_eq!(
            got.to_bits(),
            v.to_bits(),
            "the default must not move {v}, got {got}"
        );
    }
}

#[test]
fn strength_zero_is_exact_at_every_knee() {
    for knee in [0.05_f32, 0.1, 0.2, 0.3, 0.7, 1.0] {
        for i in 0..1000 {
            let v = i as f32 / 1000.0;
            assert_eq!(
                apply(v, knee, 0.0).to_bits(),
                v.to_bits(),
                "knee={knee} moved {v}"
            );
        }
    }
}

#[test]
fn shadow_rolloff_endpoints_are_exact() {
    for (knee, strength) in [(0.2_f32, 0.5_f32), (0.1, 1.0), (0.5, 0.8), (1.0, 0.3)] {
        assert_eq!(apply(0.0, knee, strength), 0.0, "the origin is fixed");
        assert_eq!(
            apply(knee, knee, strength).to_bits(),
            knee.to_bits(),
            "the knee is fixed"
        );
    }
}

#[test]
fn above_the_knee_is_untouched() {
    for v in [0.2001_f32, 0.3, 0.5, 1.0, 4.0, 1e6] {
        assert_eq!(apply(v, 0.2, 1.0).to_bits(), v.to_bits(), "moved {v}");
    }
}

#[test]
fn monotonic_and_bounded_for_every_strength() {
    for knee in [0.1_f32, 0.2, 0.5, 1.0] {
        for step in 0..=10 {
            let strength = step as f32 / 10.0;
            let mut prev = f32::NEG_INFINITY;
            for i in 0..=5000 {
                let x = i as f32 / 5000.0 * knee;
                let y = apply(x, knee, strength);
                assert!(y >= prev, "knee={knee} strength={strength} dips at {x}");
                assert!(
                    (-1e-7..=knee + 1e-7).contains(&y),
                    "knee={knee} strength={strength}: f({x}) = {y} left the interval"
                );
                prev = y;
            }
        }
    }
}

#[test]
fn slope_at_black_is_one_minus_strength() {
    let h = 1e-5_f32;
    for strength in [0.0_f32, 0.25, 0.5, 0.75, 1.0] {
        let measured = (apply(h, 0.2, strength) - apply(0.0, 0.2, strength)) / h;
        let want = 1.0 - strength;
        assert!(
            (measured - want).abs() < 2e-3,
            "strength={strength}: slope at black is {measured}, want {want}"
        );
    }
}

#[test]
fn joins_the_identity_at_the_knee_without_a_crease() {
    let (knee, strength) = (0.2_f32, 0.8_f32);
    let h = 1e-4;
    let below = (apply(knee, knee, strength) - apply(knee - h, knee, strength)) / h;
    let above = (apply(knee + h, knee, strength) - apply(knee, knee, strength)) / h;
    assert!(
        (below - 1.0).abs() < 2e-2 && (above - 1.0).abs() < 1e-3,
        "slope must be 1 on both sides of the knee: {below} below, {above} above"
    );
}

#[test]
fn shadow_separation_is_compressed() {
    let (knee, gap) = (0.2_f32, 0.02_f32);
    let mut previous = f32::INFINITY;
    for strength in [0.0_f32, 0.25, 0.5, 0.75, 1.0] {
        let separation = apply(gap, knee, strength) - apply(0.0, knee, strength);
        assert!(
            separation < previous,
            "raising strength to {strength} must compress further: \
             {separation} is not below {previous}"
        );
        previous = separation;
    }
    assert!((apply(gap, knee, 0.0) - gap).abs() < 1e-6);
    assert!(
        apply(gap, knee, 1.0) < gap * 0.25,
        "full strength should compress ~5x"
    );
}

#[test]
fn shadows_darken_rather_than_lift() {
    for i in 1..200 {
        let x = i as f32 / 1000.0;
        assert!(
            apply(x, 0.2, 0.7) <= x,
            "the toe must not lift {x} to {}",
            apply(x, 0.2, 0.7)
        );
    }
}

#[test]
fn negative_samples_stay_ordered_and_continuous() {
    let strength = 0.6_f32;
    let s = 1.0 - strength;
    for v in [-1.0_f32, -0.1, -0.001] {
        let got = apply(v, 0.2, strength);
        assert!((got - s * v).abs() < 1e-7, "{v} -> {got}, want {}", s * v);
        assert!(got < 0.0, "negatives must stay negative");
    }
}

#[test]
fn non_finite_samples_pass_through_at_every_strength() {
    for step in 0..=10 {
        let strength = step as f32 / 10.0;
        assert!(
            apply(f32::NAN, 0.2, strength).is_nan(),
            "NaN must stay NaN at strength {strength}"
        );
        assert_eq!(
            apply(f32::INFINITY, 0.2, strength),
            f32::INFINITY,
            "+inf must pass through at strength {strength}"
        );
        assert_eq!(
            apply(f32::NEG_INFINITY, 0.2, strength),
            f32::NEG_INFINITY,
            "-inf must pass through at strength {strength}, not become NaN"
        );
    }
}

#[test]
fn zero_knee_is_the_identity() {
    for v in [-1.0_f32, 0.0, 0.5, 2.0] {
        assert_eq!(apply(v, 0.0, 1.0).to_bits(), v.to_bits());
    }
}

#[test]
fn shadow_rolloff_rejects_out_of_domain_parameters() {
    let img = pixel(&[0.1_f32]);
    for (k, s) in [
        (1.5, 0.5),
        (-0.1, 0.5),
        (f32::NAN, 0.5),
        (0.2, 1.5),
        (0.2, -0.1),
        (0.2, f32::NAN),
        (0.2, f32::INFINITY),
    ] {
        assert!(
            shadow_rolloff(&img, &shadow_params(k, s)).is_err(),
            "knee={k} strength={s} should be rejected"
        );
    }
}

#[test]
fn shadow_rolloff_accepts_any_layout_and_channel_count() {
    let img = Frame::from_shape_fn((6, 8, 3), |(y, x, c)| {
        ((y * 8 + x) % 40) as f32 / 200.0 + c as f32 * 0.01
    });
    let strided = Frame::of(&img.strided(2, 3));
    let owned = img.every(2, 3);
    let params = shadow_params(0.2, 0.7);
    let a = shadow_rolloff(&strided, &params).unwrap();
    let b = shadow_rolloff(&owned, &params).unwrap();
    assert_eq!(a, b);
}

#[test]
fn shadow_rolloff_empty_input_is_accepted() {
    let img = Frame::zeros((0, 4, 1));
    assert_eq!(
        shadow_rolloff(&img, &shadow_params(0.2, 0.5))
            .unwrap()
            .dim(),
        (0, 4, 1)
    );
}

#[test]
fn the_toe_intensifies_toned_shadows_rather_than_washing_them_out() {
    let px = pixel(&[0.10_f32, 0.12, 0.14]);
    let out = shadow_rolloff(&px, &shadow_params(0.2, 0.8)).unwrap();

    let chroma = |r: f32, g: f32, b: f32| {
        let mx = r.max(g).max(b);
        let mn = r.min(g).min(b);
        (mx - mn) / mx
    };
    let before = chroma(0.10, 0.12, 0.14);
    let after = chroma(out[[0, 0, 0]], out[[0, 0, 1]], out[[0, 0, 2]]);
    assert!(
        after > before,
        "the toe must widen channel ratios, not narrow them: {before} -> {after}"
    );
    for c in 0..3 {
        assert!(out[[0, 0, c]] < px[[0, 0, c]]);
    }
}

#[test]
fn shadow_rolloff_params_equality_and_repr() {
    let a = shadow_params(0.2, 0.5);
    assert!(a.__eq__(&shadow_params(0.2, 0.5)));
    assert!(!a.__eq__(&shadow_params(0.2, 0.6)));
    assert_eq!(a.__repr__::<Ieee>(), "ShadowRolloffParams(knee=0.2, strength=0.5)");
    assert_eq!(f32::from_bits(ShadowRolloffParams::default().strength), 0.0);
}

#[test]
fn the_toe_is_a_cubic_and_its_faults_say_what_is_wrong() {
    assert_eq!(f32::from_bits(DEFAULT_KNEE), 0.2);
    let img = pixel(&[0.5]);
    let said = |k: f32, s: f32| {
        shadow_rolloff(&img, &shadow_params(k, s)).unwrap_err().to_string()
    };
    assert!(said(1.5, 0.5).contains("knee"));
    assert!(said(0.5, 1.5).contains("strength"));
}

#[test]
fn a_fine_sweep_of_the_toe_keeps_its_order_up_to_a_few_grains() {
    for (knee, strength) in [(0.2_f32, 1.0_f32), (0.59, 0.3), (1.0, 0.75), (0.93, 0.54)] {
        let mut last = apply(0.0, knee, strength);
        for i in 1..20_000 {
            let v = apply(i as f32 / 16_000.0, knee, strength);
            assert!(v >= last - 20.0 / 4_194_304.0, "{knee} {strength}: {last} then {v}");
            last = v;
        }
    }
}
