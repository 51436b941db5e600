//! Local contrast by the guided filter.

#![allow(dead_code)]

use phaios_core::arith::Arithmetic;
use phaios_core::allocation::image_from_samples;
use phaios_core::allocation::plane_from_samples;
use phaios_core::error::PhaiosError;
use phaios_core::local_contrast::GuidedFilterParams;
use phaios_core::raster::Image;

/// The host's own arithmetic.
struct Ieee;

fn s(a: u32) -> f32 {
    f32::from_bits(a)
}

fn d(a: u64) -> f64 {
    f64::from_bits(a)
}

impl Arithmetic for Ieee {
    fn plus(a: u32, b: u32) -> u32 {
        (s(a) + s(b)).to_bits()
    }
    fn minus(a: u32, b: u32) -> u32 {
        (s(a) - s(b)).to_bits()
    }
    fn times(a: u32, b: u32) -> u32 {
        (s(a) * s(b)).to_bits()
    }
    fn over(a: u32, b: u32) -> u32 {
        (s(a) / s(b)).to_bits()
    }
    fn remainder(a: u32, b: u32) -> u32 {
        (s(a) % s(b)).to_bits()
    }
    fn root(a: u32) -> u32 {
        s(a).sqrt().to_bits()
    }
    fn floor(a: u32) -> u32 {
        s(a).floor().to_bits()
    }
    fn ceil(a: u32) -> u32 {
        s(a).ceil().to_bits()
    }
    fn round(a: u32) -> u32 {
        s(a).round().to_bits()
    }
    fn power(a: u32, b: u32) -> u32 {
        s(a).powf(s(b)).to_bits()
    }
    fn exp(a: u32) -> u32 {
        s(a).exp().to_bits()
    }
    fn ln(a: u32) -> u32 {
        s(a).ln().to_bits()
    }
    fn cos(a: u32) -> u32 {
        s(a).cos().to_bits()
    }
    fn of_count(n: u64) -> u32 {
        (n as f32).to_bits()
    }
    fn of_offset(n: i64) -> u32 {
        (n as f32).to_bits()
    }
    fn to_count(a: u32) -> u64 {
        s(a) as u64
    }
    fn to_offset(a: u32) -> i64 {
        s(a) as i64
    }
    fn widen(a: u32) -> u64 {
        f64::from(s(a)).to_bits()
    }
    fn narrow(a: u64) -> u32 {
        (d(a) as f32).to_bits()
    }
    fn plus64(a: u64, b: u64) -> u64 {
        (d(a) + d(b)).to_bits()
    }
    fn minus64(a: u64, b: u64) -> u64 {
        (d(a) - d(b)).to_bits()
    }
    fn times64(a: u64, b: u64) -> u64 {
        (d(a) * d(b)).to_bits()
    }
    fn over64(a: u64, b: u64) -> u64 {
        (d(a) / d(b)).to_bits()
    }
    fn root64(a: u64) -> u64 {
        d(a).sqrt().to_bits()
    }
    fn floor64(a: u64) -> u64 {
        d(a).floor().to_bits()
    }
    fn exp64(a: u64) -> u64 {
        d(a).exp().to_bits()
    }
    fn sin64(a: u64) -> u64 {
        d(a).sin().to_bits()
    }
    fn cos64(a: u64) -> u64 {
        d(a).cos().to_bits()
    }
    fn radians64(a: u64) -> u64 {
        d(a).to_radians().to_bits()
    }
    fn of_count64(n: u64) -> u64 {
        (n as f64).to_bits()
    }
    fn to_count64(a: u64) -> u64 {
        d(a) as u64
    }
    fn text(a: u32) -> String {
        format!("{}", s(a))
    }
    fn debug_text(a: u32) -> String {
        format!("{:?}", s(a))
    }
}

/// The bits of a number, as parameters take it.
fn b(v: f32) -> u32 {
    v.to_bits()
}

/// An image with its samples as numbers.
#[derive(Clone, Debug, PartialEq)]
struct Frame {
    shape: (usize, usize, usize),
    samples: Vec<f32>,
}

impl Frame {
    fn from_shape_fn<F: Fn((usize, usize, usize)) -> f32>(
        shape: (usize, usize, usize),
        f: F,
    ) -> Frame {
        let mut samples = Vec::new();
        for y in 0..shape.0 {
            for x in 0..shape.1 {
                for k in 0..shape.2 {
                    samples.push(f((y, x, k)));
                }
            }
        }
        Frame { shape, samples }
    }

    fn from_elem(shape: (usize, usize, usize), v: f32) -> Frame {
        Frame::from_shape_fn(shape, |_| v)
    }

    fn zeros(shape: (usize, usize, usize)) -> Frame {
        Frame::from_elem(shape, 0.0)
    }

    fn of(img: &Image) -> Frame {
        Frame::from_shape_fn(img.dim(), |(y, x, k)| f32::from_bits(img.get(y, x, k).unwrap()))
    }

    fn image(&self) -> Image {
        let bits: Vec<u32> = self.samples.iter().map(|v| v.to_bits()).collect();
        image_from_samples(self.shape, bits).unwrap()
    }

    fn dim(&self) -> (usize, usize, usize) {
        self.shape
    }

    fn iter(&self) -> std::slice::Iter<'_, f32> {
        self.samples.iter()
    }

    fn bits(&self) -> Vec<u32> {
        self.samples.iter().map(|v| v.to_bits()).collect()
    }

    /// Every `dy`-th row and every `dx`-th column, through a strided view.
    fn strided(&self, dy: isize, dx: isize) -> Image {
        let array = ndarray::Array3::from_shape_vec(self.shape, self.samples.clone()).unwrap();
        let rows = array.slice_axis(ndarray::Axis(0), ndarray::Slice::new(0, None, dy));
        let view = rows.slice_axis(ndarray::Axis(1), ndarray::Slice::new(0, None, dx));
        let bits: Vec<u32> = view.iter().map(|v| v.to_bits()).collect();
        image_from_samples(view.dim(), bits).unwrap()
    }

    /// Every `dy`-th row and every `dx`-th column.
    fn every(&self, dy: usize, dx: usize) -> Frame {
        let (h, w, c) = self.shape;
        Frame::from_shape_fn((h.div_ceil(dy), w.div_ceil(dx), c), |(y, x, k)| {
            self[[y * dy, x * dx, k]]
        })
    }
}

impl std::ops::Index<[usize; 3]> for Frame {
    type Output = f32;

    fn index(&self, at: [usize; 3]) -> &f32 {
        let [y, x, k] = at;
        let (h, w, c) = self.shape;
        assert!(y < h && x < w && k < c);
        &self.samples[(y * w + x) * c + k]
    }
}

impl std::ops::IndexMut<[usize; 3]> for Frame {
    fn index_mut(&mut self, at: [usize; 3]) -> &mut f32 {
        let [y, x, k] = at;
        let (h, w, c) = self.shape;
        assert!(y < h && x < w && k < c);
        &mut self.samples[(y * w + x) * c + k]
    }
}

fn guided_params(radius: u32, eps: f32) -> GuidedFilterParams {
    GuidedFilterParams::new(radius, b(eps))
}

fn guided_filter(plane: &Frame, radius: u32, eps: f32) -> Result<Vec<f32>, PhaiosError> {
    let (h, w, _) = plane.dim();
    let data = plane_from_samples((h, w), &plane.bits()).unwrap();
    let out = phaios_core::local_contrast::guided_filter::<Ieee>(&data, radius, b(eps))?;
    let mut samples = Vec::new();
    for y in 0..h {
        for x in 0..w {
            samples.push(f32::from_bits(out.get(y, x).unwrap()));
        }
    }
    Ok(samples)
}

fn local_contrast(
    img: &Frame,
    params: &GuidedFilterParams,
    amount: f32,
) -> Result<Frame, PhaiosError> {
    phaios_core::local_contrast::local_contrast::<Ieee>(&img.image(), params, b(amount))
        .map(|out| Frame::of(&out))
}

fn const_img(v: f32, h: usize, w: usize) -> Frame {
    Frame::from_elem((h, w, 1), v)
}

#[test]
fn guided_filter_constant_image() {
    let img2d = Frame::from_elem((16, 16, 1), 0.5_f32);
    let q = guided_filter(&img2d, 4, 0.01).unwrap();
    for &v in q.iter() {
        assert!(
            (v - 0.5).abs() < 1e-4,
            "constant image guided filter: expected 0.5, got {v}"
        );
    }
}

#[test]
fn guided_filter_identity_radius_zero() {
    let img2d = Frame::from_shape_fn((8, 8, 1), |(y, x, _)| (y * 8 + x) as f32 / 64.0);
    let q = guided_filter(&img2d, 0, 0.0).unwrap();
    for (&l, &qv) in img2d.iter().zip(q.iter()) {
        assert!(
            (qv - l).abs() < 1e-5,
            "radius=0 guided filter should be identity; got |{qv}-{l}|={}",
            (qv - l).abs()
        );
    }
}

#[test]
fn local_contrast_constant_image_unchanged() {
    let img = const_img(0.3, 32, 32);
    let params = guided_params(4, 0.01);
    let out = local_contrast(&img, &params, 0.5).unwrap();
    for &v in out.iter() {
        assert!(
            (v - 0.3).abs() < 1e-4,
            "constant image local_contrast: expected 0.3, got {v}"
        );
    }
}

#[test]
fn shape_error_on_rgb_input() {
    let img = Frame::zeros((4, 4, 3));
    let params = guided_params(2, 0.01);
    assert!(local_contrast(&img, &params, 1.0).is_err());
}

#[test]
fn local_contrast_rejects_invalid_parameters() {
    let img = const_img(0.5, 8, 8);
    assert!(matches!(
        local_contrast(&img, &guided_params(4, -0.01), 1.0).unwrap_err(),
        PhaiosError::Parameter(_)
    ));
    assert!(matches!(
        local_contrast(&img, &guided_params(4, f32::NAN), 1.0).unwrap_err(),
        PhaiosError::Parameter(_)
    ));
    assert!(matches!(
        local_contrast(&img, &guided_params(4, 0.01), f32::INFINITY)
            .unwrap_err(),
        PhaiosError::Parameter(_)
    ));
    assert!(local_contrast(&img, &guided_params(4, 0.0), 1.0).is_ok());
    assert!(local_contrast(&img, &guided_params(9999, 0.01), 1.0).is_ok());
}

#[test]
fn params_compare_by_value() {
    assert!(guided_params(8, 0.01).__eq__(&guided_params(8, 0.01)));
    assert!(!guided_params(8, 0.01).__eq__(&guided_params(9, 0.01)));
    assert!(!guided_params(8, 0.01).__eq__(&guided_params(8, 0.02)));
}

#[test]
fn guided_filter_preserves_large_constant() {
    let img2d = Frame::from_elem((128, 128, 1), 1.0e7_f32);
    let q = guided_filter(&img2d, 8, 0.01).unwrap();
    for &v in q.iter() {
        assert!(
            (v - 1.0e7).abs() < 1.0,
            "constant 1e7 image: guided filter returned {v}"
        );
    }
}

#[test]
fn detail_is_amplified_by_the_amount() {
    // A window over the whole image makes the base its mean: strong smoothing
    // leaves 0.5 everywhere, and the amount scales what stands out from it.
    let img = Frame::from_shape_fn((4, 4, 1), |(y, x, _)| if (y + x) % 2 == 0 { 0.6 } else { 0.4 });
    let out = local_contrast(&img, &guided_params(8, 1.0e6), 1.0).unwrap();
    for (a, b) in img.iter().zip(out.iter()) {
        assert!((b - (0.5 + 2.0 * (a - 0.5))).abs() < 1e-5, "{a} became {b}");
    }
    let same = local_contrast(&img, &guided_params(8, 1.0e6), 0.0).unwrap();
    assert_eq!(same, img);
}

#[test]
fn guided_params_print() {
    assert_eq!(
        guided_params(8, 0.01).__repr__::<Ieee>(),
        "GuidedFilterParams(radius=8, eps=0.01)"
    );
}

#[test]
fn a_radius_beyond_the_image_is_the_whole_image() {
    let img = Frame::from_shape_fn((5, 7, 1), |(y, x, _)| ((y * 7 + x * 3) % 11) as f32 / 11.0);
    let at = |radius: u32| {
        let out = local_contrast(&img, &guided_params(radius, 0.02), 0.8).unwrap();
        out.bits()
    };
    assert_eq!(at(6), at(7));
    assert_eq!(at(6), at(1000));
    assert_ne!(at(6), at(2));
}

#[test]
fn flat_windows_keep_their_samples() {
    let img = Frame::from_shape_fn((6, 5, 1), |(y, x, _)| (y * 5 + x) as f32 / 8.0);
    assert_eq!(local_contrast(&img, &guided_params(0, 0.1), 2.0).unwrap(), img);
    let flat = const_img(0.75, 9, 4);
    for radius in [1, 3, 20] {
        assert_eq!(local_contrast(&flat, &guided_params(radius, 0.1), -1.5).unwrap(), flat);
        assert_eq!(guided_filter(&flat, radius, 0.1).unwrap(), flat.samples);
    }
}

#[test]
fn without_regularisation_a_varied_image_comes_back() {
    let img = Frame::from_shape_fn((4, 4, 1), |(y, x, _)| if (y + x) % 2 == 0 { 3.0 } else { 1.0 });
    assert_eq!(guided_filter(&img, 3, 0.0).unwrap(), img.samples);
    assert_eq!(local_contrast(&img, &guided_params(3, 0.0), 4.0).unwrap(), img);
}

#[test]
fn the_filter_stays_in_the_range_of_the_doubled_window() {
    let img = Frame::from_shape_fn((20, 24, 1), |(y, x, _)| {
        (((y * 53 + x * 29) % 31) as f32 - 9.0) * (1.0 + y as f32 / 7.0)
    });
    let (h, w, _) = img.dim();
    for (radius, eps) in [(1_usize, 0.0_f32), (2, 0.5), (3, 40.0)] {
        let q = guided_filter(&img, radius as u32, eps).unwrap();
        for y in 0..h {
            for x in 0..w {
                let (mut lo, mut hi) = (f32::INFINITY, f32::NEG_INFINITY);
                for j in y.saturating_sub(2 * radius)..=(y + 2 * radius).min(h - 1) {
                    for i in x.saturating_sub(2 * radius)..=(x + 2 * radius).min(w - 1) {
                        lo = lo.min(img[[j, i, 0]]);
                        hi = hi.max(img[[j, i, 0]]);
                    }
                }
                let v = q[y * w + x];
                assert!(v >= lo - 1e-3 && v <= hi + 1e-3, "({y}, {x}): {v} leaves {lo}..{hi}");
            }
        }
    }
}

#[test]
fn awkward_samples_almost_stay_where_windows_are_flat() {
    let img = Frame::from_shape_fn((15, 11, 1), |(y, x, _)| 0.1 * (y * 11 + x) as f32 / 3.0);
    let same = local_contrast(&img, &guided_params(0, 0.013), 1.7).unwrap();
    for (a, b) in img.iter().zip(same.iter()) {
        assert!((a - b).abs() <= 1e-5 * a.abs().max(1.0), "{a} became {b}");
    }
    let flat = const_img(0.1, 31, 17);
    let out = local_contrast(&flat, &guided_params(4, 0.013), -2.5).unwrap();
    for v in out.iter() {
        assert!((v - 0.1).abs() <= 1e-6, "0.1 became {v}");
    }
}
