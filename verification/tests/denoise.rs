//! Guided denoising.

#![allow(dead_code)]

use phaios_core::arith::Arithmetic;
use phaios_core::allocation::image_from_samples;
use phaios_core::allocation::plane_from_samples;
use phaios_core::bw::LuminanceStandard;
use phaios_core::denoise::{box_h_cross_pair, DenoiseParams, MAX_RADIUS};
use phaios_core::error::PhaiosError;
use phaios_core::film_grain::splitmix64;
use phaios_core::raster::Image;

/// The host's own arithmetic.
struct Ieee;

fn s(a: u32) -> f32 {
    f32::from_bits(a)
}

fn d(a: u64) -> f64 {
    f64::from_bits(a)
}

impl Arithmetic for Ieee {
    fn plus(a: u32, b: u32) -> u32 {
        (s(a) + s(b)).to_bits()
    }
    fn minus(a: u32, b: u32) -> u32 {
        (s(a) - s(b)).to_bits()
    }
    fn times(a: u32, b: u32) -> u32 {
        (s(a) * s(b)).to_bits()
    }
    fn over(a: u32, b: u32) -> u32 {
        (s(a) / s(b)).to_bits()
    }
    fn remainder(a: u32, b: u32) -> u32 {
        (s(a) % s(b)).to_bits()
    }
    fn root(a: u32) -> u32 {
        s(a).sqrt().to_bits()
    }
    fn floor(a: u32) -> u32 {
        s(a).floor().to_bits()
    }
    fn ceil(a: u32) -> u32 {
        s(a).ceil().to_bits()
    }
    fn round(a: u32) -> u32 {
        s(a).round().to_bits()
    }
    fn power(a: u32, b: u32) -> u32 {
        s(a).powf(s(b)).to_bits()
    }
    fn exp(a: u32) -> u32 {
        s(a).exp().to_bits()
    }
    fn ln(a: u32) -> u32 {
        s(a).ln().to_bits()
    }
    fn cos(a: u32) -> u32 {
        s(a).cos().to_bits()
    }
    fn of_count(n: u64) -> u32 {
        (n as f32).to_bits()
    }
    fn of_offset(n: i64) -> u32 {
        (n as f32).to_bits()
    }
    fn to_count(a: u32) -> u64 {
        s(a) as u64
    }
    fn to_offset(a: u32) -> i64 {
        s(a) as i64
    }
    fn widen(a: u32) -> u64 {
        f64::from(s(a)).to_bits()
    }
    fn narrow(a: u64) -> u32 {
        (d(a) as f32).to_bits()
    }
    fn plus64(a: u64, b: u64) -> u64 {
        (d(a) + d(b)).to_bits()
    }
    fn minus64(a: u64, b: u64) -> u64 {
        (d(a) - d(b)).to_bits()
    }
    fn times64(a: u64, b: u64) -> u64 {
        (d(a) * d(b)).to_bits()
    }
    fn over64(a: u64, b: u64) -> u64 {
        (d(a) / d(b)).to_bits()
    }
    fn root64(a: u64) -> u64 {
        d(a).sqrt().to_bits()
    }
    fn floor64(a: u64) -> u64 {
        d(a).floor().to_bits()
    }
    fn exp64(a: u64) -> u64 {
        d(a).exp().to_bits()
    }
    fn sin64(a: u64) -> u64 {
        d(a).sin().to_bits()
    }
    fn cos64(a: u64) -> u64 {
        d(a).cos().to_bits()
    }
    fn radians64(a: u64) -> u64 {
        d(a).to_radians().to_bits()
    }
    fn of_count64(n: u64) -> u64 {
        (n as f64).to_bits()
    }
    fn to_count64(a: u64) -> u64 {
        d(a) as u64
    }
    fn text(a: u32) -> String {
        format!("{}", s(a))
    }
    fn debug_text(a: u32) -> String {
        format!("{:?}", s(a))
    }
}

/// The bits of a number, as parameters take it.
fn b(v: f32) -> u32 {
    v.to_bits()
}

/// An image with its samples as numbers.
#[derive(Clone, Debug, PartialEq)]
struct Frame {
    shape: (usize, usize, usize),
    samples: Vec<f32>,
}

impl Frame {
    fn from_shape_fn<F: Fn((usize, usize, usize)) -> f32>(
        shape: (usize, usize, usize),
        f: F,
    ) -> Frame {
        let mut samples = Vec::new();
        for y in 0..shape.0 {
            for x in 0..shape.1 {
                for k in 0..shape.2 {
                    samples.push(f((y, x, k)));
                }
            }
        }
        Frame { shape, samples }
    }

    fn from_elem(shape: (usize, usize, usize), v: f32) -> Frame {
        Frame::from_shape_fn(shape, |_| v)
    }

    fn zeros(shape: (usize, usize, usize)) -> Frame {
        Frame::from_elem(shape, 0.0)
    }

    fn of(img: &Image) -> Frame {
        Frame::from_shape_fn(img.dim(), |(y, x, k)| f32::from_bits(img.get(y, x, k).unwrap()))
    }

    fn image(&self) -> Image {
        let bits: Vec<u32> = self.samples.iter().map(|v| v.to_bits()).collect();
        image_from_samples(self.shape, bits).unwrap()
    }

    fn dim(&self) -> (usize, usize, usize) {
        self.shape
    }

    fn iter(&self) -> std::slice::Iter<'_, f32> {
        self.samples.iter()
    }

    fn bits(&self) -> Vec<u32> {
        self.samples.iter().map(|v| v.to_bits()).collect()
    }

    /// Every `dy`-th row and every `dx`-th column, through a strided view.
    fn strided(&self, dy: isize, dx: isize) -> Image {
        let array = ndarray::Array3::from_shape_vec(self.shape, self.samples.clone()).unwrap();
        let rows = array.slice_axis(ndarray::Axis(0), ndarray::Slice::new(0, None, dy));
        let view = rows.slice_axis(ndarray::Axis(1), ndarray::Slice::new(0, None, dx));
        let bits: Vec<u32> = view.iter().map(|v| v.to_bits()).collect();
        image_from_samples(view.dim(), bits).unwrap()
    }

    /// Every `dy`-th row and every `dx`-th column.
    fn every(&self, dy: usize, dx: usize) -> Frame {
        let (h, w, c) = self.shape;
        Frame::from_shape_fn((h.div_ceil(dy), w.div_ceil(dx), c), |(y, x, k)| {
            self[[y * dy, x * dx, k]]
        })
    }
}

impl std::ops::Index<[usize; 3]> for Frame {
    type Output = f32;

    fn index(&self, at: [usize; 3]) -> &f32 {
        let [y, x, k] = at;
        let (h, w, c) = self.shape;
        assert!(y < h && x < w && k < c);
        &self.samples[(y * w + x) * c + k]
    }
}

impl std::ops::IndexMut<[usize; 3]> for Frame {
    fn index_mut(&mut self, at: [usize; 3]) -> &mut f32 {
        let [y, x, k] = at;
        let (h, w, c) = self.shape;
        assert!(y < h && x < w && k < c);
        &mut self.samples[(y * w + x) * c + k]
    }
}

fn denoise_params(
    radius: u32,
    noise_sigma: f32,
    amount: f32,
    standard: LuminanceStandard,
) -> DenoiseParams {
    DenoiseParams::new(radius, b(noise_sigma), b(amount), standard)
}

fn validate(params: &DenoiseParams) -> Result<(), PhaiosError> {
    phaios_core::denoise::validate::<Ieee>(params)
}

fn denoise(img: &Frame, params: &DenoiseParams) -> Result<Frame, PhaiosError> {
    phaios_core::denoise::denoise::<Ieee>(&img.image(), params).map(|out| Frame::of(&out))
}

fn luminance_bw(img: &Frame, standard: LuminanceStandard) -> Frame {
    Frame::of(&phaios_core::bw::luminance_bw::<Ieee>(&img.image(), standard).unwrap())
}

/// Three channels of numbers in double precision.
struct Doubles {
    width: usize,
    samples: Vec<f64>,
}

impl Doubles {
    fn zeros(h: usize, w: usize) -> Doubles {
        Doubles { width: w, samples: vec![0.0; h * w * 3] }
    }
}

impl std::ops::Index<[usize; 3]> for Doubles {
    type Output = f64;

    fn index(&self, at: [usize; 3]) -> &f64 {
        &self.samples[(at[0] * self.width + at[1]) * 3 + at[2]]
    }
}

impl std::ops::IndexMut<[usize; 3]> for Doubles {
    fn index_mut(&mut self, at: [usize; 3]) -> &mut f64 {
        &mut self.samples[(at[0] * self.width + at[1]) * 3 + at[2]]
    }
}

#[test]
fn denoise_validate_accepts_the_boundary_values() {
    assert!(validate(&denoise_params(0, 0.0, 0.0, LuminanceStandard::Bt709)).is_ok());
    assert!(validate(&denoise_params(0, 0.0, 1.0, LuminanceStandard::Bt709)).is_ok());
    assert!(
        validate(&denoise_params(
            MAX_RADIUS,
            0.0,
            0.0,
            LuminanceStandard::Bt709
        ))
        .is_ok()
    );
}

#[test]
fn validate_rejects_radius_above_max() {
    let err = validate(&denoise_params(
        MAX_RADIUS + 1,
        0.0,
        0.0,
        LuminanceStandard::Bt709,
    ))
    .unwrap_err().to_string();
    assert!(
        err.contains("radius is"),
        "radius={}: {err}",
        MAX_RADIUS + 1
    );
}

#[test]
fn validate_rejects_out_of_domain_noise_sigma() {
    for noise_sigma in [-0.1_f32, f32::NAN, f32::NEG_INFINITY, f32::INFINITY] {
        let err = validate(&denoise_params(
            0,
            noise_sigma,
            0.0,
            LuminanceStandard::Bt709,
        ))
        .unwrap_err().to_string();
        assert!(
            err.contains("noise_sigma is"),
            "noise_sigma={noise_sigma}: {err}"
        );
    }
}

#[test]
fn denoise_validate_rejects_out_of_domain_amount() {
    for amount in [-0.1_f32, 1.1, f32::NAN, f32::NEG_INFINITY, f32::INFINITY] {
        let err = validate(&denoise_params(
            0,
            0.0,
            amount,
            LuminanceStandard::Bt709,
        ))
        .unwrap_err().to_string();
        assert!(
            err.contains("amount is"),
            "amount={amount}: {err}"
        );
    }
}

#[test]
fn denoise_params_equality_repr_and_defaults() {
    let a = denoise_params(4, 0.02, 0.6, LuminanceStandard::Bt601);
    assert!(a.__eq__(&denoise_params(4, 0.02, 0.6, LuminanceStandard::Bt601)));
    assert!(!a.__eq__(&denoise_params(5, 0.02, 0.6, LuminanceStandard::Bt601)));
    assert!(!a.__eq__(&denoise_params(4, 0.03, 0.6, LuminanceStandard::Bt601)));
    assert!(!a.__eq__(&denoise_params(4, 0.02, 0.7, LuminanceStandard::Bt601)));
    assert!(!a.__eq__(&denoise_params(4, 0.02, 0.6, LuminanceStandard::Bt709)));
    assert_eq!(
        a.__repr__::<Ieee>(),
        "DenoiseParams(radius=4, noise_sigma=0.02, amount=0.6, standard=Bt601)"
    );

    let d = DenoiseParams::default();
    assert_eq!(d.radius, 0);
    assert_eq!(f32::from_bits(d.noise_sigma), 0.0);
    assert_eq!(f32::from_bits(d.amount), 0.0);
    assert_eq!(d.standard, LuminanceStandard::Bt709);
}

fn naive_cross_guided(
    img: &Frame,
    radius: u32,
    eps: f32,
    amount: f32,
    standard: LuminanceStandard,
) -> Frame {
    let (h, w, c) = img.dim();
    assert_eq!(c, 3);
    let r = radius as usize;
    let eps_f64 = eps as f64;
    let neg_amount = -amount as f64;
    let guide = luminance_bw(img, standard);

    let mut a = Doubles::zeros(h, w);
    let mut b = Doubles::zeros(h, w);
    for y in 0..h {
        let y0 = y.saturating_sub(r);
        let y1 = (y + r).min(h - 1);
        for x in 0..w {
            let x0 = x.saturating_sub(r);
            let x1 = (x + r).min(w - 1);

            let mut n = 0.0_f64;
            let mut sum_i = 0.0_f64;
            let mut sum_i2 = 0.0_f64;
            let mut sum_p = [0.0_f64; 3];
            let mut sum_ip = [0.0_f64; 3];
            for yy in y0..=y1 {
                for xx in x0..=x1 {
                    let iv = guide[[yy, xx, 0]] as f64;
                    n += 1.0;
                    sum_i += iv;
                    sum_i2 += iv * iv;
                    for ch in 0..3 {
                        let pv = img[[yy, xx, ch]] as f64;
                        sum_p[ch] += pv;
                        sum_ip[ch] += iv * pv;
                    }
                }
            }
            let mean_i = sum_i / n;
            let var_i = (sum_i2 / n - mean_i * mean_i).max(0.0);
            for ch in 0..3 {
                let mean_p = sum_p[ch] / n;
                let mean_ip = sum_ip[ch] / n;
                let cov = mean_ip - mean_i * mean_p;
                let a_c = if var_i + eps_f64 > 0.0 {
                    cov / (var_i + eps_f64)
                } else {
                    0.0
                };
                a[[y, x, ch]] = a_c;
                b[[y, x, ch]] = mean_p - a_c * mean_i;
            }
        }
    }

    let mut out = Frame::zeros((h, w, 3));
    for y in 0..h {
        let y0 = y.saturating_sub(r);
        let y1 = (y + r).min(h - 1);
        for x in 0..w {
            let x0 = x.saturating_sub(r);
            let x1 = (x + r).min(w - 1);

            let mut n = 0.0_f64;
            let mut sum_a = [0.0_f64; 3];
            let mut sum_b = [0.0_f64; 3];
            for yy in y0..=y1 {
                for xx in x0..=x1 {
                    n += 1.0;
                    for ch in 0..3 {
                        sum_a[ch] += a[[yy, xx, ch]];
                        sum_b[ch] += b[[yy, xx, ch]];
                    }
                }
            }
            let iv = guide[[y, x, 0]] as f64;
            for ch in 0..3 {
                let mean_a = sum_a[ch] / n;
                let mean_b = sum_b[ch] / n;
                let q = mean_a * iv + mean_b;
                let pv = img[[y, x, ch]] as f64;
                out[[y, x, ch]] = (pv + neg_amount * (pv - q)) as f32;
            }
        }
    }

    out
}

#[test]
fn cross_guided_matches_a_naive_windowed_reference() {
    let (h, w) = (11, 13);
    let mut state = 0x9E37_79B9_7F4A_7C15_u64;
    let mut img = Frame::zeros((h, w, 3));
    for sample in img.samples.iter_mut() {
        state = splitmix64(state);
        let bits24 = (state >> 40) as i32;
        *sample = (bits24 - 0x0080_0000) as f32 / 8_388_608.0;
    }

    for radius in 1..=3_u32 {
        for &(noise_sigma, amount) in &[(0.0_f32, 1.0_f32), (0.05, 0.6), (0.4, 1.0)] {
            let eps = noise_sigma * noise_sigma;
            let params =
                denoise_params(radius, noise_sigma, amount, LuminanceStandard::Bt709);
            let got = denoise(&img, &params).unwrap();
            let want = naive_cross_guided(&img, radius, eps, amount, LuminanceStandard::Bt709);

            for (&g, &w_) in got.iter().zip(want.iter()) {
                let diff = (g - w_).abs();
                let rel = diff / w_.abs().max(1e-6);
                assert!(
                    rel < 1e-5 || diff < 1e-6,
                    "radius={radius} noise_sigma={noise_sigma} amount={amount}: \
                     got {g}, want {w_} (diff {diff}, rel {rel})"
                );
            }
        }
    }
}

#[test]
fn cross_guided_matches_the_naive_reference_on_an_hdr_partial_channel_bar() {
    let (h, w) = (20, 32);
    let mut img = Frame::from_elem((h, w, 3), 1e-4_f32);
    let (y0, y1) = (h * 4 / 10, h * 4 / 10 + 4);
    let (x0, x1) = (w / 10, w - w / 10);
    for y in y0..y1 {
        for x in x0..x1 {
            img[[y, x, 0]] = 1e8_f32;
            img[[y, x, 2]] = 1e8_f32;
        }
    }

    let noise_sigma = 0.1_f32;
    let amount = 1.0_f32;
    let eps = noise_sigma * noise_sigma;
    let (atol, rtol) = (1e-6_f32, 1e-4_f32);

    for &radius in &[2_u32, 8] {
        let params = denoise_params(radius, noise_sigma, amount, LuminanceStandard::Bt709);
        let got = denoise(&img, &params).unwrap();
        let want = naive_cross_guided(&img, radius, eps, amount, LuminanceStandard::Bt709);
        for (idx, (&g, &w_)) in got.iter().zip(want.iter()).enumerate() {
            let diff = (g - w_).abs();
            let ratio = diff / (atol + rtol * w_.abs());
            assert!(
                ratio <= 1.0,
                "radius={radius} idx={idx}: got {g}, want {w_} (diff {diff}, \
                 {ratio:.4}x the (rtol {rtol:e}, atol {atol:e}) bound)"
            );
        }
    }
}

#[test]
fn cross_guided_zero_over_zero_case_yields_finite_output() {
    let img = Frame::from_elem((9, 9, 3), 0.4_f32);
    let params = denoise_params(2, 0.0, 1.0, LuminanceStandard::Bt709);
    let out = denoise(&img, &params).unwrap();
    assert!(
        out.iter().all(|v| v.is_finite()),
        "expected finite output on the 0/0 case, got a non-finite value"
    );
}

#[test]
fn box_h_cross_pair_matches_a_fresh_sum_once_a_value_leaves_the_window() {
    let (h, w, r) = (1_usize, 20_usize, 3_usize);
    let mut guide = vec![1e-4_f32; h * w];
    let mut data = vec![1e-4_f32; h * w];
    guide[2] = 1e8_f32;
    data[2] = 1e8_f32;

    let plane = |v: &Vec<f32>| {
        let bits: Vec<u32> = v.iter().map(|x| x.to_bits()).collect();
        plane_from_samples((h, w), &bits).unwrap()
    };
    let (hsum_p, hsum_ip) =
        box_h_cross_pair::<Ieee>(&plane(&guide), &plane(&data), r).unwrap();

    for x in 0..w {
        let x1 = x.saturating_sub(r);
        let x2 = (x + r).min(w - 1);
        let mut want_p = 0.0_f64;
        let mut want_ip = 0.0_f64;
        for i in x1..=x2 {
            want_p += data[i] as f64;
            want_ip += guide[i] as f64 * data[i] as f64;
        }
        assert_eq!(
            hsum_p.get(0, x).unwrap(),
            want_p.to_bits(),
            "x={x}: sum_p diverged from a fresh from-scratch sum over \
             the same clamped window (direct sum required, not a \
             sliding/incremental one)"
        );
        assert_eq!(
            hsum_ip.get(0, x).unwrap(),
            want_ip.to_bits(),
            "x={x}: sum_ip diverged from a fresh from-scratch sum over \
             the same clamped window (direct sum required, not a \
             sliding/incremental one)"
        );
    }
}

#[test]
fn nothing_to_denoise_leaves_the_image() {
    let img = Frame::from_shape_fn((5, 4, 3), |(y, x, c)| (y * 12 + x * 3 + c) as f32 / 60.0);
    let out = denoise(&img, &denoise_params(3, 0.1, 0.0, LuminanceStandard::Bt709)).unwrap();
    assert_eq!(out.bits(), img.bits());
}

#[test]
fn one_channel_is_its_own_guide() {
    // A radius of zero has one-sample windows: no variance, so the mean stays.
    let img = Frame::from_shape_fn((4, 4, 1), |(y, x, _)| (y * 4 + x) as f32 / 16.0);
    let out = denoise(&img, &denoise_params(0, 0.5, 1.0, LuminanceStandard::Bt709)).unwrap();
    assert_eq!(out, img);

    // A lone bright sample in a flat field is pulled towards it.
    let mut spike = Frame::from_elem((13, 13, 1), 0.25);
    spike[[8, 8, 0]] = 0.75;
    let out = denoise(&spike, &denoise_params(2, 1.0, 1.0, LuminanceStandard::Bt709)).unwrap();
    assert!(out[[8, 8, 0]] < 0.5);
    assert!((out[[0, 0, 0]] - 0.25).abs() < 1e-6);
}

#[test]
fn two_channels_are_denoised_apart() {
    let one = Frame::from_shape_fn((6, 6, 2), |(y, x, c)| {
        if c == 0 { ((y * 6 + x) % 5) as f32 } else { 1.0 }
    });
    let other = Frame::from_shape_fn((6, 6, 2), |(y, x, c)| {
        if c == 0 { ((y * 6 + x) % 5) as f32 } else { -3.0 }
    });
    let params = denoise_params(2, 0.3, 0.8, LuminanceStandard::Bt709);
    let (a, z) = (denoise(&one, &params).unwrap(), denoise(&other, &params).unwrap());
    for y in 0..6 {
        for x in 0..6 {
            assert_eq!(a[[y, x, 0]].to_bits(), z[[y, x, 0]].to_bits());
        }
    }
}

#[test]
fn denoise_takes_any_channel_count() {
    for c in [1_usize, 2, 3, 4] {
        let img = Frame::from_elem((3, 3, c), 0.5);
        let out = denoise(&img, &denoise_params(1, 0.1, 1.0, LuminanceStandard::Bt709)).unwrap();
        assert_eq!(out.dim(), (3, 3, c));
        for v in out.iter() {
            assert!((v - 0.5).abs() < 1e-6);
        }
    }
}

#[test]
fn denoising_one_channel_takes_local_contrast_off() {
    // Sums of halves and wholes are exact, so the two agree to the bit.
    let img = Frame::from_shape_fn((4, 4, 1), |(y, x, _)| if (y + x) % 2 == 0 { 1.0 } else { -1.0 });
    let out = denoise(&img, &denoise_params(3, 1.0, 0.5, LuminanceStandard::Bt709)).unwrap();
    let contrast = phaios_core::local_contrast::local_contrast::<Ieee>(
        &img.image(),
        &phaios_core::local_contrast::GuidedFilterParams::new(3, b(1.0)),
        b(-0.5),
    )
    .unwrap();
    assert_eq!(out.bits(), Frame::of(&contrast).bits());
    assert_eq!(out[[0, 0, 0]], 0.75);
}

#[test]
fn an_empty_image_is_denoised_at_once() {
    for shape in [(0, 4, 1_000_000_000_000), (5, 0, 3), (2, 3, 0), (0, 0, 1)] {
        let img = image_from_samples(shape, Vec::new()).unwrap();
        let params = denoise_params(2, 0.1, 1.0, LuminanceStandard::Bt709);
        let out = phaios_core::denoise::denoise::<Ieee>(&img, &params).unwrap();
        assert_eq!(out.dim(), shape);
    }
}

#[test]
fn denoising_awkward_samples_is_close_to_negative_local_contrast() {
    let img = Frame::from_shape_fn((18, 21, 1), |(y, x, _)| {
        0.2 + 0.1 * ((y * 7 + x * 13) % 19) as f32 / 3.0
    });
    let sigma = 0.15_f32;
    let clean = denoise(&img, &denoise_params(3, sigma, 0.7, LuminanceStandard::Bt709)).unwrap();
    let contrast = phaios_core::local_contrast::local_contrast::<Ieee>(
        &img.image(),
        &phaios_core::local_contrast::GuidedFilterParams::new(3, b(sigma * sigma)),
        b(-0.7),
    )
    .unwrap();
    let softened = Frame::of(&contrast);
    let mut changed = false;
    for ((a, c), v) in clean.iter().zip(softened.iter()).zip(img.iter()) {
        assert!((a - c).abs() <= 1e-6 + 1e-5 * c.abs(), "{a} against {c}");
        changed = changed || (a - v).abs() > 1e-3;
    }
    assert!(changed);
}
