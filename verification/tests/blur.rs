//! The Gaussian blur.

#![allow(dead_code)]

use phaios_core::arith::Arithmetic;
use phaios_core::allocation::{check_shape, image_from_samples};
use phaios_core::blur::{
    blur, box_series_sigma, box_widths, gaussian_weights, BlurParams, BlurShape,
    BOX_CROSSOVER_SIGMA, MAX_SIGMA, MAX_WIDTH_RATIO,
};
use phaios_core::error::PhaiosError;
use phaios_core::raster::Image;

/// The host's own arithmetic.
struct Ieee;

fn s(a: u32) -> f32 {
    f32::from_bits(a)
}

fn d(a: u64) -> f64 {
    f64::from_bits(a)
}

impl Arithmetic for Ieee {
    fn plus(a: u32, b: u32) -> u32 {
        (s(a) + s(b)).to_bits()
    }
    fn minus(a: u32, b: u32) -> u32 {
        (s(a) - s(b)).to_bits()
    }
    fn times(a: u32, b: u32) -> u32 {
        (s(a) * s(b)).to_bits()
    }
    fn over(a: u32, b: u32) -> u32 {
        (s(a) / s(b)).to_bits()
    }
    fn remainder(a: u32, b: u32) -> u32 {
        (s(a) % s(b)).to_bits()
    }
    fn root(a: u32) -> u32 {
        s(a).sqrt().to_bits()
    }
    fn floor(a: u32) -> u32 {
        s(a).floor().to_bits()
    }
    fn ceil(a: u32) -> u32 {
        s(a).ceil().to_bits()
    }
    fn round(a: u32) -> u32 {
        s(a).round().to_bits()
    }
    fn power(a: u32, b: u32) -> u32 {
        s(a).powf(s(b)).to_bits()
    }
    fn exp(a: u32) -> u32 {
        s(a).exp().to_bits()
    }
    fn ln(a: u32) -> u32 {
        s(a).ln().to_bits()
    }
    fn cos(a: u32) -> u32 {
        s(a).cos().to_bits()
    }
    fn of_count(n: u64) -> u32 {
        (n as f32).to_bits()
    }
    fn of_offset(n: i64) -> u32 {
        (n as f32).to_bits()
    }
    fn to_count(a: u32) -> u64 {
        s(a) as u64
    }
    fn to_offset(a: u32) -> i64 {
        s(a) as i64
    }
    fn widen(a: u32) -> u64 {
        f64::from(s(a)).to_bits()
    }
    fn narrow(a: u64) -> u32 {
        (d(a) as f32).to_bits()
    }
    fn plus64(a: u64, b: u64) -> u64 {
        (d(a) + d(b)).to_bits()
    }
    fn minus64(a: u64, b: u64) -> u64 {
        (d(a) - d(b)).to_bits()
    }
    fn times64(a: u64, b: u64) -> u64 {
        (d(a) * d(b)).to_bits()
    }
    fn over64(a: u64, b: u64) -> u64 {
        (d(a) / d(b)).to_bits()
    }
    fn root64(a: u64) -> u64 {
        d(a).sqrt().to_bits()
    }
    fn floor64(a: u64) -> u64 {
        d(a).floor().to_bits()
    }
    fn exp64(a: u64) -> u64 {
        d(a).exp().to_bits()
    }
    fn sin64(a: u64) -> u64 {
        d(a).sin().to_bits()
    }
    fn cos64(a: u64) -> u64 {
        d(a).cos().to_bits()
    }
    fn radians64(a: u64) -> u64 {
        d(a).to_radians().to_bits()
    }
    fn of_count64(n: u64) -> u64 {
        (n as f64).to_bits()
    }
    fn to_count64(a: u64) -> u64 {
        d(a) as u64
    }
    fn text(a: u32) -> String {
        format!("{}", s(a))
    }
    fn debug_text(a: u32) -> String {
        format!("{:?}", s(a))
    }
}

/// The bits of a number, as parameters take it.
fn b(v: f32) -> u32 {
    v.to_bits()
}

/// An image with its samples as numbers.
#[derive(Clone, Debug, PartialEq)]
struct Frame {
    shape: (usize, usize, usize),
    samples: Vec<f32>,
}

impl Frame {
    fn from_shape_fn<F: Fn((usize, usize, usize)) -> f32>(
        shape: (usize, usize, usize),
        f: F,
    ) -> Frame {
        let mut samples = Vec::new();
        for y in 0..shape.0 {
            for x in 0..shape.1 {
                for k in 0..shape.2 {
                    samples.push(f((y, x, k)));
                }
            }
        }
        Frame { shape, samples }
    }

    fn from_elem(shape: (usize, usize, usize), v: f32) -> Frame {
        Frame::from_shape_fn(shape, |_| v)
    }

    fn zeros(shape: (usize, usize, usize)) -> Frame {
        Frame::from_elem(shape, 0.0)
    }

    fn of(img: &Image) -> Frame {
        Frame::from_shape_fn(img.dim(), |(y, x, k)| f32::from_bits(img.get(y, x, k).unwrap()))
    }

    fn image(&self) -> Image {
        let bits: Vec<u32> = self.samples.iter().map(|v| v.to_bits()).collect();
        image_from_samples(self.shape, bits).unwrap()
    }

    fn dim(&self) -> (usize, usize, usize) {
        self.shape
    }

    fn iter(&self) -> std::slice::Iter<'_, f32> {
        self.samples.iter()
    }

    fn bits(&self) -> Vec<u32> {
        self.samples.iter().map(|v| v.to_bits()).collect()
    }

    /// Every `dy`-th row and every `dx`-th column, through a strided view.
    fn strided(&self, dy: isize, dx: isize) -> Image {
        let array = ndarray::Array3::from_shape_vec(self.shape, self.samples.clone()).unwrap();
        let rows = array.slice_axis(ndarray::Axis(0), ndarray::Slice::new(0, None, dy));
        let view = rows.slice_axis(ndarray::Axis(1), ndarray::Slice::new(0, None, dx));
        let bits: Vec<u32> = view.iter().map(|v| v.to_bits()).collect();
        image_from_samples(view.dim(), bits).unwrap()
    }

    /// Every `dy`-th row and every `dx`-th column.
    fn every(&self, dy: usize, dx: usize) -> Frame {
        let (h, w, c) = self.shape;
        Frame::from_shape_fn((h.div_ceil(dy), w.div_ceil(dx), c), |(y, x, k)| {
            self[[y * dy, x * dx, k]]
        })
    }
}

impl std::ops::Index<[usize; 3]> for Frame {
    type Output = f32;

    fn index(&self, at: [usize; 3]) -> &f32 {
        let [y, x, k] = at;
        let (h, w, c) = self.shape;
        assert!(y < h && x < w && k < c);
        &self.samples[(y * w + x) * c + k]
    }
}

impl std::ops::IndexMut<[usize; 3]> for Frame {
    fn index_mut(&mut self, at: [usize; 3]) -> &mut f32 {
        let [y, x, k] = at;
        let (h, w, c) = self.shape;
        assert!(y < h && x < w && k < c);
        &mut self.samples[(y * w + x) * c + k]
    }
}

fn gaussian(sigma: f32) -> BlurParams {
    BlurParams::new(b(sigma), BlurShape::Gaussian)
}

fn blurred(img: &Frame, sigma: f32) -> Frame {
    Frame::of(&blur::<Ieee>(&img.image(), &gaussian(sigma)).unwrap())
}

fn refused(sigma: f32) -> bool {
    blur::<Ieee>(&Frame::from_elem((1, 1, 1), 0.5).image(), &gaussian(sigma)).is_err()
}

fn crossover() -> f32 {
    f32::from_bits(BOX_CROSSOVER_SIGMA)
}

fn widths_for(sigma: f32) -> [usize; 3] {
    box_widths::<Ieee>(b(sigma))
}

fn series_sigma(widths: &[usize]) -> f32 {
    f32::from_bits(box_series_sigma::<Ieee>(widths))
}

#[test]
fn sigma_zero_is_the_exact_identity() {
    let img = Frame::from_shape_fn((5, 7, 3), |(y, x, c)| (y * 7 + x + c) as f32 / 20.0);
    let out = blurred(&img, 0.0);
    assert_eq!(out.dim(), img.dim());
    for (a, b) in img.iter().zip(out.iter()) {
        assert_eq!(a.to_bits(), b.to_bits());
    }
}

#[test]
fn a_constant_image_survives_at_every_sigma() {
    // Borders clamp, so this must hold at the edges too.
    for sigma in [0.5_f32, 1.0, 2.0, 3.9, 4.0, 8.0, 20.0] {
        let img = Frame::from_elem((9, 11, 1), 0.375);
        let out = blurred(&img, sigma);
        let worst = out.iter().map(|v| (v - 0.375).abs()).fold(0.0, f32::max);
        assert!(worst < 2e-6, "sigma {sigma}: constant drifted by {worst}");
    }
}

#[test]
/// A blur redistributes light; it must not create or destroy it while the
/// kernel fits inside the frame.
fn energy_is_preserved_while_the_kernel_fits() {
    for sigma in [1.0_f32, 2.0, 5.0, 8.0] {
        let n = (4.0 * sigma).ceil() as usize * 2 + 9;
        let img = Frame::from_shape_fn((n, n, 1), |(y, x, _)| {
            if y == n / 2 && x == n / 2 { 1.0 } else { 0.0 }
        });
        let sum: f32 = blurred(&img, sigma).iter().sum();
        assert!(
            (sum - 1.0).abs() < 2e-3,
            "sigma {sigma} in a {n}x{n} frame: energy {sum}"
        );
    }
}

/// With clamped borders an impulse near an edge does lose light: that is what
/// clamping means.
#[test]
fn energy_leaks_at_a_border_as_clamping_implies() {
    let img = Frame::from_shape_fn((16, 16, 1), |(y, x, _)| {
        if y == 8 && x == 8 { 1.0 } else { 0.0 }
    });
    let sum: f32 = blurred(&img, 5.0).iter().sum();
    assert!(
        sum < 0.95,
        "a sigma-5 kernel overruns a 16x16 frame, so light must be lost: {sum}"
    );
}

#[test]
fn the_result_is_symmetric_about_a_centred_impulse() {
    let n = 21;
    let img = Frame::from_shape_fn((n, n, 1), |(y, x, _)| {
        if y == n / 2 && x == n / 2 { 1.0 } else { 0.0 }
    });
    for sigma in [1.5_f32, 4.0, 6.0] {
        let out = blurred(&img, sigma);
        for y in 0..n {
            for x in 0..n {
                let mirrored = out[[n - 1 - y, n - 1 - x, 0]];
                assert!(
                    (out[[y, x, 0]] - mirrored).abs() < 1e-6,
                    "sigma {sigma}: asymmetric at ({y}, {x})"
                );
            }
        }
    }
}

#[test]
fn box_widths_are_odd_at_least_three_and_match_sigma() {
    for i in 0..=240 {
        let sigma = crossover() + i as f32 * 0.25;
        let w = widths_for(sigma);
        for width in w {
            assert!(
                width >= 3 && width % 2 == 1,
                "sigma {sigma}: bad width {width}"
            );
        }
        let realised = series_sigma(&w);
        let rel = (realised - sigma).abs() / sigma;
        assert!(
            rel < 0.01,
            "sigma {sigma}: realised {realised}, {rel:.3} relative error"
        );
    }
}

/// The widths must stay balanced: the closest sigma alone would be nearly a
/// single box.
#[test]
fn box_widths_stay_balanced() {
    for i in 0..=240 {
        let sigma = crossover() + i as f32 * 0.25;
        let w = widths_for(sigma);
        let (lo, hi) = (w.iter().min().unwrap(), w.iter().max().unwrap());
        assert!(
            hi <= &(lo * MAX_WIDTH_RATIO),
            "sigma {sigma}: widths {w:?} exceed the {MAX_WIDTH_RATIO}:1 ratio"
        );
    }
    assert_ne!(
        widths_for(5.0),
        [3, 3, 17],
        "the degenerate triple must be excluded"
    );
}

#[test]
fn the_box_floor_is_what_the_docs_claim() {
    // Three width-3 boxes, and nothing smaller is reachable.
    assert!((series_sigma(&[3, 3, 3]) - std::f32::consts::SQRT_2).abs() < 1e-5);
    assert!(series_sigma(&[3, 3, 5]) > series_sigma(&[3, 3, 3]));
}

#[test]
fn gaussian_weights_are_normalised_and_symmetric() {
    for sigma in [0.5_f32, 1.0, 2.0, 3.9] {
        let w: Vec<f32> = gaussian_weights::<Ieee>(b(sigma))
            .iter()
            .map(|v| f32::from_bits(*v))
            .collect();
        let sum: f32 = w.iter().sum();
        assert!(
            (sum - 1.0).abs() < 1e-6,
            "sigma {sigma}: weights sum to {sum}"
        );
        for i in 0..w.len() / 2 {
            assert!((w[i] - w[w.len() - 1 - i]).abs() < 1e-9);
        }
    }
}

/// The realised standard deviation of a blur, measured from its own impulse
/// response about the centre. A single-row image keeps this cheap.
fn realised_sigma(sigma: f32) -> f32 {
    let n = ((12.0 * sigma).ceil() as usize) | 1;
    let mut img = Frame::zeros((1, n, 1));
    img[[0, n / 2, 0]] = 1.0;
    let out = blurred(&img, sigma);

    let centre = (n / 2) as f64;
    let (mut m0, mut m2) = (0.0_f64, 0.0_f64);
    for x in 0..n {
        let v = f64::from(out[[0, x, 0]]);
        let d = x as f64 - centre;
        m0 += v;
        m2 += v * d * d;
    }
    (m2 / m0).sqrt() as f32
}

#[test]
fn the_realised_sigma_matches_the_request_on_both_paths() {
    for sigma in [1.0_f32, 2.0, 4.0, 5.9] {
        let ratio = realised_sigma(sigma) / sigma;
        assert!(
            (ratio - 1.0).abs() < 0.01,
            "conv path: sigma {sigma} realised as {} ({:.4}x)",
            realised_sigma(sigma),
            ratio
        );
    }
    for sigma in [crossover(), 8.0, 12.0, 32.0, 64.0, 200.0] {
        let ratio = realised_sigma(sigma) / sigma;
        assert!(
            (ratio - 1.0).abs() < 0.01,
            "box path: sigma {sigma} realised as {} ({:.4}x)",
            realised_sigma(sigma),
            ratio
        );
    }
}

#[test]
fn the_two_paths_agree_across_the_crossover() {
    let below = realised_sigma(crossover() - 0.01);
    let above = realised_sigma(crossover());
    assert!(
        (above - below).abs() < 0.1,
        "realised sigma steps from {below} to {above} across the crossover"
    );
}

#[test]
fn a_larger_sigma_blurs_further() {
    let n = 41;
    let img = Frame::from_shape_fn((n, n, 1), |(y, x, _)| {
        if y == n / 2 && x == n / 2 { 1.0 } else { 0.0 }
    });
    let peak = |s: f32| blurred(&img, s)[[n / 2, n / 2, 0]];
    let mut prev = f32::INFINITY;
    for sigma in [0.5_f32, 1.0, 2.0, 4.0, 6.0] {
        let p = peak(sigma);
        assert!(
            p < prev,
            "sigma {sigma}: peak {p} did not fall below {prev}"
        );
        prev = p;
    }
}

#[test]
fn blur_accepts_any_layout_and_channel_count() {
    let img = Frame::from_shape_fn((8, 10, 3), |(y, x, c)| {
        ((y * 10 + x + c) % 30) as f32 / 29.0
    });
    let p = gaussian(2.0);
    assert_eq!(
        Frame::of(&blur::<Ieee>(&img.strided(2, 2), &p).unwrap()),
        Frame::of(&blur::<Ieee>(&img.every(2, 2).image(), &p).unwrap())
    );
}

#[test]
fn empty_and_degenerate_shapes_are_accepted() {
    for shape in [(0, 5, 1), (5, 0, 1), (1, 1, 1), (1, 9, 3), (9, 1, 3)] {
        let img = Frame::zeros(shape);
        let out = blurred(&img, 3.0);
        assert_eq!(out.dim(), shape);
    }
}

#[test]
fn rejects_bad_sigma() {
    for s in [-1.0, f32::NAN, f32::INFINITY, f32::NEG_INFINITY] {
        assert!(refused(s));
    }
}

/// A scan of every triple, as the yardstick for the pruned search.
fn exhaustive_box_widths(sigma: f32) -> [usize; 3] {
    let hi = ((12.0 * sigma * sigma / 3.0 + 1.0).sqrt() as usize).max(3) + 8;
    let mut best = [3_usize; 3];
    let mut best_err = f32::INFINITY;
    let mut a = 3;
    while a <= hi {
        let mut b = a;
        while b <= hi {
            let mut c = b;
            while c <= hi {
                if c <= a * MAX_WIDTH_RATIO {
                    let err = (series_sigma(&[a, b, c]) - sigma).abs();
                    if err < best_err {
                        best_err = err;
                        best = [a, b, c];
                    }
                }
                c += 2;
            }
            b += 2;
        }
        a += 2;
    }
    best
}

#[test]
fn the_pruned_search_returns_what_an_exhaustive_one_would() {
    let mut s = crossover();
    while s <= 48.0 {
        assert_eq!(widths_for(s), exhaustive_box_widths(s), "sigma = {s}");
        s += 0.25;
    }
    for s in [64.0, 96.5, 128.0, 200.25] {
        assert_eq!(widths_for(s), exhaustive_box_widths(s), "sigma = {s}");
    }
}

#[test]
fn a_huge_sigma_is_refused_rather_than_searched_forever() {
    let max = f32::from_bits(MAX_SIGMA);
    for s in [max * 1.001, 1e4, 1e5, f32::MAX] {
        assert!(refused(s), "sigma = {s} should be refused");
    }
    // The bound itself must still work, and promptly.
    assert!(!refused(max));
}

#[test]
fn an_oversized_logical_shape_is_refused_before_it_is_materialised() {
    // A shape that implies 43 TB is refused on the shape alone.
    let err = check_shape::<u32>((2_000_000, 2_000_000, 3)).unwrap_err();
    assert!(
        matches!(err, PhaiosError::Allocation(_)),
        "expected an allocation error, got {err:?}"
    );

    // Under the limit the same image works.
    let out = blurred(&Frame::zeros((1_000, 1_000, 1)), 2.0);
    assert_eq!(out.dim(), (1_000, 1_000, 1));
}

#[test]
fn blur_params_equality_and_repr() {
    let a = gaussian(2.0);
    assert!(a.__eq__(&gaussian(2.0)));
    assert!(!a.__eq__(&gaussian(3.0)));
    assert_eq!(
        a.__repr__::<Ieee>(),
        "BlurParams(sigma=2, shape=BlurShape.Gaussian)"
    );
    assert_eq!(f32::from_bits(BlurParams::default().sigma), 0.0);
}

#[test]
fn a_refused_sigma_says_why() {
    let img = Frame::from_elem((1, 1, 1), 0.5).image();
    let said = |sigma: f32| blur::<Ieee>(&img, &gaussian(sigma)).unwrap_err().to_string();
    assert_eq!(
        said(-1.0),
        "parameter error: sigma is -1, expected a finite value of at least 0"
    );
    assert_eq!(
        said(5000.0),
        "parameter error: sigma is 5000, above the maximum of 4096"
    );
}

#[test]
fn widths_for_a_few_sigmas() {
    assert_eq!(widths_for(6.0), [7, 13, 15]);
    assert_eq!(series_sigma(&[3, 5, 7]), ((8.0_f64 + 24.0 + 48.0) / 12.0).sqrt() as f32);
}

#[test]
fn a_blur_keeps_channels_apart() {
    let two = Frame::from_shape_fn((6, 5, 2), |(y, x, c)| {
        if c == 0 { (y * 5 + x) as f32 } else { 1.0 }
    });
    let other = Frame::from_shape_fn((6, 5, 2), |(y, x, c)| {
        if c == 0 { (y * 5 + x) as f32 } else { -7.5 }
    });
    for sigma in [1.5, 7.0] {
        let (a, z) = (blurred(&two, sigma), blurred(&other, sigma));
        for y in 0..6 {
            for x in 0..5 {
                assert_eq!(a[[y, x, 0]].to_bits(), z[[y, x, 0]].to_bits());
            }
        }
    }
}

#[test]
fn helpers_go_on_above_the_largest_sigma() {
    let weights = gaussian_weights::<Ieee>(b(5000.0));
    assert_eq!(weights.len() % 2, 1);
    assert!(weights.len() > 8192);
    let widths = widths_for(5000.0);
    assert!((series_sigma(&widths) - 5000.0).abs() < 0.5);
}

#[test]
fn the_search_is_a_scan_down_to_no_sigma_at_all() {
    for sigma in [0.0_f32, 0.3, 1.0, 1.414, 1.5, 2.25, 3.75, 5.5, 13.125, 21.9] {
        assert_eq!(widths_for(sigma), exhaustive_box_widths(sigma), "sigma {sigma}");
    }
}

#[test]
fn running_means_give_a_constant_image_back_to_the_bit() {
    for v in [0.1_f32, 1.0 / 3.0, 7.0e5, -0.3] {
        let img = Frame::from_elem((13, 6, 2), v);
        for sigma in [crossover(), 6.5, 40.0] {
            assert_eq!(blurred(&img, sigma).bits(), img.bits());
        }
        for sigma in [0.4_f32, 1.7, 3.0] {
            for &w in blurred(&img, sigma).iter() {
                assert!((w - v).abs() <= v.abs() / 262_144.0, "{v} became {w} at {sigma}");
            }
        }
    }
}
