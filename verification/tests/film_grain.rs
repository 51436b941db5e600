//! Film grain.

#![allow(dead_code)]

use phaios_core::arith::Arithmetic;
use phaios_core::allocation::image_from_samples;
use phaios_core::error::PhaiosError;
use phaios_core::film_grain::{
    bandpass_geometry, film_grain, pixel_hash, splitmix64, standard_normal, GrainParams,
};
use phaios_core::raster::Image;

/// The host's own arithmetic.
struct Ieee;

fn s(a: u32) -> f32 {
    f32::from_bits(a)
}

fn d(a: u64) -> f64 {
    f64::from_bits(a)
}

impl Arithmetic for Ieee {
    fn plus(a: u32, b: u32) -> u32 {
        (s(a) + s(b)).to_bits()
    }
    fn minus(a: u32, b: u32) -> u32 {
        (s(a) - s(b)).to_bits()
    }
    fn times(a: u32, b: u32) -> u32 {
        (s(a) * s(b)).to_bits()
    }
    fn over(a: u32, b: u32) -> u32 {
        (s(a) / s(b)).to_bits()
    }
    fn remainder(a: u32, b: u32) -> u32 {
        (s(a) % s(b)).to_bits()
    }
    fn root(a: u32) -> u32 {
        s(a).sqrt().to_bits()
    }
    fn floor(a: u32) -> u32 {
        s(a).floor().to_bits()
    }
    fn ceil(a: u32) -> u32 {
        s(a).ceil().to_bits()
    }
    fn round(a: u32) -> u32 {
        s(a).round().to_bits()
    }
    fn power(a: u32, b: u32) -> u32 {
        s(a).powf(s(b)).to_bits()
    }
    fn exp(a: u32) -> u32 {
        s(a).exp().to_bits()
    }
    fn ln(a: u32) -> u32 {
        s(a).ln().to_bits()
    }
    fn cos(a: u32) -> u32 {
        s(a).cos().to_bits()
    }
    fn of_count(n: u64) -> u32 {
        (n as f32).to_bits()
    }
    fn of_offset(n: i64) -> u32 {
        (n as f32).to_bits()
    }
    fn to_count(a: u32) -> u64 {
        s(a) as u64
    }
    fn to_offset(a: u32) -> i64 {
        s(a) as i64
    }
    fn widen(a: u32) -> u64 {
        f64::from(s(a)).to_bits()
    }
    fn narrow(a: u64) -> u32 {
        (d(a) as f32).to_bits()
    }
    fn plus64(a: u64, b: u64) -> u64 {
        (d(a) + d(b)).to_bits()
    }
    fn minus64(a: u64, b: u64) -> u64 {
        (d(a) - d(b)).to_bits()
    }
    fn times64(a: u64, b: u64) -> u64 {
        (d(a) * d(b)).to_bits()
    }
    fn over64(a: u64, b: u64) -> u64 {
        (d(a) / d(b)).to_bits()
    }
    fn root64(a: u64) -> u64 {
        d(a).sqrt().to_bits()
    }
    fn floor64(a: u64) -> u64 {
        d(a).floor().to_bits()
    }
    fn exp64(a: u64) -> u64 {
        d(a).exp().to_bits()
    }
    fn sin64(a: u64) -> u64 {
        d(a).sin().to_bits()
    }
    fn cos64(a: u64) -> u64 {
        d(a).cos().to_bits()
    }
    fn radians64(a: u64) -> u64 {
        d(a).to_radians().to_bits()
    }
    fn of_count64(n: u64) -> u64 {
        (n as f64).to_bits()
    }
    fn to_count64(a: u64) -> u64 {
        d(a) as u64
    }
    fn text(a: u32) -> String {
        format!("{}", s(a))
    }
    fn debug_text(a: u32) -> String {
        format!("{:?}", s(a))
    }
}

/// The bits of a number, as parameters take it.
fn b(v: f32) -> u32 {
    v.to_bits()
}

/// An image with its samples as numbers.
#[derive(Clone, Debug, PartialEq)]
struct Frame {
    shape: (usize, usize, usize),
    samples: Vec<f32>,
}

impl Frame {
    fn from_shape_fn<F: Fn((usize, usize, usize)) -> f32>(
        shape: (usize, usize, usize),
        f: F,
    ) -> Frame {
        let mut samples = Vec::new();
        for y in 0..shape.0 {
            for x in 0..shape.1 {
                for k in 0..shape.2 {
                    samples.push(f((y, x, k)));
                }
            }
        }
        Frame { shape, samples }
    }

    fn from_elem(shape: (usize, usize, usize), v: f32) -> Frame {
        Frame::from_shape_fn(shape, |_| v)
    }

    fn zeros(shape: (usize, usize, usize)) -> Frame {
        Frame::from_elem(shape, 0.0)
    }

    fn of(img: &Image) -> Frame {
        Frame::from_shape_fn(img.dim(), |(y, x, k)| f32::from_bits(img.get(y, x, k).unwrap()))
    }

    fn image(&self) -> Image {
        let bits: Vec<u32> = self.samples.iter().map(|v| v.to_bits()).collect();
        image_from_samples(self.shape, bits).unwrap()
    }

    fn dim(&self) -> (usize, usize, usize) {
        self.shape
    }

    fn iter(&self) -> std::slice::Iter<'_, f32> {
        self.samples.iter()
    }

    fn bits(&self) -> Vec<u32> {
        self.samples.iter().map(|v| v.to_bits()).collect()
    }

    /// Every `dy`-th row and every `dx`-th column, through a strided view.
    fn strided(&self, dy: isize, dx: isize) -> Image {
        let array = ndarray::Array3::from_shape_vec(self.shape, self.samples.clone()).unwrap();
        let rows = array.slice_axis(ndarray::Axis(0), ndarray::Slice::new(0, None, dy));
        let view = rows.slice_axis(ndarray::Axis(1), ndarray::Slice::new(0, None, dx));
        let bits: Vec<u32> = view.iter().map(|v| v.to_bits()).collect();
        image_from_samples(view.dim(), bits).unwrap()
    }

    /// Every `dy`-th row and every `dx`-th column.
    fn every(&self, dy: usize, dx: usize) -> Frame {
        let (h, w, c) = self.shape;
        Frame::from_shape_fn((h.div_ceil(dy), w.div_ceil(dx), c), |(y, x, k)| {
            self[[y * dy, x * dx, k]]
        })
    }
}

impl std::ops::Index<[usize; 3]> for Frame {
    type Output = f32;

    fn index(&self, at: [usize; 3]) -> &f32 {
        let [y, x, k] = at;
        let (h, w, c) = self.shape;
        assert!(y < h && x < w && k < c);
        &self.samples[(y * w + x) * c + k]
    }
}

impl std::ops::IndexMut<[usize; 3]> for Frame {
    fn index_mut(&mut self, at: [usize; 3]) -> &mut f32 {
        let [y, x, k] = at;
        let (h, w, c) = self.shape;
        assert!(y < h && x < w && k < c);
        &mut self.samples[(y * w + x) * c + k]
    }
}

fn grain(intensity: f32, size: f32, seed: u64) -> GrainParams {
    GrainParams::new(b(intensity), b(size), seed)
}

fn grained(img: &Frame, params: &GrainParams) -> Frame {
    Frame::of(&film_grain::<Ieee>(&img.image(), params).unwrap())
}

fn flat(h: usize, w: usize, value: f32) -> Frame {
    Frame::from_elem((h, w, 1), value)
}

fn normal(bits: u64) -> f32 {
    f32::from_bits(standard_normal::<Ieee>(bits))
}

fn mean_and_std(values: impl Iterator<Item = f32> + Clone) -> (f32, f32) {
    let v: Vec<f32> = values.collect();
    let n = v.len() as f32;
    let mean = v.iter().sum::<f32>() / n;
    let var = v.iter().map(|x| (x - mean) * (x - mean)).sum::<f32>() / n;
    (mean, var.sqrt())
}

#[test]
fn standard_normal_is_standard() {
    // A wrong constant would still look like noise; only the moments catch it.
    let samples: Vec<f32> = (0..100_000)
        .map(|i| normal(pixel_hash(1, i % 317, i / 317)))
        .collect();
    let (mean, std) = mean_and_std(samples.iter().copied());
    assert!(mean.abs() < 0.02, "mean {mean} should be ~0");
    assert!((std - 1.0).abs() < 0.02, "std {std} should be ~1");
}

#[test]
fn noise_is_not_symmetric_in_x_and_y() {
    // A naive `x ^ y` key makes (x, y) and (y, x) collide, which shows up as a
    // diagonal mirror line through the grain.
    let mut collisions = 0;
    for x in 0..64_u64 {
        for y in 0..64_u64 {
            if x != y && pixel_hash(7, x, y) == pixel_hash(7, y, x) {
                collisions += 1;
            }
        }
    }
    assert_eq!(collisions, 0, "transposed coordinates collide");
}

#[test]
fn different_seeds_give_different_noise() {
    let a = normal(pixel_hash(1, 10, 20));
    let b = normal(pixel_hash(2, 10, 20));
    assert!((a - b).abs() > 1e-6, "seed had no effect: {a} vs {b}");
}

#[test]
fn zero_intensity_is_identity() {
    let img = Frame::from_shape_fn((16, 16, 1), |(y, x, _)| (y * 16 + x) as f32 / 256.0);
    let out = grained(&img, &grain(0.0, 2.0, 42));
    assert_eq!(out, img);
}

#[test]
fn same_seed_gives_identical_output() {
    let img = flat(48, 48, 0.5);
    let params = grain(0.3, 2.0, 12345);
    let first = grained(&img, &params);
    for _ in 0..8 {
        assert_eq!(
            grained(&img, &params),
            first,
            "grain must be bit-identical for the same seed"
        );
    }
}

#[test]
fn different_seeds_give_different_grain() {
    let img = flat(32, 32, 0.5);
    let a = grained(&img, &grain(0.3, 2.0, 1));
    let b = grained(&img, &grain(0.3, 2.0, 2));
    assert_ne!(a, b, "different seeds must give different grain");
}

#[test]
fn grain_is_independent_of_the_thread_count() {
    let img = flat(96, 96, 0.5);
    let params = grain(0.4, 2.0, 99);

    let reference = rayon::ThreadPoolBuilder::new()
        .num_threads(1)
        .build()
        .unwrap()
        .install(|| grained(&img, &params));

    for threads in [2, 3, 8] {
        let out = rayon::ThreadPoolBuilder::new()
            .num_threads(threads)
            .build()
            .unwrap()
            .install(|| grained(&img, &params));
        assert_eq!(out, reference, "output changed with {threads} threads");
    }
}

#[test]
fn envelope_silences_grain_at_black_and_white() {
    for value in [0.0_f32, 1.0] {
        let img = flat(32, 32, value);
        let out = grained(&img, &grain(1.0, 2.0, 5));
        for &v in out.iter() {
            assert!(
                (v - value).abs() < 1e-6,
                "grain appeared at L = {value}: got {v}"
            );
        }
    }
}

#[test]
fn highlights_above_one_get_no_grain() {
    let img = flat(32, 32, 2.5);
    let out = grained(&img, &grain(1.0, 2.0, 5));
    for &v in out.iter() {
        assert!((v - 2.5).abs() < 1e-5, "grain at L = 2.5: got {v}");
    }
}

#[test]
fn grain_peaks_in_the_midtones() {
    let params = grain(0.3, 2.0, 7);
    let deviation = |level: f32| {
        let img = flat(64, 64, level);
        let out = grained(&img, &params);
        mean_and_std(out.iter().map(|&v| v - level)).1
    };
    let mid = deviation(0.5);
    let shadow = deviation(0.1);
    let highlight = deviation(0.9);
    assert!(mid > shadow * 2.0, "midtone {mid} vs shadow {shadow}");
    assert!(
        mid > highlight * 2.0,
        "midtone {mid} vs highlight {highlight}"
    );
}

#[test]
fn intensity_scales_the_deviation_linearly() {
    let img = flat(64, 64, 0.5);
    let spread = |intensity| {
        let out = grained(&img, &grain(intensity, 2.0, 3));
        mean_and_std(out.iter().map(|&v| v - 0.5)).1
    };
    let (weak, strong) = (spread(0.1), spread(0.2));
    assert!(
        (strong / weak - 2.0).abs() < 0.05,
        "doubling intensity should double the spread: {weak} then {strong}"
    );
}

#[test]
fn every_valid_size_actually_produces_grain() {
    // Equal radii would leave no band, and the kernel would do nothing.
    let img = flat(64, 64, 0.5);
    for size in [0.5_f32, 0.9, 1.0, 1.1, 1.5, 2.0, 2.5, 3.0, 4.0, 8.0] {
        let out = grained(&img, &grain(0.3, size, 17));
        let spread = mean_and_std(out.iter().map(|&v| v - 0.5)).1;
        assert!(
            spread > 0.01,
            "size {size} produced no grain (spread {spread})"
        );
    }
}

#[test]
fn normalisation_keeps_intensity_comparable_across_sizes() {
    let img = flat(128, 128, 0.5);
    let spread = |size| {
        let out = grained(&img, &grain(0.2, size, 11));
        mean_and_std(out.iter().map(|&v| v - 0.5)).1
    };
    let fine = spread(1.0);
    let coarse = spread(4.0);
    assert!(
        (coarse / fine - 1.0).abs() < 0.5,
        "spread should be within 50% across sizes: fine {fine}, coarse {coarse}"
    );
}

#[test]
fn larger_size_produces_coarser_structure() {
    // Neighbour correlation is what "size" means.
    let img = flat(128, 128, 0.5);
    let correlation = |size| {
        let out = grained(&img, &grain(0.3, size, 21));
        let dev: Vec<f32> = out.iter().map(|&v| v - 0.5).collect();
        let mut num = 0.0_f64;
        let mut den = 0.0_f64;
        for y in 0..128 {
            for x in 0..127 {
                let a = dev[y * 128 + x] as f64;
                let b = dev[y * 128 + x + 1] as f64;
                num += a * b;
                den += a * a;
            }
        }
        num / den
    };
    let fine = correlation(1.0);
    let coarse = correlation(6.0);
    assert!(
        coarse > fine + 0.2,
        "coarse grain should be more correlated: {fine} vs {coarse}"
    );
}

#[test]
fn output_is_never_negative() {
    let img = flat(64, 64, 0.05);
    let out = grained(&img, &grain(5.0, 2.0, 8));
    for &v in out.iter() {
        assert!(v >= 0.0, "got {v}");
    }
}

#[test]
fn film_grain_rejects_invalid_parameters() {
    let img = flat(8, 8, 0.5).image();
    for bad in [-0.1_f32, f32::NAN, f32::INFINITY] {
        assert!(matches!(
            film_grain::<Ieee>(&img, &grain(bad, 1.0, 0)).unwrap_err(),
            PhaiosError::Parameter(_)
        ));
    }
    for bad in [0.0_f32, -1.0, f32::NAN] {
        assert!(matches!(
            film_grain::<Ieee>(&img, &grain(0.5, bad, 0)).unwrap_err(),
            PhaiosError::Parameter(_)
        ));
    }
    let rgb = Frame::zeros((4, 4, 3)).image();
    assert!(matches!(
        film_grain::<Ieee>(&rgb, &GrainParams::default()).unwrap_err(),
        PhaiosError::Shape(_)
    ));
}

#[test]
fn film_grain_accepts_any_layout() {
    let img = Frame::from_shape_fn((8, 4, 1), |(y, x, _)| (y * 4 + x) as f32 / 32.0);
    let params = grain(0.3, 2.0, 4);
    let out = Frame::of(&film_grain::<Ieee>(&img.strided(2, 1), &params).unwrap());
    assert_eq!(out.dim(), (4, 4, 1));
    assert_eq!(out, grained(&img.every(2, 1), &params));
}

#[test]
fn the_mixer_is_splitmix64() {
    // The first output of the published generator from the state zero.
    assert_eq!(splitmix64(0), 0xE220_A839_7B1D_CDAF);
}

#[test]
fn the_radii_of_a_grain_size() {
    let (inner, outer, _) = bandpass_geometry::<Ieee>(b(1.0));
    assert_eq!((inner, outer), (0, 1));
    let (inner, outer, _) = bandpass_geometry::<Ieee>(b(4.0));
    assert_eq!((inner, outer), (2, 4));
}

#[test]
fn noise_does_not_depend_on_the_frame() {
    // A pixel's noise is fixed to its place, so a larger frame grains alike far
    // from its new borders.
    let small = grained(&flat(32, 32, 0.5), &grain(0.3, 1.0, 6));
    let large = grained(&flat(40, 40, 0.5), &grain(0.3, 1.0, 6));
    for y in 0..24 {
        for x in 0..24 {
            assert!((small[[y, x, 0]] - large[[y, x, 0]]).abs() < 1e-5);
        }
    }
}

#[test]
fn black_and_white_keep_their_values() {
    for level in [1.0_f32, 1.5, 40.0] {
        let out = grained(&flat(9, 7, level), &grain(0.8, 2.0, 3));
        assert!(out.iter().all(|&v| v == level));
    }
    for level in [0.0_f32, -0.25] {
        let out = grained(&flat(9, 7, level), &grain(0.8, 2.0, 3));
        assert!(out.iter().all(|&v| v == 0.0));
    }
}

#[test]
fn the_mixer_and_the_hash_tell_inputs_apart() {
    let words: Vec<u64> = (0..64).map(|k| 1_u64 << k).chain(0..200).chain([u64::MAX]).collect();
    for (i, &a) in words.iter().enumerate() {
        for &z in &words[i + 1..] {
            if a == z {
                continue;
            }
            assert_ne!(splitmix64(a), splitmix64(z));
            assert_ne!(pixel_hash(a, 3, 4), pixel_hash(z, 3, 4));
            assert_ne!(pixel_hash(5, a, 4), pixel_hash(5, z, 4));
            assert_ne!(pixel_hash(5, 3, a), pixel_hash(5, 3, z));
        }
    }
}
