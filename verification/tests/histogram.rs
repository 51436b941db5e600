//! Histograms.

#![allow(dead_code)]

use phaios_core::arith::Arithmetic;
use phaios_core::allocation::image_from_samples;
use phaios_core::error::PhaiosError;
use phaios_core::histogram::{adds_up, assemble, chunk_rows, Histogram, HistogramParams, MAX_BINS};
use phaios_core::lut::{apply_lut, LutParams};
use phaios_core::raster::Image;
use phaios_core::raster::Plane;

/// The host's own arithmetic.
struct Ieee;

fn s(a: u32) -> f32 {
    f32::from_bits(a)
}

fn d(a: u64) -> f64 {
    f64::from_bits(a)
}

impl Arithmetic for Ieee {
    fn plus(a: u32, b: u32) -> u32 {
        (s(a) + s(b)).to_bits()
    }
    fn minus(a: u32, b: u32) -> u32 {
        (s(a) - s(b)).to_bits()
    }
    fn times(a: u32, b: u32) -> u32 {
        (s(a) * s(b)).to_bits()
    }
    fn over(a: u32, b: u32) -> u32 {
        (s(a) / s(b)).to_bits()
    }
    fn remainder(a: u32, b: u32) -> u32 {
        (s(a) % s(b)).to_bits()
    }
    fn root(a: u32) -> u32 {
        s(a).sqrt().to_bits()
    }
    fn floor(a: u32) -> u32 {
        s(a).floor().to_bits()
    }
    fn ceil(a: u32) -> u32 {
        s(a).ceil().to_bits()
    }
    fn round(a: u32) -> u32 {
        s(a).round().to_bits()
    }
    fn power(a: u32, b: u32) -> u32 {
        s(a).powf(s(b)).to_bits()
    }
    fn exp(a: u32) -> u32 {
        s(a).exp().to_bits()
    }
    fn ln(a: u32) -> u32 {
        s(a).ln().to_bits()
    }
    fn cos(a: u32) -> u32 {
        s(a).cos().to_bits()
    }
    fn of_count(n: u64) -> u32 {
        (n as f32).to_bits()
    }
    fn of_offset(n: i64) -> u32 {
        (n as f32).to_bits()
    }
    fn to_count(a: u32) -> u64 {
        s(a) as u64
    }
    fn to_offset(a: u32) -> i64 {
        s(a) as i64
    }
    fn widen(a: u32) -> u64 {
        f64::from(s(a)).to_bits()
    }
    fn narrow(a: u64) -> u32 {
        (d(a) as f32).to_bits()
    }
    fn plus64(a: u64, b: u64) -> u64 {
        (d(a) + d(b)).to_bits()
    }
    fn minus64(a: u64, b: u64) -> u64 {
        (d(a) - d(b)).to_bits()
    }
    fn times64(a: u64, b: u64) -> u64 {
        (d(a) * d(b)).to_bits()
    }
    fn over64(a: u64, b: u64) -> u64 {
        (d(a) / d(b)).to_bits()
    }
    fn root64(a: u64) -> u64 {
        d(a).sqrt().to_bits()
    }
    fn floor64(a: u64) -> u64 {
        d(a).floor().to_bits()
    }
    fn exp64(a: u64) -> u64 {
        d(a).exp().to_bits()
    }
    fn sin64(a: u64) -> u64 {
        d(a).sin().to_bits()
    }
    fn cos64(a: u64) -> u64 {
        d(a).cos().to_bits()
    }
    fn radians64(a: u64) -> u64 {
        d(a).to_radians().to_bits()
    }
    fn of_count64(n: u64) -> u64 {
        (n as f64).to_bits()
    }
    fn to_count64(a: u64) -> u64 {
        d(a) as u64
    }
    fn text(a: u32) -> String {
        format!("{}", s(a))
    }
    fn debug_text(a: u32) -> String {
        format!("{:?}", s(a))
    }
}

/// The bits of a number, as parameters take it.
fn b(v: f32) -> u32 {
    v.to_bits()
}

/// An image with its samples as numbers.
#[derive(Clone, Debug, PartialEq)]
struct Frame {
    shape: (usize, usize, usize),
    samples: Vec<f32>,
}

impl Frame {
    fn from_shape_fn<F: Fn((usize, usize, usize)) -> f32>(
        shape: (usize, usize, usize),
        f: F,
    ) -> Frame {
        let mut samples = Vec::new();
        for y in 0..shape.0 {
            for x in 0..shape.1 {
                for k in 0..shape.2 {
                    samples.push(f((y, x, k)));
                }
            }
        }
        Frame { shape, samples }
    }

    fn from_elem(shape: (usize, usize, usize), v: f32) -> Frame {
        Frame::from_shape_fn(shape, |_| v)
    }

    fn zeros(shape: (usize, usize, usize)) -> Frame {
        Frame::from_elem(shape, 0.0)
    }

    fn of(img: &Image) -> Frame {
        Frame::from_shape_fn(img.dim(), |(y, x, k)| f32::from_bits(img.get(y, x, k).unwrap()))
    }

    fn image(&self) -> Image {
        let bits: Vec<u32> = self.samples.iter().map(|v| v.to_bits()).collect();
        image_from_samples(self.shape, bits).unwrap()
    }

    fn dim(&self) -> (usize, usize, usize) {
        self.shape
    }

    fn iter(&self) -> std::slice::Iter<'_, f32> {
        self.samples.iter()
    }

    fn bits(&self) -> Vec<u32> {
        self.samples.iter().map(|v| v.to_bits()).collect()
    }

    /// Every `dy`-th row and every `dx`-th column, through a strided view.
    fn strided(&self, dy: isize, dx: isize) -> Image {
        let array = ndarray::Array3::from_shape_vec(self.shape, self.samples.clone()).unwrap();
        let rows = array.slice_axis(ndarray::Axis(0), ndarray::Slice::new(0, None, dy));
        let view = rows.slice_axis(ndarray::Axis(1), ndarray::Slice::new(0, None, dx));
        let bits: Vec<u32> = view.iter().map(|v| v.to_bits()).collect();
        image_from_samples(view.dim(), bits).unwrap()
    }

    /// Every `dy`-th row and every `dx`-th column.
    fn every(&self, dy: usize, dx: usize) -> Frame {
        let (h, w, c) = self.shape;
        Frame::from_shape_fn((h.div_ceil(dy), w.div_ceil(dx), c), |(y, x, k)| {
            self[[y * dy, x * dx, k]]
        })
    }
}

impl std::ops::Index<[usize; 3]> for Frame {
    type Output = f32;

    fn index(&self, at: [usize; 3]) -> &f32 {
        let [y, x, k] = at;
        let (h, w, c) = self.shape;
        assert!(y < h && x < w && k < c);
        &self.samples[(y * w + x) * c + k]
    }
}

impl std::ops::IndexMut<[usize; 3]> for Frame {
    fn index_mut(&mut self, at: [usize; 3]) -> &mut f32 {
        let [y, x, k] = at;
        let (h, w, c) = self.shape;
        assert!(y < h && x < w && k < c);
        &mut self.samples[(y * w + x) * c + k]
    }
}

fn pixel(samples: &[f32]) -> Frame {
    Frame { shape: (1, 1, samples.len()), samples: samples.to_vec() }
}

fn row(samples: &[f32]) -> Frame {
    Frame { shape: (1, samples.len(), 1), samples: samples.to_vec() }
}

fn histogram_params(bins: u32, min: f32, max: f32) -> HistogramParams {
    HistogramParams::new(bins, b(min), b(max))
}

fn histogram(img: &Frame, params: &HistogramParams) -> Result<Histogram, PhaiosError> {
    phaios_core::histogram::histogram::<Ieee>(&img.image(), params)
}

fn slot_of(value: f32, min: f32, max: f32, bins: usize) -> usize {
    phaios_core::histogram::slot_of::<Ieee>(b(value), b(min), b(max), bins)
}

/// Every bin count, channel by channel.
fn counts(h: &Histogram) -> Vec<u64> {
    let mut all = Vec::new();
    for channel in 0..h.channels {
        for bin in 0..h.bins {
            all.push(h.counts().get(channel, bin).unwrap());
        }
    }
    all
}

fn at(plane: &Plane, channel: usize, bin: usize) -> f32 {
    f32::from_bits(plane.get(channel, bin).unwrap())
}

#[test]
fn counts_sum_to_the_pixel_count() {
    let img = Frame::from_shape_fn((17, 23, 3), |(y, x, c)| {
        ((y * 23 + x + c) % 100) as f32 / 99.0
    });
    let h = histogram(&img, &HistogramParams::default()).unwrap();
    for ch in 0..3 {
        assert_eq!(h.total(ch), 17 * 23, "channel {ch} lost or gained samples");
    }
}

#[test]
fn a_constant_image_fills_one_bin() {
    let img = Frame::from_elem((8, 8, 1), 0.5);
    let h = histogram(&img, &histogram_params(256, 0.0, 1.0)).unwrap();
    let occupied: Vec<usize> = (0..256).filter(|&b| h.counts().get(0, b).unwrap() > 0).collect();
    assert_eq!(occupied.len(), 1, "a constant image occupies one bin");
    assert_eq!(occupied[0], 128, "0.5 of [0,1] over 256 bins is bin 128");
    assert_eq!(h.counts().get(0, 128).unwrap(), 64);
}

#[test]
fn range_endpoints_land_in_the_end_bins() {
    let img = row(&[0.0_f32, 1.0]);
    let h = histogram(&img, &histogram_params(256, 0.0, 1.0)).unwrap();
    assert_eq!(h.counts().get(0, 0).unwrap(), 1, "min belongs in bin 0");
    assert_eq!(h.counts().get(0, 255).unwrap(), 1, "max belongs in the last bin");
    assert_eq!(h.below()[0], 0);
    assert_eq!(h.above()[0], 0, "exactly max is not 'above'");
}

#[test]
fn out_of_range_is_counted_separately_not_folded_in() {
    let img = row(&[-0.5_f32, 0.5, 1.5, 2.5]);
    let h = histogram(&img, &histogram_params(4, 0.0, 1.0)).unwrap();
    assert_eq!(h.below()[0], 1);
    assert_eq!(h.above()[0], 2);
    assert_eq!(
        counts(&h).iter().sum::<u64>(),
        1,
        "only 0.5 is in range"
    );
    assert_eq!(h.total(0), 4);
}

#[test]
fn nan_is_separate_from_clipping_and_infinity_is_not() {
    let img = row(&[f32::NAN, f32::INFINITY, f32::NEG_INFINITY]);
    let h = histogram(&img, &HistogramParams::default()).unwrap();
    assert_eq!(h.non_finite()[0], 1, "NaN is a broken pixel, counted apart");
    assert_eq!(h.above()[0], 1, "+inf genuinely is above the range");
    assert_eq!(h.below()[0], 1, "-inf genuinely is below it");
}

#[test]
fn channels_are_counted_independently() {
    let img = Frame::from_shape_fn((4, 4, 3), |(_, _, c)| match c {
        0 => 1.0,
        1 => 0.5,
        _ => 0.0,
    });
    let h = histogram(&img, &histogram_params(4, 0.0, 1.0)).unwrap();
    assert_eq!(h.counts().get(0, 3).unwrap(), 16, "channel 0 at the top bin");
    assert_eq!(h.counts().get(1, 2).unwrap(), 16, "channel 1 at 0.5");
    assert_eq!(h.counts().get(2, 0).unwrap(), 16, "channel 2 at the bottom bin");
}

#[test]
fn cdf_is_monotonic_and_ends_at_one() {
    let img = Frame::from_shape_fn((32, 32, 1), |(y, x, _)| {
        ((y * 32 + x) % 256) as f32 / 255.0
    });
    let h = histogram(&img, &HistogramParams::default()).unwrap();
    let cdf = h.cdf::<Ieee>().unwrap();
    let mut prev = 0.0_f32;
    for bin in 0..h.bins {
        let v = at(&cdf, 0, bin);
        assert!(v >= prev, "cdf must be non-decreasing at bin {bin}");
        prev = v;
    }
    assert!((prev - 1.0).abs() < 1e-6, "cdf must end at 1.0, got {prev}");
}

#[test]
fn cdf_of_an_empty_channel_is_all_zero() {
    let img = Frame::from_elem((4, 4, 1), 5.0);
    let h = histogram(&img, &histogram_params(8, 0.0, 1.0)).unwrap();
    assert!((0..8).all(|bin| at(&h.cdf::<Ieee>().unwrap(), 0, bin) == 0.0));
    assert_eq!(h.above()[0], 16);
}

#[test]
fn thread_count_cannot_change_the_answer() {
    let img = Frame::from_shape_fn((97, 131, 3), |(y, x, c)| {
        ((y * 131 + x * 7 + c) % 1000) as f32 / 999.0
    });
    let p = histogram_params(64, 0.0, 1.0);
    let a = histogram(&img, &p).unwrap();
    let b = histogram(&img, &p).unwrap();
    assert_eq!(counts(&a), counts(&b));
}

#[test]
fn histogram_accepts_any_layout() {
    let img = Frame::from_shape_fn((12, 15, 3), |(y, x, c)| {
        ((y * 15 + x + c) % 50) as f32 / 49.0
    });
    let strided = Frame::of(&img.strided(2, 3));
    let owned = img.every(2, 3);
    let p = histogram_params(32, 0.0, 1.0);
    assert_eq!(
        counts(&histogram(&strided, &p).unwrap()),
        counts(&histogram(&owned, &p).unwrap())
    );
}

#[test]
fn empty_image_gives_empty_counts() {
    let img = Frame::zeros((0, 5, 3));
    let h = histogram(&img, &HistogramParams::default()).unwrap();
    assert_eq!(h.channels, 3);
    assert_eq!(counts(&h).iter().sum::<u64>(), 0);
    assert_eq!(h.total(0), 0);
}

#[test]
fn custom_range_is_honoured() {
    let img = row(&[0.5_f32, 1.5, 2.5, 3.5]);
    let h = histogram(&img, &histogram_params(4, 1.0, 4.0)).unwrap();
    assert_eq!(h.below()[0], 1, "0.5 is below the analysed range");
    assert_eq!(counts(&h).iter().sum::<u64>(), 3);
}

#[test]
fn rejects_bad_parameters() {
    let img = pixel(&[0.5_f32]);
    for p in [
        histogram_params(1, 0.0, 1.0),
        histogram_params(0, 0.0, 1.0),
        histogram_params(256, 1.0, 0.0),
        histogram_params(256, 0.0, 0.0),
        histogram_params(256, f32::NAN, 1.0),
        histogram_params(256, 0.0, f32::INFINITY),
        histogram_params(256, -3.0e38, 3.0e38),
        histogram_params(256, f32::MIN, f32::MAX),
    ] {
        assert!(
            histogram(&img, &p).is_err(),
            "{p:?} should be rejected"
        );
    }
}

#[test]
fn cdf_indexes_each_channel_separately() {
    let img = Frame::from_shape_fn((4, 4, 3), |(_, _, c)| match c {
        0 => 0.05,
        1 => 0.5,
        _ => 0.95,
    });
    let h = histogram(&img, &histogram_params(10, 0.0, 1.0)).unwrap();
    let cdf = h.cdf::<Ieee>().unwrap();

    let step_bin = |ch: usize| (0..10).find(|&b| at(&cdf, ch, b) >= 1.0).unwrap();
    assert_eq!(step_bin(0), 0, "channel 0 is dark");
    assert_eq!(step_bin(1), 5, "channel 1 is mid");
    assert_eq!(step_bin(2), 9, "channel 2 is bright");
    assert_eq!(at(&cdf, 1, 4), 0.0);
    assert_eq!(at(&cdf, 2, 8), 0.0);
}

#[test]
fn cdf_normalises_over_in_range_samples_only() {
    let img = row(&[0.1_f32, 0.3, 0.6, 0.9, -1.0, -2.0, 5.0, 7.0]);
    let h = histogram(&img, &histogram_params(10, 0.0, 1.0)).unwrap();
    assert_eq!(h.below()[0], 2);
    assert_eq!(h.above()[0], 2);
    let cdf = h.cdf::<Ieee>().unwrap();
    assert!(
        (at(&cdf, 0, 9) - 1.0).abs() < 1e-6,
        "cdf must reach 1.0 over the in-range samples, got {}",
        at(&cdf, 0, 9)
    );
}

#[test]
fn total_includes_the_non_finite_tally() {
    let img = row(&[0.5_f32, f32::NAN, f32::NAN, 2.0, -1.0]);
    let h = histogram(&img, &HistogramParams::default()).unwrap();
    assert_eq!(h.non_finite()[0], 2);
    assert_eq!(
        h.total(0),
        5,
        "total must count bins + below + above + NaN, not just the first three"
    );
}

#[test]
fn oversized_accumulators_are_rejected_not_attempted() {
    let tiny = Frame::zeros((1, 1, 1));
    assert!(
        histogram(&tiny, &histogram_params(MAX_BINS + 1, 0.0, 1.0)).is_err(),
        "bins above the cap must be refused"
    );
    let many_channels = Frame::zeros((0, 1, 4_000_000));
    assert!(
        histogram(&many_channels, &HistogramParams::default()).is_err(),
        "channels x bins must be bounded too, even for an empty image"
    );
}

#[test]
fn chunked_reduction_matches_a_serial_count() {
    let img = Frame::from_shape_fn((201, 37, 3), |(y, x, c)| {
        ((y * 37 + x * 3 + c) % 997) as f32 / 996.0
    });
    let p = histogram_params(64, 0.0, 1.0);
    let got = histogram(&img, &p).unwrap();

    let mut want = vec![0_u64; 3 * (64 + 3)];
    for y in 0..201 {
        for x in 0..37 {
            for c in 0..3 {
                want[c * 67 + slot_of(img[[y, x, c]], 0.0, 1.0, 64)] += 1;
            }
        }
    }
    let expected = assemble(want, 3, 64, b(0.0), b(1.0)).unwrap();
    assert_eq!(counts(&got), counts(&expected));
    assert_eq!(got.below(), expected.below());
    assert_eq!(got.above(), expected.above());
}

#[test]
fn equalisation_lut_is_aligned_to_apply_lut() {
    for bins in [16_u32, 64, 256, 1024] {
        let n = bins as usize;
        let data: Vec<f32> = (0..n).map(|i| (i as f32 + 0.5) / n as f32).collect();
        let img = row(&data);

        let h = histogram(&img, &histogram_params(bins, 0.0, 1.0)).unwrap();
        let table = h.equalisation_lut::<Ieee>().unwrap();
        let entries: Vec<u32> = (0..=n).map(|i| table.get(0, i).unwrap()).collect();
        let out = apply_lut::<Ieee>(&img.image(), &entries, &LutParams::new(b(0.0), b(1.0)))
            .map(|out| Frame::of(&out))
            .unwrap();

        let worst = img
            .iter()
            .zip(out.iter())
            .map(|(a, b)| (a - b).abs())
            .fold(0.0_f32, f32::max);
        assert!(
            worst < 0.01 / bins as f32,
            "bins={bins}: equalising a uniform image shifted by {worst}, \
             which is {} of a bin",
            worst * bins as f32
        );
    }
}

#[test]
fn equalisation_lut_is_cdf_with_a_leading_zero() {
    let img = Frame::from_shape_fn((8, 8, 3), |(y, x, c)| {
        ((y * 8 + x + c * 3) % 64) as f32 / 63.0
    });
    let h = histogram(&img, &histogram_params(32, 0.0, 1.0)).unwrap();
    let cdf = h.cdf::<Ieee>().unwrap();
    let table = h.equalisation_lut::<Ieee>().unwrap();
    assert_eq!(table.dim(), (3, 33));
    for ch in 0..3 {
        assert_eq!(
            at(&table, ch, 0),
            0.0,
            "the leading entry is zero by definition"
        );
        for bin in 0..32 {
            assert_eq!(at(&table, ch, bin + 1), at(&cdf, ch, bin));
        }
    }
}

#[test]
fn histogram_params_equality_and_repr() {
    let a = histogram_params(256, 0.0, 1.0);
    assert!(a.__eq__(&HistogramParams::default()));
    assert!(!a.__eq__(&histogram_params(512, 0.0, 1.0)));
    assert_eq!(a.__repr__::<Ieee>(), "HistogramParams(bins=256, min=0, max=1)");
}

#[test]
fn slots_past_the_bins_hold_what_was_not_binned() {
    assert_eq!(slot_of(0.0, 0.0, 1.0, 4), 0);
    assert_eq!(slot_of(0.26, 0.0, 1.0, 4), 1);
    assert_eq!(slot_of(1.0, 0.0, 1.0, 4), 3);
    assert_eq!(slot_of(-0.1, 0.0, 1.0, 4), 4);
    assert_eq!(slot_of(1.1, 0.0, 1.0, 4), 5);
    assert_eq!(slot_of(f32::NAN, 0.0, 1.0, 4), 6);
}

#[test]
fn assembling_splits_each_channel() {
    let h = assemble(vec![1, 2, 3, 4, 5, 6, 7, 8, 9, 10], 2, 2, b(0.0), b(1.0)).unwrap();
    assert_eq!(counts(&h), vec![1, 2, 6, 7]);
    assert_eq!(*h.below(), vec![3, 8]);
    assert_eq!(*h.above(), vec![4, 9]);
    assert_eq!(*h.non_finite(), vec![5, 10]);
    assert_eq!(h.total(0), 15);
    assert_eq!(h.total(1), 40);
    assert_eq!(h.checked_total(1), Ok(40));
    assert!(h.checked_total(2).unwrap_err().contains('2'));
}

#[test]
fn bands_of_rows_leave_every_thread_some_work() {
    assert_eq!(chunk_rows(0, 4), 1);
    assert!(chunk_rows(1000, 4) >= 1);
    assert_eq!(chunk_rows(1, 16), 1);
}

#[test]
fn histograms_print_their_extent() {
    let h = histogram(&pixel(&[0.5, 0.25]), &histogram_params(4, 0.0, 1.0)).unwrap();
    assert_eq!(h.__repr__::<Ieee>(), "Histogram(channels=2, bins=4, range=(0, 1))");
}

#[test]
fn histogram_faults_say_what_is_wrong() {
    let img = pixel(&[0.5]);
    let said = |bins: u32, min: f32, max: f32| {
        histogram(&img, &histogram_params(bins, min, max)).unwrap_err().to_string()
    };
    assert!(said(1, 0.0, 1.0).contains("bins is 1, expected at least 2"));
    assert!(said(5_000_000, 0.0, 1.0).contains("bins is 5000000, expected at most 4194304"));
    assert!(said(8, f32::NAN, 1.0).contains("range is (NaN, 1), expected finite bounds"));
    assert!(said(8, 1.0, 0.0).contains("range is (1, 0), expected max > min"));
    assert!(said(8, f32::MIN, f32::MAX).contains("spans more than f32 can represent"));
}

#[test]
fn arrangement_does_not_change_the_counts() {
    let img = Frame::from_shape_fn((6, 10, 2), |(y, x, c)| ((y * 10 + x) * (c + 3) % 17) as f32 / 12.0);
    let mut turned = img.clone();
    turned.shape = (10, 6, 2);
    for pixel in 0..30 {
        for c in 0..2 {
            turned.samples.swap(pixel * 2 + c, (59 - pixel) * 2 + c);
        }
    }
    let params = histogram_params(9, 0.0, 1.0);
    let (a, z) = (histogram(&img, &params).unwrap(), histogram(&turned, &params).unwrap());
    assert_eq!(counts(&a), counts(&z));
    assert_eq!(*a.above(), *z.above());
    assert_ne!(*a.above(), vec![0, 0]);
}

#[test]
fn a_distribution_never_falls() {
    let img = Frame::from_shape_fn((11, 13, 2), |(y, x, c)| ((y * 13 + x) * (c + 5) % 31) as f32 / 25.0);
    let h = histogram(&img, &histogram_params(16, 0.0, 1.0)).unwrap();
    let cdf = h.cdf::<Ieee>().unwrap();
    for ch in 0..2 {
        for bin in 0..16 {
            let v = at(&cdf, ch, bin);
            assert!((0.0..=1.0).contains(&v));
            assert!(bin == 0 || at(&cdf, ch, bin - 1) <= v);
        }
        assert_eq!(at(&cdf, ch, 15), 1.0);
    }
}

#[test]
fn counters_add_up_or_are_refused() {
    assert!(adds_up(&vec![1; 10], 2, 2));
    assert!(adds_up(&vec![], 0, 2));
    assert!(!adds_up(&vec![1; 11], 2, 2));
    assert!(!adds_up(&vec![1; 10], 2, usize::MAX - 2));
    assert!(!adds_up(&vec![1; 10], usize::MAX, 2));
    let mut acc = vec![0; 10];
    acc[4] = u64::MAX;
    assert!(adds_up(&acc, 2, 2));
    acc[5] = 1;
    assert!(adds_up(&acc, 2, 2));
    acc[0] = 1;
    assert!(!adds_up(&acc, 2, 2));
}
