//! Crop, orientation, resize and straightening.

#![allow(dead_code)]

use phaios_core::arith::Arithmetic;
use phaios_core::allocation::image_from_samples;
use phaios_core::error::PhaiosError;
use phaios_core::geometry::{
    catmull_weights, crop, filter_eval, filter_support, orient, resize, straighten,
    straighten_geometry, CropParams, Orientation, ResizeFilter, ResizeParams, StraightenParams,
};
use phaios_core::raster::Image;

/// The host's own arithmetic.
struct Ieee;

fn s(a: u32) -> f32 {
    f32::from_bits(a)
}

fn d(a: u64) -> f64 {
    f64::from_bits(a)
}

impl Arithmetic for Ieee {
    fn plus(a: u32, b: u32) -> u32 {
        (s(a) + s(b)).to_bits()
    }
    fn minus(a: u32, b: u32) -> u32 {
        (s(a) - s(b)).to_bits()
    }
    fn times(a: u32, b: u32) -> u32 {
        (s(a) * s(b)).to_bits()
    }
    fn over(a: u32, b: u32) -> u32 {
        (s(a) / s(b)).to_bits()
    }
    fn remainder(a: u32, b: u32) -> u32 {
        (s(a) % s(b)).to_bits()
    }
    fn root(a: u32) -> u32 {
        s(a).sqrt().to_bits()
    }
    fn floor(a: u32) -> u32 {
        s(a).floor().to_bits()
    }
    fn ceil(a: u32) -> u32 {
        s(a).ceil().to_bits()
    }
    fn round(a: u32) -> u32 {
        s(a).round().to_bits()
    }
    fn power(a: u32, b: u32) -> u32 {
        s(a).powf(s(b)).to_bits()
    }
    fn exp(a: u32) -> u32 {
        s(a).exp().to_bits()
    }
    fn ln(a: u32) -> u32 {
        s(a).ln().to_bits()
    }
    fn cos(a: u32) -> u32 {
        s(a).cos().to_bits()
    }
    fn of_count(n: u64) -> u32 {
        (n as f32).to_bits()
    }
    fn of_offset(n: i64) -> u32 {
        (n as f32).to_bits()
    }
    fn to_count(a: u32) -> u64 {
        s(a) as u64
    }
    fn to_offset(a: u32) -> i64 {
        s(a) as i64
    }
    fn widen(a: u32) -> u64 {
        f64::from(s(a)).to_bits()
    }
    fn narrow(a: u64) -> u32 {
        (d(a) as f32).to_bits()
    }
    fn plus64(a: u64, b: u64) -> u64 {
        (d(a) + d(b)).to_bits()
    }
    fn minus64(a: u64, b: u64) -> u64 {
        (d(a) - d(b)).to_bits()
    }
    fn times64(a: u64, b: u64) -> u64 {
        (d(a) * d(b)).to_bits()
    }
    fn over64(a: u64, b: u64) -> u64 {
        (d(a) / d(b)).to_bits()
    }
    fn root64(a: u64) -> u64 {
        d(a).sqrt().to_bits()
    }
    fn floor64(a: u64) -> u64 {
        d(a).floor().to_bits()
    }
    fn exp64(a: u64) -> u64 {
        d(a).exp().to_bits()
    }
    fn sin64(a: u64) -> u64 {
        d(a).sin().to_bits()
    }
    fn cos64(a: u64) -> u64 {
        d(a).cos().to_bits()
    }
    fn radians64(a: u64) -> u64 {
        d(a).to_radians().to_bits()
    }
    fn of_count64(n: u64) -> u64 {
        (n as f64).to_bits()
    }
    fn to_count64(a: u64) -> u64 {
        d(a) as u64
    }
    fn text(a: u32) -> String {
        format!("{}", s(a))
    }
    fn debug_text(a: u32) -> String {
        format!("{:?}", s(a))
    }
}

/// The bits of a number, as parameters take it.
fn b(v: f32) -> u32 {
    v.to_bits()
}

/// An image with its samples as numbers.
#[derive(Clone, Debug, PartialEq)]
struct Frame {
    shape: (usize, usize, usize),
    samples: Vec<f32>,
}

impl Frame {
    fn from_shape_fn<F: Fn((usize, usize, usize)) -> f32>(
        shape: (usize, usize, usize),
        f: F,
    ) -> Frame {
        let mut samples = Vec::new();
        for y in 0..shape.0 {
            for x in 0..shape.1 {
                for k in 0..shape.2 {
                    samples.push(f((y, x, k)));
                }
            }
        }
        Frame { shape, samples }
    }

    fn from_elem(shape: (usize, usize, usize), v: f32) -> Frame {
        Frame::from_shape_fn(shape, |_| v)
    }

    fn zeros(shape: (usize, usize, usize)) -> Frame {
        Frame::from_elem(shape, 0.0)
    }

    fn of(img: &Image) -> Frame {
        Frame::from_shape_fn(img.dim(), |(y, x, k)| f32::from_bits(img.get(y, x, k).unwrap()))
    }

    fn image(&self) -> Image {
        let bits: Vec<u32> = self.samples.iter().map(|v| v.to_bits()).collect();
        image_from_samples(self.shape, bits).unwrap()
    }

    fn dim(&self) -> (usize, usize, usize) {
        self.shape
    }

    fn iter(&self) -> std::slice::Iter<'_, f32> {
        self.samples.iter()
    }

    fn bits(&self) -> Vec<u32> {
        self.samples.iter().map(|v| v.to_bits()).collect()
    }

    /// Every `dy`-th row and every `dx`-th column, through a strided view.
    fn strided(&self, dy: isize, dx: isize) -> Image {
        let array = ndarray::Array3::from_shape_vec(self.shape, self.samples.clone()).unwrap();
        let rows = array.slice_axis(ndarray::Axis(0), ndarray::Slice::new(0, None, dy));
        let view = rows.slice_axis(ndarray::Axis(1), ndarray::Slice::new(0, None, dx));
        let bits: Vec<u32> = view.iter().map(|v| v.to_bits()).collect();
        image_from_samples(view.dim(), bits).unwrap()
    }

    /// Every `dy`-th row and every `dx`-th column.
    fn every(&self, dy: usize, dx: usize) -> Frame {
        let (h, w, c) = self.shape;
        Frame::from_shape_fn((h.div_ceil(dy), w.div_ceil(dx), c), |(y, x, k)| {
            self[[y * dy, x * dx, k]]
        })
    }
}

impl std::ops::Index<[usize; 3]> for Frame {
    type Output = f32;

    fn index(&self, at: [usize; 3]) -> &f32 {
        let [y, x, k] = at;
        let (h, w, c) = self.shape;
        assert!(y < h && x < w && k < c);
        &self.samples[(y * w + x) * c + k]
    }
}

impl std::ops::IndexMut<[usize; 3]> for Frame {
    fn index_mut(&mut self, at: [usize; 3]) -> &mut f32 {
        let [y, x, k] = at;
        let (h, w, c) = self.shape;
        assert!(y < h && x < w && k < c);
        &mut self.samples[(y * w + x) * c + k]
    }
}

fn numbered(h: usize, w: usize, c: usize) -> Frame {
    Frame::from_shape_fn((h, w, c), |(y, x, ch)| (y * w * c + x * c + ch) as f32)
}

fn cropped(img: &Frame, params: &CropParams) -> Frame {
    Frame::of(&crop(&img.image(), params).unwrap())
}

fn oriented(img: &Frame, orientation: Orientation) -> Frame {
    Frame::of(&orient(&img.image(), orientation).unwrap())
}

fn resized(img: &Frame, params: &ResizeParams) -> Frame {
    Frame::of(&resize::<Ieee>(&img.image(), params).unwrap())
}

fn straightened(img: &Frame, degrees: f32) -> Frame {
    Frame::of(&straighten::<Ieee>(&img.image(), &StraightenParams::new(b(degrees))).unwrap())
}

const FILTERS: [ResizeFilter; 3] = [
    ResizeFilter::Area,
    ResizeFilter::Bilinear,
    ResizeFilter::CatmullRom,
];

#[test]
fn crop_extracts_the_exact_rectangle() {
    let img = numbered(6, 8, 3);
    let out = cropped(&img, &CropParams::new(2, 1, 4, 3));
    assert_eq!(out.dim(), (3, 4, 3));
    for y in 0..3 {
        for x in 0..4 {
            for ch in 0..3 {
                assert_eq!(out[[y, x, ch]], img[[y + 1, x + 2, ch]]);
            }
        }
    }
}

#[test]
fn crop_full_frame_is_identity() {
    let img = numbered(5, 7, 1);
    let out = cropped(&img, &CropParams::new(0, 0, 7, 5));
    assert_eq!(out, img);
}

#[test]
fn crop_zero_size_is_legal() {
    let img = numbered(4, 4, 3);
    let out = cropped(&img, &CropParams::new(2, 2, 0, 0));
    assert_eq!(out.dim(), (0, 0, 3));
}

#[test]
fn crop_rejects_rectangles_outside_the_frame() {
    let img = numbered(4, 4, 1).image();
    for bad in [
        CropParams::new(0, 0, 5, 4),
        CropParams::new(0, 0, 4, 5),
        CropParams::new(1, 0, 4, 4),
        CropParams::new(4, 4, 1, 1),
        // Near-overflow coordinates must not wrap.
        CropParams::new(u32::MAX, 0, 2, 2),
    ] {
        assert!(
            matches!(crop(&img, &bad).unwrap_err(), PhaiosError::Parameter(_)),
            "{bad:?} should be rejected"
        );
    }
}

#[test]
fn crop_composes() {
    let img = numbered(16, 16, 3);
    let outer = cropped(&img, &CropParams::new(2, 3, 10, 9));
    let inner = cropped(&outer, &CropParams::new(1, 2, 5, 4));
    let direct = cropped(&img, &CropParams::new(3, 5, 5, 4));
    assert_eq!(inner, direct);
}

#[test]
fn a_refused_crop_names_the_rectangle() {
    let img = numbered(4, 6, 1).image();
    assert_eq!(
        crop(&img, &CropParams::new(5, 1, 2, 3)).unwrap_err().to_string(),
        "parameter error: crop rectangle 2x3+5+1 exceeds the 6x4 frame"
    );
}

#[test]
fn orient_dimensions_and_corner_tracking() {
    // The destination of the top-left corner identifies each transform.
    let img = numbered(2, 3, 1);
    let tl = img[[0, 0, 0]];
    let cases: [(Orientation, (usize, usize, usize), (usize, usize)); 8] = [
        (Orientation::Normal, (2, 3, 1), (0, 0)),
        (Orientation::FlipHorizontal, (2, 3, 1), (0, 2)),
        (Orientation::Rotate180, (2, 3, 1), (1, 2)),
        (Orientation::FlipVertical, (2, 3, 1), (1, 0)),
        (Orientation::Transpose, (3, 2, 1), (0, 0)),
        (Orientation::Rotate90, (3, 2, 1), (0, 1)),
        (Orientation::Transverse, (3, 2, 1), (2, 1)),
        (Orientation::Rotate270, (3, 2, 1), (2, 0)),
    ];
    for (o, dim, (ty, tx)) in cases {
        let out = oriented(&img, o);
        assert_eq!(out.dim(), dim, "{o:?} output shape");
        assert_eq!(
            out[[ty, tx, 0]],
            tl,
            "{o:?}: top-left pixel landed in the wrong place"
        );
    }
}

#[test]
fn every_orientation_undoes_through_its_inverse() {
    let img = numbered(5, 7, 3);
    for value in 1..=8_u16 {
        let o = Orientation::from_exif(value).unwrap();
        let there = oriented(&img, o);
        let back = oriented(&there, o.inverse());
        assert_eq!(back, img, "{o:?} is not undone by its inverse");
    }
}

#[test]
fn rotate90_four_times_is_identity() {
    let img = numbered(4, 6, 2);
    let mut x = img.clone();
    for _ in 0..4 {
        x = oriented(&x, Orientation::Rotate90);
    }
    assert_eq!(x, img);
}

#[test]
fn two_quarter_turns_are_a_half_turn() {
    let img = numbered(4, 6, 2);
    let twice = oriented(&oriented(&img, Orientation::Rotate90), Orientation::Rotate90);
    assert_eq!(twice, oriented(&img, Orientation::Rotate180));
}

#[test]
fn from_exif_round_trips_and_rejects() {
    for v in 1..=8_u16 {
        assert_eq!(Orientation::from_exif(v).unwrap().exif(), v);
    }
    assert!(Orientation::from_exif(0).is_none());
    assert!(Orientation::from_exif(9).is_none());
}

#[test]
fn resize_same_size_is_identity_for_every_filter() {
    let img = numbered(7, 9, 3);
    for filter in FILTERS {
        let out = resized(&img, &ResizeParams::new(9, 7, filter));
        assert_eq!(out, img, "{filter:?} same-size resize must be identity");
    }
}

#[test]
fn resize_constant_image_stays_constant_to_a_ulp() {
    let img = Frame::from_elem((37, 53, 1), 0.42_f32);
    for filter in FILTERS {
        for (w, h) in [(17_u32, 11_u32), (105, 71)] {
            let out = resized(&img, &ResizeParams::new(w, h, filter));
            for &v in out.iter() {
                assert!(
                    (v - 0.42).abs() < 1e-6,
                    "{filter:?} {w}x{h} broke a constant image: {v}"
                );
            }
        }
    }
}

#[test]
fn area_downscale_by_two_is_the_block_mean() {
    let img = numbered(4, 4, 1);
    let out = resized(&img, &ResizeParams::new(2, 2, ResizeFilter::Area));
    for y in 0..2 {
        for x in 0..2 {
            let mean = (img[[2 * y, 2 * x, 0]]
                + img[[2 * y, 2 * x + 1, 0]]
                + img[[2 * y + 1, 2 * x, 0]]
                + img[[2 * y + 1, 2 * x + 1, 0]])
                / 4.0;
            assert!(
                (out[[y, x, 0]] - mean).abs() < 1e-5,
                "2x2 block mean mismatch at ({y}, {x})"
            );
        }
    }
}

#[test]
fn resize_preserves_mean_when_downscaling() {
    let img = Frame::from_shape_fn((64, 96, 1), |(y, x, _)| ((y * 96 + x) % 251) as f32 / 251.0);
    let out = resized(&img, &ResizeParams::new(31, 21, ResizeFilter::Area));
    let mean_in = img.iter().sum::<f32>() / img.samples.len() as f32;
    let mean_out = out.iter().sum::<f32>() / out.samples.len() as f32;
    assert!(
        (mean_in - mean_out).abs() < 5e-3,
        "area downscale should preserve the mean: {mean_in} vs {mean_out}"
    );
}

#[test]
fn catmull_upscale_interpolates_a_linear_ramp_exactly_inside() {
    let img = Frame::from_shape_fn((1, 8, 1), |(_, x, _)| x as f32);
    let out = resized(&img, &ResizeParams::new(16, 1, ResizeFilter::CatmullRom));
    for x in 3..13 {
        let expected = (x as f32 + 0.5) * 0.5 - 0.5;
        assert!(
            (out[[0, x, 0]] - expected).abs() < 1e-4,
            "ramp broken at {x}: {} vs {expected}",
            out[[0, x, 0]]
        );
    }
}

#[test]
fn catmull_rom_taps_are_the_keys_cubic_with_negative_lobes() {
    // The taps are dyadic rationals, so they are compared bit for bit.
    for (t, expected) in [
        (0.5_f32, [-0.0625_f32, 0.5625, 0.5625, -0.0625]),
        (0.25, [-0.0703125, 0.8671875, 0.2265625, -0.0234375]),
    ] {
        let taps = catmull_weights::<Ieee>(b(t)).map(f32::from_bits);
        assert_eq!(taps, expected, "Keys taps wrong at t = {t}");
        // An interpolating kernel leaves a constant image constant.
        assert_eq!(
            taps[0] + taps[1] + taps[2] + taps[3],
            1.0,
            "Keys taps must sum to 1 at t = {t}"
        );
        assert!(
            taps[0] < 0.0 && taps[3] < 0.0,
            "outer taps must be negative at t = {t}, got {taps:?}"
        );
    }

    let eval = |filter, t: f32| f32::from_bits(filter_eval::<Ieee>(filter, b(t)));
    assert_eq!(eval(ResizeFilter::CatmullRom, 0.5), 0.5625);
    assert_eq!(eval(ResizeFilter::Bilinear, 0.5), 0.5);
    assert_eq!(eval(ResizeFilter::CatmullRom, 1.5), -0.0625);
    assert_eq!(eval(ResizeFilter::Bilinear, 1.5), 0.0);
    // The support must cover the second lobe.
    assert_eq!(
        f32::from_bits(filter_support::<Ieee>(ResizeFilter::CatmullRom, b(1.0))),
        2.0
    );
}

#[test]
fn catmull_upscale_overshoots_a_step_edge_where_bilinear_cannot() {
    let img = Frame::from_shape_fn((1, 8, 1), |(_, x, _)| if x < 4 { 0.0 } else { 1.0 });

    let cr = resized(&img, &ResizeParams::new(32, 1, ResizeFilter::CatmullRom));
    let (cr_min, cr_max) = cr
        .iter()
        .fold((f32::INFINITY, f32::NEG_INFINITY), |(a, b), &v| {
            (a.min(v), b.max(v))
        });
    assert!(
        cr_min < -0.03,
        "Catmull-Rom must undershoot a step edge, min was {cr_min}"
    );
    assert!(
        cr_max > 1.03,
        "Catmull-Rom must overshoot a step edge, max was {cr_max}"
    );

    let bl = resized(&img, &ResizeParams::new(32, 1, ResizeFilter::Bilinear));
    let (bl_min, bl_max) = bl
        .iter()
        .fold((f32::INFINITY, f32::NEG_INFINITY), |(a, b), &v| {
            (a.min(v), b.max(v))
        });
    assert!(
        bl_min >= 0.0 && bl_max <= 1.0,
        "Bilinear has non-negative weights and must not ring: [{bl_min}, {bl_max}]"
    );
}

#[test]
fn resize_rejects_zero_targets_and_empty_input() {
    let img = numbered(4, 4, 1).image();
    for (w, h) in [(0_u32, 4_u32), (4, 0)] {
        assert!(matches!(
            resize::<Ieee>(&img, &ResizeParams::new(w, h, ResizeFilter::Area)).unwrap_err(),
            PhaiosError::Parameter(_)
        ));
    }
    let empty = Frame::zeros((0, 4, 1)).image();
    assert!(matches!(
        resize::<Ieee>(&empty, &ResizeParams::new(4, 4, ResizeFilter::Area)).unwrap_err(),
        PhaiosError::Parameter(_)
    ));
}

#[test]
fn an_oversized_resize_target_is_refused_rather_than_aborting() {
    // The output's size comes from the parameters alone.
    let img = Frame::zeros((2, 2, 3)).image();

    // The output: 480 GB. The rows before it take 4.8 MB.
    let err = resize::<Ieee>(&img, &ResizeParams::new(200_000, 200_000, ResizeFilter::Area))
        .unwrap_err();
    assert!(
        matches!(err, PhaiosError::Allocation(_)),
        "a 480 GB target must be refused, got {err:?}"
    );
    assert!(
        err.to_string().contains("above the"),
        "the error should name the limit it exceeded: {}",
        err.to_string()
    );

    // The rows: 12 TB, though the output they feed would be 12 MB.
    let tall = Frame::zeros((1_000_000, 2, 3)).image();
    let err = resize::<Ieee>(&tall, &ResizeParams::new(1_000_000, 1, ResizeFilter::Area))
        .unwrap_err();
    assert!(
        matches!(err, PhaiosError::Allocation(_)),
        "a 12 TB scratch buffer must be refused, got {err:?}"
    );

    // The limit must be nowhere near an ordinary enlargement.
    let ok = resize::<Ieee>(&img, &ResizeParams::new(64, 48, ResizeFilter::Area)).unwrap();
    assert_eq!(ok.dim(), (48, 64, 3));
}

#[test]
fn straighten_zero_degrees_is_identity() {
    let img = numbered(9, 13, 3);
    let out = straightened(&img, 0.0);
    assert_eq!(out, img, "0 degrees must be the exact identity");
}

#[test]
fn straighten_constant_image_stays_constant() {
    let img = Frame::from_elem((64, 96, 1), 0.6_f32);
    let out = straightened(&img, 7.3);
    let (h, w, _) = out.dim();
    assert!(h < 64 && w < 96, "inscribed crop must shrink the frame");
    for &v in out.iter() {
        assert!((v - 0.6).abs() < 1e-5, "flat image broken: {v}");
    }
}

#[test]
fn straighten_direction_is_clockwise() {
    // A bright column right of centre must tilt under a clockwise rotation.
    let mut img = Frame::zeros((101, 101, 1));
    for y in 0..101 {
        img[[y, 85, 0]] = 1.0;
    }
    let out = straightened(&img, 10.0);
    let (h, w, _) = out.dim();
    let brightest_x = |rows: std::ops::Range<usize>| -> f32 {
        let mut best = (0.0_f32, 0_usize);
        for y in rows {
            for x in 0..w {
                if out[[y, x, 0]] > best.0 {
                    best = (out[[y, x, 0]], x);
                }
            }
        }
        best.1 as f32
    };
    let top_x = brightest_x(0..h / 4);
    let bottom_x = brightest_x(3 * h / 4..h);
    assert!(
        top_x > bottom_x + 2.0,
        "clockwise rotation should tilt a right-of-centre column \
         top-rightward: top x {top_x}, bottom x {bottom_x}"
    );
}

#[test]
fn straighten_interior_is_free_of_border_influence() {
    // The cubic may reach a marked border in the outermost band only.
    let mut img = Frame::from_elem((80, 120, 1), 0.5_f32);
    for x in 0..120 {
        img[[0, x, 0]] = 100.0;
        img[[79, x, 0]] = 100.0;
    }
    for y in 0..80 {
        img[[y, 0, 0]] = 100.0;
        img[[y, 119, 0]] = 100.0;
    }
    let out = straightened(&img, 5.0);
    let (h, w, _) = out.dim();
    let mut max_interior = 0.0_f32;
    for y in 3..h - 3 {
        for x in 3..w - 3 {
            max_interior = max_interior.max(out[[y, x, 0]]);
        }
    }
    assert!(
        max_interior < 10.0,
        "border sentinel leaked into the interior: max {max_interior}"
    );
}

#[test]
fn straighten_inscribed_rect_is_valid_in_both_branches() {
    // The corners of the inscribed rectangle, rotated forward, must lie inside
    // the source frame, for every branch and both orientations.
    for (h, w) in [(257_usize, 389_usize), (389, 257), (100, 1000), (1000, 100)] {
        for degrees in [2.0_f32, 10.0, 30.0, 44.0, -30.0] {
            let (oh, ow, sin_a, cos_a) = straighten_geometry::<Ieee>(h, w, b(degrees)).unwrap();
            let (sin_a, cos_a) = (f32::from_bits(sin_a), f32::from_bits(cos_a));
            assert!(oh <= h && ow <= w, "{h}x{w} @ {degrees}: grew");
            if w > 2 * h {
                assert!(ow > oh, "{h}x{w} @ {degrees}: aspect flipped");
            }
            if h > 2 * w {
                assert!(oh > ow, "{h}x{w} @ {degrees}: aspect flipped");
            }
            let (cx_o, cy_o) = (ow as f32 * 0.5, oh as f32 * 0.5);
            let (cx_i, cy_i) = (w as f32 * 0.5, h as f32 * 0.5);
            for (ox, oy) in [
                (0.0, 0.0),
                (ow as f32, 0.0),
                (0.0, oh as f32),
                (ow as f32, oh as f32),
            ] {
                let dx = ox - cx_o;
                let dy = oy - cy_o;
                let sx = cos_a * dx + sin_a * dy + cx_i;
                let sy = -sin_a * dx + cos_a * dy + cy_i;
                assert!(
                    (-0.51..=w as f32 + 0.51).contains(&sx)
                        && (-0.51..=h as f32 + 0.51).contains(&sy),
                    "{h}x{w} @ {degrees}: corner ({ox}, {oy}) maps to \
                     ({sx}, {sy}) outside the frame"
                );
            }
        }
    }
}

#[test]
fn straighten_rejects_out_of_domain_angles() {
    let img = numbered(8, 8, 1).image();
    for bad in [46.0_f32, -50.0, f32::NAN, f32::INFINITY] {
        assert!(matches!(
            straighten::<Ieee>(&img, &StraightenParams::new(b(bad))).unwrap_err(),
            PhaiosError::Parameter(_)
        ));
    }
    // 45 degrees exactly is legal.
    assert!(straighten::<Ieee>(&img, &StraightenParams::new(b(45.0))).is_ok());
}

#[test]
fn geometry_accepts_any_layout() {
    let img = numbered(8, 6, 3);
    let strided = img.strided(2, -1);
    let owned = Frame::from_shape_fn((4, 6, 3), |(y, x, k)| img[[2 * y, 5 - x, k]]).image();
    let params = CropParams::new(1, 1, 3, 2);

    let a = Frame::of(&crop(&strided, &params).unwrap());
    let z = Frame::of(&crop(&owned, &params).unwrap());
    assert_eq!(a, z);

    let a = Frame::of(&orient(&strided, Orientation::Rotate90).unwrap());
    let z = Frame::of(&orient(&owned, Orientation::Rotate90).unwrap());
    assert_eq!(a, z);

    let rp = ResizeParams::new(5, 3, ResizeFilter::CatmullRom);
    let a = Frame::of(&resize::<Ieee>(&strided, &rp).unwrap());
    let z = Frame::of(&resize::<Ieee>(&owned, &rp).unwrap());
    assert_eq!(a, z, "resize must be layout-agnostic");

    let sp = StraightenParams::new(b(6.0));
    let a = Frame::of(&straighten::<Ieee>(&strided, &sp).unwrap());
    let z = Frame::of(&straighten::<Ieee>(&owned, &sp).unwrap());
    assert_eq!(a, z, "straighten must be layout-agnostic");
}

#[test]
fn geometry_params_equality_and_repr() {
    let c = CropParams::new(1, 2, 3, 4);
    assert!(c.__eq__(&CropParams::new(1, 2, 3, 4)));
    assert!(!c.__eq__(&CropParams::new(1, 2, 3, 5)));
    assert_eq!(c.__repr__(), "CropParams(x=1, y=2, width=3, height=4)");
    let r = ResizeParams::new(6, 5, ResizeFilter::Bilinear);
    assert!(!r.__eq__(&ResizeParams::new(6, 5, ResizeFilter::Area)));
    assert_eq!(r.__repr__(), "ResizeParams(width=6, height=5, filter=Bilinear)");
    let s = StraightenParams::new(b(2.5));
    assert!(s.__eq__(&StraightenParams::new(b(2.5))));
    assert_eq!(s.__repr__::<Ieee>(), "StraightenParams(degrees=2.5)");
}

#[test]
fn an_empty_frame_cannot_be_straightened() {
    let empty = Frame::zeros((0, 4, 1)).image();
    assert_eq!(
        straighten::<Ieee>(&empty, &StraightenParams::new(b(3.0))).unwrap_err().to_string(),
        "parameter error: straighten by 3 deg leaves no whole pixel of the 4x0 frame"
    );
}

#[test]
fn no_turn_leaves_every_sample() {
    for degrees in [0.0, -0.0] {
        let img = Frame::from_shape_fn((7, 10, 2), |(y, x, c)| (y * 20 + x * 2 + c) as f32 - 31.5);
        assert_eq!(straightened(&img, degrees).bits(), img.bits());
        assert_eq!(
            straighten_geometry::<Ieee>(7, 10, b(degrees)).map(|g| (g.0, g.1)).unwrap(),
            (7, 10)
        );
    }
}

#[test]
fn every_pixel_is_sampled_inside_the_source() {
    for (h, w) in [(64_usize, 64_usize), (31, 97), (97, 31), (500, 20), (20, 500)] {
        for degrees in [0.5_f32, 7.0, -12.5, 30.0, 44.999_99, 45.0, -45.0] {
            let (oh, ow, _, _) = straighten_geometry::<Ieee>(h, w, b(degrees)).unwrap();
            let radians = f64::from(degrees).to_radians();
            let (s, c) = (radians.sin().abs(), radians.cos().abs());
            let (x, y) = ((ow - 1) as f64, (oh - 1) as f64);
            assert!(x * c + y * s <= w as f64, "{h}x{w} @ {degrees}");
            assert!(x * s + y * c <= h as f64, "{h}x{w} @ {degrees}");
        }
    }
}

#[test]
fn area_and_bilinear_stay_in_range() {
    let img = Frame::from_shape_fn((23, 31, 2), |(y, x, k)| {
        0.1 + ((y * 37 + x * 11 + k * 5) % 17) as f32 / 20.0
    });
    let lo = img.iter().fold(f32::INFINITY, |a, &v| a.min(v));
    let hi = img.iter().fold(f32::NEG_INFINITY, |a, &v| a.max(v));
    for filter in [ResizeFilter::Area, ResizeFilter::Bilinear] {
        for (w, h) in [(7_u32, 5_u32), (31, 64), (90, 11), (1, 1)] {
            let out = resized(&img, &ResizeParams::new(w, h, filter));
            for &v in out.iter() {
                assert!(v >= lo - 1e-5 && v <= hi + 1e-5, "{w}x{h}: {v} leaves {lo}..{hi}");
            }
        }
    }
}

#[test]
fn no_upright_rectangle_of_the_turned_frame_is_much_larger() {
    for (h, w) in [(40_usize, 60_usize), (60, 40), (50, 50), (12, 90)] {
        let img = Frame::from_elem((h, w, 1), 0.5);
        for degrees in [-44.0_f32, -20.0, 3.0, 12.5, 30.0, 45.0] {
            let out = straightened(&img, degrees);
            let (oh, ow, _) = out.dim();
            assert!(oh <= h && ow <= w, "{h}x{w} @ {degrees}: {oh}x{ow}");
            let turn = f64::from(degrees).to_radians();
            let (sin, cos) = (turn.sin().abs(), turn.cos());
            for a in 1..=w.max(h) {
                for b in 1..=w.max(h) {
                    let (fa, fb) = (a as f64, b as f64);
                    let fits = fa * cos + fb * sin <= w as f64 && fa * sin + fb * cos <= h as f64;
                    assert!(
                        !fits || a * b <= (ow + 2) * (oh + 2),
                        "{h}x{w} @ {degrees}: {a}x{b} fits, {ow}x{oh} was taken"
                    );
                }
            }
        }
    }
}
