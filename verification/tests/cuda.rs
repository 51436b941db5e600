//! Device plans.

#![allow(dead_code)]

use phaios_core::arith::Arithmetic;
use phaios_core::blur::{BlurParams, BlurShape};
use phaios_core::bw::{ColorFilter, HslWeightedParams, LuminanceStandard};
use phaios_core::cuda::analysis::{
    apply_lut_device, histogram_device, quantize_u16_device, quantize_u8_device, zone_system_device,
    HIST_BLOCKS, HIST_THREADS, MAX_SHARED_SLOTS,
};
use phaios_core::cuda::blur::{blur_device, glow_device, sharpen_device};
use phaios_core::cuda::context::{
    available, backend_err, check_ordinal, driver_missing, enumerate, DeviceInfo,
};
use phaios_core::cuda::elementwise::{
    channel_mixer_bw_device, color_filter_bw_device, encode_srgb_device, exposure_device,
    hot_pixels_device, hsl_bw_device, luminance_bw_device, split_toning_device, tone_curve_device,
    vignette_device, SplitTone,
};
use phaios_core::cuda::geometry::{crop_device, orient_device, resize_device, straighten_device};
use phaios_core::cuda::grain::{film_grain_device, hash_grid};
use phaios_core::cuda::guided::{denoise_device, local_contrast_device, Denoising};
use phaios_core::cuda::launch::{copy_device, grid_1d, grid_2d};
use phaios_core::cuda::plan::{Arg, Element, Grid, Plan, Step};
use phaios_core::denoise::DenoiseParams;
use phaios_core::error::PhaiosError;
use phaios_core::film_grain::GrainParams;
use phaios_core::geometry::{CropParams, Orientation, ResizeFilter, ResizeParams, StraightenParams};
use phaios_core::glow::GlowParams;
use phaios_core::histogram::HistogramParams;
use phaios_core::hot_pixels::HotPixelParams;
use phaios_core::local_contrast::GuidedFilterParams;
use phaios_core::lut::LutParams;
use phaios_core::quantize::{Dither, QuantizeParams};
use phaios_core::sharpen::SharpenParams;

/// The host's own arithmetic.
struct Ieee;

fn s(a: u32) -> f32 {
    f32::from_bits(a)
}

fn d(a: u64) -> f64 {
    f64::from_bits(a)
}

impl Arithmetic for Ieee {
    fn plus(a: u32, b: u32) -> u32 {
        (s(a) + s(b)).to_bits()
    }
    fn minus(a: u32, b: u32) -> u32 {
        (s(a) - s(b)).to_bits()
    }
    fn times(a: u32, b: u32) -> u32 {
        (s(a) * s(b)).to_bits()
    }
    fn over(a: u32, b: u32) -> u32 {
        (s(a) / s(b)).to_bits()
    }
    fn remainder(a: u32, b: u32) -> u32 {
        (s(a) % s(b)).to_bits()
    }
    fn root(a: u32) -> u32 {
        s(a).sqrt().to_bits()
    }
    fn floor(a: u32) -> u32 {
        s(a).floor().to_bits()
    }
    fn ceil(a: u32) -> u32 {
        s(a).ceil().to_bits()
    }
    fn round(a: u32) -> u32 {
        s(a).round().to_bits()
    }
    fn power(a: u32, b: u32) -> u32 {
        s(a).powf(s(b)).to_bits()
    }
    fn exp(a: u32) -> u32 {
        s(a).exp().to_bits()
    }
    fn ln(a: u32) -> u32 {
        s(a).ln().to_bits()
    }
    fn cos(a: u32) -> u32 {
        s(a).cos().to_bits()
    }
    fn of_count(n: u64) -> u32 {
        (n as f32).to_bits()
    }
    fn of_offset(n: i64) -> u32 {
        (n as f32).to_bits()
    }
    fn to_count(a: u32) -> u64 {
        s(a) as u64
    }
    fn to_offset(a: u32) -> i64 {
        s(a) as i64
    }
    fn widen(a: u32) -> u64 {
        f64::from(s(a)).to_bits()
    }
    fn narrow(a: u64) -> u32 {
        (d(a) as f32).to_bits()
    }
    fn plus64(a: u64, b: u64) -> u64 {
        (d(a) + d(b)).to_bits()
    }
    fn minus64(a: u64, b: u64) -> u64 {
        (d(a) - d(b)).to_bits()
    }
    fn times64(a: u64, b: u64) -> u64 {
        (d(a) * d(b)).to_bits()
    }
    fn over64(a: u64, b: u64) -> u64 {
        (d(a) / d(b)).to_bits()
    }
    fn root64(a: u64) -> u64 {
        d(a).sqrt().to_bits()
    }
    fn floor64(a: u64) -> u64 {
        d(a).floor().to_bits()
    }
    fn exp64(a: u64) -> u64 {
        d(a).exp().to_bits()
    }
    fn sin64(a: u64) -> u64 {
        d(a).sin().to_bits()
    }
    fn cos64(a: u64) -> u64 {
        d(a).cos().to_bits()
    }
    fn radians64(a: u64) -> u64 {
        d(a).to_radians().to_bits()
    }
    fn of_count64(n: u64) -> u64 {
        (n as f64).to_bits()
    }
    fn to_count64(a: u64) -> u64 {
        d(a) as u64
    }
    fn text(a: u32) -> String {
        format!("{}", s(a))
    }
    fn debug_text(a: u32) -> String {
        format!("{:?}", s(a))
    }
}

/// The bits of a number, as parameters take it.
fn b(v: f32) -> u32 {
    v.to_bits()
}

/// What a device would have of a buffer after some steps.
struct Held {
    element: Element,
    len: usize,
    missing: Vec<usize>,
    live: bool,
}

/// Takes every step as a device would, and insists that each finds what it needs:
/// buffers that exist, of the size and kind that it names, read only once written.
fn take(plan: &Plan, shape: (usize, usize, usize)) {
    let mut held = vec![Held {
        element: Element::Single,
        len: shape.0 * shape.1 * shape.2,
        missing: Vec::new(),
        live: true,
    }];
    for step in plan.steps.iter() {
        match step {
            Step::Allocate { element, len, lanes } => held.push(Held {
                element: *element,
                len: *len,
                missing: (0..*lanes).collect(),
                live: true,
            }),
            Step::Zeros { element, len } => {
                held.push(Held { element: *element, len: *len, missing: Vec::new(), live: true })
            }
            Step::Upload { values, .. } => held.push(Held {
                element: Element::Single,
                len: values.len(),
                missing: Vec::new(),
                live: true,
            }),
            Step::Copy { from, to } => {
                assert!(held[*from].live && held[*from].missing.is_empty());
                assert!(held[*to].live && held[*to].len == held[*from].len);
                held[*to].missing.clear();
            }
            Step::Launch { args, grid, .. } => {
                assert!(grid.block.0 * grid.block.1 * grid.block.2 <= 1024);
                for arg in args.iter() {
                    match arg {
                        Arg::Read { slot, element, len } | Arg::Update { slot, element, len } => {
                            assert!(held[*slot].live && held[*slot].missing.is_empty());
                            assert_eq!((held[*slot].element, held[*slot].len), (*element, *len));
                        }
                        Arg::Write { slot, element, len, lane } => {
                            assert!(held[*slot].live);
                            assert_eq!((held[*slot].element, held[*slot].len), (*element, *len));
                            held[*slot].missing.retain(|l| l != lane);
                        }
                        _ => {}
                    }
                }
            }
            Step::Release { slot } => {
                assert!(held[*slot].live);
                held[*slot].live = false;
            }
        }
    }
    let (h, w, c) = plan.shape;
    if h * w * c > 0 {
        let out = &held[plan.output];
        assert!(out.live && out.missing.is_empty());
        assert_eq!(out.len, h * w * c);
    }
}

fn kernels(plan: &Plan) -> Vec<&'static str> {
    let mut names = Vec::new();
    for step in plan.steps.iter() {
        if let Step::Launch { kernel, .. } = step {
            names.push(*kernel);
        }
    }
    names
}

fn said<T>(r: Result<T, PhaiosError>) -> String {
    match r {
        Ok(_) => panic!("expected a refusal"),
        Err(e) => e.to_string(),
    }
}

const SHAPE: (usize, usize, usize) = (30, 40, 3);
const GREY: (usize, usize, usize) = (30, 40, 1);
const NONE: (usize, usize, usize) = (0, 40, 3);
const HUGE: (usize, usize, usize) = (usize::MAX, 2, 3);

#[test]
fn grids_cover_every_element() {
    let g: Grid = grid_1d(1025);
    assert_eq!((g.grid, g.block, g.shared), ((2, 1, 1), (1024, 1, 1), 0));
    assert_eq!(grid_1d(1024).grid, (1, 1, 1));
    let g: Grid = grid_2d(17, 32);
    assert_eq!((g.grid, g.block, g.shared), ((2, 2, 1), (16, 16, 1), 0));
}

#[test]
fn every_plan_can_be_taken() {
    let standard = LuminanceStandard::Bt709;
    for shape in [SHAPE, NONE] {
        let plans = [
            exposure_device::<Ieee>(shape, b(1.0)).unwrap(),
            encode_srgb_device(shape).unwrap(),
            luminance_bw_device(shape, standard).unwrap(),
            channel_mixer_bw_device(shape, [b(1.0), b(0.0), b(0.0)]).unwrap(),
            color_filter_bw_device::<Ieee>(shape, ColorFilter::Red25A, standard).unwrap(),
            hsl_bw_device::<Ieee>(shape, &HslWeightedParams::default()).unwrap(),
            hot_pixels_device::<Ieee>(shape, &HotPixelParams::new(b(0.1), b(0.0))).unwrap(),
            tone_curve_device::<Ieee>(shape, b(2.0), b(0.0), b(1.0)).unwrap(),
            vignette_device::<Ieee>(shape, b(0.5), b(0.5), b(0.5)).unwrap(),
            apply_lut_device::<Ieee>(shape, vec![b(0.0), b(1.0)], &LutParams::default()).unwrap(),
            crop_device(shape, &CropParams::new(0, 0, 7, 0)).unwrap(),
            orient_device(shape, Orientation::Rotate90).unwrap(),
            blur_device::<Ieee>(shape, &BlurParams::new(b(2.0), BlurShape::Gaussian)).unwrap(),
            blur_device::<Ieee>(shape, &BlurParams::new(b(200.0), BlurShape::Gaussian)).unwrap(),
            glow_device::<Ieee>(shape, &GlowParams::new(b(0.5), b(2.0), b(0.5))).unwrap(),
            sharpen_device::<Ieee>(shape, &SharpenParams::new(b(1.0), b(2.0), b(0.0))).unwrap(),
            copy_device(shape).unwrap(),
        ];
        for plan in plans.iter() {
            take(plan, shape);
        }
    }
}

#[test]
fn grain_and_straightening_can_be_taken() {
    for size in [1.0_f32, 2.0, 6.0] {
        let params = GrainParams::new(b(0.1), b(size), 7);
        let plan = film_grain_device::<Ieee>(GREY, &params).unwrap();
        take(&plan, GREY);
        assert_eq!(plan.shape, GREY);
    }
    let params = GrainParams::new(b(0.1), b(2.0), 7);
    assert!(said(film_grain_device::<Ieee>(SHAPE, &params))
        .contains("film_grain expects (H, W, 1) luminance input, got shape [30, 40, 3]"));

    let plan = straighten_device::<Ieee>(SHAPE, &StraightenParams::new(b(3.0))).unwrap();
    take(&plan, SHAPE);
    assert!(plan.shape.0 < 30 && plan.shape.1 < 40);
}

#[test]
fn a_shape_that_cannot_be_counted_is_refused() {
    let text = said(exposure_device::<Ieee>(HUGE, b(1.0)));
    assert!(text.contains("has more elements than usize can count"), "{text}");
    assert!(said(encode_srgb_device(HUGE)).contains("usize"));
    assert!(said(crop_device(HUGE, &CropParams::new(0, 0, 1, 1))).contains("usize"));
}

#[test]
fn plans_refuse_what_the_kernels_refuse() {
    assert!(said(exposure_device::<Ieee>(SHAPE, b(f32::NAN))).contains("stops"));
    assert!(said(luminance_bw_device(GREY, LuminanceStandard::Bt709)).contains('1'));
    let params = HotPixelParams::new(b(-1.0), b(0.0));
    assert!(said(hot_pixels_device::<Ieee>(SHAPE, &params)).contains("threshold is"));
    let params = GlowParams::new(b(0.0), b(-1.0), b(0.5));
    assert!(said(glow_device::<Ieee>(SHAPE, &params)).contains("sigma"));
    let params = GuidedFilterParams::new(4, b(0.01));
    assert!(said(local_contrast_device::<Ieee>(SHAPE, &params, b(1.0))).contains('3'));
}

#[test]
fn exposure_is_one_launch_over_every_element() {
    let plan = exposure_device::<Ieee>(SHAPE, b(1.0)).unwrap();
    assert_eq!(plan.shape, SHAPE);
    assert_eq!(plan.steps.len(), 2);
    match &plan.steps[1] {
        Step::Launch { module, args, grid, .. } => {
            assert_eq!(*module, "exposure");
            assert!(args.contains(&Arg::Single(b(2.0))));
            assert!(args.contains(&Arg::Read { slot: 0, element: Element::Single, len: 3600 }));
            assert_eq!(grid.grid, (4, 1, 1));
        }
        other => panic!("not a launch: {other:?}"),
    }
}

#[test]
fn an_empty_image_launches_nothing() {
    let plan = exposure_device::<Ieee>(NONE, b(1.0)).unwrap();
    assert!(kernels(&plan).is_empty());
    assert_eq!(plan.shape, NONE);
}

#[test]
fn few_bins_are_counted_in_shared_memory() {
    let params = HistogramParams::new(256, b(0.0), b(1.0));
    let plan = histogram_device::<Ieee>(SHAPE, &params).unwrap().unwrap();
    assert_eq!(kernels(&plan), vec!["histogram_shared_kernel"]);
    match plan.steps.last().unwrap() {
        Step::Launch { grid, .. } => {
            // Three channels of 256 bins and three tallies, four bytes each.
            assert_eq!(grid.shared, 3 * 259 * 4);
            assert_eq!(grid.block, (HIST_THREADS, 1, 1));
            assert!(grid.grid.0 <= HIST_BLOCKS);
        }
        other => panic!("not a launch: {other:?}"),
    }

    let params = HistogramParams::new(MAX_SHARED_SLOTS as u32, b(0.0), b(1.0));
    let plan = histogram_device::<Ieee>(SHAPE, &params).unwrap().unwrap();
    assert_eq!(kernels(&plan), vec!["histogram_global_kernel"]);
    assert!(histogram_device::<Ieee>(NONE, &params).unwrap().is_none());
}

#[test]
fn codes_are_as_wide_as_asked() {
    let params = QuantizeParams::new(Dither::Tpdf, 7);
    let bytes = quantize_u8_device(SHAPE, &params).unwrap().unwrap();
    take(&bytes, SHAPE);
    assert_eq!(bytes.buffers[bytes.output].element, Element::Byte);
    assert_eq!(kernels(&bytes), vec!["quantize_u8_kernel"]);
    let codes = quantize_u16_device(SHAPE, &params).unwrap().unwrap();
    take(&codes, SHAPE);
    assert_eq!(codes.buffers[codes.output].element, Element::Code);
    assert!(quantize_u8_device(NONE, &params).unwrap().is_none());
}

#[test]
fn colour_denoising_takes_fourteen_launches() {
    let params = DenoiseParams::new(3, b(0.1), b(1.0), LuminanceStandard::Bt709);
    match denoise_device::<Ieee>(SHAPE, &params).unwrap() {
        Denoising::Whole(plan) => {
            take(&plan, SHAPE);
            assert_eq!(kernels(&plan).len(), 14);
            assert_eq!(plan.shape, SHAPE);
        }
        Denoising::ByChannel(_) => panic!("three channels share a guide"),
    }
    match denoise_device::<Ieee>((30, 40, 2), &params).unwrap() {
        Denoising::ByChannel(plan) => {
            take(&plan, GREY);
            assert_eq!(plan.shape, GREY);
            assert_eq!(kernels(&plan).len(), 4);
        }
        Denoising::Whole(_) => panic!("two channels are filtered each by itself"),
    }
}

#[test]
fn local_contrast_takes_four_launches() {
    let params = GuidedFilterParams::new(4, b(0.01));
    let plan = local_contrast_device::<Ieee>(GREY, &params, b(1.0)).unwrap();
    take(&plan, GREY);
    assert_eq!(kernels(&plan).len(), 4);
}

/// The buffers that the last launch writes.
fn written_last(plan: &Plan) -> Vec<usize> {
    let mut slots = Vec::new();
    for step in plan.steps.iter() {
        if let Step::Launch { args, .. } = step {
            slots.clear();
            for arg in args.iter() {
                if let Arg::Write { slot, .. } = arg {
                    slots.push(*slot);
                }
            }
        }
    }
    slots
}

#[test]
fn the_result_is_what_the_last_launch_writes() {
    let glow = |shape, sigma: f32, amount: f32| {
        glow_device::<Ieee>(shape, &GlowParams::new(b(0.5), b(sigma), b(amount))).unwrap()
    };
    for (sigma, slot) in [(0.0, 3), (2.0, 6), (200.0, 8)] {
        let plan = glow(SHAPE, sigma, 0.5);
        assert_eq!((plan.output, written_last(&plan)), (slot, vec![slot]));
    }
    assert_eq!(glow(SHAPE, 2.0, 0.0).output, 1);
    assert_eq!(glow(NONE, 2.0, 0.5).output, 1);

    let sharpen = |shape, sigma: f32| {
        sharpen_device::<Ieee>(shape, &SharpenParams::new(b(1.0), b(sigma), b(0.0))).unwrap()
    };
    for (sigma, slot) in [(2.0, 5), (200.0, 7)] {
        let plan = sharpen(SHAPE, sigma);
        assert_eq!((plan.output, written_last(&plan)), (slot, vec![slot]));
    }
    assert_eq!(sharpen(SHAPE, 0.0).output, 1);
    assert_eq!(sharpen(NONE, 2.0).output, 1);

    let grain = |shape, intensity: f32| {
        film_grain_device::<Ieee>(shape, &GrainParams::new(b(intensity), b(2.0), 7)).unwrap()
    };
    let plan = grain(GREY, 0.1);
    assert_eq!((plan.output, written_last(&plan)), (4, vec![4]));
    assert_eq!(grain(GREY, 0.0).output, 1);
    assert_eq!(grain((0, 40, 1), 0.1).output, 1);

    let contrast = |shape| {
        let params = GuidedFilterParams::new(4, b(0.01));
        local_contrast_device::<Ieee>(shape, &params, b(1.0)).unwrap()
    };
    let plan = contrast(GREY);
    assert_eq!((plan.output, written_last(&plan)), (5, vec![5]));
    assert_eq!(contrast((0, 40, 1)).output, 1);

    let denoise = |shape, amount: f32| {
        let params = DenoiseParams::new(3, b(0.1), b(amount), LuminanceStandard::Bt709);
        match denoise_device::<Ieee>(shape, &params).unwrap() {
            Denoising::Whole(plan) | Denoising::ByChannel(plan) => plan,
        }
    };
    assert_eq!(denoise(SHAPE, 0.0).output, 1);
    assert_eq!(denoise(NONE, 1.0).output, 1);
    let plan = denoise(SHAPE, 1.0);
    assert_eq!((plan.output, written_last(&plan)), (1, vec![1]));
    for shape in [GREY, (30, 40, 2)] {
        let plan = denoise(shape, 1.0);
        assert_eq!((plan.output, written_last(&plan)), (5, vec![5]));
    }
}

#[test]
fn a_noise_whose_variance_overflows_is_planned_as_the_host_runs_it() {
    let params = DenoiseParams::new(3, b(1e30), b(1.0), LuminanceStandard::Bt709);
    assert!(denoise_device::<Ieee>(GREY, &params).is_ok());
    assert!(denoise_device::<Ieee>(SHAPE, &params).is_ok());
    assert!(denoise_device::<Ieee>((30, 40, 4), &params).is_ok());
}

#[test]
fn resizing_resamples_each_axis_that_changes() {
    let params = ResizeParams::new(20, 15, ResizeFilter::Bilinear);
    let plan = resize_device::<Ieee>(SHAPE, &params).unwrap();
    take(&plan, SHAPE);
    assert_eq!(plan.shape, (15, 20, 3));
    assert_eq!(kernels(&plan), vec!["resample_kernel", "resample_kernel"]);
}

#[test]
fn a_crop_keeps_its_window() {
    let plan = crop_device(SHAPE, &CropParams::new(2, 3, 10, 20)).unwrap();
    take(&plan, SHAPE);
    assert_eq!(plan.shape, (20, 10, 3));
    let plan = orient_device(SHAPE, Orientation::Rotate90).unwrap();
    assert_eq!(plan.shape, (40, 30, 3));
}

#[test]
fn the_hash_grid_holds_a_word_for_every_pixel() {
    let plan = hash_grid(7, 5, 6).unwrap();
    take(&plan, (0, 0, 0));
    assert_eq!(plan.buffers[plan.output].element, Element::Word);
    assert_eq!(plan.buffers[plan.output].len, 30);
    assert_eq!(kernels(&plan), vec!["grain_hash_kernel"]);
}

#[test]
fn split_toning_passes_its_numbers_through() {
    let tone = SplitTone {
        row_sum: b(1.0),
        edge0: b(0.25),
        edge1: b(0.75),
        shadow: (b(0.01), b(0.02)),
        highlight: (b(0.03), b(0.04)),
    };
    let shape = (30, 40, 1);
    let plan = split_toning_device::<Ieee>(shape, &tone).unwrap();
    take(&plan, shape);
    assert_eq!(plan.shape, SHAPE);
    match plan.steps.last().unwrap() {
        Step::Launch { args, .. } => {
            for v in [1.0_f32, 0.25, 0.75, 0.01, 0.02, 0.03, 0.04] {
                assert!(args.contains(&Arg::Single(b(v))));
            }
        }
        other => panic!("not a launch: {other:?}"),
    }
}

#[test]
fn the_zone_system_wants_eleven_finite_offsets_and_one_channel() {
    let offsets = vec![b(0.5); 11];
    let plan = zone_system_device::<Ieee>(GREY, offsets.clone()).unwrap();
    take(&plan, GREY);
    assert_eq!(kernels(&plan), vec!["zone_system_kernel"]);
    let plan = zone_system_device::<Ieee>(GREY, Vec::new()).unwrap();
    take(&plan, GREY);
    assert!(kernels(&plan).is_empty());

    assert!(said(zone_system_device::<Ieee>(SHAPE, offsets))
        .contains("zone_system expects (H, W, 1) luminance input, got shape [30, 40, 3]"));
    assert!(said(zone_system_device::<Ieee>(GREY, vec![b(0.5); 10]))
        .contains("10 zone offsets, expected 11 or none"));
    let mut offsets = vec![b(0.5); 11];
    offsets[7] = b(f32::NAN);
    assert!(said(zone_system_device::<Ieee>(GREY, offsets))
        .contains("offset of zone 7 is NaN, expected a finite value"));
}

#[test]
fn tones_and_vignettes_are_held_to_their_domains() {
    let tone = |slope: f32, offset: f32, power: f32| {
        said(tone_curve_device::<Ieee>(SHAPE, b(slope), b(offset), b(power)))
    };
    assert!(tone(f32::NAN, 0.0, 1.0).contains("slope is NaN, expected a finite value"));
    assert!(tone(1.0, f32::INFINITY, 1.0).contains("offset is inf, expected a finite value"));
    assert!(tone(1.0, 0.0, 0.0).contains("power is 0, expected a finite value > 0"));
    let plan = tone_curve_device::<Ieee>(SHAPE, b(1.0), b(0.0), b(1.0)).unwrap();
    assert!(kernels(&plan).is_empty());

    let vignette = |amount: f32, feather: f32, roundness: f32| {
        said(vignette_device::<Ieee>(SHAPE, b(amount), b(feather), b(roundness)))
    };
    assert!(vignette(f32::NAN, 0.5, 0.5).contains("amount is NaN, expected a finite value"));
    assert!(vignette(0.5, 1.5, 0.5).contains("feather is 1.5, expected a value in 0..=1"));
    assert!(vignette(0.5, 0.5, -1.0).contains("roundness is -1, expected a value in 0..=1"));
    let plan = vignette_device::<Ieee>(SHAPE, b(0.0), b(0.5), b(0.5)).unwrap();
    assert!(kernels(&plan).is_empty());
}

#[test]
fn split_toning_wants_one_channel_and_finite_tints() {
    let tone = |tint: f32| SplitTone {
        row_sum: b(1.0),
        edge0: b(0.25),
        edge1: b(0.75),
        shadow: (b(0.01), b(tint)),
        highlight: (b(0.03), b(0.04)),
    };
    assert!(said(split_toning_device::<Ieee>(SHAPE, &tone(0.0)))
        .contains("split_toning expects (H, W, 1) luminance input, got shape [30, 40, 3]"));
    assert!(said(split_toning_device::<Ieee>(GREY, &tone(f32::NAN)))
        .contains("shadow tint b is NaN, expected a finite value"));
}

#[test]
fn devices_are_listed_and_admitted_by_capability() {
    let old = DeviceInfo::listed(0, Some("Old".to_string()), Some(7), Some(5));
    let new = DeviceInfo::listed(1, None, Some(8), Some(0));
    let mute = DeviceInfo::listed(2, Some("Mute".to_string()), None, None);
    assert!(!old.supported && new.supported && !mute.supported);
    assert_eq!(new.name, "device 1");
    assert_eq!(mute.compute_capability, (0, 0));
    assert!(available(&vec![old, new]));
    assert!(!available(&vec![mute]));

    let text = said(DeviceInfo::admitted(0, Some("Old".to_string()), 7, 5));
    assert!(
        text.contains(
            "device \"Old\" has compute capability 7.5; this crate's kernels require >= 8.0 (Ampere)"
        ),
        "{text}"
    );
    let info = DeviceInfo::admitted(3, Some("A \"B\"".to_string()), 9, 0).unwrap();
    assert_eq!(
        info.__repr__(),
        "GpuInfo(ordinal=3, name=\"A \\\"B\\\"\", compute_capability=(9, 0), supported=true)"
    );
    assert_eq!(info.fingerprint("12.4"), "cuda/A \"B\"/cc9.0/ptx-compute_80/nvcc-12.4");
}

#[test]
fn an_index_past_the_devices_is_refused() {
    assert!(check_ordinal(0, 1).is_ok());
    assert!(said(check_ordinal(1, 1)).contains("no CUDA device at index 1: 1 device(s) present"));
    assert!(said(check_ordinal(0, -1)).contains("no CUDA device at index 0: -1 device(s) present"));
    assert!(driver_missing().to_string().contains("CUDA driver unavailable"));
    assert!(backend_err("upload failed", "out of memory")
        .to_string()
        .contains("upload failed: out of memory"));
}

#[test]
fn devices_that_do_not_answer_are_left_out_of_the_list() {
    let answers = vec![
        Some((Some(String::from("first")), Some(8), Some(6))),
        None,
        Some((None, Some(7), Some(5))),
    ];
    let listed = enumerate(answers);
    assert_eq!(listed.len(), 2);
    assert_eq!((listed[0].ordinal, listed[0].name.as_str()), (0, "first"));
    assert_eq!(listed[0].compute_capability, (8, 6));
    assert_eq!((listed[1].ordinal, listed[1].name.as_str()), (2, "device 2"));
    assert_eq!(listed[1].compute_capability, (7, 5));
    assert!(enumerate(Vec::new()).is_empty());
}
