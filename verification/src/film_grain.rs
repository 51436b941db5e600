//! Procedural film grain.
//!
//! Each pixel's noise is a hash of the seed and of the pixel's own coordinates,
//! so it depends on nothing else: not on threads, and not on its neighbours.

use vstd::arithmetic::div_mod::{
    lemma_mul_mod_noop_left, lemma_mul_mod_noop_right, lemma_small_mod,
};
use vstd::arithmetic::mul::lemma_mul_is_associative;
use vstd::prelude::*;

use crate::allocation::{
    check_shape, copied, image, permitted, permitted2, plane, refusal, refusal2, shape_fault,
};
use crate::arith::{
    cos, cos_of, faithful, floor, floor_of, ln, ln_of, minus, minus64, minus64_of, minus_of, narrow,
    narrow_of, of_count, of_count64, of_count64_of, of_count_of, over64, over64_of, plus, plus_of,
    root, root64, root64_of, root_of, round, round_of, text, text_of, times, times64, times64_of,
    times_of, to_count, to_count_of, Arithmetic,
};
use crate::double;
use crate::error::{PhaiosError, Report};
use crate::integral::{sat, summed, window_cells, window_sum, window_total, Measure};
use crate::raster::{
    index_of, inside, is_tabulated, is_tabulated2, tabulate, tabulate2, tabulated2, within, Image,
    Lattice, Raster, Table,
};
use crate::remark::{misshapen, refuse, refuse_shape, unexpected};
use crate::rounding::{
    minus_itself, plus_zero, rounds, small_numbers, times_halves, times_zero, unit_difference,
    values_are_ordered,
};
use crate::single;
use crate::text::{decimal, put_decimal};

verus! {

/// The bit mixer of SplitMix64: an increment, then two rounds of shift, exclusive
/// or and multiplication, then a last shift and exclusive or.
pub open spec fn mixed(z: u64) -> u64 {
    let a = z.wrapping_add(0x9E37_79B9_7F4A_7C15);
    let b = (a ^ (a >> 30)).wrapping_mul(0xBF58_476D_1CE4_E5B9);
    let c = (b ^ (b >> 27)).wrapping_mul(0x94D0_49BB_1331_11EB);
    c ^ (c >> 31)
}

/// The bit mixer of SplitMix64.
///
/// Reference: Guy L. Steele Jr., Doug Lea and Christine H. Flood, "Fast
/// splittable pseudorandom number generators", OOPSLA '14, pp. 453-472.
pub fn splitmix64(z: u64) -> (r: u64)
    ensures
        r == mixed(z),
{
    let a: u64 = z.wrapping_add(0x9E37_79B9_7F4A_7C15);
    let b: u64 = (a ^ (a >> 30)).wrapping_mul(0xBF58_476D_1CE4_E5B9);
    let c: u64 = (b ^ (b >> 27)).wrapping_mul(0x94D0_49BB_1331_11EB);
    c ^ (c >> 31)
}

/// The hash of a pixel: its coordinates are mixed on their own before they meet
/// the seed, each under its own multiplier.
pub open spec fn hashed(seed: u64, x: u64, y: u64) -> u64 {
    mixed(
        seed ^ mixed(
            x.wrapping_mul(0x9E37_79B9_7F4A_7C15) ^ y.wrapping_mul(0xC2B2_AE3D_27D4_EB4F),
        ),
    )
}

/// Hashes a pixel coordinate and a seed into 64 well-mixed bits.
pub fn pixel_hash(seed: u64, x: u64, y: u64) -> (r: u64)
    ensures
        r == hashed(seed, x, y),
{
    let key: u64 = x.wrapping_mul(0x9E37_79B9_7F4A_7C15) ^ y.wrapping_mul(0xC2B2_AE3D_27D4_EB4F);
    splitmix64(seed ^ splitmix64(key))
}

/// The pattern of 2 to the power -24.
pub const FIELD_SCALE: u32 = 0x3380_0000;

/// The pattern of -2.
pub const MINUS_TWO: u32 = 0xC000_0000;

/// The pattern of a full turn in radians.
pub const TAU: u32 = 0x40C9_0FDB;

/// The double-precision pattern of the smallest normal number.
pub const MIN_POSITIVE64: u64 = 0x0010_0000_0000_0000;

/// A standard normal deviate from 64 random bits by the transform of Box and
/// Muller, from the top 24 bits and the 24 after the next sixteen.
pub open spec fn normal<A: Arithmetic>(bits: u64) -> u32 {
    let u1 = times_of::<A>(plus_of::<A>(of_count_of::<A>(bits >> 40), single::HALF), FIELD_SCALE);
    let u2 = times_of::<A>(of_count_of::<A>((bits >> 16) & 0xFF_FFFF), FIELD_SCALE);
    times_of::<A>(
        root_of::<A>(times_of::<A>(MINUS_TWO, ln_of::<A>(u1))),
        cos_of::<A>(times_of::<A>(TAU, u2)),
    )
}

/// A standard normal deviate from 64 random bits.
pub fn standard_normal<A: Arithmetic>(bits: u64) -> (r: u32)
    requires
        faithful::<A>(),
    ensures
        r == normal::<A>(bits),
{
    let u1: u32 = times::<A>(plus::<A>(of_count::<A>(bits >> 40), single::HALF), FIELD_SCALE);
    let u2: u32 = times::<A>(of_count::<A>((bits >> 16) & 0xFF_FFFF), FIELD_SCALE);
    let radius: u32 = root::<A>(times::<A>(MINUS_TWO, ln::<A>(u1)));
    times::<A>(radius, cos::<A>(times::<A>(TAU, u2)))
}

/// Parameters for [`film_grain`].
#[derive(Clone, Copy, Debug)]
pub struct GrainParams {
    /// Grain amplitude at the midtones, a single-precision bit pattern.
    pub intensity: u32,
    /// Characteristic grain size in pixels.
    pub size_pixels: u32,
    /// Seed of the noise.
    pub seed: u64,
}

impl Default for GrainParams {
    fn default() -> (r: Self)
        ensures
            r == (GrainParams { intensity: 0, size_pixels: single::ONE, seed: 0 }),
    {
        GrainParams { intensity: 0, size_pixels: single::ONE, seed: 0 }
    }
}

impl GrainParams {
    /// Parameters from amplitude, size and seed.
    pub fn new(intensity: u32, size_pixels: u32, seed: u64) -> (r: Self)
        ensures
            r == (GrainParams { intensity, size_pixels, seed }),
    {
        GrainParams { intensity, size_pixels, seed }
    }

    /// Whether all three fields match, the numbers by their bits.
    pub fn __eq__(&self, other: &Self) -> (r: bool)
        ensures
            r == (*self == *other),
    {
        self.intensity == other.intensity && self.size_pixels == other.size_pixels && self.seed
            == other.seed
    }

    /// A debug representation.
    pub fn __repr__<A: Arithmetic>(&self) -> (r: String)
        requires
            faithful::<A>(),
        ensures
            r@ == "GrainParams(intensity="@ + text_of::<A>(self.intensity) + ", size_pixels="@
                + text_of::<A>(self.size_pixels) + ", seed="@ + decimal(self.seed as nat) + ")"@,
    {
        let mut out = String::from_str("GrainParams(intensity=");
        out.append(text::<A>(self.intensity).as_str());
        out.append(", size_pixels=");
        out.append(text::<A>(self.size_pixels).as_str());
        out.append(", seed=");
        put_decimal(&mut out, self.seed);
        out.append(")");
        out
    }
}

/// What is wrong with graining an image of some shape, if anything.
pub open spec fn grain_fault<A: Arithmetic>(
    shape: (usize, usize, usize),
    params: GrainParams,
) -> Option<Report> {
    if shape.2 != 1 {
        Some(misshapen("film_grain expects (H, W, 1) luminance input"@, shape))
    } else if !single::is_non_negative(params.intensity) {
        Some(
            unexpected::<A>(
                "intensity"@,
                params.intensity,
                ", expected a finite value >= 0"@,
            ),
        )
    } else if !single::is_finite(params.size_pixels) || single::at_most(params.size_pixels, 0) {
        Some(
            unexpected::<A>(
                "size_pixels"@,
                params.size_pixels,
                ", expected a finite value > 0"@,
            ),
        )
    } else {
        None
    }
}

/// Holds shape and parameters to their domain.
pub fn validate<A: Arithmetic>(shape: (usize, usize, usize), params: &GrainParams) -> (r: Result<
    (),
    PhaiosError,
>)
    requires
        faithful::<A>(),
    ensures
        match r {
            Ok(()) => grain_fault::<A>(shape, *params) is None,
            Err(e) => grain_fault::<A>(shape, *params) == Some(e@),
        },
{
    if shape.2 != 1 {
        return Err(refuse_shape("film_grain expects (H, W, 1) luminance input", shape));
    }
    if !single::is_non_negative(params.intensity) {
        return Err(
            refuse::<A>("intensity", params.intensity, ", expected a finite value >= 0"),
        );
    }
    if !single::is_finite(params.size_pixels) || single::at_most(params.size_pixels, 0) {
        return Err(
            refuse::<A>("size_pixels", params.size_pixels, ", expected a finite value > 0"),
        );
    }
    Ok(())
}

/// A count as an index, at least 1.
pub open spec fn positive_index(n: u64) -> int {
    if n == 0 {
        1
    } else if n > usize::MAX {
        usize::MAX as int
    } else {
        n as int
    }
}

/// The outer radius of the band-pass: the size rounded, at least 1.
pub open spec fn outer_radius<A: Arithmetic>(size: u32) -> int {
    positive_index(to_count_of::<A>(round_of::<A>(single::larger(size, single::ONE))))
}

/// The inner radius of the band-pass: half the size cut to a whole number, and
/// below the outer one.
pub open spec fn inner_radius<A: Arithmetic>(size: u32) -> int {
    let half = to_count_of::<A>(floor_of::<A>(times_of::<A>(size, single::HALF)));
    if half >= outer_radius::<A>(size) {
        outer_radius::<A>(size) - 1
    } else {
        half as int
    }
}

/// The number of pixels in a square window of the given radius. A number too
/// large to count is the square of the side, as far as the side can be counted.
pub open spec fn window_pixels<A: Arithmetic>(radius: int) -> u64 {
    let side = 2 * radius + 1;
    let counted = if side > u64::MAX {
        u64::MAX as int
    } else {
        side
    };
    if counted * counted <= u64::MAX {
        of_count64_of::<A>((counted * counted) as u64)
    } else {
        times64_of::<A>(of_count64_of::<A>(counted as u64), of_count64_of::<A>(counted as u64))
    }
}

fn pixels_in<A: Arithmetic>(radius: usize) -> (r: u64)
    requires
        faithful::<A>(),
    ensures
        r == window_pixels::<A>(radius as int),
{
    let side: u64 = (radius as u64).saturating_add(radius as u64).saturating_add(1);
    match side.checked_mul(side) {
        Some(n) => of_count64::<A>(n),
        None => {
            let s: u64 = of_count64::<A>(side);
            times64::<A>(s, s)
        },
    }
}

/// The factor that gives the band-passed noise unit variance: the difference of
/// nested windows of `m` and `n` pixels has variance `1/m - 1/n`.
pub open spec fn normalisation_of<A: Arithmetic>(size: u32) -> u32 {
    let inner = window_pixels::<A>(inner_radius::<A>(size));
    let outer = window_pixels::<A>(outer_radius::<A>(size));
    let variance = double::larger(
        minus64_of::<A>(over64_of::<A>(double::ONE, inner), over64_of::<A>(double::ONE, outer)),
        MIN_POSITIVE64,
    );
    narrow_of::<A>(over64_of::<A>(double::ONE, root64_of::<A>(variance)))
}

/// The band-pass radii and the normalisation for a grain size. The inner radius
/// is below the outer one: equal radii would leave no band.
pub fn bandpass_geometry<A: Arithmetic>(size_pixels: u32) -> (r: (usize, usize, u32))
    requires
        faithful::<A>(),
    ensures
        r.0 == inner_radius::<A>(size_pixels),
        r.1 == outer_radius::<A>(size_pixels),
        r.2 == normalisation_of::<A>(size_pixels),
        r.0 < r.1,
{
    let counted: u64 = to_count::<A>(round::<A>(single::larger(size_pixels, single::ONE)));
    let outer: usize = if counted == 0 {
        1
    } else {
        index_of(counted)
    };
    let half: u64 = to_count::<A>(floor::<A>(times::<A>(size_pixels, single::HALF)));
    let inner: usize = if half >= outer as u64 {
        outer - 1
    } else {
        half as usize
    };
    let n_inner: u64 = pixels_in::<A>(inner);
    let n_outer: u64 = pixels_in::<A>(outer);
    let variance: u64 = double::larger(
        minus64::<A>(over64::<A>(double::ONE, n_inner), over64::<A>(double::ONE, n_outer)),
        MIN_POSITIVE64,
    );
    let normalisation: u32 = narrow::<A>(over64::<A>(double::ONE, root64::<A>(variance)));
    (inner, outer, normalisation)
}

/// The noise of a frame: at each pixel a deviate from the pixel's hash.
pub open spec fn noise_of<A: Arithmetic>(shape: (usize, usize), seed: u64) -> Lattice<u32> {
    tabulate2(shape, |y: int, x: int| normal::<A>(hashed(seed, x as u64, y as u64)))
}

/// The mean over a window, read from a table.
pub open spec fn window_mean<A: Arithmetic>(s: Lattice<u64>, y: int, x: int, r: int) -> u64 {
    over64_of::<A>(
        window_total::<A>(s, y, x, r),
        of_count64_of::<A>(
            window_cells(s.shape.0 as int, s.shape.1 as int, y, x, r) as u64,
        ),
    )
}

/// The noise at a pixel in the band between the two windows.
pub open spec fn band_at<A: Arithmetic>(table: Lattice<u64>, y: int, x: int, size: u32) -> u32 {
    narrow_of::<A>(
        minus64_of::<A>(
            window_mean::<A>(table, y, x, inner_radius::<A>(size)),
            window_mean::<A>(table, y, x, outer_radius::<A>(size)),
        ),
    )
}

/// A sample with grain: noise in the band between the two windows, under an
/// envelope that peaks at mid-grey and vanishes at black and white, never below
/// zero.
pub open spec fn grained_at<A: Arithmetic>(
    l: u32,
    table: Lattice<u64>,
    y: int,
    x: int,
    params: GrainParams,
) -> u32 {
    let band = band_at::<A>(table, y, x, params.size_pixels);
    let t = single::clamped(l, 0, single::ONE);
    let envelope = times_of::<A>(times_of::<A>(single::FOUR, t), minus_of::<A>(single::ONE, t));
    single::larger(
        plus_of::<A>(
            l,
            times_of::<A>(
                times_of::<A>(
                    times_of::<A>(params.intensity, envelope),
                    normalisation_of::<A>(params.size_pixels),
                ),
                band,
            ),
        ),
        0,
    )
}

fn grain_at<A: Arithmetic>(
    l: u32,
    table: &Table,
    y: usize,
    x: usize,
    params: &GrainParams,
    inner: usize,
    outer: usize,
    normalisation: u32,
) -> (r: u32)
    requires
        faithful::<A>(),
        within(table@.shape, y as int, x as int),
        inner == inner_radius::<A>(params.size_pixels),
        outer == outer_radius::<A>(params.size_pixels),
        normalisation == normalisation_of::<A>(params.size_pixels),
    ensures
        r == grained_at::<A>(l, table@, y as int, x as int, *params),
{
    let (sum_inner, area_inner): (u64, u64) = window_sum::<A>(table, y, x, inner);
    let (sum_outer, area_outer): (u64, u64) = window_sum::<A>(table, y, x, outer);
    let band: u32 = narrow::<A>(
        minus64::<A>(
            over64::<A>(sum_inner, area_inner),
            over64::<A>(sum_outer, area_outer),
        ),
    );
    let t: u32 = single::clamped(l, 0, single::ONE);
    let envelope: u32 = times::<A>(times::<A>(single::FOUR, t), minus::<A>(single::ONE, t));
    single::larger(
        plus::<A>(
            l,
            times::<A>(
                times::<A>(times::<A>(params.intensity, envelope), normalisation),
                band,
            ),
        ),
        0,
    )
}

/// A raster with grain. No intensity is no change.
pub open spec fn grained<A: Arithmetic>(r: Raster<u32>, params: GrainParams) -> Raster<u32> {
    if single::same(params.intensity, 0) || r.shape.0 == 0 || r.shape.1 == 0 {
        r
    } else {
        let table = summed::<A>(
            noise_of::<A>((r.shape.0, r.shape.1), params.seed),
            Measure::Value,
        );
        tabulate(
            r.shape,
            |y: int, x: int, k: int| grained_at::<A>(r.at(y, x, k), table, y, x, params),
        )
    }
}

/// What graining can be refused with for want of memory: the image, or one of
/// the two tables behind it.
pub open spec fn grain_refusal(shape: (usize, usize, usize), report: Report) -> bool {
    refusal::<u32>(shape, report) || shape_fault::<u32>(shape) is None && (refusal2::<u32>(
        (shape.0, shape.1),
        report,
    ) || refusal2::<u64>((shape.0, shape.1), report))
}

/// Adds procedural film grain to a luminance image.
pub fn film_grain<A: Arithmetic>(img: &Image, params: &GrainParams) -> (r: Result<
    Image,
    PhaiosError,
>)
    requires
        faithful::<A>(),
    ensures
        match r {
            Ok(out) => {
                &&& grain_fault::<A>(img@.shape, *params) is None
                &&& permitted::<u32>(img@.shape)
                &&& single::same(params.intensity, 0) || img@.shape.0 == 0 || img@.shape.1 == 0
                    || permitted2::<u64>((img@.shape.0, img@.shape.1))
                &&& out@ == grained::<A>(img@, *params)
            },
            Err(e) => match grain_fault::<A>(img@.shape, *params) {
                Some(fault) => e@ == fault,
                None => grain_refusal(img@.shape, e@),
            },
        },
{
    let (h, w, c) = img.dim();
    if let Err(e) = validate::<A>((h, w, c), params) {
        return Err(e);
    }
    if let Err(e) = check_shape::<u32>((h, w, c)) {
        return Err(e);
    }
    if single::same(params.intensity, 0) || h == 0 || w == 0 {
        return copied(img);
    }
    let seed: u64 = params.seed;
    let hash = |y: usize, x: usize| -> (n: u32)
        requires
            faithful::<A>(),
        ensures
            n == normal::<A>(hashed(seed, x as u64, y as u64)),
        { standard_normal::<A>(pixel_hash(seed, x as u64, y as u64)) };
    let noise = match plane((h, w), hash) {
        Ok(p) => p,
        Err(e) => return Err(e),
    };
    proof {
        is_tabulated2(
            noise@,
            |y: int, x: int| normal::<A>(hashed(seed, x as u64, y as u64)),
        );
    }
    let table = match sat::<A>(&noise, Measure::Value) {
        Ok(t) => t,
        Err(e) => return Err(e),
    };
    let (inner, outer, normalisation): (usize, usize, u32) = bandpass_geometry::<A>(
        params.size_pixels,
    );
    let make = |y: usize, x: usize, k: usize| -> (s: u32)
        requires
            faithful::<A>(),
            inside(img@.shape, y as int, x as int, k as int),
            table@.shape == (img@.shape.0, img@.shape.1),
            inner == inner_radius::<A>(params.size_pixels),
            outer == outer_radius::<A>(params.size_pixels),
            normalisation == normalisation_of::<A>(params.size_pixels),
        ensures
            s == grained_at::<A>(
                img@.at(y as int, x as int, k as int),
                table@,
                y as int,
                x as int,
                *params,
            ),
        { grain_at::<A>(img.cell(y, x, k), &table, y, x, params, inner, outer, normalisation) };
    let r = image((h, w, c), make);
    if let Ok(out) = &r {
        proof {
            is_tabulated(
                out@,
                |y: int, x: int, k: int|
                    grained_at::<A>(img@.at(y, x, k), table@, y, x, *params),
            );
        }
    }
    r
}

/// The noise at a pixel depends on the seed and the pixel's coordinates alone:
/// frames of any two extents agree wherever both have the pixel.
pub proof fn noise_is_fixed_to_pixels<A: Arithmetic>(
    a: (usize, usize),
    b: (usize, usize),
    seed: u64,
    y: int,
    x: int,
)
    requires
        within(a, y, x),
        within(b, y, x),
    ensures
        noise_of::<A>(a, seed).at(y, x) == noise_of::<A>(b, seed).at(y, x),
{
    let f = |y: int, x: int| normal::<A>(hashed(seed, x as u64, y as u64));
    tabulated2(a, f);
    tabulated2(b, f);
}

/// Grain without intensity is no change.
pub proof fn no_intensity_is_the_identity<A: Arithmetic>(r: Raster<u32>, params: GrainParams)
    requires
        single::same(params.intensity, 0),
    ensures
        grained::<A>(r, params) == r,
{
}

/// Grained luminance is a number, and never below zero.
pub proof fn grain_is_never_negative<A: Arithmetic>(
    l: u32,
    table: Lattice<u64>,
    y: int,
    x: int,
    params: GrainParams,
)
    ensures
        single::at_most(0, grained_at::<A>(l, table, y, x, params)),
{
}

/// The envelope silences grain at black and at white, and beyond them: where the
/// noise is finite, a luminance of at least one keeps its value, and one of at most
/// zero comes out as zero.
pub proof fn black_and_white_get_no_grain<A: Arithmetic>(
    l: u32,
    table: Lattice<u64>,
    y: int,
    x: int,
    params: GrainParams,
)
    requires
        rounds::<A>(),
        single::is_finite(l),
        single::is_finite(params.intensity),
        single::is_finite(normalisation_of::<A>(params.size_pixels)),
        single::is_finite(band_at::<A>(table, y, x, params.size_pixels)),
    ensures
        single::at_most(single::ONE, l) ==> single::same(
            grained_at::<A>(l, table, y, x, params),
            l,
        ),
        single::at_most(l, 0) ==> single::same(grained_at::<A>(l, table, y, x, params), 0),
{
    if single::at_most(single::ONE, l) || single::at_most(l, 0) {
        small_numbers();
        let band = band_at::<A>(table, y, x, params.size_pixels);
        let normalisation = normalisation_of::<A>(params.size_pixels);
        let t = single::clamped(l, 0, single::ONE);
        let rise = times_of::<A>(single::FOUR, t);
        let fall = minus_of::<A>(single::ONE, t);
        let envelope = times_of::<A>(rise, fall);
        unit_difference::<A>(single::ONE, t);
        if single::at_most(l, 0) {
            times_zero::<A>(single::FOUR, t);
            values_are_ordered(rise, 0);
            times_zero::<A>(fall, rise);
        } else {
            assert(t == single::ONE);
            minus_itself::<A>(single::ONE);
            times_halves::<A>(single::FOUR, 8, t, 2, 8);
            times_zero::<A>(rise, fall);
        }
        values_are_ordered(envelope, 0);
        times_zero::<A>(params.intensity, envelope);
        let scaled = times_of::<A>(params.intensity, envelope);
        values_are_ordered(scaled, 0);
        times_zero::<A>(normalisation, scaled);
        let normalised = times_of::<A>(scaled, normalisation);
        values_are_ordered(normalised, 0);
        times_zero::<A>(band, normalised);
        let grain = times_of::<A>(normalised, band);
        plus_zero::<A>(l, grain);
        values_are_ordered(plus_of::<A>(l, grain), l);
    }
}

/// Products with a number that has an inverse tell their factors apart.
proof fn odd_products_differ(a: u64, b: u64, m: u64, inverse: int)
    requires
        (m * inverse) % 0x1_0000_0000_0000_0000 == 1,
        a.wrapping_mul(m) == b.wrapping_mul(m),
    ensures
        a == b,
{
    let n = 0x1_0000_0000_0000_0000int;
    let (p, q) = (a * m, b * m);
    assert(p % n == q % n);
    lemma_mul_mod_noop_left(p, inverse, n);
    lemma_mul_mod_noop_left(q, inverse, n);
    assert((p * inverse) % n == (q * inverse) % n);
    lemma_mul_is_associative(a as int, m as int, inverse);
    lemma_mul_is_associative(b as int, m as int, inverse);
    lemma_mul_mod_noop_right(a as int, m * inverse, n);
    lemma_mul_mod_noop_right(b as int, m * inverse, n);
    lemma_small_mod(a as nat, n as nat);
    lemma_small_mod(b as nat, n as nat);
}

/// The mixer loses nothing: different numbers stay different.
pub proof fn mixing_is_injective(a: u64, b: u64)
    requires
        a != b,
    ensures
        mixed(a) != mixed(b),
{
    if mixed(a) == mixed(b) {
        let a1 = a.wrapping_add(0x9E37_79B9_7F4A_7C15);
        let b1 = b.wrapping_add(0x9E37_79B9_7F4A_7C15);
        let a2 = (a1 ^ (a1 >> 30)).wrapping_mul(0xBF58_476D_1CE4_E5B9);
        let b2 = (b1 ^ (b1 >> 30)).wrapping_mul(0xBF58_476D_1CE4_E5B9);
        let a3 = (a2 ^ (a2 >> 27)).wrapping_mul(0x94D0_49BB_1331_11EB);
        let b3 = (b2 ^ (b2 >> 27)).wrapping_mul(0x94D0_49BB_1331_11EB);
        assert(a3 == b3) by (bit_vector)
            requires
                a3 ^ (a3 >> 31) == b3 ^ (b3 >> 31),
        ;
        odd_products_differ(
            a2 ^ (a2 >> 27),
            b2 ^ (b2 >> 27),
            0x94D0_49BB_1331_11EB,
            0x3196_42B2_D24D_8EC3,
        );
        assert(a2 == b2) by (bit_vector)
            requires
                a2 ^ (a2 >> 27) == b2 ^ (b2 >> 27),
        ;
        odd_products_differ(
            a1 ^ (a1 >> 30),
            b1 ^ (b1 >> 30),
            0xBF58_476D_1CE4_E5B9,
            0x96DE_1B17_3F11_9089,
        );
        assert(a1 == b1) by (bit_vector)
            requires
                a1 ^ (a1 >> 30) == b1 ^ (b1 >> 30),
        ;
    }
}

/// The hash of a pixel tells seeds apart, and columns, and rows: where one of the
/// three differs and the other two do not, so do the hashes.
pub proof fn hashes_differ(seed: u64, x: u64, y: u64, other: u64)
    ensures
        seed != other ==> hashed(seed, x, y) != hashed(other, x, y),
        x != other ==> hashed(seed, x, y) != hashed(seed, other, y),
        y != other ==> hashed(seed, x, y) != hashed(seed, x, other),
{
    let (p, q) = (x.wrapping_mul(0x9E37_79B9_7F4A_7C15), y.wrapping_mul(0xC2B2_AE3D_27D4_EB4F));
    let (p1, q1) = (
        other.wrapping_mul(0x9E37_79B9_7F4A_7C15),
        other.wrapping_mul(0xC2B2_AE3D_27D4_EB4F),
    );
    if x != other {
        if p == p1 {
            odd_products_differ(x, other, 0x9E37_79B9_7F4A_7C15, 0xF1DE_83E1_9937_733D);
        }
        different_keys(seed, p ^ q, p1 ^ q, q, p, p1);
    }
    if y != other {
        if q == q1 {
            odd_products_differ(y, other, 0xC2B2_AE3D_27D4_EB4F, 0x0BA7_9078_168D_4BAF);
        }
        assert(p ^ q == q ^ p && p ^ q1 == q1 ^ p) by (bit_vector);
        different_keys(seed, q ^ p, q1 ^ p, p, q, q1);
    }
    if seed != other {
        let k = mixed(p ^ q);
        assert(seed ^ k != other ^ k) by (bit_vector)
            requires
                seed != other,
        ;
        mixing_is_injective(seed ^ k, other ^ k);
    }
}

/// Different keys have different hashes under one seed.
proof fn different_keys(seed: u64, a: u64, b: u64, common: u64, p: u64, q: u64)
    requires
        a == p ^ common,
        b == q ^ common,
        p != q,
    ensures
        mixed(seed ^ mixed(a)) != mixed(seed ^ mixed(b)),
{
    assert(a != b) by (bit_vector)
        requires
            a == p ^ common,
            b == q ^ common,
            p != q,
    ;
    mixing_is_injective(a, b);
    let (m, n) = (mixed(a), mixed(b));
    assert(seed ^ m != seed ^ n) by (bit_vector)
        requires
            m != n,
    ;
    mixing_is_injective(seed ^ m, seed ^ n);
}

} // verus!
