//! The sRGB transfer: linear samples to display-referred ones.
//!
//! Reference: IEC 61966-2-1:1999.

use vstd::prelude::*;

use crate::allocation::{image, permitted, refusal};
use crate::arith::{faithful, minus, minus_of, power, power_of, times, times_of, Arithmetic};
use crate::error::PhaiosError;
use crate::raster::{inside, is_tabulated, tabulate, Image, Raster};
use crate::rounding::{
    half, half_is_positive, rounded_at_most, rounded_is_a_number, rounded_keeps_order, rounds,
    small_numbers, times_infinity, times_rounds, times_sign, times_zero, value, values_are_ordered,
};
use crate::single;

verus! {

/// The pattern of 0.0031308, where the linear segment ends.
pub const THRESHOLD: u32 = 0x3B4D_2E1C;

/// The pattern of 12.92, the slope of the linear segment.
pub const SLOPE: u32 = 0x414E_B852;

/// The pattern of 1.055.
pub const GAIN: u32 = 0x3F87_0A3D;

/// The pattern of 0.055.
pub const LIFT: u32 = 0x3D61_47AE;

/// The pattern of 1 / 2.4.
pub const INVERSE_GAMMA: u32 = 0x3ED5_5555;

/// The transfer of one sample: linear up to the threshold, a power above it.
pub open spec fn encoded<A: Arithmetic>(x: u32) -> u32 {
    if single::at_most(x, THRESHOLD) {
        times_of::<A>(SLOPE, x)
    } else {
        minus_of::<A>(times_of::<A>(GAIN, power_of::<A>(x, INVERSE_GAMMA)), LIFT)
    }
}

/// The transfer of one sample.
pub fn encode_pixel<A: Arithmetic>(x: u32) -> (r: u32)
    requires
        faithful::<A>(),
    ensures
        r == encoded::<A>(x),
{
    if single::at_most(x, THRESHOLD) {
        times::<A>(SLOPE, x)
    } else {
        minus::<A>(times::<A>(GAIN, power::<A>(x, INVERSE_GAMMA)), LIFT)
    }
}

/// A raster with every sample encoded.
pub open spec fn encoded_raster<A: Arithmetic>(r: Raster<u32>) -> Raster<u32> {
    tabulate(r.shape, |y: int, x: int, k: int| encoded::<A>(r.at(y, x, k)))
}

/// Applies the sRGB transfer to a linear image. Nothing is clamped.
pub fn encode_srgb<A: Arithmetic>(img: &Image) -> (r: Result<Image, PhaiosError>)
    requires
        faithful::<A>(),
    ensures
        match r {
            Ok(out) => permitted::<u32>(img@.shape) && out@ == encoded_raster::<A>(img@),
            Err(e) => refusal::<u32>(img@.shape, e@),
        },
{
    let make = |y: usize, x: usize, k: usize| -> (s: u32)
        requires
            faithful::<A>(),
            inside(img@.shape, y as int, x as int, k as int),
        ensures
            s == encoded::<A>(img@.at(y as int, x as int, k as int)),
        { encode_pixel::<A>(img.cell(y, x, k)) };
    let r = image(img.dim(), make);
    if let Ok(out) = &r {
        proof {
            is_tabulated(out@, |y: int, x: int, k: int| encoded::<A>(img@.at(y, x, k)));
        }
    }
    r
}

/// Black encodes to black.
pub proof fn black_stays_black<A: Arithmetic>(x: u32)
    requires
        rounds::<A>(),
        single::same(x, 0),
    ensures
        single::same(encoded::<A>(x), 0),
{
    small_numbers();
    times_zero::<A>(SLOPE, x);
    values_are_ordered(encoded::<A>(x), 0);
}

/// Negative samples stay negative: nothing is clamped.
pub proof fn negative_samples_stay_negative<A: Arithmetic>(x: u32)
    requires
        rounds::<A>(),
        single::less(x, 0),
    ensures
        single::less(encoded::<A>(x), 0),
{
    small_numbers();
    half_is_positive();
    values_are_ordered(single::ONE, SLOPE);
    if single::is_infinite(x) {
        times_infinity::<A>(SLOPE, x);
        times_sign::<A>(SLOPE, x);
    } else {
        values_are_ordered(x, 0);
        times_rounds::<A>(SLOPE, x);
        let (v, s, d) = (value(x), value(SLOPE), 2 * half());
        assert(s * v <= v * d) by (nonlinear_arith)
            requires
                v < 0,
                d <= s,
        ;
        rounded_at_most(encoded::<A>(x), s * v, d, x);
    }
}

/// Up to the threshold the transfer keeps the order of samples.
pub proof fn linear_segment_keeps_order<A: Arithmetic>(a: u32, b: u32)
    requires
        rounds::<A>(),
        single::is_finite(a),
        single::at_most(a, b),
        single::at_most(b, THRESHOLD),
    ensures
        single::at_most(encoded::<A>(a), encoded::<A>(b)),
{
    small_numbers();
    half_is_positive();
    values_are_ordered(single::ONE, SLOPE);
    values_are_ordered(a, b);
    times_rounds::<A>(SLOPE, a);
    times_rounds::<A>(SLOPE, b);
    let (va, vb, s, d) = (value(a), value(b), value(SLOPE), 2 * half());
    if va < vb {
        assert(s * va < s * vb) by (nonlinear_arith)
            requires
                va < vb,
                s > 0,
        ;
        rounded_keeps_order(encoded::<A>(a), s * va, encoded::<A>(b), s * vb, d);
    } else if vb == 0 {
        values_are_ordered(a, 0);
        values_are_ordered(b, 0);
        times_zero::<A>(SLOPE, a);
        times_zero::<A>(SLOPE, b);
        values_are_ordered(encoded::<A>(a), encoded::<A>(b));
    } else {
        values_are_ordered(b, 0);
        assert(a == b);
        rounded_is_a_number(encoded::<A>(a), s * va, d);
    }
}

} // verus!
