//! Tone transfer through a lookup table with linear interpolation.

use vstd::prelude::*;

use crate::allocation::{image, permitted, refusal};
use crate::arith::{
    faithful, minus, minus_of, of_count, of_count_of, over, over_of, plus, plus_of, text, text_of,
    times, times_of, to_count, to_count_of, Arithmetic,
};
use crate::error::{PhaiosError, Report};
use crate::raster::{inside, is_tabulated, tabulate, Image, Raster};
use crate::remark::{put_range, range_text};
use crate::rounding::{
    count_is_finite, difference_is_positive, half, half_is_positive, infinity_over, minus_exact,
    minus_of_infinity, minus_rounds, negated_value, over_exact, over_itself, over_rounds, over_sign,
    positive_is_unsigned, rounded_at_least, rounded_at_most, rounded_keeps_order, rounds,
    small_numbers, times_infinity, times_one, times_rounds, times_sign, times_zero, value,
    values_are_ordered,
};
use crate::single;
use crate::text::{decimal, put_decimal};

verus! {

/// The domain of the table that [`apply_lut`] takes.
#[derive(Clone, Copy, Debug)]
pub struct LutParams {
    /// The input value of the first entry, a single-precision bit pattern.
    pub min: u32,
    /// The input value of the last entry.
    pub max: u32,
}

impl Default for LutParams {
    fn default() -> (r: Self)
        ensures
            r == (LutParams { min: 0, max: single::ONE }),
    {
        LutParams { min: 0, max: single::ONE }
    }
}

impl LutParams {
    /// A domain from its bounds.
    pub fn new(min: u32, max: u32) -> (r: Self)
        ensures
            r == (LutParams { min, max }),
    {
        LutParams { min, max }
    }

    /// Whether both bounds match by their bits.
    pub fn __eq__(&self, other: &Self) -> (r: bool)
        ensures
            r == (*self == *other),
    {
        self.min == other.min && self.max == other.max
    }

    /// A debug representation.
    pub fn __repr__<A: Arithmetic>(&self) -> (r: String)
        requires
            faithful::<A>(),
        ensures
            r@ == "LutParams(min="@ + text_of::<A>(self.min) + ", max="@ + text_of::<A>(self.max)
                + ")"@,
    {
        let mut out = String::from_str("LutParams(min=");
        out.append(text::<A>(self.min).as_str());
        out.append(", max=");
        out.append(text::<A>(self.max).as_str());
        out.append(")");
        out
    }
}

/// Where a sample falls on a table of `len` entries: 0 at the first, `len - 1`
/// at the last.
pub open spec fn position<A: Arithmetic>(value: u32, len: int, min: u32, max: u32) -> u32 {
    times_of::<A>(
        over_of::<A>(minus_of::<A>(value, min), minus_of::<A>(max, min)),
        of_count_of::<A>((len - 1) as u64),
    )
}

/// The entry before a position, held below the last entry.
pub open spec fn entry_before<A: Arithmetic>(t: u32, len: int) -> int {
    let i = to_count_of::<A>(t);
    if i >= len - 1 {
        len - 2
    } else {
        i as int
    }
}

/// A sample looked up: the end entries outside the domain, a linear blend of two
/// neighbours inside it. What is not a number stays as it is.
pub open spec fn looked_up<A: Arithmetic>(value: u32, lut: Seq<u32>, min: u32, max: u32) -> u32 {
    let len = lut.len() as int;
    let t = position::<A>(value, len, min, max);
    if single::is_nan(value) {
        value
    } else if !single::less(0, t) {
        lut[0]
    } else if single::at_most(of_count_of::<A>((len - 1) as u64), t) {
        lut[len - 1]
    } else {
        let i = entry_before::<A>(t, len);
        let frac = minus_of::<A>(t, of_count_of::<A>(i as u64));
        plus_of::<A>(
            times_of::<A>(minus_of::<A>(single::ONE, frac), lut[i]),
            times_of::<A>(frac, lut[i + 1]),
        )
    }
}

/// Looks one sample up in the table.
pub fn lut_sample<A: Arithmetic>(value: u32, lut: &Vec<u32>, min: u32, max: u32) -> (r: u32)
    requires
        faithful::<A>(),
        lut@.len() >= 2,
    ensures
        r == looked_up::<A>(value, lut@, min, max),
{
    if single::is_nan(value) {
        return value;
    }
    let last: usize = lut.len() - 1;
    let end: u32 = of_count::<A>(last as u64);
    let t: u32 = times::<A>(over::<A>(minus::<A>(value, min), minus::<A>(max, min)), end);
    if !single::less(0, t) {
        return lut[0];
    }
    if single::at_most(end, t) {
        return lut[last];
    }
    // A position below the last entry has a neighbour on either side.
    let floor: u64 = to_count::<A>(t);
    let i: usize = if floor >= last as u64 {
        last - 1
    } else {
        floor as usize
    };
    let frac: u32 = minus::<A>(t, of_count::<A>(i as u64));
    plus::<A>(
        times::<A>(minus::<A>(single::ONE, frac), lut[i]),
        times::<A>(frac, lut[i + 1]),
    )
}

/// The first entry that is not finite, from `i` on.
pub open spec fn entry_fault<A: Arithmetic>(lut: Seq<u32>, i: int) -> Option<Report>
    decreases lut.len() - i,
{
    if i >= lut.len() {
        None
    } else if !single::is_finite(lut[i]) {
        Some(
            Report::Parameter(
                "lut["@ + decimal(i as nat) + "] is "@ + text_of::<A>(lut[i])
                    + ", expected every entry to be finite"@,
            ),
        )
    } else {
        entry_fault::<A>(lut, i + 1)
    }
}

/// What is wrong with a table and its domain, if anything.
pub open spec fn lut_fault<A: Arithmetic>(lut: Seq<u32>, params: LutParams) -> Option<Report> {
    let (min, max) = (params.min, params.max);
    if lut.len() < 2 {
        Some(
            Report::Parameter(
                "lut has "@ + decimal(lut.len()) + " entries, expected at least 2"@,
            ),
        )
    } else if !single::is_finite(min) || !single::is_finite(max) {
        Some(
            Report::Parameter(
                range_text::<A>("domain is"@, min, max, ", expected finite bounds"@),
            ),
        )
    } else if !single::less(min, max) {
        Some(Report::Parameter(range_text::<A>("domain is"@, min, max, ", expected max > min"@)))
    } else if !single::is_finite(minus_of::<A>(max, min)) {
        Some(
            Report::Parameter(
                range_text::<A>("domain"@, min, max, " spans more than f32 can represent"@),
            ),
        )
    } else {
        entry_fault::<A>(lut, 0)
    }
}

/// Holds a table and its domain to what can be looked up.
pub fn validate<A: Arithmetic>(lut: &Vec<u32>, params: &LutParams) -> (r: Result<(), PhaiosError>)
    requires
        faithful::<A>(),
    ensures
        match r {
            Ok(()) => lut_fault::<A>(lut@, *params) is None,
            Err(e) => lut_fault::<A>(lut@, *params) == Some(e@),
        },
{
    let (min, max): (u32, u32) = (params.min, params.max);
    if lut.len() < 2 {
        let mut said = String::from_str("lut has ");
        put_decimal(&mut said, lut.len() as u64);
        said.append(" entries, expected at least 2");
        return Err(PhaiosError::Parameter(said));
    }
    if !single::is_finite(min) || !single::is_finite(max) {
        return Err(
            PhaiosError::Parameter(
                put_range::<A>("domain is", min, max, ", expected finite bounds"),
            ),
        );
    }
    if !single::less(min, max) {
        return Err(
            PhaiosError::Parameter(put_range::<A>("domain is", min, max, ", expected max > min")),
        );
    }
    if !single::is_finite(minus::<A>(max, min)) {
        return Err(
            PhaiosError::Parameter(
                put_range::<A>("domain", min, max, " spans more than f32 can represent"),
            ),
        );
    }
    let mut i: usize = 0;
    while i < lut.len()
        invariant
            faithful::<A>(),
            i <= lut@.len(),
            entry_fault::<A>(lut@, 0) == entry_fault::<A>(lut@, i as int),
            lut_fault::<A>(lut@, *params) == entry_fault::<A>(lut@, 0),
        decreases lut@.len() - i,
    {
        if !single::is_finite(lut[i]) {
            let mut said = String::from_str("lut[");
            put_decimal(&mut said, i as u64);
            said.append("] is ");
            said.append(text::<A>(lut[i]).as_str());
            said.append(", expected every entry to be finite");
            return Err(PhaiosError::Parameter(said));
        }
        i = i + 1;
    }
    Ok(())
}

/// A raster looked up sample by sample.
pub open spec fn looked_up_raster<A: Arithmetic>(
    r: Raster<u32>,
    lut: Seq<u32>,
    params: LutParams,
) -> Raster<u32> {
    tabulate(
        r.shape,
        |y: int, x: int, k: int|
            looked_up::<A>(r.at(y, x, k), lut, params.min, params.max),
    )
}

/// What is not a number keeps its own bits.
pub proof fn nan_keeps_its_bits<A: Arithmetic>(value: u32, lut: Seq<u32>, min: u32, max: u32)
    requires
        single::is_nan(value),
    ensures
        looked_up::<A>(value, lut, min, max) == value,
{
}

/// Applies a lookup table as a tone transfer, to every channel alike.
pub fn apply_lut<A: Arithmetic>(img: &Image, lut: &Vec<u32>, params: &LutParams) -> (r: Result<
    Image,
    PhaiosError,
>)
    requires
        faithful::<A>(),
    ensures
        match r {
            Ok(out) => lut_fault::<A>(lut@, *params) is None && permitted::<u32>(img@.shape)
                && out@ == looked_up_raster::<A>(img@, lut@, *params),
            Err(e) => match lut_fault::<A>(lut@, *params) {
                Some(fault) => e@ == fault,
                None => refusal::<u32>(img@.shape, e@),
            },
        },
{
    if let Err(e) = validate::<A>(lut, params) {
        return Err(e);
    }
    let (min, max): (u32, u32) = (params.min, params.max);
    let make = |y: usize, x: usize, k: usize| -> (s: u32)
        requires
            faithful::<A>(),
            lut@.len() >= 2,
            inside(img@.shape, y as int, x as int, k as int),
        ensures
            s == looked_up::<A>(img@.at(y as int, x as int, k as int), lut@, min, max),
        { lut_sample::<A>(img.cell(y, x, k), lut, min, max) };
    let r = image(img.dim(), make);
    if let Ok(out) = &r {
        proof {
            is_tabulated(
                out@,
                |y: int, x: int, k: int|
                    looked_up::<A>(img@.at(y, x, k), lut@, params.min, params.max),
            );
        }
    }
    r
}

/// The ends of the domain hit the end entries exactly.
pub proof fn domain_ends_hit_end_entries<A: Arithmetic>(lut: Seq<u32>, min: u32, max: u32)
    requires
        rounds::<A>(),
        2 <= lut.len() <= u64::MAX,
        single::is_finite(min),
        single::is_finite(max),
        single::less(min, max),
        single::is_finite(minus_of::<A>(max, min)),
    ensures
        looked_up::<A>(min, lut, min, max) == lut[0],
        looked_up::<A>(max, lut, min, max) == lut[lut.len() - 1],
{
    small_numbers();
    let span = minus_of::<A>(max, min);
    difference_is_positive::<A>(max, min);
    let end = of_count_of::<A>((lut.len() - 1) as u64);
    count_is_finite::<A>((lut.len() - 1) as u64);
    // The first entry: nothing over the span is nothing.
    minus_exact::<A>(min, min, 0);
    let none = minus_of::<A>(min, min);
    assert(0 * value(span) == 0 && 0 * (2 * half()) == 0) by (nonlinear_arith);
    over_exact::<A>(none, span, 0);
    values_are_ordered(over_of::<A>(none, span), 0);
    times_zero::<A>(end, over_of::<A>(none, span));
    values_are_ordered(0, position::<A>(min, lut.len() as int, min, max));
    // The last entry: the span over itself is one.
    over_itself::<A>(span);
    times_one::<A>(end);
    values_are_ordered(end, position::<A>(max, lut.len() as int, min, max));
    values_are_ordered(0, position::<A>(max, lut.len() as int, min, max));
}

/// Outside the domain the end entries repeat: nothing is extrapolated.
pub proof fn outside_the_domain_clamps<A: Arithmetic>(x: u32, lut: Seq<u32>, min: u32, max: u32)
    requires
        rounds::<A>(),
        2 <= lut.len() <= u64::MAX,
        single::is_finite(min),
        single::is_finite(max),
        single::less(min, max),
        single::is_finite(minus_of::<A>(max, min)),
    ensures
        single::at_most(x, min) ==> looked_up::<A>(x, lut, min, max) == lut[0],
        single::at_most(max, x) ==> looked_up::<A>(x, lut, min, max) == lut[lut.len() - 1],
{
    small_numbers();
    half_is_positive();
    let len = lut.len() as int;
    let span = minus_of::<A>(max, min);
    difference_is_positive::<A>(max, min);
    positive_is_unsigned(span);
    let end = of_count_of::<A>((len - 1) as u64);
    count_is_finite::<A>((len - 1) as u64);
    positive_is_unsigned(end);
    let along = minus_of::<A>(x, min);
    let share = over_of::<A>(along, span);
    let t = times_of::<A>(share, end);
    let h = 2 * half();
    if single::at_most(x, min) {
        if single::is_infinite(x) {
            minus_of_infinity::<A>(min, x);
            over_sign::<A>(along, span);
            times_sign::<A>(share, end);
        } else {
            values_are_ordered(x, min);
            minus_rounds::<A>(x, min);
            rounded_at_most(along, value(x) - value(min), 1, 0);
            if single::is_infinite(along) {
                over_sign::<A>(along, span);
                times_sign::<A>(share, end);
            } else {
                values_are_ordered(along, 0);
                over_rounds::<A>(along, span);
                let (a, s, e) = (value(along), value(span), value(end));
                assert(a * h <= 0 * s) by (nonlinear_arith)
                    requires
                        a <= 0,
                        h > 0,
                ;
                rounded_at_most(share, a * h, s, 0);
                if single::is_infinite(share) {
                    times_sign::<A>(share, end);
                } else {
                    values_are_ordered(share, 0);
                    times_rounds::<A>(share, end);
                    let f = value(share);
                    assert(f * e <= 0 * h) by (nonlinear_arith)
                        requires
                            f <= 0,
                            e > 0,
                    ;
                    rounded_at_most(t, f * e, h, 0);
                }
            }
        }
        assert(!single::less(0, t));
    }
    if single::at_most(max, x) {
        values_are_ordered(0, end);
        if single::is_infinite(x) {
            minus_of_infinity::<A>(min, x);
            assert(along == single::INFINITY);
        } else {
            values_are_ordered(max, x);
            minus_rounds::<A>(x, min);
            minus_rounds::<A>(max, min);
            if value(max) < value(x) {
                rounded_keeps_order(
                    span,
                    value(max) - value(min),
                    along,
                    value(x) - value(min),
                    1,
                );
            } else if value(max) == 0 {
                negated_value(min);
                minus_exact::<A>(max, min, single::negated(min));
                minus_exact::<A>(x, min, single::negated(min));
                values_are_ordered(span, along);
            } else {
                assert(max == x);
            }
        }
        assert(single::at_most(span, along));
        if single::is_infinite(along) {
            infinity_over::<A>(along, span);
            over_sign::<A>(along, span);
            assert(share == single::INFINITY);
        } else {
            values_are_ordered(span, along);
            over_rounds::<A>(along, span);
            let (a, s) = (value(along), value(span));
            assert(h * s <= a * h) by (nonlinear_arith)
                requires
                    s <= a,
                    h > 0,
            ;
            rounded_at_least(share, a * h, s, single::ONE);
        }
        assert(single::at_most(single::ONE, share));
        if single::is_infinite(share) {
            times_infinity::<A>(end, share);
            times_sign::<A>(share, end);
        } else {
            values_are_ordered(single::ONE, share);
            times_rounds::<A>(share, end);
            let (f, e) = (value(share), value(end));
            assert(e * h <= f * e) by (nonlinear_arith)
                requires
                    h <= f,
                    e > 0,
            ;
            rounded_at_least(t, f * e, h, end);
        }
        assert(single::at_most(end, t));
        assert(single::less(0, t));
    }
}

} // verus!
