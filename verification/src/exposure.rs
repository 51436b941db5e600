//! Exposure compensation: every sample times a power of two.

use vstd::prelude::*;

use crate::allocation::{image, permitted, refusal};
use crate::arith::{faithful, power, power_of, times, times_of, Arithmetic};
use crate::error::{PhaiosError, Report};
use crate::raster::{inside, is_tabulated, tabulate, tabulated, Image, Raster};
use crate::remark::{refuse, unexpected};
use crate::rounding::{
    apart, double_of, doubling_overflows, half, half_is_positive, limit, rounds, small_numbers,
    times_exact, times_infinity, times_one, times_rounds, times_sign, value, values_are_ordered,
    LARGEST,
};
use crate::single;

verus! {

/// What is wrong with an exposure, if anything.
pub open spec fn exposure_fault<A: Arithmetic>(stops: u32) -> Option<Report> {
    if !single::is_finite(stops) {
        Some(unexpected::<A>("stops"@, stops, ", expected a finite number of EV"@))
    } else {
        None
    }
}

/// Holds the stops to finite numbers.
pub fn validate<A: Arithmetic>(stops: u32) -> (r: Result<(), PhaiosError>)
    requires
        faithful::<A>(),
    ensures
        match r {
            Ok(()) => exposure_fault::<A>(stops) is None,
            Err(e) => exposure_fault::<A>(stops) == Some(e@),
        },
{
    if !single::is_finite(stops) {
        return Err(refuse::<A>("stops", stops, ", expected a finite number of EV"));
    }
    Ok(())
}

/// The factor of an exposure: two to the power of the stops.
pub open spec fn gain_of<A: Arithmetic>(stops: u32) -> u32 {
    power_of::<A>(single::TWO, stops)
}

/// A raster with every sample multiplied by the factor of an exposure.
pub open spec fn exposed<A: Arithmetic>(r: Raster<u32>, stops: u32) -> Raster<u32> {
    tabulate(
        r.shape,
        |y: int, x: int, k: int| times_of::<A>(r.at(y, x, k), gain_of::<A>(stops)),
    )
}

/// Applies exposure compensation of `stops` EV. Nothing is clipped.
pub fn exposure<A: Arithmetic>(img: &Image, stops: u32) -> (r: Result<Image, PhaiosError>)
    requires
        faithful::<A>(),
    ensures
        match r {
            Ok(out) => exposure_fault::<A>(stops) is None && permitted::<u32>(img@.shape) && out@
                == exposed::<A>(img@, stops),
            Err(e) => match exposure_fault::<A>(stops) {
                Some(fault) => e@ == fault,
                None => refusal::<u32>(img@.shape, e@),
            },
        },
{
    if let Err(e) = validate::<A>(stops) {
        return Err(e);
    }
    let gain: u32 = power::<A>(single::TWO, stops);
    let make = |y: usize, x: usize, k: usize| -> (s: u32)
        requires
            faithful::<A>(),
            inside(img@.shape, y as int, x as int, k as int),
        ensures
            s == times_of::<A>(img@.at(y as int, x as int, k as int), gain),
        { times::<A>(img.cell(y, x, k), gain) };
    let r = image(img.dim(), make);
    if let Ok(out) = &r {
        proof {
            is_tabulated(
                out@,
                |y: int, x: int, k: int| times_of::<A>(img@.at(y, x, k), gain_of::<A>(stops)),
            );
        }
    }
    r
}

/// No stops leave every number as it is.
pub proof fn zero_stops_is_the_identity<A: Arithmetic>(
    r: Raster<u32>,
    stops: u32,
    y: int,
    x: int,
    k: int,
)
    requires
        rounds::<A>(),
        single::same(stops, 0),
        inside(r.shape, y, x, k),
        !single::is_nan(r.at(y, x, k)),
    ensures
        exposed::<A>(r, stops).shape == r.shape,
        single::same(exposed::<A>(r, stops).at(y, x, k), r.at(y, x, k)),
{
    small_numbers();
    half_is_positive();
    let v = r.at(y, x, k);
    assert(gain_of::<A>(stops) == single::ONE) by {
        reveal(rounds);
    }
    if single::is_finite(v) {
        times_one::<A>(v);
        values_are_ordered(times_of::<A>(v, single::ONE), v);
    } else {
        times_infinity::<A>(single::ONE, v);
        times_sign::<A>(v, single::ONE);
    }
    tabulated(
        r.shape,
        |y: int, x: int, k: int| times_of::<A>(r.at(y, x, k), gain_of::<A>(stops)),
    );
}

/// A factor of two doubles every sample exactly, and nothing is clipped: what cannot
/// be doubled becomes infinite.
pub proof fn a_factor_of_two_doubles<A: Arithmetic>(
    r: Raster<u32>,
    stops: u32,
    y: int,
    x: int,
    k: int,
)
    requires
        rounds::<A>(),
        gain_of::<A>(stops) == single::TWO,
        inside(r.shape, y, x, k),
        single::is_finite(r.at(y, x, k)),
    ensures
        ({
            let out = exposed::<A>(r, stops).at(y, x, k);
            let v = r.at(y, x, k);
            if apart(2 * value(v), 0) <= value(LARGEST) {
                single::is_finite(out) && value(out) == 2 * value(v)
            } else {
                single::is_infinite(out) && single::less(0, out) == single::less(0, v)
            }
        }),
{
    small_numbers();
    half_is_positive();
    let v = r.at(y, x, k);
    let out = times_of::<A>(v, single::TWO);
    tabulated(
        r.shape,
        |y: int, x: int, k: int| times_of::<A>(r.at(y, x, k), gain_of::<A>(stops)),
    );
    assert(value(v) * value(single::TWO) == (2 * value(v)) * (2 * half())) by (nonlinear_arith)
        requires
            value(single::TWO) == 4 * half(),
    ;
    if apart(2 * value(v), 0) <= value(LARGEST) {
        let c = double_of(v);
        times_exact::<A>(v, single::TWO, c);
    } else {
        times_rounds::<A>(v, single::TWO);
        doubling_overflows(v);
        let (n, d, l) = (2 * value(v), 2 * half(), limit());
        assert(apart(n * d, 0) >= l * d) by (nonlinear_arith)
            requires
                apart(n, 0) >= l,
                d > 0,
        ;
        assert((n * d > 0) == (n > 0)) by (nonlinear_arith)
            requires
                d > 0,
        ;
        values_are_ordered(0, v);
    }
}

} // verus!
