//! Highlight roll-off: the choice between clipping and a shoulder.
//!
//! Between the knee and the white point the transfer is a quadratic curve that
//! leaves the identity at slope one and arrives at white at slope zero.

use vstd::prelude::*;

use crate::allocation::{image, permitted, refusal};
use crate::arith::{
    faithful, minus, minus_of, over, over_of, plus, plus_of, root, root_of, text, text_of, times,
    times_of, Arithmetic,
};
use crate::error::{PhaiosError, Report};
use crate::raster::{inside, is_tabulated, tabulate, Image, Raster};
use crate::remark::{refuse, unexpected};
use crate::rounding::{
    computes_closely, difference_is_positive, half, half_is_positive, minus_itself,
    minus_of_infinity, minus_ordered, minus_rounds, minus_spreads_nan, negated_value, over_ordered,
    plus_ordered, positive_is_unsigned, roots_ordered, rounded_at_least, rounded_at_most,
    rounded_between, rounds, signed, small_numbers, times_ordered, times_ordered_first,
    times_rounds, times_sign, unit_difference, value, values_are_ordered,
};
use crate::single;

verus! {

/// Parameters for [`highlight_rolloff`].
#[derive(Clone, Copy, Debug)]
pub struct RolloffParams {
    /// Where compression begins, in `0..=1`, a single-precision bit pattern.
    pub knee: u32,
    /// The scene value that becomes white, at least 1.
    pub white_point: u32,
}

impl Default for RolloffParams {
    fn default() -> (r: Self)
        ensures
            r == (RolloffParams { knee: single::ONE, white_point: single::ONE }),
    {
        RolloffParams { knee: single::ONE, white_point: single::ONE }
    }
}

impl RolloffParams {
    /// Parameters from knee and white point.
    pub fn new(knee: u32, white_point: u32) -> (r: Self)
        ensures
            r == (RolloffParams { knee, white_point }),
    {
        RolloffParams { knee, white_point }
    }

    /// Whether both fields match by their bits.
    pub fn __eq__(&self, other: &Self) -> (r: bool)
        ensures
            r == (*self == *other),
    {
        self.knee == other.knee && self.white_point == other.white_point
    }

    /// A debug representation.
    pub fn __repr__<A: Arithmetic>(&self) -> (r: String)
        requires
            faithful::<A>(),
        ensures
            r@ == "RolloffParams(knee="@ + text_of::<A>(self.knee) + ", white_point="@ + text_of::<A>(
                self.white_point,
            ) + ")"@,
    {
        let mut out = String::from_str("RolloffParams(knee=");
        out.append(text::<A>(self.knee).as_str());
        out.append(", white_point=");
        out.append(text::<A>(self.white_point).as_str());
        out.append(")");
        out
    }
}

/// What is wrong with the parameters, if anything.
pub open spec fn rolloff_fault<A: Arithmetic>(params: RolloffParams) -> Option<Report> {
    if !single::is_unit(params.knee) {
        Some(unexpected::<A>("knee"@, params.knee, ", expected a value in 0..=1"@))
    } else if !single::is_finite(params.white_point) || single::less(
        params.white_point,
        single::ONE,
    ) {
        Some(
            unexpected::<A>(
                "white_point"@,
                params.white_point,
                ", expected a finite value >= 1.0"@,
            ),
        )
    } else {
        None
    }
}

/// Holds the parameters to their domain.
pub fn validate<A: Arithmetic>(params: &RolloffParams) -> (r: Result<(), PhaiosError>)
    requires
        faithful::<A>(),
    ensures
        match r {
            Ok(()) => rolloff_fault::<A>(*params) is None,
            Err(e) => rolloff_fault::<A>(*params) == Some(e@),
        },
{
    if !single::is_unit(params.knee) {
        return Err(refuse::<A>("knee", params.knee, ", expected a value in 0..=1"));
    }
    if !single::is_finite(params.white_point) || single::less(params.white_point, single::ONE) {
        return Err(
            refuse::<A>("white_point", params.white_point, ", expected a finite value >= 1.0"),
        );
    }
    Ok(())
}

/// The curve's parameter where the curve reaches `x`, from the quadratic
/// `a t^2 + b t + c = 0` in closed form.
pub open spec fn curve_parameter<A: Arithmetic>(x: u32, knee: u32, white: u32) -> u32 {
    let a = minus_of::<A>(plus_of::<A>(white, knee), single::TWO);
    let b = times_of::<A>(single::TWO, minus_of::<A>(single::ONE, knee));
    let c = minus_of::<A>(knee, x);
    if single::same(a, 0) {
        over_of::<A>(single::negated(c), b)
    } else {
        let disc = minus_of::<A>(times_of::<A>(b, b), times_of::<A>(times_of::<A>(single::FOUR, a), c));
        over_of::<A>(
            plus_of::<A>(single::negated(b), root_of::<A>(single::larger(disc, 0))),
            times_of::<A>(single::TWO, a),
        )
    }
}

/// A sample rolled off: untouched up to the knee, white from the white point on,
/// `1 - (1 - knee)(1 - t)^2` between them.
pub open spec fn rolled<A: Arithmetic>(x: u32, knee: u32, white: u32) -> u32 {
    if !single::less(knee, x) {
        x
    } else if single::at_most(white, x) {
        single::ONE
    } else {
        let rest = minus_of::<A>(single::ONE, curve_parameter::<A>(x, knee, white));
        minus_of::<A>(
            single::ONE,
            times_of::<A>(times_of::<A>(minus_of::<A>(single::ONE, knee), rest), rest),
        )
    }
}

/// Rolls off one sample.
pub fn rolloff_sample<A: Arithmetic>(x: u32, knee: u32, white: u32) -> (r: u32)
    requires
        faithful::<A>(),
    ensures
        r == rolled::<A>(x, knee, white),
{
    if !single::less(knee, x) {
        return x;
    }
    if single::at_most(white, x) {
        return single::ONE;
    }
    let a: u32 = minus::<A>(plus::<A>(white, knee), single::TWO);
    let b: u32 = times::<A>(single::TWO, minus::<A>(single::ONE, knee));
    let c: u32 = minus::<A>(knee, x);
    let t: u32 = if single::same(a, 0) {
        over::<A>(single::negated(c), b)
    } else {
        let disc: u32 = minus::<A>(times::<A>(b, b), times::<A>(times::<A>(single::FOUR, a), c));
        over::<A>(
            plus::<A>(single::negated(b), root::<A>(single::larger(disc, 0))),
            times::<A>(single::TWO, a),
        )
    };
    let rest: u32 = minus::<A>(single::ONE, t);
    minus::<A>(
        single::ONE,
        times::<A>(times::<A>(minus::<A>(single::ONE, knee), rest), rest),
    )
}

/// Samples at or below the knee, and what is not a number, pass untouched.
pub proof fn below_the_knee_is_untouched<A: Arithmetic>(x: u32, knee: u32, white: u32)
    requires
        single::at_most(x, knee) || single::is_nan(x),
    ensures
        rolled::<A>(x, knee, white) == x,
{
}

/// The default parameters clip at one and change nothing else.
pub proof fn default_is_a_hard_clip<A: Arithmetic>(x: u32)
    ensures
        rolled::<A>(x, single::ONE, single::ONE) == (if single::less(single::ONE, x) {
            single::ONE
        } else {
            x
        }),
{
}

/// A raster rolled off sample by sample.
pub open spec fn rolled_raster<A: Arithmetic>(r: Raster<u32>, params: RolloffParams) -> Raster<
    u32,
> {
    tabulate(
        r.shape,
        |y: int, x: int, k: int|
            rolled::<A>(r.at(y, x, k), params.knee, params.white_point),
    )
}

/// Maps highlights into the displayable range.
pub fn highlight_rolloff<A: Arithmetic>(img: &Image, params: &RolloffParams) -> (r: Result<
    Image,
    PhaiosError,
>)
    requires
        faithful::<A>(),
    ensures
        match r {
            Ok(out) => rolloff_fault::<A>(*params) is None && permitted::<u32>(img@.shape) && out@
                == rolled_raster::<A>(img@, *params),
            Err(e) => match rolloff_fault::<A>(*params) {
                Some(fault) => e@ == fault,
                None => refusal::<u32>(img@.shape, e@),
            },
        },
{
    if let Err(e) = validate::<A>(params) {
        return Err(e);
    }
    let (knee, white): (u32, u32) = (params.knee, params.white_point);
    let make = |y: usize, x: usize, k: usize| -> (s: u32)
        requires
            faithful::<A>(),
            inside(img@.shape, y as int, x as int, k as int),
        ensures
            s == rolled::<A>(img@.at(y as int, x as int, k as int), knee, white),
        { rolloff_sample::<A>(img.cell(y, x, k), knee, white) };
    let r = image(img.dim(), make);
    if let Ok(out) = &r {
        proof {
            is_tabulated(
                out@,
                |y: int, x: int, k: int|
                    rolled::<A>(img@.at(y, x, k), params.knee, params.white_point),
            );
        }
    }
    r
}

/// What is not a number passes through.
pub proof fn not_a_number_passes<A: Arithmetic>(x: u32, knee: u32, white: u32)
    requires
        single::is_nan(x),
    ensures
        rolled::<A>(x, knee, white) == x,
{
}

/// From the white point on everything is white.
pub proof fn the_white_point_is_white<A: Arithmetic>(x: u32, params: RolloffParams)
    requires
        rolloff_fault::<A>(params) is None,
        single::at_most(params.white_point, x),
    ensures
        rolled::<A>(x, params.knee, params.white_point) == single::ONE,
{
}

/// Nothing comes out above white.
pub proof fn never_exceeds_one<A: Arithmetic>(x: u32, params: RolloffParams)
    requires
        rounds::<A>(),
        rolloff_fault::<A>(params) is None,
    ensures
        !single::less(single::ONE, rolled::<A>(x, params.knee, params.white_point)),
{
    let (knee, white) = (params.knee, params.white_point);
    if single::less(knee, x) && !single::at_most(white, x) {
        let headroom = minus_of::<A>(single::ONE, knee);
        let rest = minus_of::<A>(single::ONE, curve_parameter::<A>(x, knee, white));
        let scaled = times_of::<A>(headroom, rest);
        let drop = times_of::<A>(scaled, rest);
        // The headroom carries no sign, so a square scaled by it carries none.
        unit_difference::<A>(single::ONE, knee);
        if single::less(knee, single::ONE) {
            difference_is_positive::<A>(single::ONE, knee);
            positive_is_unsigned(headroom);
        } else {
            minus_itself::<A>(knee);
        }
        times_sign::<A>(headroom, rest);
        times_sign::<A>(scaled, rest);
        if single::is_nan(drop) {
            minus_spreads_nan::<A>(single::ONE, drop);
        } else if single::is_infinite(drop) {
            minus_of_infinity::<A>(single::ONE, drop);
        } else {
            assert(!signed(drop));
            small_numbers();
            values_are_ordered(0, drop);
            minus_rounds::<A>(single::ONE, drop);
            rounded_at_most(
                minus_of::<A>(single::ONE, drop),
                value(single::ONE) - value(drop),
                1,
                single::ONE,
            );
        }
    }
}

/// The quadratic's discriminant at `x`.
pub open spec fn discriminant<A: Arithmetic>(x: u32, knee: u32, white: u32) -> u32 {
    let a = minus_of::<A>(plus_of::<A>(white, knee), single::TWO);
    let b = times_of::<A>(single::TWO, minus_of::<A>(single::ONE, knee));
    let c = minus_of::<A>(knee, x);
    minus_of::<A>(times_of::<A>(b, b), times_of::<A>(times_of::<A>(single::FOUR, a), c))
}

/// Whether the curve's parameter at `x` comes out between minus one and one with no
/// overflow on the way, and from a curve.
pub open spec fn is_on_curve<A: Arithmetic>(x: u32, knee: u32, white: u32) -> bool {
    let a = minus_of::<A>(plus_of::<A>(white, knee), single::TWO);
    let b = times_of::<A>(single::TWO, minus_of::<A>(single::ONE, knee));
    let c = minus_of::<A>(knee, x);
    let t = curve_parameter::<A>(x, knee, white);
    &&& single::at_most(single::negated(single::ONE), t)
    &&& single::at_most(t, single::ONE)
    &&& single::is_finite(a)
    &&& if single::same(a, 0) {
        single::less(0, b)
    } else {
        let root = root_of::<A>(single::larger(discriminant::<A>(x, knee, white), 0));
        &&& single::is_finite(times_of::<A>(single::FOUR, a))
        &&& single::is_finite(times_of::<A>(single::TWO, a))
        &&& single::is_finite(times_of::<A>(times_of::<A>(single::FOUR, a), c))
        &&& single::is_finite(discriminant::<A>(x, knee, white))
        &&& single::is_finite(root)
        &&& single::is_finite(plus_of::<A>(single::negated(b), root))
    }
}

/// The curve's parameter keeps samples in order.
proof fn parameters_are_ordered<A: Arithmetic>(x: u32, y: u32, params: RolloffParams)
    requires
        rounds::<A>(),
        computes_closely::<A>(),
        rolloff_fault::<A>(params) is None,
        single::is_finite(x),
        single::is_finite(y),
        single::at_most(x, y),
        single::less(params.knee, x),
        single::less(y, params.white_point),
        is_on_curve::<A>(x, params.knee, params.white_point),
        is_on_curve::<A>(y, params.knee, params.white_point),
    ensures
        single::at_most(
            curve_parameter::<A>(x, params.knee, params.white_point),
            curve_parameter::<A>(y, params.knee, params.white_point),
        ),
{
    let (knee, white) = (params.knee, params.white_point);
    let a = minus_of::<A>(plus_of::<A>(white, knee), single::TWO);
    let b = times_of::<A>(single::TWO, minus_of::<A>(single::ONE, knee));
    let (cx, cy) = (minus_of::<A>(knee, x), minus_of::<A>(knee, y));
    let (tx, ty) = (curve_parameter::<A>(x, knee, white), curve_parameter::<A>(y, knee, white));
    small_numbers();
    half_is_positive();
    negated_value(single::ONE);
    values_are_ordered(x, y);
    values_are_ordered(knee, x);
    values_are_ordered(knee, y);
    values_are_ordered(y, white);
    values_are_ordered(0, knee);
    values_are_ordered(0, white);
    unit_is_finite::<A>(knee);
    // Distances from the knee.
    minus_rounds::<A>(knee, x);
    minus_rounds::<A>(knee, y);
    negated_value(white);
    rounded_between(cx, value(knee) - value(x), 1, single::negated(white), 0);
    rounded_between(cy, value(knee) - value(y), 1, single::negated(white), 0);
    minus_ordered::<A>(knee, x, y);
    if single::same(a, 0) {
        negated_value(cx);
        negated_value(cy);
        values_are_ordered(0, b);
        over_ordered::<A>(single::negated(cx), single::negated(cy), b);
    } else {
        let four = times_of::<A>(single::FOUR, a);
        let two = times_of::<A>(single::TWO, a);
        let (px, py) = (times_of::<A>(four, cx), times_of::<A>(four, cy));
        let bb = times_of::<A>(b, b);
        let (dx, dy) = (discriminant::<A>(x, knee, white), discriminant::<A>(y, knee, white));
        let (lx, ly) = (single::larger(dx, 0), single::larger(dy, 0));
        let (rx, ry) = (root_of::<A>(lx), root_of::<A>(ly));
        let nb = single::negated(b);
        negated_value(b);
        values_are_ordered(a, 0);
        values_are_ordered(0, a);
        values_are_ordered(dx, 0);
        values_are_ordered(0, dx);
        values_are_ordered(dy, 0);
        values_are_ordered(0, dy);
        signs_are_kept::<A>(a);
        times_ordered::<A>(four, cy, cx);
        if value(a) > 0 {
            minus_ordered::<A>(bb, py, px);
            roots_ordered::<A>(lx, ly);
            plus_ordered::<A>(nb, rx, ry);
            over_ordered::<A>(plus_of::<A>(nb, rx), plus_of::<A>(nb, ry), two);
        } else {
            minus_ordered::<A>(bb, px, py);
            roots_ordered::<A>(ly, lx);
            plus_ordered::<A>(nb, ry, rx);
            over_ordered::<A>(plus_of::<A>(nb, ry), plus_of::<A>(nb, rx), two);
        }
    }
    values_are_ordered(tx, ty);
}

/// The slope's base, and its double, are small.
proof fn unit_is_finite<A: Arithmetic>(knee: u32)
    requires
        rounds::<A>(),
        single::is_unit(knee),
    ensures
        ({
            let h = minus_of::<A>(single::ONE, knee);
            let b = times_of::<A>(single::TWO, h);
            &&& single::is_finite(h)
            &&& 0 <= value(h) <= value(single::ONE)
            &&& single::is_finite(b)
            &&& single::is_finite(times_of::<A>(b, b))
        }),
{
    small_numbers();
    half_is_positive();
    values_are_ordered(0, knee);
    values_are_ordered(knee, single::ONE);
    let h = minus_of::<A>(single::ONE, knee);
    let b = times_of::<A>(single::TWO, h);
    let o = 2 * half();
    minus_rounds::<A>(single::ONE, knee);
    rounded_between(h, value(single::ONE) - value(knee), 1, 0, single::ONE);
    times_rounds::<A>(single::TWO, h);
    let v = value(h);
    assert(0 * o <= (2 * o) * v <= (2 * o) * o) by (nonlinear_arith)
        requires
            0 <= v <= o,
    ;
    rounded_between(b, value(single::TWO) * v, o, 0, single::TWO);
    times_rounds::<A>(b, b);
    let w = value(b);
    assert(0 * o <= w * w <= (4 * o) * o) by (nonlinear_arith)
        requires
            0 <= w <= 2 * o,
    ;
    rounded_between(times_of::<A>(b, b), w * w, o, 0, single::FOUR);
}

/// Multiples of a number have its sign.
proof fn signs_are_kept<A: Arithmetic>(a: u32)
    requires
        rounds::<A>(),
        single::is_finite(a),
        value(a) != 0,
        single::is_finite(times_of::<A>(single::FOUR, a)),
        single::is_finite(times_of::<A>(single::TWO, a)),
    ensures
        value(a) > 0 ==> value(times_of::<A>(single::FOUR, a)) >= 0 && value(
            times_of::<A>(single::TWO, a),
        ) > 0,
        value(a) < 0 ==> value(times_of::<A>(single::FOUR, a)) <= 0 && value(
            times_of::<A>(single::TWO, a),
        ) < 0,
{
    small_numbers();
    half_is_positive();
    let (o, v) = (2 * half(), value(a));
    let (four, two) = (times_of::<A>(single::FOUR, a), times_of::<A>(single::TWO, a));
    times_rounds::<A>(single::FOUR, a);
    times_rounds::<A>(single::TWO, a);
    values_are_ordered(a, two);
    values_are_ordered(two, a);
    values_are_ordered(a, four);
    values_are_ordered(four, a);
    if v > 0 {
        assert(v * o <= (2 * o) * v && v * o <= (4 * o) * v) by (nonlinear_arith)
            requires
                v > 0,
                o > 0,
        ;
        rounded_at_least(two, value(single::TWO) * v, o, a);
        rounded_at_least(four, value(single::FOUR) * v, o, a);
    } else {
        assert((2 * o) * v <= v * o && (4 * o) * v <= v * o) by (nonlinear_arith)
            requires
                v < 0,
                o > 0,
        ;
        rounded_at_most(two, value(single::TWO) * v, o, a);
        rounded_at_most(four, value(single::FOUR) * v, o, a);
    }
}

/// The shoulder keeps samples between the knee and the white point in order, as long as
/// the curve's parameter comes out at one at the most and nothing overflows.
pub proof fn shoulder_keeps_order<A: Arithmetic>(x: u32, y: u32, params: RolloffParams)
    requires
        rounds::<A>(),
        computes_closely::<A>(),
        rolloff_fault::<A>(params) is None,
        single::at_most(x, y),
        single::less(params.knee, x),
        single::less(y, params.white_point),
        is_on_curve::<A>(x, params.knee, params.white_point),
        is_on_curve::<A>(y, params.knee, params.white_point),
    ensures
        single::at_most(
            rolled::<A>(x, params.knee, params.white_point),
            rolled::<A>(y, params.knee, params.white_point),
        ),
{
    let (knee, white) = (params.knee, params.white_point);
    let (tx, ty) = (curve_parameter::<A>(x, knee, white), curve_parameter::<A>(y, knee, white));
    let o = 2 * half();
    small_numbers();
    half_is_positive();
    assert(single::is_finite(x) && single::is_finite(y));
    assert(!single::at_most(white, x) && single::less(knee, y));
    parameters_are_ordered::<A>(x, y, params);
    unit_is_finite::<A>(knee);
    let h = minus_of::<A>(single::ONE, knee);
    negated_value(single::ONE);
    assert(single::is_finite(tx) && single::is_finite(ty));
    values_are_ordered(tx, ty);
    values_are_ordered(single::negated(single::ONE), tx);
    values_are_ordered(single::negated(single::ONE), ty);
    values_are_ordered(tx, single::ONE);
    values_are_ordered(ty, single::ONE);
    rest_is_small::<A>(h, tx);
    rest_is_small::<A>(h, ty);
    let (ex, ey) = (minus_of::<A>(single::ONE, tx), minus_of::<A>(single::ONE, ty));
    minus_ordered::<A>(single::ONE, tx, ty);
    let (sx, sy) = (times_of::<A>(h, ex), times_of::<A>(h, ey));
    times_ordered::<A>(h, ey, ex);
    drop_is_small::<A>(sx, ex);
    drop_is_small::<A>(sy, ey);
    drop_is_small::<A>(sx, ey);
    let (qx, qy, qm) = (times_of::<A>(sx, ex), times_of::<A>(sy, ey), times_of::<A>(sx, ey));
    times_ordered::<A>(sx, ey, ex);
    times_ordered_first::<A>(sy, sx, ey);
    minus_rounds::<A>(single::ONE, qx);
    minus_rounds::<A>(single::ONE, qy);
    negated_value(single::FOUR);
    rounded_between(
        minus_of::<A>(single::ONE, qx),
        value(single::ONE) - value(qx),
        1,
        single::negated(single::FOUR),
        single::ONE,
    );
    rounded_between(
        minus_of::<A>(single::ONE, qy),
        value(single::ONE) - value(qy),
        1,
        single::negated(single::FOUR),
        single::ONE,
    );
    minus_ordered::<A>(single::ONE, qy, qx);
    values_are_ordered(minus_of::<A>(single::ONE, qx), minus_of::<A>(single::ONE, qy));
}

/// What is left of one, and scaled by the headroom.
proof fn rest_is_small<A: Arithmetic>(h: u32, t: u32)
    requires
        rounds::<A>(),
        single::is_finite(h),
        0 <= value(h) <= 2 * half(),
        single::is_finite(t),
        -(2 * half()) <= value(t) <= 2 * half(),
    ensures
        ({
            let e = minus_of::<A>(single::ONE, t);
            &&& single::is_finite(e)
            &&& 0 <= value(e) <= 4 * half()
            &&& single::is_finite(times_of::<A>(h, e))
            &&& 0 <= value(times_of::<A>(h, e)) <= 4 * half()
        }),
{
    small_numbers();
    half_is_positive();
    let o = 2 * half();
    let e = minus_of::<A>(single::ONE, t);
    minus_rounds::<A>(single::ONE, t);
    rounded_between(e, value(single::ONE) - value(t), 1, 0, single::TWO);
    times_rounds::<A>(h, e);
    let (v, w) = (value(h), value(e));
    assert(0 * o <= v * w <= (2 * o) * o) by (nonlinear_arith)
        requires
            0 <= v <= o,
            0 <= w <= 2 * o,
    ;
    rounded_between(times_of::<A>(h, e), v * w, o, 0, single::TWO);
}

/// What is taken off one.
proof fn drop_is_small<A: Arithmetic>(s: u32, e: u32)
    requires
        rounds::<A>(),
        single::is_finite(s),
        single::is_finite(e),
        0 <= value(s) <= 4 * half(),
        0 <= value(e) <= 4 * half(),
    ensures
        single::is_finite(times_of::<A>(s, e)),
        0 <= value(times_of::<A>(s, e)) <= 8 * half(),
{
    small_numbers();
    half_is_positive();
    let o = 2 * half();
    times_rounds::<A>(s, e);
    let (v, w) = (value(s), value(e));
    assert(0 * o <= v * w <= (4 * o) * o) by (nonlinear_arith)
        requires
            0 <= v <= 2 * o,
            0 <= w <= 2 * o,
    ;
    rounded_between(times_of::<A>(s, e), v * w, o, 0, single::FOUR);
}

} // verus!
