//! Shadow roll-off: the toe below a knee.

use vstd::arithmetic::power2::{lemma2_to64, lemma_pow2_adds, lemma_pow2_strictly_increases, pow2};
use vstd::prelude::*;

use crate::allocation::{image, permitted, refusal};
use crate::arith::{
    faithful, minus, minus_of, over, over_of, plus, plus_of, text, text_of, times, times_of,
    Arithmetic,
};
use crate::error::{PhaiosError, Report};
use crate::raster::{inside, is_tabulated, same_cells, tabulate, tabulated, Image, Raster};
use crate::remark::{refuse, unexpected};
use crate::rounding::{
    apart, ceiling, grain, grains, half, half_is_positive, minus_near, minus_rounds, over_rounds,
    plus_close, rounded_at_least, rounded_at_most, rounded_between, rounded_close,
    rounded_is_a_number, rounded_keeps_order, rounds, small_numbers, times_close, times_fine,
    times_rounds, times_zero, unit_difference, value, values_are_ordered,
};
use crate::single;

verus! {

/// The pattern of 0.2.
pub const DEFAULT_KNEE: u32 = 0x3E4C_CCCD;

/// Parameters for [`shadow_rolloff`].
#[derive(Clone, Copy, Debug)]
pub struct ShadowRolloffParams {
    /// The value below which the toe begins, in `0..=1`, a single-precision bit
    /// pattern.
    pub knee: u32,
    /// How far the slope falls at black, in `0..=1`.
    pub strength: u32,
}

impl Default for ShadowRolloffParams {
    fn default() -> (r: Self)
        ensures
            r == (ShadowRolloffParams { knee: DEFAULT_KNEE, strength: 0 }),
    {
        ShadowRolloffParams { knee: DEFAULT_KNEE, strength: 0 }
    }
}

impl ShadowRolloffParams {
    /// Parameters from knee and strength.
    pub fn new(knee: u32, strength: u32) -> (r: Self)
        ensures
            r == (ShadowRolloffParams { knee, strength }),
    {
        ShadowRolloffParams { knee, strength }
    }

    /// Whether both fields match by their bits.
    pub fn __eq__(&self, other: &Self) -> (r: bool)
        ensures
            r == (*self == *other),
    {
        self.knee == other.knee && self.strength == other.strength
    }

    /// A debug representation.
    pub fn __repr__<A: Arithmetic>(&self) -> (r: String)
        requires
            faithful::<A>(),
        ensures
            r@ == "ShadowRolloffParams(knee="@ + text_of::<A>(self.knee) + ", strength="@
                + text_of::<A>(self.strength) + ")"@,
    {
        let mut out = String::from_str("ShadowRolloffParams(knee=");
        out.append(text::<A>(self.knee).as_str());
        out.append(", strength=");
        out.append(text::<A>(self.strength).as_str());
        out.append(")");
        out
    }
}

/// What is wrong with the parameters, if anything.
pub open spec fn toe_fault<A: Arithmetic>(params: ShadowRolloffParams) -> Option<Report> {
    if !single::is_unit(params.knee) {
        Some(unexpected::<A>("knee"@, params.knee, ", expected a value in 0..=1"@))
    } else if !single::is_unit(params.strength) {
        Some(unexpected::<A>("strength"@, params.strength, ", expected a value in 0..=1"@))
    } else {
        None
    }
}

/// Holds the parameters to their domain.
pub fn validate<A: Arithmetic>(params: &ShadowRolloffParams) -> (r: Result<(), PhaiosError>)
    requires
        faithful::<A>(),
    ensures
        match r {
            Ok(()) => toe_fault::<A>(*params) is None,
            Err(e) => toe_fault::<A>(*params) == Some(e@),
        },
{
    if !single::is_unit(params.knee) {
        return Err(refuse::<A>("knee", params.knee, ", expected a value in 0..=1"));
    }
    if !single::is_unit(params.strength) {
        return Err(refuse::<A>("strength", params.strength, ", expected a value in 0..=1"));
    }
    Ok(())
}

/// A sample under the toe: untouched from the knee on, a cubic below it, and the
/// slope at black carried on below zero.
pub open spec fn toed<A: Arithmetic>(x: u32, knee: u32, strength: u32) -> u32 {
    let s = minus_of::<A>(single::ONE, strength);
    if !single::less(0, strength) || !single::less(0, knee) || !single::less(x, knee) {
        x
    } else if single::at_most(x, 0) {
        if single::is_infinite(x) {
            x
        } else {
            times_of::<A>(s, x)
        }
    } else {
        let u = over_of::<A>(x, knee);
        let cubic = plus_of::<A>(
            times_of::<A>(single::TWO, minus_of::<A>(single::ONE, s)),
            times_of::<A>(u, minus_of::<A>(s, single::ONE)),
        );
        times_of::<A>(knee, times_of::<A>(u, plus_of::<A>(s, times_of::<A>(u, cubic))))
    }
}

/// Puts one sample under the toe.
pub fn shadow_sample<A: Arithmetic>(x: u32, knee: u32, strength: u32) -> (r: u32)
    requires
        faithful::<A>(),
    ensures
        r == toed::<A>(x, knee, strength),
{
    if !single::less(0, strength) || !single::less(0, knee) || !single::less(x, knee) {
        return x;
    }
    let s: u32 = minus::<A>(single::ONE, strength);
    if single::at_most(x, 0) {
        if single::is_infinite(x) {
            return x;
        }
        return times::<A>(s, x);
    }
    let u: u32 = over::<A>(x, knee);
    let cubic: u32 = plus::<A>(
        times::<A>(single::TWO, minus::<A>(single::ONE, s)),
        times::<A>(u, minus::<A>(s, single::ONE)),
    );
    times::<A>(knee, times::<A>(u, plus::<A>(s, times::<A>(u, cubic))))
}

/// A raster under the toe, sample by sample.
pub open spec fn toed_raster<A: Arithmetic>(r: Raster<u32>, params: ShadowRolloffParams) -> Raster<
    u32,
> {
    tabulate(
        r.shape,
        |y: int, x: int, k: int| toed::<A>(r.at(y, x, k), params.knee, params.strength),
    )
}

/// Without strength, or without a knee, nothing changes.
pub proof fn no_toe_is_the_identity<A: Arithmetic>(r: Raster<u32>, params: ShadowRolloffParams)
    requires
        r.valid(),
        single::same(params.strength, 0) || single::same(params.knee, 0),
    ensures
        toed_raster::<A>(r, params) == r,
{
    tabulated(
        r.shape,
        |y: int, x: int, k: int| toed::<A>(r.at(y, x, k), params.knee, params.strength),
    );
    same_cells(toed_raster::<A>(r, params), r);
}

/// Samples at or above the knee, and what is not a number, pass untouched.
pub proof fn above_the_knee_is_untouched<A: Arithmetic>(x: u32, knee: u32, strength: u32)
    requires
        single::at_most(knee, x) || single::is_nan(x),
    ensures
        toed::<A>(x, knee, strength) == x,
{
}

/// Lowers the contrast of the deepest shadows.
pub fn shadow_rolloff<A: Arithmetic>(img: &Image, params: &ShadowRolloffParams) -> (r: Result<
    Image,
    PhaiosError,
>)
    requires
        faithful::<A>(),
    ensures
        match r {
            Ok(out) => toe_fault::<A>(*params) is None && permitted::<u32>(img@.shape) && out@
                == toed_raster::<A>(img@, *params),
            Err(e) => match toe_fault::<A>(*params) {
                Some(fault) => e@ == fault,
                None => refusal::<u32>(img@.shape, e@),
            },
        },
{
    if let Err(e) = validate::<A>(params) {
        return Err(e);
    }
    let (knee, strength): (u32, u32) = (params.knee, params.strength);
    let make = |y: usize, x: usize, k: usize| -> (s: u32)
        requires
            faithful::<A>(),
            inside(img@.shape, y as int, x as int, k as int),
        ensures
            s == toed::<A>(img@.at(y as int, x as int, k as int), knee, strength),
        { shadow_sample::<A>(img.cell(y, x, k), knee, strength) };
    let r = image(img.dim(), make);
    if let Ok(out) = &r {
        proof {
            is_tabulated(
                out@,
                |y: int, x: int, k: int|
                    toed::<A>(img@.at(y, x, k), params.knee, params.strength),
            );
        }
    }
    r
}

/// What is not finite passes through, under every toe.
pub proof fn non_finite_samples_pass<A: Arithmetic>(x: u32, knee: u32, strength: u32)
    requires
        !single::is_finite(x),
        single::is_finite(knee),
    ensures
        toed::<A>(x, knee, strength) == x,
{
}

/// A toe that reaches nowhere is the identity.
pub proof fn zero_knee_is_the_identity<A: Arithmetic>(x: u32, knee: u32, strength: u32)
    requires
        single::same(knee, 0),
    ensures
        toed::<A>(x, knee, strength) == x,
{
}

/// Black stays black under every toe.
pub proof fn black_stays_black<A: Arithmetic>(x: u32, params: ShadowRolloffParams)
    requires
        rounds::<A>(),
        toe_fault::<A>(params) is None,
        single::same(x, 0),
    ensures
        single::same(toed::<A>(x, params.knee, params.strength), 0),
{
    small_numbers();
    let s = minus_of::<A>(single::ONE, params.strength);
    unit_difference::<A>(single::ONE, params.strength);
    times_zero::<A>(s, x);
    values_are_ordered(times_of::<A>(s, x), 0);
}

/// Samples at or below black stay in order, and stay at or below black.
pub proof fn samples_below_black_stay_ordered<A: Arithmetic>(
    a: u32,
    b: u32,
    params: ShadowRolloffParams,
)
    requires
        rounds::<A>(),
        toe_fault::<A>(params) is None,
        single::is_finite(a),
        single::is_finite(b),
        single::at_most(a, b),
        single::at_most(b, 0),
    ensures
        single::at_most(
            toed::<A>(a, params.knee, params.strength),
            toed::<A>(b, params.knee, params.strength),
        ),
        single::at_most(toed::<A>(b, params.knee, params.strength), 0),
{
    if single::less(0, params.strength) && single::less(0, params.knee) {
        small_numbers();
        half_is_positive();
        let s = minus_of::<A>(single::ONE, params.strength);
        let d = 2 * half();
        unit_difference::<A>(single::ONE, params.strength);
        values_are_ordered(params.strength, single::ONE);
        minus_rounds::<A>(single::ONE, params.strength);
        rounded_at_least(s, value(single::ONE) - value(params.strength), 1, 0);
        values_are_ordered(0, s);
        values_are_ordered(a, b);
        values_are_ordered(b, 0);
        let (va, vb, vs) = (value(a), value(b), value(s));
        times_rounds::<A>(s, a);
        times_rounds::<A>(s, b);
        assert(vs * vb <= 0 * d) by (nonlinear_arith)
            requires
                vs >= 0,
                vb <= 0,
        ;
        rounded_at_most(times_of::<A>(s, b), vs * vb, d, 0);
        if va < vb && vs > 0 {
            assert(vs * va < vs * vb) by (nonlinear_arith)
                requires
                    va < vb,
                    vs > 0,
            ;
            rounded_keeps_order(times_of::<A>(s, a), vs * va, times_of::<A>(s, b), vs * vb, d);
        } else if vs == 0 {
            values_are_ordered(s, 0);
            times_zero::<A>(a, s);
            times_zero::<A>(b, s);
            values_are_ordered(times_of::<A>(s, a), times_of::<A>(s, b));
        } else if vb == 0 {
            values_are_ordered(a, 0);
            times_zero::<A>(s, a);
            times_zero::<A>(s, b);
            values_are_ordered(times_of::<A>(s, a), times_of::<A>(s, b));
        } else {
            assert(a == b);
            rounded_is_a_number(times_of::<A>(s, a), vs * va, d);
        }
    }
}

/// The cubic at `u` with the slope `s` at black, all of them times one: `s u + 2 (1 - s)
/// u^2 - (1 - s) u^3`, times the fourth power of one.
pub open spec fn cubic_at(s: int, u: int, o: int) -> int {
    (s * o) * (u * o) + (2 * ((o - s) * o)) * (u * u) - ((o - s) * u) * (u * u)
}

/// The cubic grows, and stays between zero and its argument.
pub proof fn cubic_grows(s: int, a: int, b: int, o: int)
    requires
        0 <= s <= o,
        0 <= a <= b <= o,
    ensures
        cubic_at(s, a, o) <= cubic_at(s, b, o),
        0 <= cubic_at(s, a, o) <= a * (o * (o * o)),
{
    let q = o - s;
    let (aa, bb, ab, oo) = (a * a, b * b, a * b, o * o);
    let d = b - a;
    // The difference is the distance of the arguments times what is not negative.
    let h = 2 * (o * (a + b)) - (aa + ab + bb);
    assert(h >= 0) by (nonlinear_arith)
        requires
            h == 2 * (o * (a + b)) - (a * a + a * b + b * b),
            0 <= a <= b <= o,
    ;
    assert((s * o) * (b * o) - (s * o) * (a * o) == d * (s * oo)) by (nonlinear_arith)
        requires
            d == b - a,
            oo == o * o,
    ;
    assert((2 * (q * o)) * bb - (2 * (q * o)) * aa == d * (q * (2 * (o * (a + b)))))
        by (nonlinear_arith)
        requires
            d == b - a,
            bb == b * b,
            aa == a * a,
    ;
    assert((q * b) * bb - (q * a) * aa == d * (q * (aa + ab + bb))) by (nonlinear_arith)
        requires
            d == b - a,
            bb == b * b,
            aa == a * a,
            ab == a * b,
    ;
    let e = 2 * (o * (a + b));
    assert(d * (q * e) - d * (q * (aa + ab + bb)) == d * (q * h)) by (nonlinear_arith)
        requires
            h == e - (aa + ab + bb),
    ;
    assert(d * (s * oo) >= 0 && d * (q * h) >= 0) by (nonlinear_arith)
        requires
            d >= 0,
            s >= 0,
            q >= 0,
            h >= 0,
            oo == o * o,
    ;
    // Between zero and the argument.
    let r = o - a;
    assert((s * o) * (a * o) == a * (o * oo) - (q * o) * (a * o)) by (nonlinear_arith)
        requires
            q == o - s,
            oo == o * o,
    ;
    assert((q * o) * (a * o) - (2 * (q * o)) * aa + (q * a) * aa == (q * a) * (r * r))
        by (nonlinear_arith)
        requires
            r == o - a,
            aa == a * a,
    ;
    assert((q * a) * (r * r) >= 0) by (nonlinear_arith)
        requires
            q >= 0,
            a >= 0,
    ;
    assert((s * o) * (a * o) >= 0 && (2 * (q * o)) * aa >= (q * a) * aa) by (nonlinear_arith)
        requires
            0 <= s,
            0 <= a <= o,
            q >= 0,
            aa == a * a,
    ;
}

/// Where a sample lies between black and the knee, in units of the knee.
spec fn share<A: Arithmetic>(x: u32, knee: u32) -> u32 {
    over_of::<A>(x, knee)
}

/// A share of the knee lies between zero and one.
proof fn share_is_unit<A: Arithmetic>(x: u32, knee: u32)
    requires
        rounds::<A>(),
        single::is_finite(x),
        single::is_finite(knee),
        0 <= value(x) <= value(knee),
        0 < value(knee),
    ensures
        single::is_finite(share::<A>(x, knee)),
        0 <= value(share::<A>(x, knee)) <= 2 * half(),
{
    small_numbers();
    grains();
    let (v, k, o) = (value(x), value(knee), 2 * half());
    over_rounds::<A>(x, knee);
    assert(0 * k <= v * o <= o * k) by (nonlinear_arith)
        requires
            0 <= v <= k,
            o > 0,
    ;
    rounded_between(over_of::<A>(x, knee), v * o, k, 0, single::ONE);
}

/// Between black and the knee the toe is the cubic, up to ten grains.
#[verifier::rlimit(40)]
proof fn toe_is_close<A: Arithmetic>(x: u32, params: ShadowRolloffParams)
    requires
        rounds::<A>(),
        toe_fault::<A>(params) is None,
        single::less(0, params.strength),
        single::less(0, x),
        single::less(x, params.knee),
    ensures
        ({
            let r = toed::<A>(x, params.knee, params.strength);
            let s = value(minus_of::<A>(single::ONE, params.strength));
            let u = value(share::<A>(x, params.knee));
            let o = 2 * half();
            let k = value(params.knee);
            &&& single::is_finite(r)
            &&& 0 <= s <= o
            &&& 0 <= u <= o
            &&& 0 < k <= o
            &&& apart(value(r) * ((o * o) * (o * o)), k * cubic_at(s, u, o)) <= (10 * grain()) * ((o
                * o) * (o * o))
        }),
{
    let (o, g) = (2 * half(), grain());
    grains();
    small_numbers();
    values_are_ordered(0, params.strength);
    values_are_ordered(params.strength, single::ONE);
    values_are_ordered(0, x);
    values_are_ordered(x, params.knee);
    values_are_ordered(params.knee, single::ONE);
    let sp = minus_of::<A>(single::ONE, params.strength);
    minus_rounds::<A>(single::ONE, params.strength);
    rounded_between(sp, value(single::ONE) - value(params.strength), 1, 0, single::ONE);
    share_is_unit::<A>(x, params.knee);
    let up = over_of::<A>(x, params.knee);
    let (s, u, k) = (value(sp), value(up), value(params.knee));
    let q = o - s;

    let p1 = minus_of::<A>(single::ONE, sp);
    minus_rounds::<A>(single::ONE, sp);
    rounded_between(p1, value(single::ONE) - s, 1, 0, single::ONE);
    minus_near::<A>(single::ONE, sp);
    let v1 = value(p1);
    assert((2 * o) * v1 <= (3 * o) * o && 0 <= (2 * o) * v1) by (nonlinear_arith)
        requires
            0 <= v1 <= o,
    ;
    times_close::<A>(single::TWO, p1);
    let p2 = times_of::<A>(single::TWO, p1);
    let v2 = value(p2);
    assert(apart(v2, 2 * v1) <= g) by (nonlinear_arith)
        requires
            apart(v2 * o, (2 * o) * v1) <= g * o,
            o > 0,
    ;
    minus_near::<A>(sp, single::ONE);
    let n1 = minus_of::<A>(sp, single::ONE);
    let vn = value(n1);
    assert(apart(u * vn, 0) <= (3 * o) * o) by (nonlinear_arith)
        requires
            0 <= u <= o,
            -(2 * o) <= vn <= 2 * o,
    ;
    times_close::<A>(up, n1);
    let v = times_of::<A>(up, n1);
    let vv = value(v);
    assert(-((q + g) * o) <= u * vn <= g * o) by (nonlinear_arith)
        requires
            0 <= u <= o,
            -(q + g) <= vn <= g,
            0 <= q,
            0 < g,
    ;
    assert(-(q + 2 * g) <= vv <= 2 * g) by (nonlinear_arith)
        requires
            apart(vv * o, u * vn) <= g * o,
            -((q + g) * o) <= u * vn <= g * o,
            o > 0,
    ;
    plus_close::<A>(p2, v);
    let c = plus_of::<A>(p2, v);
    let vc = value(c);
    cubic_part(s, u, v1, v2, vn, vv, vc, g, o);
    assert(apart(u * vc, 0) <= (3 * o) * o) by (nonlinear_arith)
        requires
            0 <= u <= o,
            -(3 * o) <= vc <= 3 * o,
    ;
    times_close::<A>(up, c);
    let w1 = times_of::<A>(up, c);
    let x1 = value(w1);
    slope_part(s, u, vc, x1, g, o);
    plus_close::<A>(sp, w1);
    let w2 = plus_of::<A>(sp, w1);
    let x2 = value(w2);
    assert(apart(u * x2, 0) <= (3 * o) * o) by (nonlinear_arith)
        requires
            0 <= u <= o,
            -(3 * o) <= x2 <= 3 * o,
    ;
    times_close::<A>(up, w2);
    let w3 = times_of::<A>(up, w2);
    let x3 = value(w3);
    cubic_whole(s, u, x1, x2, x3, g, o);
    assert(apart(k * x3, 0) <= (3 * o) * o) by (nonlinear_arith)
        requires
            0 <= k <= o,
            -(3 * o) <= x3 <= 3 * o,
    ;
    times_close::<A>(params.knee, w3);
    scaled_part(k, x3, value(times_of::<A>(params.knee, w3)), cubic_at(s, u, o), g, o);
}

proof fn cubic_part(
    s: int,
    u: int,
    v1: int,
    v2: int,
    vn: int,
    vv: int,
    vc: int,
    g: int,
    o: int,
)
    requires
        0 < g,
        0x100 * g <= o,
        0 <= s <= o,
        0 <= u <= o,
        apart(v1, o - s) <= g,
        apart(v2, 2 * v1) <= g,
        apart(vn, s - o) <= g,
        apart(vv * o, u * vn) <= g * o,
        apart(vc, v2 + vv) <= g,
    ensures
        apart(vc * o, 2 * ((o - s) * o) - (o - s) * u) <= 6 * (g * o),
        -(3 * o) <= vc <= 3 * o,
{
    let q = o - s;
    assert(apart(u * vn, -(q * u)) <= g * o) by (nonlinear_arith)
        requires
            apart(vn, -q) <= g,
            0 <= u <= o,
            g > 0,
    ;
    let e = vc - (2 * q + vv);
    assert(apart(e, 0) <= 4 * g);
    assert(vc * o == 2 * (q * o) + vv * o + e * o) by (nonlinear_arith)
        requires
            vc == 2 * q + vv + e,
    ;
    assert(apart(e * o, 0) <= 4 * (g * o)) by (nonlinear_arith)
        requires
            apart(e, 0) <= 4 * g,
            o > 0,
    ;
    let (qu, go, qo) = (q * u, g * o, q * o);
    assert(0 <= qu <= qo && 0 <= qo <= o * o && 0x100 * go <= o * o) by (nonlinear_arith)
        requires
            qu == q * u,
            qo == q * o,
            go == g * o,
            0 <= q <= o,
            0 <= u <= o,
            0x100 * g <= o,
    ;
    assert(-(3 * o) <= vc <= 3 * o) by (nonlinear_arith)
        requires
            -(o * o) <= vc * o <= 3 * (o * o),
            o > 0,
    ;
}

proof fn slope_part(s: int, u: int, vc: int, x1: int, g: int, o: int)
    requires
        0 < g,
        0x100 * g <= o,
        0 <= s <= o,
        0 <= u <= o,
        apart(vc * o, 2 * ((o - s) * o) - (o - s) * u) <= 6 * (g * o),
        apart(x1 * o, u * vc) <= g * o,
    ensures
        apart(x1 * (o * o), (2 * ((o - s) * o)) * u - ((o - s) * u) * u) <= 7 * (g * (o * o)),
        -(7 * g) <= x1 <= (o - s) + 7 * g,
{
    let q = o - s;
    let (c0, go, oo) = (2 * (q * o) - q * u, g * o, o * o);
    assert((x1 * o) * o == x1 * oo) by (nonlinear_arith)
        requires
            oo == o * o,
    ;
    assert(apart((x1 * o) * o, (u * vc) * o) <= go * o) by (nonlinear_arith)
        requires
            apart(x1 * o, u * vc) <= go,
            o > 0,
    ;
    assert((u * vc) * o == u * (vc * o)) by (nonlinear_arith);
    let z = vc * o;
    assert(go > 0) by (nonlinear_arith)
        requires
            go == g * o,
            g > 0,
            o > 0,
    ;
    assert(apart(u * z, u * c0) <= (6 * go) * o) by (nonlinear_arith)
        requires
            apart(z, c0) <= 6 * go,
            0 <= u <= o,
            go > 0,
    ;
    assert(go * o == g * oo && (6 * go) * o == 6 * (g * oo)) by (nonlinear_arith)
        requires
            go == g * o,
            oo == o * o,
    ;
    assert(u * c0 == (2 * (q * o)) * u - (q * u) * u) by (nonlinear_arith)
        requires
            c0 == 2 * (q * o) - q * u,
    ;
    assert(0 <= u * c0 <= 2 * (q * oo)) by (nonlinear_arith)
        requires
            c0 == 2 * (q * o) - q * u,
            0 <= u <= o,
            0 <= q,
            oo == o * o,
    ;
    let qo2 = q * oo;
    assert(oo > 0) by (nonlinear_arith)
        requires
            oo == o * o,
            o > 0,
    ;
    // By the square of `o - u`, which is not negative.
    assert(u * c0 <= qo2) by (nonlinear_arith)
        requires
            c0 == 2 * (q * o) - q * u,
            qo2 == q * oo,
            oo == o * o,
            q >= 0,
    ;
    assert(-(7 * g) <= x1 <= q + 7 * g) by (nonlinear_arith)
        requires
            x1 * oo <= q * oo + 7 * (g * oo),
            x1 * oo >= -(7 * (g * oo)),
            oo > 0,
    ;
}

proof fn cubic_whole(s: int, u: int, x1: int, x2: int, x3: int, g: int, o: int)
    requires
        0 < g,
        0x100 * g <= o,
        0 <= s <= o,
        0 <= u <= o,
        apart(x1 * (o * o), (2 * ((o - s) * o)) * u - ((o - s) * u) * u) <= 7 * (g * (o * o)),
        apart(x2, s + x1) <= g,
        apart(x3 * o, u * x2) <= g * o,
        -(2 * o) <= x2 <= 3 * o,
    ensures
        apart(x3 * (o * (o * o)), cubic_at(s, u, o)) <= 9 * (g * (o * (o * o))),
        -(3 * o) <= x3 <= 3 * o,
{
    let q = o - s;
    let oo = o * o;
    let ooo = o * oo;
    let c1 = (2 * (q * o)) * u - (q * u) * u;
    let e = x2 - s - x1;
    assert(x2 * oo == s * oo + x1 * oo + e * oo) by (nonlinear_arith)
        requires
            x2 == s + x1 + e,
    ;
    assert(oo > 0 && ooo > 0) by (nonlinear_arith)
        requires
            oo == o * o,
            ooo == o * oo,
            o > 0,
    ;
    let go = g * oo;
    assert(apart(e * oo, 0) <= go) by (nonlinear_arith)
        requires
            apart(e, 0) <= g,
            go == g * oo,
            oo > 0,
    ;
    let (z, c2) = (x2 * oo, s * oo + c1);
    assert(apart(z, c2) <= 8 * go);
    assert(go > 0) by (nonlinear_arith)
        requires
            go == g * oo,
            g > 0,
            oo > 0,
    ;
    assert(apart(u * z, u * c2) <= (8 * go) * o) by (nonlinear_arith)
        requires
            apart(z, c2) <= 8 * go,
            0 <= u <= o,
            go > 0,
    ;
    assert(apart((x3 * o) * oo, (u * x2) * oo) <= (g * o) * oo) by (nonlinear_arith)
        requires
            apart(x3 * o, u * x2) <= g * o,
            oo > 0,
    ;
    assert((x3 * o) * oo == x3 * ooo && (u * x2) * oo == u * z && (g * o) * oo == g * ooo && (8
        * go) * o == 8 * (g * ooo)) by (nonlinear_arith)
        requires
            ooo == o * oo,
            z == x2 * oo,
            go == g * oo,
    ;
    assert(u * (s * oo) == (s * o) * (u * o)) by (nonlinear_arith)
        requires
            oo == o * o,
    ;
    assert(u * c1 == (2 * (q * o)) * (u * u) - (q * u) * (u * u)) by (nonlinear_arith)
        requires
            c1 == (2 * (q * o)) * u - (q * u) * u,
    ;
    assert(u * c2 == u * (s * oo) + u * c1) by (nonlinear_arith)
        requires
            c2 == s * oo + c1,
    ;
    assert(apart(u * x2, 0) <= (3 * o) * o) by (nonlinear_arith)
        requires
            0 <= u <= o,
            -(2 * o) <= x2 <= 3 * o,
    ;
    cubic_grows(s, u, o, o);
    assert(u * ooo <= o * ooo && 0x100 * (g * ooo) <= o * ooo && g * ooo > 0) by (nonlinear_arith)
        requires
            u <= o,
            0x100 * g <= o,
            g > 0,
            ooo > 0,
    ;
    assert(-(3 * o) <= x3 <= 3 * o) by (nonlinear_arith)
        requires
            -(o * ooo) <= x3 * ooo <= 2 * (o * ooo),
            ooo > 0,
    ;
}

proof fn scaled_part(k: int, x3: int, r: int, f: int, g: int, o: int)
    requires
        0 < g,
        0 < o,
        0 <= k <= o,
        apart(x3 * (o * (o * o)), f) <= 9 * (g * (o * (o * o))),
        apart(r * o, k * x3) <= g * o,
    ensures
        apart(r * ((o * o) * (o * o)), k * f) <= (10 * g) * ((o * o) * (o * o)),
{
    let ooo = o * (o * o);
    let o4 = (o * o) * (o * o);
    let go = g * ooo;
    assert(ooo > 0 && o4 == o * ooo && go > 0) by (nonlinear_arith)
        requires
            ooo == o * (o * o),
            o4 == (o * o) * (o * o),
            go == g * ooo,
            o > 0,
            g > 0,
    ;
    let z = x3 * ooo;
    assert(apart(k * z, k * f) <= (9 * go) * o) by (nonlinear_arith)
        requires
            apart(z, f) <= 9 * go,
            0 <= k <= o,
            go > 0,
    ;
    assert(apart((r * o) * ooo, (k * x3) * ooo) <= (g * o) * ooo) by (nonlinear_arith)
        requires
            apart(r * o, k * x3) <= g * o,
            ooo > 0,
    ;
    assert((r * o) * ooo == r * o4 && (k * x3) * ooo == k * z && (g * o) * ooo == g * o4 && (9 * go)
        * o == 9 * (g * o4) && (10 * g) * o4 == 10 * (g * o4)) by (nonlinear_arith)
        requires
            o4 == o * ooo,
            z == x3 * ooo,
            go == g * ooo,
    ;
}

/// The toe keeps samples in order, up to twenty grains: those of the roundings on either
/// side.
pub proof fn toe_keeps_order<A: Arithmetic>(a: u32, b: u32, params: ShadowRolloffParams)
    requires
        rounds::<A>(),
        toe_fault::<A>(params) is None,
        single::is_finite(a),
        single::is_finite(b),
        single::at_most(a, b),
    ensures
        single::is_finite(toed::<A>(a, params.knee, params.strength)),
        single::is_finite(toed::<A>(b, params.knee, params.strength)),
        value(toed::<A>(a, params.knee, params.strength)) <= value(
            toed::<A>(b, params.knee, params.strength),
        ) + 20 * grain(),
{
    let (knee, strength) = (params.knee, params.strength);
    let (ra, rb) = (toed::<A>(a, knee, strength), toed::<A>(b, knee, strength));
    grains();
    small_numbers();
    values_are_ordered(a, b);
    values_are_ordered(a, 0);
    values_are_ordered(b, 0);
    values_are_ordered(0, a);
    values_are_ordered(0, b);
    values_are_ordered(a, knee);
    values_are_ordered(b, knee);
    values_are_ordered(0, knee);
    if single::less(0, strength) && single::less(0, knee) {
        let (o, g, k) = (2 * half(), grain(), value(knee));
        let o4 = (o * o) * (o * o);
        assert(o4 > 0 && o * (o * (o * o)) == o4) by (nonlinear_arith)
            requires
                o4 == (o * o) * (o * o),
                o > 0,
        ;
        if value(a) <= 0 {
            below_black_is_finite::<A>(a, params);
        } else if value(a) < k {
            toe_is_close::<A>(a, params);
        }
        if value(b) <= 0 {
            below_black_is_finite::<A>(b, params);
            samples_below_black_stay_ordered::<A>(a, b, params);
            values_are_ordered(ra, rb);
        } else if value(b) < k {
            toe_is_close::<A>(b, params);
            let s = value(minus_of::<A>(single::ONE, strength));
            let ub = value(share::<A>(b, knee));
            let fb = cubic_at(s, ub, o);
            cubic_grows(s, ub, ub, o);
            assert(k * fb >= 0) by (nonlinear_arith)
                requires
                    k > 0,
                    fb >= 0,
            ;
            let vb = value(rb);
            if value(a) <= 0 {
                assert(vb >= -(10 * g)) by (nonlinear_arith)
                    requires
                        vb * o4 >= -((10 * g) * o4),
                        o4 > 0,
                ;
            } else {
                shares_are_ordered::<A>(a, b, knee);
                let ua = value(share::<A>(a, knee));
                let fa = cubic_at(s, ua, o);
                cubic_grows(s, ua, ub, o);
                assert(k * fa <= k * fb) by (nonlinear_arith)
                    requires
                        k > 0,
                        fa <= fb,
                ;
                let va = value(ra);
                assert(va <= vb + 20 * g) by (nonlinear_arith)
                    requires
                        va * o4 <= vb * o4 + 2 * ((10 * g) * o4),
                        o4 > 0,
                ;
            }
        } else if 0 < value(a) < k {
            let s = value(minus_of::<A>(single::ONE, strength));
            let ua = value(share::<A>(a, knee));
            let fa = cubic_at(s, ua, o);
            cubic_grows(s, ua, ua, o);
            let o3 = o * (o * o);
            assert(o3 > 0) by (nonlinear_arith)
                requires
                    o3 == o * (o * o),
                    o > 0,
            ;
            assert(ua * o3 <= o4) by (nonlinear_arith)
                requires
                    ua <= o,
                    o4 == o * o3,
                    o3 > 0,
            ;
            assert(k * fa <= k * o4) by (nonlinear_arith)
                requires
                    k > 0,
                    fa <= o4,
            ;
            let va = value(ra);
            assert(va <= k + 10 * g) by (nonlinear_arith)
                requires
                    va * o4 <= k * o4 + (10 * g) * o4,
                    o4 > 0,
            ;
        }
    }
}

/// At or below black the toe gives a finite number at or below black.
proof fn below_black_is_finite<A: Arithmetic>(x: u32, params: ShadowRolloffParams)
    requires
        rounds::<A>(),
        toe_fault::<A>(params) is None,
        single::less(0, params.strength),
        single::less(0, params.knee),
        single::is_finite(x),
        value(x) <= 0,
    ensures
        single::is_finite(toed::<A>(x, params.knee, params.strength)),
        value(toed::<A>(x, params.knee, params.strength)) <= 0,
{
    grains();
    small_numbers();
    values_are_ordered(x, 0);
    values_are_ordered(x, params.knee);
    values_are_ordered(0, params.knee);
    values_are_ordered(0, params.strength);
    values_are_ordered(params.strength, single::ONE);
    let s = minus_of::<A>(single::ONE, params.strength);
    minus_rounds::<A>(single::ONE, params.strength);
    rounded_between(s, value(single::ONE) - value(params.strength), 1, 0, single::ONE);
    times_rounds::<A>(s, x);
    let (vs, v, o) = (value(s), value(x), 2 * half());
    assert(v * o <= vs * v <= 0 * o) by (nonlinear_arith)
        requires
            0 <= vs <= o,
            v <= 0,
    ;
    rounded_between(times_of::<A>(s, x), vs * v, o, x, 0);
}

/// Shares of one knee are ordered as the samples are.
proof fn shares_are_ordered<A: Arithmetic>(a: u32, b: u32, knee: u32)
    requires
        rounds::<A>(),
        single::is_finite(a),
        single::is_finite(b),
        single::is_finite(knee),
        0 < value(a) <= value(b) <= value(knee),
    ensures
        value(share::<A>(a, knee)) <= value(share::<A>(b, knee)),
{
    share_is_unit::<A>(a, knee);
    share_is_unit::<A>(b, knee);
    grains();
    let (va, vb, o) = (value(a), value(b), 2 * half());
    over_rounds::<A>(a, knee);
    over_rounds::<A>(b, knee);
    if va < vb {
        assert(va * o < vb * o) by (nonlinear_arith)
            requires
                va < vb,
                o > 0,
        ;
        rounded_keeps_order(share::<A>(a, knee), va * o, share::<A>(b, knee), vb * o, value(knee));
        values_are_ordered(share::<A>(a, knee), share::<A>(b, knee));
    } else {
        values_are_ordered(a, b);
        assert(a == b);
    }
}

/// Between black and the knee the toe is a cubic of the share that a sample has of the knee:
/// with the slope `s` that the strength leaves at black, `s u + 2 (1 - s) u^2 - (1 - s) u^3`
/// of the knee, up to ten grains. The slope and the share are given, each up to a grain.
pub proof fn the_toe_is_a_cubic<A: Arithmetic>(x: u32, params: ShadowRolloffParams) -> (at: (
    int,
    int,
))
    requires
        rounds::<A>(),
        toe_fault::<A>(params) is None,
        single::less(0, params.strength),
        single::less(0, x),
        single::less(x, params.knee),
    ensures
        ({
            let (r, o) = (toed::<A>(x, params.knee, params.strength), 2 * half());
            let k = value(params.knee);
            &&& apart(at.0, o - value(params.strength)) <= grain()
            &&& apart(at.1 * k, value(x) * o) <= grain() * k
            &&& single::is_finite(r)
            &&& apart(value(r) * ((o * o) * (o * o)), k * cubic_at(at.0, at.1, o)) <= (10 * grain())
                * ((o * o) * (o * o))
        }),
{
    let o = 2 * half();
    grains();
    small_numbers();
    values_are_ordered(0, params.strength);
    values_are_ordered(params.strength, single::ONE);
    values_are_ordered(0, x);
    values_are_ordered(x, params.knee);
    values_are_ordered(params.knee, single::ONE);
    toe_is_close::<A>(x, params);
    minus_near::<A>(single::ONE, params.strength);
    let (v, k) = (value(x), value(params.knee));
    over_rounds::<A>(x, params.knee);
    assert(apart(v * o, 0) <= (3 * o) * k) by (nonlinear_arith)
        requires
            0 < v < k,
            o > 0,
    ;
    rounded_close(share::<A>(x, params.knee), v * o, k);
    (
        value(minus_of::<A>(single::ONE, params.strength)),
        value(share::<A>(x, params.knee)),
    )
}

/// Below black the toe carries on with its slope at black: a sample keeps of itself what the
/// strength leaves, up to rounding.
pub proof fn below_black_the_toe_is_straight<A: Arithmetic>(x: u32, params: ShadowRolloffParams)
    requires
        rounds::<A>(),
        toe_fault::<A>(params) is None,
        single::less(0, params.strength),
        single::less(0, params.knee),
        single::is_finite(x),
        value(x) <= 0,
        apart(value(x), 0) < pow2(270),
    ensures
        ({
            let (r, o) = (toed::<A>(x, params.knee, params.strength), 2 * half());
            &&& single::is_finite(r)
            &&& apart(value(r) * o, (o - value(params.strength)) * value(x)) * 0x10_0000 <= apart(
                value(x),
                0,
            ) * o + 0x10_0000 * o
        }),
{
    let (o, g, n) = (2 * half(), grain(), value(x));
    grains();
    small_numbers();
    lemma2_to64();
    lemma_pow2_adds(23, 253);
    lemma_pow2_strictly_increases(270, 276);
    values_are_ordered(0, params.strength);
    values_are_ordered(params.strength, single::ONE);
    values_are_ordered(0, params.knee);
    values_are_ordered(x, 0);
    values_are_ordered(x, params.knee);
    minus_near::<A>(single::ONE, params.strength);
    minus_rounds::<A>(single::ONE, params.strength);
    let slope = minus_of::<A>(single::ONE, params.strength);
    rounded_between(slope, o - value(params.strength), 1, 0, single::ONE);
    let s = value(slope);
    assert(apart(s * n, 0) <= apart(n, 0) * o) by (nonlinear_arith)
        requires
            0 <= s <= o,
    ;
    assert(apart(n, 0) * o < ceiling() * o) by (nonlinear_arith)
        requires
            apart(n, 0) < ceiling(),
            o > 0,
    ;
    times_fine::<A>(slope, x);
    let e = s - (o - value(params.strength));
    let no = apart(n, 0) * o;
    assert(s * n == (o - value(params.strength)) * n + e * n) by (nonlinear_arith)
        requires
            e == s - (o - value(params.strength)),
    ;
    assert(-no <= (e * n) * 0x40_0000 <= no) by (nonlinear_arith)
        requires
            -g <= e <= g,
            o == 0x40_0000 * g,
            no == apart(n, 0) * o,
    ;
}

} // verus!
