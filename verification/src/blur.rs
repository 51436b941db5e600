//! Gaussian blur, the primitive of the kernels that scatter light.
//!
//! A Gaussian separates into rows and columns. Below [`BOX_CROSSOVER_SIGMA`] a
//! line is convolved with a sampled, normalised Gaussian. From there on three
//! running means stand in for it, their widths chosen so that their variances
//! add up to the variance asked for: their cost does not grow with sigma.
//!
//! Reference: Peter Kovesi, "Fast almost-Gaussian filtering", DICTA 2010.

use vstd::prelude::*;

use crate::allocation::{check_shape, copied, image, permitted, refusal};
use crate::arith::{
    ceil, ceil_of, exp64, exp64_of, faithful, floor64, floor64_of, minus, minus64, minus64_of,
    minus_of, narrow, narrow_of, of_count64, of_count64_of, over, over64, over64_of, over_of, plus,
    plus64, plus64_of, plus_of, root, root64, root64_of, root_of, text, text_of, times, times64,
    times64_of, times_of, to_count, to_count64, to_count64_of, to_count_of, widen, widen_of,
    Arithmetic,
};
use crate::double;
use crate::error::{PhaiosError, Report};
use crate::raster::{
    channel_of, has_lane, inside, is_tabulated, is_tabulated2, lane, nearest, tabulate, tabulated,
    tabulated2, within, Image, Raster,
};
use crate::remark::{refuse, unexpected};
use crate::rounding::{keeps_zero, mirrored_squares, mirrors};
use crate::single;

verus! {

/// The pattern of 6: the sigma from which running means are used.
pub const BOX_CROSSOVER_SIGMA: u32 = 0x40C0_0000;

/// The pattern of 4: where the sampled Gaussian ends, in units of sigma.
pub const TRUNCATION: u32 = 0x4080_0000;

/// The pattern of 4096, the largest sigma.
pub const MAX_SIGMA: u32 = 0x4580_0000;

/// The widest of three running means is at most this many times the narrowest.
pub const MAX_WIDTH_RATIO: usize = 3;

/// The farthest reach of a sampled Gaussian whose taps a signed count of 32 bits
/// holds, far beyond that of the largest sigma.
pub const MAX_REACH: usize = 0x3FFF_FFFF;

/// The widest of three equal running means: with what is tried beyond it, the squares
/// of the widths fit in 32 bits. That of the largest sigma is an eighth of it.
pub const MAX_EVEN_WIDTH: usize = 65_526;

/// The single-precision pattern of 12.
pub const TWELVE: u32 = 0x4140_0000;

/// The single-precision pattern of 3.
pub const THREE: u32 = 0x4040_0000;

/// The double-precision pattern of 2.
pub const TWO64: u64 = 0x4000_0000_0000_0000;

/// The double-precision pattern of 3.
pub const THREE64: u64 = 0x4008_0000_0000_0000;

/// The double-precision pattern of 12.
pub const TWELVE64: u64 = 0x4028_0000_0000_0000;

/// The double-precision pattern of 19.
pub const NINETEEN64: u64 = 0x4033_0000_0000_0000;

/// The double-precision pattern of negative zero, which every number can be
/// added to unchanged.
pub const NEUTRAL64: u64 = 0x8000_0000_0000_0000;

/// The shape of the blur.
#[derive(Clone, Copy, Debug, PartialEq, Eq, Structural)]
pub enum BlurShape {
    /// An isotropic Gaussian.
    Gaussian,
}

impl Default for BlurShape {
    fn default() -> (r: Self)
        ensures
            r == BlurShape::Gaussian,
    {
        BlurShape::Gaussian
    }
}

/// Parameters for [`blur`].
#[derive(Clone, Copy, Debug)]
pub struct BlurParams {
    /// Standard deviation in pixels, a single-precision bit pattern. Zero is the
    /// identity.
    pub sigma: u32,
    /// The shape of the blur.
    pub shape: BlurShape,
}

impl Default for BlurParams {
    fn default() -> (r: Self)
        ensures
            r == (BlurParams { sigma: 0, shape: BlurShape::Gaussian }),
    {
        BlurParams { sigma: 0, shape: BlurShape::Gaussian }
    }
}

impl BlurParams {
    /// Parameters from sigma and shape.
    pub fn new(sigma: u32, shape: BlurShape) -> (r: Self)
        ensures
            r == (BlurParams { sigma, shape }),
    {
        BlurParams { sigma, shape }
    }

    /// Whether both fields match, sigma by its bits.
    pub fn __eq__(&self, other: &Self) -> (r: bool)
        ensures
            r == (*self == *other),
    {
        self.sigma == other.sigma && self.shape == other.shape
    }

    /// A debug representation.
    pub fn __repr__<A: Arithmetic>(&self) -> (r: String)
        requires
            faithful::<A>(),
        ensures
            r@ == "BlurParams(sigma="@ + text_of::<A>(self.sigma) + ", shape=BlurShape.Gaussian)"@,
    {
        let mut out = String::from_str("BlurParams(sigma=");
        out.append(text::<A>(self.sigma).as_str());
        out.append(", shape=BlurShape.Gaussian)");
        out
    }
}

/// What is wrong with a sigma, if anything.
pub open spec fn sigma_fault<A: Arithmetic>(sigma: u32) -> Option<Report> {
    if !single::is_non_negative(sigma) {
        Some(unexpected::<A>("sigma"@, sigma, ", expected a finite value of at least 0"@))
    } else if single::less(MAX_SIGMA, sigma) {
        Some(unexpected::<A>("sigma"@, sigma, ", above the maximum of 4096"@))
    } else {
        None
    }
}

/// Holds the parameters to their domain.
pub fn validate<A: Arithmetic>(params: &BlurParams) -> (r: Result<(), PhaiosError>)
    requires
        faithful::<A>(),
    ensures
        match r {
            Ok(()) => sigma_fault::<A>(params.sigma) is None,
            Err(e) => sigma_fault::<A>(params.sigma) == Some(e@),
        },
{
    if !single::is_non_negative(params.sigma) {
        return Err(refuse::<A>("sigma", params.sigma, ", expected a finite value of at least 0"));
    }
    if single::less(MAX_SIGMA, params.sigma) {
        return Err(refuse::<A>("sigma", params.sigma, ", above the maximum of 4096"));
    }
    Ok(())
}

/// The variance of a running mean of the given width: `(width^2 - 1) / 12`.
pub open spec fn box_variance<A: Arithmetic>(width: usize) -> u64 {
    over64_of::<A>(minus64_of::<A>(of_count64_of::<A>((width * width) as u64), double::ONE), TWELVE64)
}

/// The variance of the first `n` running means of a series, added up in order.
pub open spec fn series_variance<A: Arithmetic>(widths: Seq<usize>, n: int) -> u64
    decreases n,
{
    if n <= 0 {
        NEUTRAL64
    } else {
        plus64_of::<A>(series_variance::<A>(widths, n - 1), box_variance::<A>(widths[n - 1]))
    }
}

/// The standard deviation of a series of running means.
pub open spec fn series_sigma<A: Arithmetic>(widths: Seq<usize>) -> u32 {
    narrow_of::<A>(root64_of::<A>(series_variance::<A>(widths, widths.len() as int)))
}

/// The standard deviation of a series of running means.
pub fn box_series_sigma<A: Arithmetic>(widths: &[usize]) -> (r: u32)
    requires
        faithful::<A>(),
        forall|i: int|
            0 <= i < widths@.len() ==> (#[trigger] widths@[i]) * widths@[i] <= usize::MAX,
    ensures
        r == series_sigma::<A>(widths@),
{
    let mut var: u64 = NEUTRAL64;
    let mut i: usize = 0;
    while i < widths.len()
        invariant
            faithful::<A>(),
            i <= widths@.len(),
            var == series_variance::<A>(widths@, i as int),
            forall|j: int|
                0 <= j < widths@.len() ==> (#[trigger] widths@[j]) * widths@[j] <= usize::MAX,
        decreases widths@.len() - i,
    {
        let w: usize = widths[i];
        proof {
            assert(widths@[i as int] * widths@[i as int] <= usize::MAX);
            assert(0 <= w * w) by (nonlinear_arith);
        }
        let squared: usize = w * w;
        var = plus64::<A>(
            var,
            over64::<A>(minus64::<A>(of_count64::<A>(squared as u64), double::ONE), TWELVE64),
        );
        i = i + 1;
    }
    narrow::<A>(root64::<A>(var))
}

/// The largest odd number at most `n`.
pub open spec fn odd_at_most(n: int) -> int {
    if n % 2 == 0 {
        n - 1
    } else {
        n
    }
}

/// The smallest odd number at least `n`.
pub open spec fn odd_at_least(n: int) -> int {
    if n % 2 == 0 {
        n + 1
    } else {
        n
    }
}

/// `n` held to the range from `low` to `high`.
pub open spec fn held(n: int, low: int, high: int) -> int {
    if n < low {
        low
    } else if n > high {
        high
    } else {
        n
    }
}

/// What the squares of three widths add up to where they realise sigma exactly.
pub open spec fn square_sum<A: Arithmetic>(sigma: u32) -> u64 {
    plus64_of::<A>(
        times64_of::<A>(times64_of::<A>(TWELVE64, widen_of::<A>(sigma)), widen_of::<A>(sigma)),
        THREE64,
    )
}

/// The widest width worth trying: three equal widths, and a little more.
pub open spec fn widest<A: Arithmetic>(sigma: u32) -> int {
    let even = to_count_of::<A>(
        root_of::<A>(
            plus_of::<A>(
                over_of::<A>(times_of::<A>(times_of::<A>(TWELVE, sigma), sigma), THREE),
                single::ONE,
            ),
        ),
    );
    held(even as int, 3, MAX_EVEN_WIDTH as int) + 8
}

/// The smallest narrowest width worth trying: below it even the largest
/// permitted ratio falls short of sigma.
pub open spec fn narrowest<A: Arithmetic>(sigma: u32) -> int {
    let n = to_count64_of::<A>(
        floor64_of::<A>(root64_of::<A>(over64_of::<A>(square_sum::<A>(sigma), NINETEEN64))),
    ) as int;
    if n < 5 {
        3
    } else {
        n - 2
    }
}

/// The largest odd width permitted beside a narrowest width of `a`.
pub open spec fn last_width<A: Arithmetic>(sigma: u32, a: int) -> int {
    odd_at_most(
        if 3 * a < widest::<A>(sigma) {
            3 * a
        } else {
            widest::<A>(sigma)
        },
    )
}

/// The odd width that comes closest to sigma beside `a` and `b`, or nearly so.
pub open spec fn guess<A: Arithmetic>(sigma: u32, a: int, b: int) -> int {
    let rest = minus64_of::<A>(
        minus64_of::<A>(square_sum::<A>(sigma), of_count64_of::<A>((a * a) as u64)),
        of_count64_of::<A>((b * b) as u64),
    );
    let exact = if double::less(0, rest) {
        root64_of::<A>(rest)
    } else {
        0
    };
    odd_at_least(
        held(to_count64_of::<A>(floor64_of::<A>(exact)) as int, 1, 4 * MAX_EVEN_WIDTH as int),
    )
}

/// The triples of widths that are tried: ascending odd widths within the
/// permitted ratio, the last one an end of its range or near the guess.
pub open spec fn candidate<A: Arithmetic>(sigma: u32, a: int, b: int, c: int) -> bool {
    let last = last_width::<A>(sigma, a);
    let g = guess::<A>(sigma, a, b);
    &&& a % 2 == 1
    &&& narrowest::<A>(sigma) <= a <= widest::<A>(sigma)
    &&& b % 2 == 1
    &&& a <= b <= last
    &&& b <= c <= last
    &&& c == b || c == g - 2 || c == g || c == g + 2 || c == last
}

/// How far a triple of widths misses sigma.
pub open spec fn miss<A: Arithmetic>(sigma: u32, a: int, b: int, c: int) -> u32 {
    single::magnitude(
        minus_of::<A>(series_sigma::<A>(seq![a as usize, b as usize, c as usize]), sigma),
    )
}

/// The order in which triples are tried.
pub open spec fn before(v: (int, int, int), w: (int, int, int)) -> bool {
    v.0 < w.0 || v.0 == w.0 && (v.1 < w.1 || v.1 == w.1 && v.2 < w.2)
}

/// A triple of widths with its distance from sigma.
#[derive(Clone, Copy)]
pub struct Held {
    pub a: usize,
    pub b: usize,
    pub c: usize,
    pub err: u32,
}

impl Held {
    pub open spec fn triple(self) -> (int, int, int) {
        (self.a as int, self.b as int, self.c as int)
    }
}

/// Whether a triple is the first of the closest candidates before `until`: no
/// candidate comes closer, and none before it comes as close. Where none of them
/// has a finite distance it is three threes.
pub open spec fn leads<A: Arithmetic>(sigma: u32, until: (int, int, int), h: Held) -> bool {
    ||| {
        &&& candidate::<A>(sigma, h.a as int, h.b as int, h.c as int)
        &&& before(h.triple(), until)
        &&& h.err == miss::<A>(sigma, h.a as int, h.b as int, h.c as int)
        &&& single::less(h.err, single::INFINITY)
        &&& forall|a: int, b: int, c: int| #[trigger]
            candidate::<A>(sigma, a, b, c) && before((a, b, c), until) ==> {
                &&& !single::less(miss::<A>(sigma, a, b, c), h.err)
                &&& before((a, b, c), h.triple()) ==> !single::at_most(
                    miss::<A>(sigma, a, b, c),
                    h.err,
                )
            }
    }
    ||| {
        &&& h == (Held { a: 3, b: 3, c: 3, err: single::INFINITY })
        &&& forall|a: int, b: int, c: int| #[trigger]
            candidate::<A>(sigma, a, b, c) && before((a, b, c), until) ==> !single::less(
                miss::<A>(sigma, a, b, c),
                single::INFINITY,
            )
    }
}

/// A triple that no candidate follows.
pub open spec fn beyond<A: Arithmetic>(sigma: u32) -> (int, int, int) {
    (widest::<A>(sigma) + 1, 0, 0)
}

/// The widths of the three running means for a sigma: the first of the closest
/// candidates.
pub open spec fn best_widths<A: Arithmetic>(sigma: u32) -> Held {
    choose|h: Held| leads::<A>(sigma, beyond::<A>(sigma), h)
}

/// There is one first of the closest candidates.
proof fn one_leads<A: Arithmetic>(sigma: u32, g: Held, h: Held)
    requires
        leads::<A>(sigma, beyond::<A>(sigma), g),
        leads::<A>(sigma, beyond::<A>(sigma), h),
    ensures
        g == h,
{
    assert(before(g.triple(), h.triple()) || before(h.triple(), g.triple()) || g.triple()
        == h.triple());
}

/// One more candidate has been tried.
proof fn tried<A: Arithmetic>(
    sigma: u32,
    from: (int, int, int),
    at: (int, int, int),
    to: (int, int, int),
    g: Held,
    h: Held,
)
    requires
        leads::<A>(sigma, from, g),
        candidate::<A>(sigma, at.0, at.1, at.2),
        !before(at, from),
        before(at, to),
        !before(to, from),
        forall|a: int, b: int, c: int| #[trigger]
            candidate::<A>(sigma, a, b, c) && before((a, b, c), to) ==> before((a, b, c), from)
                || (a, b, c) == at,
        single::less(miss::<A>(sigma, at.0, at.1, at.2), g.err) ==> h.triple() == at && h.err
            == miss::<A>(sigma, at.0, at.1, at.2),
        !single::less(miss::<A>(sigma, at.0, at.1, at.2), g.err) ==> h == g,
    ensures
        leads::<A>(sigma, to, h),
{
}

/// The candidates up to a later point are those up to an earlier one.
proof fn passed<A: Arithmetic>(sigma: u32, from: (int, int, int), to: (int, int, int), h: Held)
    requires
        leads::<A>(sigma, from, h),
        candidate::<A>(sigma, h.a as int, h.b as int, h.c as int) && before(h.triple(), from)
            ==> before(h.triple(), to),
        forall|a: int, b: int, c: int| #[trigger]
            candidate::<A>(sigma, a, b, c) && before((a, b, c), to) ==> before((a, b, c), from),
    ensures
        leads::<A>(sigma, to, h),
{
}

/// The candidates before a point have a first of the closest among them.
proof fn some_lead<A: Arithmetic>(sigma: u32, a: int, b: int, c: int) -> (h: Held)
    requires
        0 <= a,
        0 <= b,
        0 <= c,
    ensures
        leads::<A>(sigma, (a, b, c), h),
    decreases a, b, c,
{
    let end = MAX_EVEN_WIDTH + 9;
    if c > 0 {
        let g = some_lead::<A>(sigma, a, b, c - 1);
        let (from, at, to) = ((a, b, c - 1), (a, b, c - 1), (a, b, c));
        if candidate::<A>(sigma, a, b, c - 1) {
            let err = miss::<A>(sigma, a, b, c - 1);
            let h = if single::less(err, g.err) {
                Held { a: a as usize, b: b as usize, c: (c - 1) as usize, err }
            } else {
                g
            };
            tried::<A>(sigma, from, at, to, g, h);
            h
        } else {
            passed::<A>(sigma, from, to, g);
            g
        }
    } else if b > 0 {
        let h = some_lead::<A>(sigma, a, b - 1, end);
        passed::<A>(sigma, (a, b - 1, end), (a, b, 0), h);
        h
    } else if a > 0 {
        let h = some_lead::<A>(sigma, a - 1, end, 0);
        passed::<A>(sigma, (a - 1, end, 0), (a, 0, 0), h);
        h
    } else {
        Held { a: 3, b: 3, c: 3, err: single::INFINITY }
    }
}

/// The widths for a sigma are the first of the closest candidates: odd and at least
/// three, the widest at most three times the narrowest.
pub proof fn widths_are_balanced<A: Arithmetic>(sigma: u32)
    ensures
        leads::<A>(sigma, beyond::<A>(sigma), best_widths::<A>(sigma)),
        ({
            let h = best_widths::<A>(sigma);
            &&& h.a % 2 == 1
            &&& h.b % 2 == 1
            &&& h.c % 2 == 1
            &&& 3 <= h.a <= h.b <= h.c <= MAX_WIDTH_RATIO * h.a
            &&& h.c <= MAX_EVEN_WIDTH + 8
        }),
{
    let until = beyond::<A>(sigma);
    let h = some_lead::<A>(sigma, until.0, until.1, until.2);
    assert(leads::<A>(sigma, until, h));
}

fn attempt<A: Arithmetic>(sigma: u32, a: usize, b: usize, c: usize, h: Held) -> (r: Held)
    requires
        faithful::<A>(),
        a <= MAX_EVEN_WIDTH + 8,
        b <= MAX_EVEN_WIDTH + 8,
        c <= MAX_EVEN_WIDTH + 8,
    ensures
        single::less(miss::<A>(sigma, a as int, b as int, c as int), h.err) ==> r == (Held {
            a,
            b,
            c,
            err: miss::<A>(sigma, a as int, b as int, c as int),
        }),
        !single::less(miss::<A>(sigma, a as int, b as int, c as int), h.err) ==> r == h,
{
    let widths: [usize; 3] = [a, b, c];
    proof {
        assert(widths@ =~= seq![a, b, c]);
        assert(a * a <= 65_534 * 65_534 && b * b <= 65_534 * 65_534 && c * c <= 65_534 * 65_534)
            by (nonlinear_arith)
            requires
                a <= 65_534,
                b <= 65_534,
                c <= 65_534,
        ;
    }
    let err: u32 = single::magnitude(
        minus::<A>(box_series_sigma::<A>(widths.as_slice()), sigma),
    );
    if single::less(err, h.err) {
        Held { a, b, c, err }
    } else {
        h
    }
}

fn scan_third<A: Arithmetic>(
    sigma: u32,
    a: usize,
    b: usize,
    last: usize,
    g: usize,
    start: Held,
) -> (r: Held)
    requires
        faithful::<A>(),
        candidate::<A>(sigma, a as int, b as int, b as int),
        last == last_width::<A>(sigma, a as int),
        g == guess::<A>(sigma, a as int, b as int),
        leads::<A>(sigma, (a as int, b as int, b as int), start),
    ensures
        leads::<A>(sigma, (a as int, b as int, last + 1), r),
{
    let mut h: Held = attempt::<A>(sigma, a, b, b, start);
    let ghost mut p: int = b + 1;
    proof {
        tried::<A>(
            sigma,
            (a as int, b as int, b as int),
            (a as int, b as int, b as int),
            (a as int, b as int, p),
            start,
            h,
        );
    }
    if g > 2 && b < g - 2 && g - 2 < last {
        let next: Held = attempt::<A>(sigma, a, b, g - 2, h);
        proof {
            assert(candidate::<A>(sigma, a as int, b as int, g - 2));
            tried::<A>(
                sigma,
                (a as int, b as int, p),
                (a as int, b as int, g - 2),
                (a as int, b as int, g - 1),
                h,
                next,
            );
            p = g - 1;
        }
        h = next;
    }
    if b < g && g < last {
        let next: Held = attempt::<A>(sigma, a, b, g, h);
        proof {
            assert(candidate::<A>(sigma, a as int, b as int, g as int));
            tried::<A>(
                sigma,
                (a as int, b as int, p),
                (a as int, b as int, g as int),
                (a as int, b as int, g + 1),
                h,
                next,
            );
            p = g + 1;
        }
        h = next;
    }
    if b < g + 2 && g + 2 < last {
        let next: Held = attempt::<A>(sigma, a, b, g + 2, h);
        proof {
            assert(candidate::<A>(sigma, a as int, b as int, g + 2));
            tried::<A>(
                sigma,
                (a as int, b as int, p),
                (a as int, b as int, g + 2),
                (a as int, b as int, g + 3),
                h,
                next,
            );
            p = g + 3;
        }
        h = next;
    }
    if last != b {
        let next: Held = attempt::<A>(sigma, a, b, last, h);
        proof {
            assert(candidate::<A>(sigma, a as int, b as int, last as int));
            tried::<A>(
                sigma,
                (a as int, b as int, p),
                (a as int, b as int, last as int),
                (a as int, b as int, last + 1),
                h,
                next,
            );
        }
        h = next;
    } else {
        proof {
            assert(p == last + 1);
        }
    }
    h
}

fn guess_third<A: Arithmetic>(sum: u64, a: usize, b: usize, Ghost(sigma): Ghost<u32>) -> (r: usize)
    requires
        faithful::<A>(),
        sum == square_sum::<A>(sigma),
        a <= MAX_EVEN_WIDTH + 8,
        b <= MAX_EVEN_WIDTH + 8,
    ensures
        r == guess::<A>(sigma, a as int, b as int),
        1 <= r <= 4 * MAX_EVEN_WIDTH + 1,
{
    proof {
        assert(0 <= a * a <= 65_534 * 65_534 && 0 <= b * b <= 65_534 * 65_534) by (nonlinear_arith)
            requires
                a <= 65_534,
                b <= 65_534,
        ;
    }
    let aa: usize = a * a;
    let bb: usize = b * b;
    let rest: u64 = minus64::<A>(
        minus64::<A>(sum, of_count64::<A>(aa as u64)),
        of_count64::<A>(bb as u64),
    );
    let exact: u64 = if double::less(0, rest) {
        root64::<A>(rest)
    } else {
        0
    };
    let n: u64 = to_count64::<A>(floor64::<A>(exact));
    let limit: u64 = 4 * MAX_EVEN_WIDTH as u64;
    let m: usize = (if n < 1 {
        1
    } else if n > limit {
        limit
    } else {
        n
    }) as usize;
    if m % 2 == 0 {
        m + 1
    } else {
        m
    }
}

/// The widths of the three running means for a sigma.
#[verifier::rlimit(60)]
pub fn box_widths<A: Arithmetic>(sigma: u32) -> (r: [usize; 3])
    requires
        faithful::<A>(),
    ensures
        ({
            let h = best_widths::<A>(sigma);
            &&& leads::<A>(sigma, beyond::<A>(sigma), h)
            &&& r@ == seq![h.a, h.b, h.c]
        }),
        forall|i: int| 0 <= i < 3 ==> (#[trigger] r@[i]) % 2 == 1,
        3 <= r@[0] <= r@[1] <= r@[2] <= MAX_WIDTH_RATIO * r@[0],
        r@[2] <= MAX_EVEN_WIDTH + 8,
{
    let sum: u64 = plus64::<A>(
        times64::<A>(times64::<A>(TWELVE64, widen::<A>(sigma)), widen::<A>(sigma)),
        THREE64,
    );
    let even: u64 = to_count::<A>(
        root::<A>(
            plus::<A>(
                over::<A>(times::<A>(times::<A>(TWELVE, sigma), sigma), THREE),
                single::ONE,
            ),
        ),
    );
    let hi: usize = (if even < 3 {
        3
    } else if even > MAX_EVEN_WIDTH as u64 {
        MAX_EVEN_WIDTH as u64
    } else {
        even
    }) as usize + 8;
    let n: u64 = to_count64::<A>(floor64::<A>(root64::<A>(over64::<A>(sum, NINETEEN64))));
    let lo: u64 = if n < 5 {
        3
    } else {
        n - 2
    };
    let mut h: Held = Held { a: 3, b: 3, c: 3, err: single::INFINITY };
    if lo <= hi as u64 {
        let mut a: usize = lo as usize;
        if a % 2 == 0 {
            a = a + 1;
        }
        while a <= hi
            invariant
                faithful::<A>(),
                hi == widest::<A>(sigma),
                lo == narrowest::<A>(sigma),
                sum == square_sum::<A>(sigma),
                hi <= MAX_EVEN_WIDTH + 8,
                lo <= a <= hi + 2,
                a % 2 == 1,
                leads::<A>(sigma, (a as int, a as int, a as int), h),
            decreases hi + 2 - a,
        {
            let top: usize = if 3 * a < hi {
                3 * a
            } else {
                hi
            };
            let last: usize = if top % 2 == 0 {
                top - 1
            } else {
                top
            };
            let mut b: usize = a;
            while b <= last
                invariant
                    faithful::<A>(),
                    hi == widest::<A>(sigma),
                    sum == square_sum::<A>(sigma),
                    last == last_width::<A>(sigma, a as int),
                    hi <= MAX_EVEN_WIDTH + 8,
                    last <= hi,
                    narrowest::<A>(sigma) <= a <= hi,
                    a % 2 == 1,
                    b % 2 == 1,
                    a <= b <= last + 2,
                    leads::<A>(sigma, (a as int, b as int, b as int), h),
                decreases last + 2 - b,
            {
                let g: usize = guess_third::<A>(sum, a, b, Ghost(sigma));
                let next: Held = scan_third::<A>(sigma, a, b, last, g, h);
                proof {
                    passed::<A>(
                        sigma,
                        (a as int, b as int, last + 1),
                        (a as int, b + 2, b + 2),
                        next,
                    );
                }
                h = next;
                b = b + 2;
            }
            proof {
                passed::<A>(sigma, (a as int, b as int, b as int), (a + 2, a + 2, a + 2), h);
            }
            a = a + 2;
        }
        proof {
            passed::<A>(sigma, (a as int, a as int, a as int), beyond::<A>(sigma), h);
        }
    }
    proof {
        assert(leads::<A>(sigma, beyond::<A>(sigma), h));
        widths_are_balanced::<A>(sigma);
        one_leads::<A>(sigma, h, best_widths::<A>(sigma));
    }
    [h.a, h.b, h.c]
}

/// How far the sampled Gaussian reaches to either side.
pub open spec fn reach<A: Arithmetic>(sigma: u32) -> int {
    held(
        to_count_of::<A>(
            single::larger(ceil_of::<A>(times_of::<A>(TRUNCATION, sigma)), single::ONE),
        ) as int,
        0,
        MAX_REACH as int,
    )
}

/// The unnormalised Gaussian at tap `i` of `2 * radius + 1`.
pub open spec fn bell<A: Arithmetic>(sigma: u32, radius: int, i: int) -> u64 {
    let d = minus64_of::<A>(of_count64_of::<A>(i as u64), of_count64_of::<A>(radius as u64));
    let spread = times64_of::<A>(times64_of::<A>(TWO64, widen_of::<A>(sigma)), widen_of::<A>(sigma));
    exp64_of::<A>(over64_of::<A>(times64_of::<A>(double::negated(d), d), spread))
}

/// The first `n` taps of the unnormalised Gaussian, added up in order.
pub open spec fn bell_sum<A: Arithmetic>(sigma: u32, radius: int, n: int) -> u64
    decreases n,
{
    if n <= 0 {
        NEUTRAL64
    } else {
        plus64_of::<A>(bell_sum::<A>(sigma, radius, n - 1), bell::<A>(sigma, radius, n - 1))
    }
}

/// The taps of the sampled Gaussian, normalised to a sum of one.
pub open spec fn taps<A: Arithmetic>(sigma: u32) -> Seq<u32> {
    let radius = reach::<A>(sigma);
    let len = 2 * radius + 1;
    Seq::new(
        len as nat,
        |i: int|
            narrow_of::<A>(
                over64_of::<A>(bell::<A>(sigma, radius, i), bell_sum::<A>(sigma, radius, len)),
            ),
    )
}

/// The taps of the sampled Gaussian.
pub fn gaussian_weights<A: Arithmetic>(sigma: u32) -> (r: Vec<u32>)
    requires
        faithful::<A>(),
    ensures
        r@ == taps::<A>(sigma),
        r@.len() % 2 == 1,
        r@.len() <= 2 * MAX_REACH + 1,
{
    let n: u64 = to_count::<A>(
        single::larger(ceil::<A>(times::<A>(TRUNCATION, sigma)), single::ONE),
    );
    let radius: usize = if n > MAX_REACH as u64 {
        MAX_REACH
    } else {
        n as usize
    };
    let spread: u64 = times64::<A>(times64::<A>(TWO64, widen::<A>(sigma)), widen::<A>(sigma));
    let mut bells: Vec<u64> = Vec::new();
    let mut sum: u64 = NEUTRAL64;
    let mut i: usize = 0;
    while i <= 2 * radius
        invariant
            faithful::<A>(),
            radius <= MAX_REACH,
            i <= 2 * radius + 1,
            spread == times64_of::<A>(
                times64_of::<A>(TWO64, widen_of::<A>(sigma)),
                widen_of::<A>(sigma),
            ),
            bells@.len() == i,
            forall|j: int|
                0 <= j < i ==> (#[trigger] bells@[j]) == bell::<A>(sigma, radius as int, j),
            sum == bell_sum::<A>(sigma, radius as int, i as int),
        decreases 2 * radius + 1 - i,
    {
        let d: u64 = minus64::<A>(of_count64::<A>(i as u64), of_count64::<A>(radius as u64));
        let v: u64 = exp64::<A>(over64::<A>(times64::<A>(double::negated(d), d), spread));
        bells.push(v);
        sum = plus64::<A>(sum, v);
        i = i + 1;
    }
    let mut out: Vec<u32> = Vec::new();
    let mut j: usize = 0;
    while j < bells.len()
        invariant
            faithful::<A>(),
            radius == reach::<A>(sigma),
            bells@.len() == 2 * radius + 1,
            forall|m: int|
                0 <= m < bells@.len() ==> (#[trigger] bells@[m]) == bell::<A>(
                    sigma,
                    radius as int,
                    m,
                ),
            sum == bell_sum::<A>(sigma, radius as int, 2 * radius + 1),
            j <= bells@.len(),
            out@.len() == j,
            forall|m: int| 0 <= m < j ==> (#[trigger] out@[m]) == taps::<A>(sigma)[m],
        decreases bells@.len() - j,
    {
        out.push(narrow::<A>(over64::<A>(bells[j], sum)));
        j = j + 1;
    }
    proof {
        assert(out@ =~= taps::<A>(sigma));
    }
    out
}

/// The index nearest to `i + k - radius` among `n`.
fn shifted(i: usize, k: usize, radius: usize, n: usize) -> (r: usize)
    requires
        i < n,
    ensures
        r == nearest(i + k - radius, n as int),
        r < n,
{
    if k >= radius {
        if k - radius >= n - i {
            n - 1
        } else {
            i + (k - radius)
        }
    } else if radius - k > i {
        0
    } else {
        i - (radius - k)
    }
}

/// The first `m` products of taps and samples around place `i`, added up in
/// order; past the ends of the line its last sample repeats.
pub open spec fn tap_sum<A: Arithmetic>(
    line: Seq<u32>,
    weights: Seq<u32>,
    i: int,
    m: int,
) -> u64
    decreases m,
{
    if m <= 0 {
        0
    } else {
        let radius = (weights.len() - 1) / 2;
        plus64_of::<A>(
            tap_sum::<A>(line, weights, i, m - 1),
            times64_of::<A>(
                widen_of::<A>(weights[m - 1]),
                widen_of::<A>(line[nearest(i + (m - 1) - radius, line.len() as int)]),
            ),
        )
    }
}

/// A line convolved with taps.
pub open spec fn convolved<A: Arithmetic>(line: Seq<u32>, weights: Seq<u32>) -> Seq<u32> {
    Seq::new(
        line.len(),
        |i: int| narrow_of::<A>(tap_sum::<A>(line, weights, i, weights.len() as int)),
    )
}

/// Convolves a line with taps.
pub fn conv_lane<A: Arithmetic>(line: &Vec<u32>, weights: &Vec<u32>) -> (r: Vec<u32>)
    requires
        faithful::<A>(),
        weights@.len() > 0,
    ensures
        r@ == convolved::<A>(line@, weights@),
{
    let n: usize = line.len();
    let radius: usize = (weights.len() - 1) / 2;
    let mut out: Vec<u32> = Vec::new();
    let mut i: usize = 0;
    while i < n
        invariant
            faithful::<A>(),
            n == line@.len(),
            radius == (weights@.len() - 1) / 2,
            i <= n,
            out@.len() == i,
            forall|j: int|
                0 <= j < i ==> (#[trigger] out@[j]) == convolved::<A>(line@, weights@)[j],
        decreases n - i,
    {
        let mut acc: u64 = 0;
        let mut k: usize = 0;
        while k < weights.len()
            invariant
                faithful::<A>(),
                n == line@.len(),
                radius == (weights@.len() - 1) / 2,
                i < n,
                k <= weights@.len(),
                acc == tap_sum::<A>(line@, weights@, i as int, k as int),
            decreases weights@.len() - k,
        {
            let at: usize = shifted(i, k, radius, n);
            acc = plus64::<A>(
                acc,
                times64::<A>(widen::<A>(weights[k]), widen::<A>(line[at])),
            );
            k = k + 1;
        }
        out.push(narrow::<A>(acc));
        i = i + 1;
    }
    proof {
        assert(out@ =~= convolved::<A>(line@, weights@));
    }
    out
}

/// The sample at a place of a line, the ends repeated.
pub open spec fn held_sample<A: Arithmetic>(line: Seq<u32>, i: int) -> u64 {
    widen_of::<A>(line[nearest(i, line.len() as int)])
}

/// The first `m` samples of the window around the first place, added up in order.
pub open spec fn first_window<A: Arithmetic>(line: Seq<u32>, radius: int, m: int) -> u64
    decreases m,
{
    if m <= 0 {
        NEUTRAL64
    } else {
        plus64_of::<A>(
            first_window::<A>(line, radius, m - 1),
            held_sample::<A>(line, m - 1 - radius),
        )
    }
}

/// The running sum at place `i`: the window at the first place, and from place
/// to place the sample that enters added and then the one that leaves taken off.
pub open spec fn running_window<A: Arithmetic>(line: Seq<u32>, radius: int, i: int) -> u64
    decreases i,
{
    if i <= 0 {
        first_window::<A>(line, radius, 2 * radius + 1)
    } else {
        minus64_of::<A>(
            plus64_of::<A>(
                running_window::<A>(line, radius, i - 1),
                held_sample::<A>(line, i + radius),
            ),
            held_sample::<A>(line, i - radius - 1),
        )
    }
}

/// The running mean of a line.
pub open spec fn averaged<A: Arithmetic>(line: Seq<u32>, radius: int) -> Seq<u32> {
    Seq::new(
        line.len(),
        |i: int|
            narrow_of::<A>(
                over64_of::<A>(
                    running_window::<A>(line, radius, i),
                    of_count64_of::<A>((2 * radius + 1) as u64),
                ),
            ),
    )
}

/// The running mean of a line.
pub fn box_lane<A: Arithmetic>(line: &Vec<u32>, radius: usize) -> (r: Vec<u32>)
    requires
        faithful::<A>(),
        2 * radius + 1 <= usize::MAX,
    ensures
        r@ == averaged::<A>(line@, radius as int),
{
    let n: usize = line.len();
    let mut out: Vec<u32> = Vec::new();
    if n > 0 {
        let span: usize = 2 * radius + 1;
        let width: u64 = of_count64::<A>(span as u64);
        let mut acc: u64 = NEUTRAL64;
        let mut m: usize = 0;
        while m < span
            invariant
                faithful::<A>(),
                0 < n == line@.len(),
                m <= span == 2 * radius + 1,
                acc == first_window::<A>(line@, radius as int, m as int),
            decreases span - m,
        {
            let at: usize = shifted(0, m, radius, n);
            acc = plus64::<A>(acc, widen::<A>(line[at]));
            m = m + 1;
        }
        out.push(narrow::<A>(over64::<A>(acc, width)));
        let mut i: usize = 1;
        while i < n
            invariant
                faithful::<A>(),
                1 <= i <= n == line@.len(),
                span == 2 * radius + 1,
                width == of_count64_of::<A>(span as u64),
                acc == running_window::<A>(line@, radius as int, i - 1),
                out@.len() == i,
                forall|j: int|
                    0 <= j < i ==> (#[trigger] out@[j]) == averaged::<A>(line@, radius as int)[j],
            decreases n - i,
        {
            let enters: usize = shifted(i, span - 1, radius, n);
            let leaves: usize = shifted(i - 1, 0, radius, n);
            acc = minus64::<A>(
                plus64::<A>(acc, widen::<A>(line[enters])),
                widen::<A>(line[leaves]),
            );
            out.push(narrow::<A>(over64::<A>(acc, width)));
            i = i + 1;
        }
    }
    proof {
        assert(out@ =~= averaged::<A>(line@, radius as int));
    }
    out
}

/// What is done to one line.
pub enum Pass {
    /// Convolution with taps.
    Taps(Vec<u32>),
    /// A running mean of the given radius.
    Window(usize),
}

/// What a [`Pass`] does, as a mathematical value.
pub enum Filter {
    Taps(Seq<u32>),
    Window(int),
}

impl View for Pass {
    type V = Filter;

    open spec fn view(&self) -> Filter {
        match *self {
            Pass::Taps(weights) => Filter::Taps(weights@),
            Pass::Window(radius) => Filter::Window(radius as int),
        }
    }
}

impl Pass {
    /// Whether there is a tap, and the window fits.
    pub open spec fn valid(self) -> bool {
        match self {
            Pass::Taps(weights) => weights@.len() > 0,
            Pass::Window(radius) => 2 * radius + 1 <= usize::MAX,
        }
    }
}

/// A line after a filter.
pub open spec fn filtered_line<A: Arithmetic>(line: Seq<u32>, filter: Filter) -> Seq<u32> {
    match filter {
        Filter::Taps(weights) => convolved::<A>(line, weights),
        Filter::Window(radius) => averaged::<A>(line, radius),
    }
}

fn run<A: Arithmetic>(line: &Vec<u32>, pass: &Pass) -> (r: Vec<u32>)
    requires
        faithful::<A>(),
        pass.valid(),
    ensures
        r@ == filtered_line::<A>(line@, pass@),
        r@.len() == line@.len(),
{
    match pass {
        Pass::Taps(weights) => conv_lane::<A>(line, weights),
        Pass::Window(radius) => box_lane::<A>(line, *radius),
    }
}

/// A raster with every row, or every column, filtered.
pub open spec fn swept<A: Arithmetic>(
    r: Raster<u32>,
    along_row: bool,
    filter: Filter,
) -> Raster<u32> {
    tabulate(
        r.shape,
        |y: int, x: int, k: int|
            if along_row {
                filtered_line::<A>(lane(r, true, y, k), filter)[x]
            } else {
                filtered_line::<A>(lane(r, false, x, k), filter)[y]
            },
    )
}

/// A raster with its rows filtered and then its columns.
pub open spec fn separated<A: Arithmetic>(r: Raster<u32>, filter: Filter) -> Raster<u32> {
    swept::<A>(swept::<A>(r, true, filter), false, filter)
}

fn gather(img: &Image, along_row: bool, j: usize, k: usize) -> (line: Vec<u32>)
    requires
        has_lane(img@.shape, along_row, j as int, k as int),
    ensures
        line@ == lane(img@, along_row, j as int, k as int),
{
    let n: usize = img.lane_len(along_row);
    let mut line: Vec<u32> = Vec::new();
    let mut i: usize = 0;
    while i < n
        invariant
            has_lane(img@.shape, along_row, j as int, k as int),
            n == lane(img@, along_row, j as int, k as int).len(),
            i <= n,
            line@.len() == i,
            forall|m: int|
                0 <= m < i ==> (#[trigger] line@[m]) == lane(
                    img@,
                    along_row,
                    j as int,
                    k as int,
                )[m],
        decreases n - i,
    {
        line.push(img.on_lane(along_row, j, k, i));
        i = i + 1;
    }
    proof {
        assert(line@ =~= lane(img@, along_row, j as int, k as int));
    }
    line
}

/// Whether `lines[j][k]` is line `j` of channel `k`, filtered.
spec fn are_lines<A: Arithmetic>(
    lines: Seq<Vec<Vec<u32>>>,
    r: Raster<u32>,
    along_row: bool,
    filter: Filter,
    n: int,
) -> bool {
    &&& lines.len() == n
    &&& forall|j: int| 0 <= j < n ==> (#[trigger] lines[j])@.len() == r.shape.2
    &&& forall|j: int, k: int|
        0 <= j < n && 0 <= k < r.shape.2 ==> (#[trigger] lines[j]@[k])@ == filtered_line::<A>(
            lane(r, along_row, j, k),
            filter,
        )
}

fn filter_lines<A: Arithmetic>(img: &Image, along_row: bool, pass: &Pass) -> (lines: Vec<
    Vec<Vec<u32>>,
>)
    requires
        faithful::<A>(),
        pass.valid(),
    ensures
        are_lines::<A>(
            lines@,
            img@,
            along_row,
            pass@,
            if along_row {
                img@.shape.0 as int
            } else {
                img@.shape.1 as int
            },
        ),
{
    let (h, w, c) = img.dim();
    let n: usize = if along_row {
        h
    } else {
        w
    };
    let mut lines: Vec<Vec<Vec<u32>>> = Vec::new();
    let mut j: usize = 0;
    while j < n
        invariant
            faithful::<A>(),
            pass.valid(),
            n == if along_row {
                img@.shape.0
            } else {
                img@.shape.1
            },
            c == img@.shape.2,
            j <= n,
            are_lines::<A>(lines@, img@, along_row, pass@, j as int),
        decreases n - j,
    {
        let mut channels: Vec<Vec<u32>> = Vec::new();
        let mut k: usize = 0;
        while k < c
            invariant
                faithful::<A>(),
                pass.valid(),
                n == if along_row {
                    img@.shape.0
                } else {
                    img@.shape.1
                },
                c == img@.shape.2,
                j < n,
                k <= c,
                channels@.len() == k,
                forall|m: int|
                    0 <= m < k ==> (#[trigger] channels@[m])@ == filtered_line::<A>(
                        lane(img@, along_row, j as int, m),
                        pass@,
                    ),
            decreases c - k,
        {
            let line = gather(img, along_row, j, k);
            channels.push(run::<A>(&line, pass));
            k = k + 1;
        }
        lines.push(channels);
        j = j + 1;
    }
    lines
}

fn sweep<A: Arithmetic>(img: &Image, along_row: bool, pass: &Pass) -> (r: Result<
    Image,
    PhaiosError,
>)
    requires
        faithful::<A>(),
        pass.valid(),
    ensures
        match r {
            Ok(out) => permitted::<u32>(img@.shape) && out@ == swept::<A>(img@, along_row, pass@),
            Err(e) => refusal::<u32>(img@.shape, e@),
        },
{
    let lines = filter_lines::<A>(img, along_row, pass);
    let make = |y: usize, x: usize, k: usize| -> (s: u32)
        requires
            inside(img@.shape, y as int, x as int, k as int),
            are_lines::<A>(
                lines@,
                img@,
                along_row,
                pass@,
                if along_row {
                    img@.shape.0 as int
                } else {
                    img@.shape.1 as int
                },
            ),
        ensures
            s == (if along_row {
                filtered_line::<A>(lane(img@, true, y as int, k as int), pass@)[x as int]
            } else {
                filtered_line::<A>(lane(img@, false, x as int, k as int), pass@)[y as int]
            }),
        {
            if along_row {
                proof {
                    assert(lines@[y as int]@[k as int]@.len() == img@.shape.1);
                }
                lines[y][k][x]
            } else {
                proof {
                    assert(lines@[x as int]@[k as int]@.len() == img@.shape.0);
                }
                lines[x][k][y]
            }
        };
    let r = image(img.dim(), make);
    if let Ok(out) = &r {
        proof {
            is_tabulated(
                out@,
                |y: int, x: int, k: int|
                    if along_row {
                        filtered_line::<A>(lane(img@, true, y, k), pass@)[x]
                    } else {
                        filtered_line::<A>(lane(img@, false, x, k), pass@)[y]
                    },
            );
        }
    }
    r
}

/// Filters the rows of an image and then its columns.
pub fn separable<A: Arithmetic>(img: &Image, pass: &Pass) -> (r: Result<Image, PhaiosError>)
    requires
        faithful::<A>(),
        pass.valid(),
    ensures
        match r {
            Ok(out) => permitted::<u32>(img@.shape) && out@ == separated::<A>(img@, pass@),
            Err(e) => refusal::<u32>(img@.shape, e@),
        },
{
    let mid = match sweep::<A>(img, true, pass) {
        Ok(mid) => mid,
        Err(e) => return Err(e),
    };
    sweep::<A>(&mid, false, pass)
}

/// A raster blurred with a sigma.
pub open spec fn blurred<A: Arithmetic>(r: Raster<u32>, sigma: u32) -> Raster<u32> {
    if single::same(sigma, 0) {
        r
    } else if single::less(sigma, BOX_CROSSOVER_SIGMA) {
        separated::<A>(r, Filter::Taps(taps::<A>(sigma)))
    } else {
        let h = best_widths::<A>(sigma);
        separated::<A>(
            separated::<A>(
                separated::<A>(r, Filter::Window((h.a - 1) / 2)),
                Filter::Window((h.b - 1) / 2),
            ),
            Filter::Window((h.c - 1) / 2),
        )
    }
}

/// Blurs an image.
pub fn blur<A: Arithmetic>(img: &Image, params: &BlurParams) -> (r: Result<Image, PhaiosError>)
    requires
        faithful::<A>(),
    ensures
        match r {
            Ok(out) => sigma_fault::<A>(params.sigma) is None && permitted::<u32>(img@.shape)
                && out@ == blurred::<A>(img@, params.sigma),
            Err(e) => match sigma_fault::<A>(params.sigma) {
                Some(fault) => e@ == fault,
                None => refusal::<u32>(img@.shape, e@),
            },
        },
{
    if let Err(e) = validate::<A>(params) {
        return Err(e);
    }
    if let Err(e) = check_shape::<u32>(img.dim()) {
        return Err(e);
    }
    if single::same(params.sigma, 0) {
        return copied(img);
    }
    match params.shape {
        BlurShape::Gaussian => {
            if single::less(params.sigma, BOX_CROSSOVER_SIGMA) {
                let pass = Pass::Taps(gaussian_weights::<A>(params.sigma));
                separable::<A>(img, &pass)
            } else {
                let widths: [usize; 3] = box_widths::<A>(params.sigma);
                let first = match separable::<A>(img, &Pass::Window((widths[0] - 1) / 2)) {
                    Ok(t) => t,
                    Err(e) => return Err(e),
                };
                let second = match separable::<A>(&first, &Pass::Window((widths[1] - 1) / 2)) {
                    Ok(t) => t,
                    Err(e) => return Err(e),
                };
                separable::<A>(&second, &Pass::Window((widths[2] - 1) / 2))
            }
        },
    }
}

/// A blur of zero, of either sign, changes nothing.
pub proof fn zero_sigma_is_the_identity<A: Arithmetic>(r: Raster<u32>, sigma: u32)
    requires
        single::same(sigma, 0),
    ensures
        sigma_fault::<A>(sigma) is None,
        blurred::<A>(r, sigma) == r,
{
}

/// A blur keeps the shape.
pub proof fn blur_keeps_the_shape<A: Arithmetic>(r: Raster<u32>, sigma: u32)
    ensures
        blurred::<A>(r, sigma).shape == r.shape,
{
}

/// The lines of a channel are the same where the channel is.
proof fn same_channel_same_lane(
    a: Raster<u32>,
    b: Raster<u32>,
    along_row: bool,
    j: int,
    k: int,
)
    requires
        a.shape == b.shape,
        channel_of(a, k) == channel_of(b, k),
        has_lane(a.shape, along_row, j, k),
    ensures
        lane(a, along_row, j, k) == lane(b, along_row, j, k),
{
    let fa = |y: int, x: int| a.at(y, x, k);
    let fb = |y: int, x: int| b.at(y, x, k);
    tabulated2((a.shape.0, a.shape.1), fa);
    tabulated2((b.shape.0, b.shape.1), fb);
    let la = lane(a, along_row, j, k);
    let lb = lane(b, along_row, j, k);
    assert forall|i: int| 0 <= i < la.len() implies la[i] == lb[i] by {
        if along_row {
            assert(within((a.shape.0, a.shape.1), j, i));
            assert(channel_of(a, k).at(j, i) == fa(j, i));
            assert(channel_of(b, k).at(j, i) == fb(j, i));
        } else {
            assert(within((a.shape.0, a.shape.1), i, j));
            assert(channel_of(a, k).at(i, j) == fa(i, j));
            assert(channel_of(b, k).at(i, j) == fb(i, j));
        }
    }
    assert(la =~= lb);
}

proof fn sweep_keeps_channels_apart<A: Arithmetic>(
    a: Raster<u32>,
    b: Raster<u32>,
    along_row: bool,
    filter: Filter,
    k: int,
)
    requires
        a.shape == b.shape,
        0 <= k < a.shape.2,
        channel_of(a, k) == channel_of(b, k),
    ensures
        channel_of(swept::<A>(a, along_row, filter), k) == channel_of(
            swept::<A>(b, along_row, filter),
            k,
        ),
{
    let fa = |y: int, x: int, c: int|
        if along_row {
            filtered_line::<A>(lane(a, true, y, c), filter)[x]
        } else {
            filtered_line::<A>(lane(a, false, x, c), filter)[y]
        };
    let fb = |y: int, x: int, c: int|
        if along_row {
            filtered_line::<A>(lane(b, true, y, c), filter)[x]
        } else {
            filtered_line::<A>(lane(b, false, x, c), filter)[y]
        };
    let sa = swept::<A>(a, along_row, filter);
    let sb = swept::<A>(b, along_row, filter);
    assert(sa == tabulate(a.shape, fa));
    assert(sb == tabulate(b.shape, fb));
    tabulated(a.shape, fa);
    tabulated(b.shape, fb);
    let ca = channel_of(sa, k);
    let cb = channel_of(sb, k);
    tabulated2((a.shape.0, a.shape.1), |y: int, x: int| sa.at(y, x, k));
    tabulated2((b.shape.0, b.shape.1), |y: int, x: int| sb.at(y, x, k));
    assert forall|y: int, x: int| within(cb.shape, y, x) implies #[trigger] cb.at(y, x)
        == sa.at(y, x, k) by {
        assert(inside(a.shape, y, x, k));
        if along_row {
            same_channel_same_lane(a, b, true, y, k);
        } else {
            same_channel_same_lane(a, b, false, x, k);
        }
        assert(sa.at(y, x, k) == fa(y, x, k));
        assert(sb.at(y, x, k) == fb(y, x, k));
    }
    is_tabulated2(cb, |y: int, x: int| sa.at(y, x, k));
}

proof fn separation_keeps_channels_apart<A: Arithmetic>(
    a: Raster<u32>,
    b: Raster<u32>,
    filter: Filter,
    k: int,
)
    requires
        a.shape == b.shape,
        0 <= k < a.shape.2,
        channel_of(a, k) == channel_of(b, k),
    ensures
        channel_of(separated::<A>(a, filter), k) == channel_of(separated::<A>(b, filter), k),
{
    sweep_keeps_channels_apart::<A>(a, b, true, filter, k);
    sweep_keeps_channels_apart::<A>(
        swept::<A>(a, true, filter),
        swept::<A>(b, true, filter),
        false,
        filter,
        k,
    );
}

/// A blur keeps channels apart: what comes out in a channel depends on that
/// channel alone.
pub proof fn blur_keeps_channels_apart<A: Arithmetic>(
    a: Raster<u32>,
    b: Raster<u32>,
    sigma: u32,
    k: int,
)
    requires
        a.shape == b.shape,
        0 <= k < a.shape.2,
        channel_of(a, k) == channel_of(b, k),
    ensures
        channel_of(blurred::<A>(a, sigma), k) == channel_of(blurred::<A>(b, sigma), k),
{
    let h = best_widths::<A>(sigma);
    let f = Filter::Window((h.a - 1) / 2);
    let g = Filter::Window((h.b - 1) / 2);
    separation_keeps_channels_apart::<A>(a, b, Filter::Taps(taps::<A>(sigma)), k);
    separation_keeps_channels_apart::<A>(a, b, f, k);
    separation_keeps_channels_apart::<A>(separated::<A>(a, f), separated::<A>(b, f), g, k);
    separation_keeps_channels_apart::<A>(
        separated::<A>(separated::<A>(a, f), g),
        separated::<A>(separated::<A>(b, f), g),
        Filter::Window((h.c - 1) / 2),
        k,
    );
}

/// The taps of the sampled Gaussian are the same from either end.
pub proof fn taps_are_symmetric<A: Arithmetic>(sigma: u32, i: int)
    requires
        mirrors::<A>(),
        0 <= i < taps::<A>(sigma).len(),
    ensures
        taps::<A>(sigma)[i] == taps::<A>(sigma)[taps::<A>(sigma).len() - 1 - i],
{
    let radius = reach::<A>(sigma);
    mirrored_squares::<A>(i as u64, radius as u64, (2 * radius - i) as u64);
}

/// Whether every sample of a line is zero.
spec fn is_dark_line(line: Seq<u32>) -> bool {
    forall|i: int| 0 <= i < line.len() ==> single::same(#[trigger] line[i], 0)
}

/// Whether every sample of a raster is zero.
pub open spec fn is_dark(r: Raster<u32>) -> bool {
    forall|y: int, x: int, k: int|
        inside(r.shape, y, x, k) ==> single::same(#[trigger] r.at(y, x, k), 0)
}

/// Whether every tap is a finite number.
pub open spec fn has_finite_taps(weights: Seq<u32>) -> bool {
    forall|i: int| 0 <= i < weights.len() ==> single::is_finite(#[trigger] weights[i])
}

/// Whether a filter can be applied: finite taps, or a window around a place.
spec fn is_plain(filter: Filter) -> bool {
    match filter {
        Filter::Taps(weights) => has_finite_taps(weights),
        Filter::Window(radius) => 0 <= radius < 0x8000_0000,
    }
}

proof fn dark_tap_sum<A: Arithmetic>(line: Seq<u32>, weights: Seq<u32>, i: int, m: int)
    requires
        keeps_zero::<A>(),
        is_dark_line(line),
        line.len() > 0,
        has_finite_taps(weights),
        m <= weights.len(),
    ensures
        double::same(tap_sum::<A>(line, weights, i, m), 0),
    decreases m,
{
    reveal(keeps_zero);
    if m > 0 {
        dark_tap_sum::<A>(line, weights, i, m - 1);
        let radius = (weights.len() - 1) / 2;
        let j = nearest(i + (m - 1) - radius, line.len() as int);
        assert(single::same(line[j], 0));
        assert(single::is_finite(weights[m - 1]));
    }
}

proof fn dark_first_window<A: Arithmetic>(line: Seq<u32>, radius: int, m: int)
    requires
        keeps_zero::<A>(),
        is_dark_line(line),
        line.len() > 0,
    ensures
        double::same(first_window::<A>(line, radius, m), 0),
    decreases m,
{
    reveal(keeps_zero);
    if m > 0 {
        dark_first_window::<A>(line, radius, m - 1);
        assert(single::same(line[nearest(m - 1 - radius, line.len() as int)], 0));
    }
}

proof fn dark_running_window<A: Arithmetic>(line: Seq<u32>, radius: int, i: int)
    requires
        keeps_zero::<A>(),
        is_dark_line(line),
        line.len() > 0,
    ensures
        double::same(running_window::<A>(line, radius, i), 0),
    decreases i,
{
    reveal(keeps_zero);
    if i > 0 {
        dark_running_window::<A>(line, radius, i - 1);
        assert(single::same(line[nearest(i + radius, line.len() as int)], 0));
        assert(single::same(line[nearest(i - radius - 1, line.len() as int)], 0));
    } else {
        dark_first_window::<A>(line, radius, 2 * radius + 1);
    }
}

proof fn dark_line_stays_dark<A: Arithmetic>(line: Seq<u32>, filter: Filter)
    requires
        keeps_zero::<A>(),
        is_dark_line(line),
        is_plain(filter),
    ensures
        is_dark_line(filtered_line::<A>(line, filter)),
{
    let out = filtered_line::<A>(line, filter);
    assert forall|i: int| 0 <= i < out.len() implies single::same(#[trigger] out[i], 0) by {
        reveal(keeps_zero);
        match filter {
            Filter::Taps(weights) => {
                dark_tap_sum::<A>(line, weights, i, weights.len() as int);
            },
            Filter::Window(radius) => {
                dark_running_window::<A>(line, radius, i);
            },
        }
    }
}

proof fn dark_sweep<A: Arithmetic>(r: Raster<u32>, along_row: bool, filter: Filter)
    requires
        keeps_zero::<A>(),
        is_dark(r),
        is_plain(filter),
    ensures
        swept::<A>(r, along_row, filter).shape == r.shape,
        is_dark(swept::<A>(r, along_row, filter)),
{
    let f = |y: int, x: int, k: int|
        if along_row {
            filtered_line::<A>(lane(r, true, y, k), filter)[x]
        } else {
            filtered_line::<A>(lane(r, false, x, k), filter)[y]
        };
    let out = swept::<A>(r, along_row, filter);
    assert(out == tabulate(r.shape, f));
    tabulated(r.shape, f);
    assert forall|y: int, x: int, k: int| inside(out.shape, y, x, k) implies single::same(
        #[trigger] out.at(y, x, k),
        0,
    ) by {
        assert(out.at(y, x, k) == f(y, x, k));
        let (line, i) = if along_row {
            (lane(r, true, y, k), x)
        } else {
            (lane(r, false, x, k), y)
        };
        assert forall|j: int| 0 <= j < line.len() implies single::same(#[trigger] line[j], 0) by {
            if along_row {
                assert(inside(r.shape, y, j, k));
            } else {
                assert(inside(r.shape, j, x, k));
            }
        }
        dark_line_stays_dark::<A>(line, filter);
        assert(single::same(filtered_line::<A>(line, filter)[i], 0));
    }
}

proof fn dark_separation<A: Arithmetic>(r: Raster<u32>, filter: Filter)
    requires
        keeps_zero::<A>(),
        is_dark(r),
        is_plain(filter),
    ensures
        is_dark(separated::<A>(r, filter)),
{
    dark_sweep::<A>(r, true, filter);
    dark_sweep::<A>(swept::<A>(r, true, filter), false, filter);
}

/// Darkness stays dark under every blur whose taps, where it samples the Gaussian,
/// are finite.
pub proof fn darkness_stays_dark<A: Arithmetic>(r: Raster<u32>, sigma: u32)
    requires
        keeps_zero::<A>(),
        is_dark(r),
        single::less(sigma, BOX_CROSSOVER_SIGMA) ==> has_finite_taps(taps::<A>(sigma)),
    ensures
        is_dark(blurred::<A>(r, sigma)),
{
    widths_are_balanced::<A>(sigma);
    let h = best_widths::<A>(sigma);
    let f = Filter::Window((h.a - 1) / 2);
    let g = Filter::Window((h.b - 1) / 2);
    if single::less(sigma, BOX_CROSSOVER_SIGMA) {
        dark_separation::<A>(r, Filter::Taps(taps::<A>(sigma)));
    }
    dark_separation::<A>(r, f);
    dark_separation::<A>(separated::<A>(r, f), g);
    dark_separation::<A>(
        separated::<A>(separated::<A>(r, f), g),
        Filter::Window((h.c - 1) / 2),
    );
}

} // verus!
