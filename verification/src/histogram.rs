//! Histogram: how the samples of an image are distributed, per channel.
//!
//! Samples outside the counted range are counted apart rather than folded into
//! the end bins. Counts are integers, so the result does not depend on how the
//! image is divided among threads.

use vstd::prelude::*;

use crate::allocation::{permitted2, plane, refusal2, table};
use crate::arith::{
    faithful, minus, minus_of, narrow, narrow_of, of_count, of_count64, of_count64_of, of_count_of,
    over, over64, over64_of, over_of, text, text_of, times, times_of, to_count, to_count_of,
    Arithmetic,
};
use crate::error::{PhaiosError, Report};
use crate::raster::{
    addressable_volume, cell_of_place, is_tabulated2, offset2, place_of_cell2, tabulate2, volume,
    within, Image, Plane, Raster, Table,
};
use crate::remark::{put_range, range_text};
use crate::rounding::{
    difference_is_positive, half, minus_exact, over_exact, over_itself, rounds, shares_grow,
    shares_in_order, small_numbers, times_one, times_zero, value, values_are_ordered, whole_count,
    whole_halves,
};
use crate::single;
use crate::counting::{occurrences, order_does_not_count};
use crate::text::{decimal, put_decimal};

verus! {

/// Parameters for [`histogram`].
#[derive(Clone, Copy, Debug)]
pub struct HistogramParams {
    /// Number of bins spanning `[min, max]`, at least 2.
    pub bins: u32,
    /// Lower edge of the counted range, a single-precision bit pattern.
    pub min: u32,
    /// Upper edge of the counted range, inclusive.
    pub max: u32,
}

impl Default for HistogramParams {
    fn default() -> (r: Self)
        ensures
            r == (HistogramParams { bins: 256, min: 0, max: single::ONE }),
    {
        HistogramParams { bins: 256, min: 0, max: single::ONE }
    }
}

impl HistogramParams {
    /// Parameters from the number of bins and the edges of the range.
    pub fn new(bins: u32, min: u32, max: u32) -> (r: Self)
        ensures
            r == (HistogramParams { bins, min, max }),
    {
        HistogramParams { bins, min, max }
    }

    /// Whether all three fields match, the edges by their bits.
    pub fn __eq__(&self, other: &Self) -> (r: bool)
        ensures
            r == (*self == *other),
    {
        self.bins == other.bins && self.min == other.min && self.max == other.max
    }

    /// A debug representation.
    pub fn __repr__<A: Arithmetic>(&self) -> (r: String)
        requires
            faithful::<A>(),
        ensures
            r@ == "HistogramParams(bins="@ + decimal(self.bins as nat) + ", min="@ + text_of::<A>(
                self.min,
            ) + ", max="@ + text_of::<A>(self.max) + ")"@,
    {
        let mut out = String::from_str("HistogramParams(bins=");
        put_decimal(&mut out, self.bins as u64);
        out.append(", min=");
        out.append(text::<A>(self.min).as_str());
        out.append(", max=");
        out.append(text::<A>(self.max).as_str());
        out.append(")");
        out
    }
}

/// The largest bin count accepted.
pub const MAX_BINS: u32 = 0x40_0000;

/// The largest accumulator, in bytes.
pub const MAX_ACCUMULATOR_BYTES: usize = 0x1000_0000;

/// What is wrong with the parameters, if anything.
pub open spec fn params_fault<A: Arithmetic>(params: HistogramParams) -> Option<Report> {
    let (min, max) = (params.min, params.max);
    if params.bins < 2 {
        Some(
            Report::Parameter(
                "bins is "@ + decimal(params.bins as nat) + ", expected at least 2"@,
            ),
        )
    } else if params.bins > MAX_BINS {
        Some(
            Report::Parameter(
                "bins is "@ + decimal(params.bins as nat) + ", expected at most "@ + decimal(
                    MAX_BINS as nat,
                ),
            ),
        )
    } else if !single::is_finite(min) || !single::is_finite(max) {
        Some(
            Report::Parameter(range_text::<A>("range is"@, min, max, ", expected finite bounds"@)),
        )
    } else if !single::less(min, max) {
        Some(Report::Parameter(range_text::<A>("range is"@, min, max, ", expected max > min"@)))
    } else if !single::is_finite(minus_of::<A>(max, min)) {
        Some(
            Report::Parameter(
                range_text::<A>("range"@, min, max, " spans more than f32 can represent"@),
            ),
        )
    } else {
        None
    }
}

/// Holds the parameters to their domain.
pub fn validate<A: Arithmetic>(params: &HistogramParams) -> (r: Result<(), PhaiosError>)
    requires
        faithful::<A>(),
    ensures
        match r {
            Ok(()) => params_fault::<A>(*params) is None,
            Err(e) => params_fault::<A>(*params) == Some(e@),
        },
{
    let (min, max): (u32, u32) = (params.min, params.max);
    if params.bins < 2 {
        let mut said = String::from_str("bins is ");
        put_decimal(&mut said, params.bins as u64);
        said.append(", expected at least 2");
        return Err(PhaiosError::Parameter(said));
    }
    if params.bins > MAX_BINS {
        let mut said = String::from_str("bins is ");
        put_decimal(&mut said, params.bins as u64);
        said.append(", expected at most ");
        put_decimal(&mut said, MAX_BINS as u64);
        return Err(PhaiosError::Parameter(said));
    }
    if !single::is_finite(min) || !single::is_finite(max) {
        return Err(
            PhaiosError::Parameter(
                put_range::<A>("range is", min, max, ", expected finite bounds"),
            ),
        );
    }
    if !single::less(min, max) {
        return Err(
            PhaiosError::Parameter(put_range::<A>("range is", min, max, ", expected max > min")),
        );
    }
    if !single::is_finite(minus::<A>(max, min)) {
        return Err(
            PhaiosError::Parameter(
                put_range::<A>("range", min, max, " spans more than f32 can represent"),
            ),
        );
    }
    Ok(())
}

/// The bytes that the counters of an image take, at most `usize::MAX`.
pub open spec fn accumulator_bytes(channels: int, bins: int) -> int {
    let slots = if channels * (bins + 3) > usize::MAX {
        usize::MAX as int
    } else {
        channels * (bins + 3)
    };
    if slots * 8 > usize::MAX {
        usize::MAX as int
    } else {
        slots * 8
    }
}

/// What is wrong with the histogram of an image of some shape, if anything.
pub open spec fn histogram_fault<A: Arithmetic>(
    shape: (usize, usize, usize),
    params: HistogramParams,
) -> Option<Report> {
    let bytes = accumulator_bytes(shape.2 as int, params.bins as int);
    match params_fault::<A>(params) {
        Some(fault) => Some(fault),
        None => if bytes > MAX_ACCUMULATOR_BYTES {
            Some(
                Report::Parameter(
                    "a "@ + decimal(shape.2 as nat) + "-channel image at "@ + decimal(
                        params.bins as nat,
                    ) + " bins needs a "@ + decimal((bytes / 0x10_0000) as nat)
                        + " MiB accumulator, above the "@ + decimal(256) + " MiB limit"@,
                ),
            )
        } else {
            None
        },
    }
}

/// Holds the parameters to their domain and the counters of an image of the
/// given shape to their limit.
pub fn validate_shape<A: Arithmetic>(
    shape: (usize, usize, usize),
    params: &HistogramParams,
) -> (r: Result<(), PhaiosError>)
    requires
        faithful::<A>(),
    ensures
        match r {
            Ok(()) => histogram_fault::<A>(shape, *params) is None,
            Err(e) => histogram_fault::<A>(shape, *params) == Some(e@),
        },
{
    if let Err(e) = validate::<A>(params) {
        return Err(e);
    }
    let stride: usize = params.bins as usize + 3;
    let slots: usize = match shape.2.checked_mul(stride) {
        Some(n) => n,
        None => usize::MAX,
    };
    let bytes: usize = match slots.checked_mul(8) {
        Some(n) => n,
        None => usize::MAX,
    };
    if bytes > MAX_ACCUMULATOR_BYTES {
        let mut said = String::from_str("a ");
        put_decimal(&mut said, shape.2 as u64);
        said.append("-channel image at ");
        put_decimal(&mut said, params.bins as u64);
        said.append(" bins needs a ");
        put_decimal(&mut said, bytes as u64 / 0x10_0000);
        said.append(" MiB accumulator, above the ");
        put_decimal(&mut said, MAX_ACCUMULATOR_BYTES as u64 / 0x10_0000);
        said.append(" MiB limit");
        return Err(PhaiosError::Parameter(said));
    }
    Ok(())
}

/// The slot of a sample: its bin, or one of the three slots behind the bins for
/// what is below the range, above it, or not a number. The upper edge belongs
/// to the last bin.
pub open spec fn slot<A: Arithmetic>(value: u32, min: u32, max: u32, bins: int) -> int {
    if single::is_nan(value) {
        bins + 2
    } else if single::less(value, min) {
        bins
    } else if single::less(max, value) {
        bins + 1
    } else {
        let t = over_of::<A>(minus_of::<A>(value, min), minus_of::<A>(max, min));
        let i = to_count_of::<A>(times_of::<A>(t, of_count_of::<A>(bins as u64)));
        if i >= bins {
            bins - 1
        } else {
            i as int
        }
    }
}

/// The slot of a sample.
pub fn slot_of<A: Arithmetic>(value: u32, min: u32, max: u32, bins: usize) -> (r: usize)
    requires
        faithful::<A>(),
        0 < bins,
        bins + 2 <= usize::MAX,
    ensures
        r == slot::<A>(value, min, max, bins as int),
        r < bins + 3,
{
    if single::is_nan(value) {
        return bins + 2;
    }
    if single::less(value, min) {
        return bins;
    }
    if single::less(max, value) {
        return bins + 1;
    }
    let t: u32 = over::<A>(minus::<A>(value, min), minus::<A>(max, min));
    let i: u64 = to_count::<A>(times::<A>(t, of_count::<A>(bins as u64)));
    if i >= bins as u64 {
        bins - 1
    } else {
        i as usize
    }
}

/// The counted range and its bins.
pub struct Scale {
    pub min: u32,
    pub max: u32,
    pub bins: usize,
}

/// How many of the samples from place `from` up to place `to`, in row-major
/// order over `channels` channels, belong to channel `ch` and to slot `s`.
pub open spec fn hits<A: Arithmetic>(
    samples: Seq<u32>,
    channels: int,
    scale: Scale,
    ch: int,
    s: int,
    from: int,
    to: int,
) -> nat
    decreases to - from,
{
    if to <= from {
        0
    } else {
        let before = hits::<A>(samples, channels, scale, ch, s, from, to - 1);
        if (to - 1) % channels == ch && slot::<A>(
            samples[to - 1],
            scale.min,
            scale.max,
            scale.bins as int,
        ) == s {
            before + 1
        } else {
            before
        }
    }
}

/// Counting does not depend on where the samples are divided.
pub proof fn hits_divide<A: Arithmetic>(
    samples: Seq<u32>,
    channels: int,
    scale: Scale,
    ch: int,
    s: int,
    from: int,
    mid: int,
    to: int,
)
    requires
        from <= mid <= to,
    ensures
        hits::<A>(samples, channels, scale, ch, s, from, to) == hits::<A>(
            samples,
            channels,
            scale,
            ch,
            s,
            from,
            mid,
        ) + hits::<A>(samples, channels, scale, ch, s, mid, to),
    decreases to - mid,
{
    if mid < to {
        hits_divide::<A>(samples, channels, scale, ch, s, from, mid, to - 1);
    }
}

proof fn hits_bounded<A: Arithmetic>(
    samples: Seq<u32>,
    channels: int,
    scale: Scale,
    ch: int,
    s: int,
    from: int,
    to: int,
)
    requires
        from <= to,
    ensures
        hits::<A>(samples, channels, scale, ch, s, from, to) <= to - from,
    decreases to - from,
{
    if from < to {
        hits_bounded::<A>(samples, channels, scale, ch, s, from, to - 1);
    }
}

/// Whether flat counters, `bins + 3` per channel, hold the hits of a range of
/// samples.
pub open spec fn counters_hold<A: Arithmetic>(
    acc: Seq<u64>,
    samples: Seq<u32>,
    channels: int,
    scale: Scale,
    from: int,
    to: int,
) -> bool {
    &&& acc.len() == channels * (scale.bins + 3)
    &&& forall|ch: int, s: int|
        0 <= ch < channels && 0 <= s < scale.bins + 3 ==> #[trigger] acc[ch * (scale.bins + 3) + s]
            == hits::<A>(samples, channels, scale, ch, s, from, to)
}

fn tally<A: Arithmetic>(img: &Image, scale: &Scale, from: usize, to: usize) -> (acc: Vec<u64>)
    requires
        faithful::<A>(),
        from <= to <= volume(img@.shape),
        0 < scale.bins,
        scale.bins + 3 <= usize::MAX,
        img@.shape.2 * (scale.bins + 3) <= usize::MAX,
    ensures
        counters_hold::<A>(
            acc@,
            img@.cells,
            img@.shape.2 as int,
            *scale,
            from as int,
            to as int,
        ),
{
    let (h, w, c) = img.dim();
    let stride: usize = scale.bins + 3;
    let ghost grid = (c, stride);
    let mut acc: Vec<u64> = vec![0u64; c * stride];
    proof {
        assert forall|ch: int, s: int| 0 <= ch < c && 0 <= s < stride implies #[trigger] acc@[ch
            * stride + s] == 0 by {
            place_of_cell2(grid, ch, s);
        }
    }
    let mut i: usize = from;
    while i < to
        invariant
            faithful::<A>(),
            from <= i <= to,
            to <= volume(img@.shape),
            img@.shape == (h, w, c),
            img@.valid(),
            stride == scale.bins + 3,
            0 < scale.bins,
            grid == (c, stride),
            c * stride <= usize::MAX,
            counters_hold::<A>(acc@, img@.cells, c as int, *scale, from as int, i as int),
        decreases to - i,
    {
        proof {
            cell_of_place(img@.shape, i as int);
        }
        let k: usize = i % c;
        let p: usize = i / c;
        let x: usize = p % w;
        let y: usize = p / w;
        let v: u32 = img.cell(y, x, k);
        assert(v == img@.cells[i as int]);
        let s: usize = slot_of::<A>(v, scale.min, scale.max, scale.bins);
        proof {
            place_of_cell2(grid, k as int, s as int);
            hits_bounded::<A>(
                img@.cells,
                c as int,
                *scale,
                k as int,
                s as int,
                from as int,
                i as int,
            );
            assert(acc@[k * stride + s] <= i);
            assert(0 <= k * stride <= offset2(grid, k as int, s as int)) by (nonlinear_arith)
                requires
                    k >= 0,
                    stride >= 0,
                    s >= 0,
                    offset2(grid, k as int, s as int) == k * stride + s,
            ;
        }
        let at: usize = k * stride + s;
        let ghost before = acc@;
        acc.set(at, acc[at] + 1);
        proof {
            assert forall|ch: int, s1: int| 0 <= ch < c && 0 <= s1 < stride implies #[trigger] acc@[
            ch * stride + s1] == hits::<A>(
                img@.cells,
                c as int,
                *scale,
                ch,
                s1,
                from as int,
                i + 1,
            ) by {
                place_of_cell2(grid, ch, s1);
                assert(before[ch * stride + s1] == hits::<A>(
                    img@.cells,
                    c as int,
                    *scale,
                    ch,
                    s1,
                    from as int,
                    i as int,
                ));
                if ch * stride + s1 == at {
                    assert(ch == k && s1 == s);
                }
            }
        }
        i = i + 1;
    }
    acc
}

/// `rayon::join`: both calls run, perhaps on two threads, and both results come
/// back.
#[verifier::external_body]
fn join<A, B, F, G>(f: F, g: G) -> (r: (A, B)) where
    A: Send,
    B: Send,
    F: FnOnce() -> A + Send,
    G: FnOnce() -> B + Send,

    requires
        call_requires(f, ()),
        call_requires(g, ()),
    ensures
        call_ensures(f, (), r.0),
        call_ensures(g, (), r.1),
{
    rayon::join(f, g)
}

/// `rayon::current_num_threads`: how many threads there are to share work. The
/// number depends on the machine and nothing is claimed of it.
#[verifier::external_body]
fn current_num_threads() -> usize {
    rayon::current_num_threads()
}

/// Adds the counters of one part of an image to those of another.
fn merge(mut a: Vec<u64>, b: &Vec<u64>) -> (r: Vec<u64>)
    requires
        a@.len() == b@.len(),
        forall|i: int| 0 <= i < a@.len() ==> #[trigger] a@[i] + b@[i] <= u64::MAX,
    ensures
        r@.len() == a@.len(),
        forall|i: int| 0 <= i < a@.len() ==> #[trigger] r@[i] == a@[i] + b@[i],
{
    let ghost first = a@;
    let mut i: usize = 0;
    while i < b.len()
        invariant
            i <= b@.len(),
            a@.len() == b@.len(),
            first.len() == b@.len(),
            forall|j: int| 0 <= j < first.len() ==> #[trigger] first[j] + b@[j] <= u64::MAX,
            forall|j: int| 0 <= j < i ==> #[trigger] a@[j] == first[j] + b@[j],
            forall|j: int| i <= j < a@.len() ==> #[trigger] a@[j] == first[j],
        decreases b@.len() - i,
    {
        assert(a@[i as int] == first[i as int]);
        assert(first[i as int] + b@[i as int] <= u64::MAX);
        a.set(i, a[i] + b[i]);
        i = i + 1;
    }
    a
}

proof fn row_starts(h: int, w: int, c: int, lo: int, hi: int)
    requires
        0 <= lo <= hi <= h,
        0 <= w,
        0 <= c,
    ensures
        0 <= lo * (w * c) <= hi * (w * c) <= h * w * c,
        h > 0 ==> 0 <= w * c <= h * w * c,
{
    assert(0 <= w * c) by (nonlinear_arith)
        requires
            0 <= w,
            0 <= c,
    ;
    let pitch = w * c;
    assert(0 <= lo * pitch <= hi * pitch <= h * pitch && (h > 0 ==> pitch <= h * pitch))
        by (nonlinear_arith)
        requires
            0 <= lo <= hi <= h,
            0 <= pitch,
    ;
    assert(h * (w * c) == h * w * c) by (nonlinear_arith);
}

/// Counts the rows from `lo` up to `hi`, in parts of at most `rows` rows that
/// are counted side by side.
fn reduce<A: Arithmetic>(img: &Image, scale: &Scale, rows: usize, lo: usize, hi: usize) -> (acc:
    Vec<u64>)
    requires
        faithful::<A>(),
        lo <= hi <= img@.shape.0,
        0 < rows,
        0 < scale.bins,
        scale.bins + 3 <= usize::MAX,
        img@.shape.2 * (scale.bins + 3) <= usize::MAX,
    ensures
        counters_hold::<A>(
            acc@,
            img@.cells,
            img@.shape.2 as int,
            *scale,
            lo * (img@.shape.1 * img@.shape.2),
            hi * (img@.shape.1 * img@.shape.2),
        ),
    decreases hi - lo,
{
    let (h, w, c) = img.dim();
    proof {
        addressable_volume(h as int, w as int, c as int);
    }
    if hi - lo <= rows || hi - lo < 2 {
        proof {
            row_starts(h as int, w as int, c as int, lo as int, hi as int);
        }
        if h == 0 {
            return tally::<A>(img, scale, 0, 0);
        }
        let pitch: usize = w * c;
        return tally::<A>(img, scale, lo * pitch, hi * pitch);
    }
    let mid: usize = lo + (hi - lo) / 2;
    let top = || -> (part: Vec<u64>)
        requires
            faithful::<A>(),
            lo <= mid <= img@.shape.0,
            0 < rows,
            0 < scale.bins,
            scale.bins + 3 <= usize::MAX,
            img@.shape.2 * (scale.bins + 3) <= usize::MAX,
        ensures
            counters_hold::<A>(
                part@,
                img@.cells,
                img@.shape.2 as int,
                *scale,
                lo * (img@.shape.1 * img@.shape.2),
                mid * (img@.shape.1 * img@.shape.2),
            ),
        { reduce::<A>(img, scale, rows, lo, mid) };
    let bottom = || -> (part: Vec<u64>)
        requires
            faithful::<A>(),
            mid <= hi <= img@.shape.0,
            0 < rows,
            0 < scale.bins,
            scale.bins + 3 <= usize::MAX,
            img@.shape.2 * (scale.bins + 3) <= usize::MAX,
        ensures
            counters_hold::<A>(
                part@,
                img@.cells,
                img@.shape.2 as int,
                *scale,
                mid * (img@.shape.1 * img@.shape.2),
                hi * (img@.shape.1 * img@.shape.2),
            ),
        { reduce::<A>(img, scale, rows, mid, hi) };
    let (a, b) = join(top, bottom);
    proof {
        row_starts(h as int, w as int, c as int, lo as int, mid as int);
        row_starts(h as int, w as int, c as int, mid as int, hi as int);
        parts_add::<A>(
            a@,
            b@,
            img@.cells,
            c as int,
            *scale,
            lo * (w * c),
            mid * (w * c),
            hi * (w * c),
        );
    }
    merge(a, &b)
}

/// The counters of two adjoining ranges of samples add to those of the whole.
proof fn parts_add<A: Arithmetic>(
    a: Seq<u64>,
    b: Seq<u64>,
    samples: Seq<u32>,
    channels: int,
    scale: Scale,
    from: int,
    mid: int,
    to: int,
)
    requires
        0 <= channels <= usize::MAX,
        scale.bins + 3 <= usize::MAX,
        0 <= from <= mid <= to <= u64::MAX,
        counters_hold::<A>(a, samples, channels, scale, from, mid),
        counters_hold::<A>(b, samples, channels, scale, mid, to),
    ensures
        a.len() == b.len(),
        forall|i: int| 0 <= i < a.len() ==> #[trigger] a[i] + b[i] <= u64::MAX,
        forall|r: Seq<u64>|
            r.len() == a.len() && (forall|i: int|
                0 <= i < a.len() ==> #[trigger] r[i] == a[i] + b[i])
                ==> #[trigger] counters_hold::<A>(r, samples, channels, scale, from, to),
{
    let stride = scale.bins + 3;
    let grid = (channels as usize, stride as usize);
    assert forall|ch: int, s: int| 0 <= ch < channels && 0 <= s < stride implies 0 <= ch * stride
        + s < a.len() && #[trigger] a[ch * stride + s] + b[ch * stride + s] == hits::<A>(
        samples,
        channels,
        scale,
        ch,
        s,
        from,
        to,
    ) by {
        place_of_cell2(grid, ch, s);
        hits_divide::<A>(samples, channels, scale, ch, s, from, mid, to);
        assert(b[ch * stride + s] == hits::<A>(samples, channels, scale, ch, s, mid, to));
    }
    assert forall|i: int| 0 <= i < a.len() implies #[trigger] a[i] + b[i] <= u64::MAX by {
        crate::raster::cell_of_place2(grid, i);
        let (ch, s) = (i / stride, i % stride);
        assert(a[ch * stride + s] + b[ch * stride + s] == hits::<A>(
            samples,
            channels,
            scale,
            ch,
            s,
            from,
            to,
        ));
        hits_bounded::<A>(samples, channels, scale, ch, s, from, to);
    }
    assert forall|r: Seq<u64>|
        r.len() == a.len() && (forall|i: int|
            0 <= i < a.len() ==> #[trigger] r[i] == a[i] + b[i]) implies #[trigger] counters_hold::<
        A,
    >(r, samples, channels, scale, from, to) by {
        assert forall|ch: int, s: int| 0 <= ch < channels && 0 <= s < stride implies #[trigger] r[ch
            * stride + s] == hits::<A>(samples, channels, scale, ch, s, from, to) by {
            assert(a[ch * stride + s] + b[ch * stride + s] == hits::<A>(
                samples,
                channels,
                scale,
                ch,
                s,
                from,
                to,
            ));
        }
    }
}

/// The result of [`histogram`]: per-channel bin counts, and the samples that
/// fell outside the counted range.
#[derive(Debug)]
pub struct Histogram {
    /// Bin counts, `(channels, bins)`.
    pub counts: Table,
    /// Per-channel count of samples below the range.
    pub below: Vec<u64>,
    /// Per-channel count of samples above the range.
    pub above: Vec<u64>,
    /// Per-channel count of samples that are not numbers.
    pub non_finite: Vec<u64>,
    /// Number of bins per channel.
    pub bins: usize,
    /// Number of channels.
    pub channels: usize,
    /// Lower edge of the counted range, a single-precision bit pattern.
    pub min: u32,
    /// Upper edge of the counted range.
    pub max: u32,
}

/// The sum of the first `n` numbers that a function gives.
pub open spec fn sum(f: spec_fn(int) -> nat, n: int) -> nat
    decreases n,
{
    if n <= 0 {
        0
    } else {
        sum(f, n - 1) + f(n - 1)
    }
}

impl Histogram {
    /// The count in a bin.
    pub open spec fn bin(&self, ch: int, b: int) -> nat {
        self.counts@.at(ch, b) as nat
    }

    /// The count in a slot: a bin, or below, above and not a number.
    pub open spec fn count(&self, ch: int, s: int) -> nat {
        if s < self.bins {
            self.bin(ch, s)
        } else if s == self.bins {
            self.outside(ch, 0)
        } else if s == self.bins + 1 {
            self.outside(ch, 1)
        } else {
            self.outside(ch, 2)
        }
    }

    /// The counts outside the range: below, above and not a number.
    pub open spec fn outside(&self, ch: int, which: int) -> nat {
        if which == 0 {
            self.below@[ch] as nat
        } else if which == 1 {
            self.above@[ch] as nat
        } else {
            self.non_finite@[ch] as nat
        }
    }

    /// The samples of a channel in the first `n` bins.
    pub open spec fn running(&self, ch: int, n: int) -> nat {
        sum(|b: int| self.bin(ch, b), n)
    }

    /// Every sample of a channel, in range or not.
    pub open spec fn seen(&self, ch: int) -> nat {
        self.running(ch, self.bins as int) + self.outside(ch, 0) + self.outside(ch, 1)
            + self.outside(ch, 2)
    }

    /// A histogram has a count for every slot of every channel, and the samples
    /// of a channel can be counted.
    pub open spec fn valid(&self) -> bool {
        &&& self.counts@.valid()
        &&& self.counts@.shape == (self.channels, self.bins)
        &&& self.below@.len() == self.channels
        &&& self.above@.len() == self.channels
        &&& self.non_finite@.len() == self.channels
        &&& self.bins < usize::MAX
        &&& forall|ch: int| 0 <= ch < self.channels ==> #[trigger] self.seen(ch) <= u64::MAX
    }

    /// Bin counts, `(channels, bins)`.
    pub fn counts(&self) -> (r: &Table)
        requires
            self.valid(),
        ensures
            r@.valid(),
            r@.shape == (self.channels, self.bins),
            forall|ch: int, b: int| #[trigger] r@.at(ch, b) == self.bin(ch, b),
    {
        &self.counts
    }

    /// Per-channel count of samples below the range.
    pub fn below(&self) -> (r: &Vec<u64>)
        requires
            self.valid(),
        ensures
            r@.len() == self.channels,
            forall|ch: int| 0 <= ch < self.channels ==> #[trigger] r@[ch] == self.outside(ch, 0),
    {
        &self.below
    }

    /// Per-channel count of samples above the range.
    pub fn above(&self) -> (r: &Vec<u64>)
        requires
            self.valid(),
        ensures
            r@.len() == self.channels,
            forall|ch: int| 0 <= ch < self.channels ==> #[trigger] r@[ch] == self.outside(ch, 1),
    {
        &self.above
    }

    /// Per-channel count of samples that are not numbers.
    pub fn non_finite(&self) -> (r: &Vec<u64>)
        requires
            self.valid(),
        ensures
            r@.len() == self.channels,
            forall|ch: int| 0 <= ch < self.channels ==> #[trigger] r@[ch] == self.outside(ch, 2),
    {
        &self.non_finite
    }

    fn in_range(&self, ch: usize) -> (r: u64)
        requires
            self.valid(),
            ch < self.channels,
        ensures
            r == self.running(ch as int, self.bins as int),
    {
        let mut acc: u64 = 0;
        let mut b: usize = 0;
        assert(self.seen(ch as int) <= u64::MAX);
        while b < self.bins
            invariant
                self.valid(),
                ch < self.channels,
                b <= self.bins,
                acc == self.running(ch as int, b as int),
                self.running(ch as int, self.bins as int) <= u64::MAX,
            decreases self.bins - b,
        {
            proof {
                self.running_grows(ch as int, b + 1, self.bins as int);
            }
            acc = acc + self.counts.cell(ch, b);
            b = b + 1;
        }
        acc
    }

    /// The running count never falls from one bin to a later one.
    pub proof fn running_grows(&self, ch: int, a: int, b: int)
        requires
            a <= b,
        ensures
            self.running(ch, a) <= self.running(ch, b),
        decreases b - a,
    {
        if a < b {
            self.running_grows(ch, a, b - 1);
        }
    }

    /// Per-channel total of every sample seen, in range or not.
    pub fn total(&self, channel: usize) -> (r: u64)
        requires
            self.valid(),
            channel < self.channels,
        ensures
            r == self.seen(channel as int),
    {
        assert(self.seen(channel as int) <= u64::MAX);
        self.in_range(channel) + self.below[channel] + self.above[channel]
            + self.non_finite[channel]
    }

    /// The total of a channel, or the refusal of a channel that is not there.
    pub fn checked_total(&self, channel: usize) -> (r: Result<u64, String>)
        requires
            self.valid(),
        ensures
            match r {
                Ok(n) => channel < self.channels && n == self.seen(channel as int),
                Err(said) => channel >= self.channels && said@ == "channel "@ + decimal(
                    channel as nat,
                ) + " out of range for "@ + decimal(self.channels as nat) + " channels"@,
            },
    {
        if channel >= self.channels {
            let mut said = String::from_str("channel ");
            put_decimal(&mut said, channel as u64);
            said.append(" out of range for ");
            put_decimal(&mut said, self.channels as u64);
            said.append(" channels");
            return Err(said);
        }
        Ok(self.total(channel))
    }

    /// The fraction of the in-range samples up to and including bin `b`, or zero
    /// where no sample is in range.
    pub open spec fn fraction<A: Arithmetic>(&self, ch: int, b: int) -> u32 {
        let in_range = self.running(ch, self.bins as int);
        if in_range == 0 {
            0
        } else {
            narrow_of::<A>(
                over64_of::<A>(
                    of_count64_of::<A>(self.running(ch, b + 1) as u64),
                    of_count64_of::<A>(in_range as u64),
                ),
            )
        }
    }

    /// The distribution of a channel never falls from one bin to a later one, stays
    /// within zero and one, and ends at one; that of a channel without a sample in
    /// range is zero throughout.
    pub proof fn distribution_grows_to_one<A: Arithmetic>(&self, ch: int, a: int, b: int)
        requires
            shares_in_order::<A>(),
            0 <= a <= b < self.bins,
            self.running(ch, self.bins as int) <= u64::MAX,
        ensures
            single::at_most(0, self.fraction::<A>(ch, a)),
            single::at_most(self.fraction::<A>(ch, a), self.fraction::<A>(ch, b)),
            single::at_most(self.fraction::<A>(ch, b), single::ONE),
            self.running(ch, self.bins as int) > 0 ==> self.fraction::<A>(ch, self.bins - 1)
                == single::ONE,
            self.running(ch, self.bins as int) == 0 ==> self.fraction::<A>(ch, a) == 0,
    {
        let n = self.running(ch, self.bins as int);
        if n > 0 {
            let (m, k) = (self.running(ch, a + 1), self.running(ch, b + 1));
            self.running_grows(ch, a + 1, b + 1);
            self.running_grows(ch, b + 1, self.bins as int);
            shares_grow::<A>(m as u64, k as u64, n as u64);
            shares_grow::<A>(m as u64, n as u64, n as u64);
        }
    }

    /// The running counts of every channel, channel after channel.
    fn running_counts(&self) -> (r: Vec<u64>)
        requires
            self.valid(),
        ensures
            r@.len() == self.channels * self.bins,
            forall|ch: int, b: int|
                within((self.channels, self.bins), ch, b) ==> #[trigger] r@[ch * self.bins + b]
                    == self.running(ch, b + 1),
    {
        let mut r: Vec<u64> = Vec::new();
        let ghost grid = (self.channels, self.bins);
        let mut ch: usize = 0;
        while ch < self.channels
            invariant
                self.valid(),
                ch <= self.channels,
                grid == (self.channels, self.bins),
                r@.len() == ch * self.bins,
                forall|c: int, b: int|
                    within(grid, c, b) && c < ch ==> #[trigger] r@[c * self.bins + b]
                        == self.running(c, b + 1),
            decreases self.channels - ch,
        {
            let mut acc: u64 = 0;
            let mut b: usize = 0;
            assert(self.seen(ch as int) <= u64::MAX);
            while b < self.bins
                invariant
                    self.valid(),
                    ch < self.channels,
                    b <= self.bins,
                    grid == (self.channels, self.bins),
                    r@.len() == ch * self.bins + b,
                    acc == self.running(ch as int, b as int),
                    self.running(ch as int, self.bins as int) <= u64::MAX,
                    forall|c: int, b1: int|
                        within(grid, c, b1) && (c < ch || c == ch && b1 < b)
                            ==> #[trigger] r@[c * self.bins + b1] == self.running(c, b1 + 1),
                decreases self.bins - b,
            {
                proof {
                    self.running_grows(ch as int, b + 1, self.bins as int);
                }
                acc = acc + self.counts.cell(ch, b);
                let ghost before = r@;
                r.push(acc);
                proof {
                    assert forall|c: int, b1: int|
                        within(grid, c, b1) && (c < ch || c == ch && b1 < b + 1) implies #[trigger] r@[c
                        * self.bins + b1] == self.running(c, b1 + 1) by {
                        if c < ch {
                            assert(c * self.bins + b1 < ch * self.bins) by (nonlinear_arith)
                                requires
                                    c + 1 <= ch,
                                    b1 < self.bins,
                            ;
                            assert(0 <= c * self.bins) by (nonlinear_arith)
                                requires
                                    c >= 0,
                                    self.bins >= 0,
                            ;
                            assert(r@[c * self.bins + b1] == before[c * self.bins + b1]);
                        } else if b1 < b {
                            assert(0 <= c * self.bins) by (nonlinear_arith)
                                requires
                                    c >= 0,
                                    self.bins >= 0,
                            ;
                            assert(r@[c * self.bins + b1] == before[c * self.bins + b1]);
                        }
                    }
                }
                b = b + 1;
            }
            assert(ch * self.bins + self.bins == (ch + 1) * self.bins) by (nonlinear_arith);
            ch = ch + 1;
        }
        r
    }

    /// Normalised cumulative distribution over the in-range samples, at the
    /// upper edge of each bin, `(channels, bins)`.
    pub fn cdf<A: Arithmetic>(&self) -> (r: Result<Plane, PhaiosError>)
        requires
            faithful::<A>(),
            self.valid(),
        ensures
            match r {
                Ok(p) => permitted2::<u32>((self.channels, self.bins)) && p@ == tabulate2(
                    (self.channels, self.bins),
                    |ch: int, b: int| self.fraction::<A>(ch, b),
                ),
                Err(e) => refusal2::<u32>((self.channels, self.bins), e@),
            },
    {
        let running = self.running_counts();
        let bins: usize = self.bins;
        let make = |ch: usize, b: usize| -> (s: u32)
            requires
                faithful::<A>(),
                self.valid(),
                within((self.channels, self.bins), ch as int, b as int),
                bins == self.bins,
                running@.len() == self.channels * self.bins,
                running@.len() <= usize::MAX,
                forall|c: int, b1: int|
                    within((self.channels, self.bins), c, b1) ==> #[trigger] running@[c
                        * self.bins + b1] == self.running(c, b1 + 1),
            ensures
                s == self.fraction::<A>(ch as int, b as int),
            {
                proof {
                    place_of_cell2((self.channels, bins), ch as int, b as int);
                    place_of_cell2((self.channels, bins), ch as int, bins - 1);
                    assert(0 <= ch * bins <= offset2((self.channels, bins), ch as int, b as int))
                        by (nonlinear_arith)
                        requires
                            ch >= 0,
                            bins >= 0,
                            b >= 0,
                            offset2((self.channels, bins), ch as int, b as int) == ch * bins + b,
                    ;
                    assert(running@[ch * bins + (bins - 1)] == self.running(
                        ch as int,
                        bins as int,
                    ));
                    assert(running@[ch * bins + b] == self.running(ch as int, b + 1));
                }
                let in_range: u64 = running[ch * bins + (bins - 1)];
                if in_range == 0 {
                    0
                } else {
                    narrow::<A>(
                        over64::<A>(
                            of_count64::<A>(running[ch * bins + b]),
                            of_count64::<A>(in_range),
                        ),
                    )
                }
            };
        assert(running.len() <= usize::MAX);
        let r = plane((self.channels, self.bins), make);
        if let Ok(p) = &r {
            proof {
                is_tabulated2(p@, |ch: int, b: int| self.fraction::<A>(ch, b));
            }
        }
        r
    }

    /// The equalising transfer, `(channels, bins + 1)`: the cumulative
    /// distribution behind a leading zero.
    pub fn equalisation_lut<A: Arithmetic>(&self) -> (r: Result<Plane, PhaiosError>)
        requires
            faithful::<A>(),
            self.valid(),
        ensures
            match r {
                Ok(p) => p@ == tabulate2(
                    (self.channels, (self.bins + 1) as usize),
                    |ch: int, i: int|
                        if i == 0 {
                            0
                        } else {
                            self.fraction::<A>(ch, i - 1)
                        },
                ),
                Err(e) => refusal2::<u32>((self.channels, self.bins), e@) || refusal2::<u32>(
                    (self.channels, (self.bins + 1) as usize),
                    e@,
                ),
            },
    {
        let cdf = match self.cdf::<A>() {
            Ok(p) => p,
            Err(e) => return Err(e),
        };
        let shape = (self.channels, self.bins + 1);
        let ghost f = |ch: int, b: int| self.fraction::<A>(ch, b);
        proof {
            crate::raster::tabulated2((self.channels, self.bins), f);
        }
        let make = |ch: usize, i: usize| -> (s: u32)
            requires
                within(shape, ch as int, i as int),
                shape.0 == self.channels,
                shape.1 == self.bins + 1,
                cdf@.shape == (self.channels, self.bins),
                forall|c: int, b: int|
                    within((self.channels, self.bins), c, b) ==> #[trigger] cdf@.at(c, b)
                        == self.fraction::<A>(c, b),
            ensures
                s == (if i == 0 {
                    0
                } else {
                    self.fraction::<A>(ch as int, i - 1)
                }),
            {
                if i == 0 {
                    0
                } else {
                    cdf.cell(ch, i - 1)
                }
            };
        let r = plane(shape, make);
        if let Ok(p) = &r {
            proof {
                is_tabulated2(
                    p@,
                    |ch: int, i: int|
                        if i == 0 {
                            0
                        } else {
                            self.fraction::<A>(ch, i - 1)
                        },
                );
            }
        }
        r
    }

    /// A debug representation.
    pub fn __repr__<A: Arithmetic>(&self) -> (r: String)
        requires
            faithful::<A>(),
        ensures
            r@ == "Histogram(channels="@ + decimal(self.channels as nat) + ", bins="@ + decimal(
                self.bins as nat,
            ) + ", range=("@ + text_of::<A>(self.min) + ", "@ + text_of::<A>(self.max) + "))"@,
    {
        let mut out = String::from_str("Histogram(channels=");
        put_decimal(&mut out, self.channels as u64);
        out.append(", bins=");
        put_decimal(&mut out, self.bins as u64);
        out.append(", range=(");
        out.append(text::<A>(self.min).as_str());
        out.append(", ");
        out.append(text::<A>(self.max).as_str());
        out.append("))");
        out
    }
}

proof fn sums_agree(f: spec_fn(int) -> nat, g: spec_fn(int) -> nat, n: int)
    requires
        forall|i: int| 0 <= i < n ==> #[trigger] f(i) == g(i),
    ensures
        sum(f, n) == sum(g, n),
    decreases n,
{
    if n > 0 {
        sums_agree(f, g, n - 1);
        assert(f(n - 1) == g(n - 1));
    }
}

/// The samples that flat counters hold for a channel.
pub open spec fn channel_sum(acc: Seq<u64>, bins: int, ch: int) -> nat {
    sum(|s: int| acc[ch * (bins + 3) + s] as nat, bins + 3)
}

/// A sum does not fall as terms are added.
proof fn sum_grows(f: spec_fn(int) -> nat, m: int, n: int)
    requires
        m <= n,
    ensures
        sum(f, m) <= sum(f, n),
    decreases n - m,
{
    if m < n {
        sum_grows(f, m, n - 1);
    }
}

/// Whether flat counters can be those of a histogram: `bins + 3` for every channel, and
/// the samples of each channel can be counted.
pub open spec fn countable_counters(acc: Seq<u64>, channels: int, bins: int) -> bool {
    &&& acc.len() == channels * (bins + 3)
    &&& forall|ch: int| 0 <= ch < channels ==> #[trigger] channel_sum(acc, bins, ch) <= u64::MAX
}

/// Whether flat counters can be those of a histogram.
pub fn adds_up(acc: &Vec<u64>, channels: usize, bins: usize) -> (r: bool)
    ensures
        r == (bins + 3 <= usize::MAX && countable_counters(acc@, channels as int, bins as int)),
{
    let stride: usize = match bins.checked_add(3) {
        Some(n) => n,
        None => return false,
    };
    let count: usize = acc.len();
    assert(stride == bins + 3);
    match channels.checked_mul(stride) {
        Some(n) => if n != count {
            return false;
        },
        None => {
            assert(acc@.len() < channels * stride);
            return false;
        },
    }
    let mut ch: usize = 0;
    while ch < channels
        invariant
            stride == bins + 3,
            acc@.len() == channels * stride,
            channels * stride <= usize::MAX,
            ch <= channels,
            forall|c: int|
                0 <= c < ch ==> #[trigger] channel_sum(acc@, bins as int, c) <= u64::MAX,
        decreases channels - ch,
    {
        let mut total: u64 = 0;
        let mut s: usize = 0;
        let ghost f = |i: int| acc@[ch * (bins + 3) + i] as nat;
        while s < stride
            invariant
                stride == bins + 3,
                acc@.len() == channels * stride,
                channels * stride <= usize::MAX,
                ch < channels,
                s <= stride,
                f == (|i: int| acc@[ch * (bins + 3) + i] as nat),
                total == sum(f, s as int),
            decreases stride - s,
        {
            proof {
                assert(ch * stride + s < channels * stride && ch * stride >= 0)
                    by (nonlinear_arith)
                    requires
                        0 <= ch < channels,
                        0 <= s < stride,
                ;
            }
            match total.checked_add(acc[ch * stride + s]) {
                Some(n) => total = n,
                None => {
                    proof {
                        sum_grows(f, s + 1, stride as int);
                        assert(channel_sum(acc@, bins as int, ch as int) > u64::MAX);
                    }
                    return false;
                },
            }
            s = s + 1;
        }
        assert(channel_sum(acc@, bins as int, ch as int) == total);
        ch = ch + 1;
    }
    true
}

/// Makes a histogram from flat counters, `bins + 3` per channel.
pub fn assemble(acc: Vec<u64>, channels: usize, bins: usize, min: u32, max: u32) -> (r: Result<
    Histogram,
    PhaiosError,
>)
    requires
        bins + 3 <= usize::MAX,
        countable_counters(acc@, channels as int, bins as int),
    ensures
        match r {
            Ok(h) => {
                &&& permitted2::<u64>((channels, bins))
                &&& h.valid()
                &&& h.channels == channels
                &&& h.bins == bins
                &&& h.min == min
                &&& h.max == max
                &&& forall|ch: int, s: int|
                    0 <= ch < channels && 0 <= s < bins + 3 ==> #[trigger] h.count(ch, s)
                        == acc@[ch * (bins + 3) + s]
            },
            Err(e) => refusal2::<u64>((channels, bins), e@),
        },
{
    let stride: usize = bins + 3;
    let ghost grid = (channels, stride);
    assert(acc.len() <= usize::MAX);
    let pick = |ch: usize, b: usize| -> (n: u64)
        requires
            within((channels, bins), ch as int, b as int),
            stride == bins + 3,
            acc@.len() == channels * stride,
            acc@.len() <= usize::MAX,
        ensures
            n == acc@[ch * stride + b],
        {
            proof {
                place_of_cell2((channels, stride), ch as int, b as int);
                assert(0 <= ch * stride) by (nonlinear_arith)
                    requires
                        ch >= 0,
                        stride >= 0,
                ;
            }
            acc[ch * stride + b]
        };
    let counts = match table((channels, bins), pick) {
        Ok(t) => t,
        Err(e) => return Err(e),
    };
    let mut below: Vec<u64> = Vec::new();
    let mut above: Vec<u64> = Vec::new();
    let mut non_finite: Vec<u64> = Vec::new();
    let mut ch: usize = 0;
    while ch < channels
        invariant
            ch <= channels,
            stride == bins + 3,
            grid == (channels, stride),
            acc@.len() == channels * stride,
            acc@.len() <= usize::MAX,
            below@.len() == ch,
            above@.len() == ch,
            non_finite@.len() == ch,
            forall|c: int| 0 <= c < ch ==> #[trigger] below@[c] == acc@[c * stride + bins],
            forall|c: int| 0 <= c < ch ==> #[trigger] above@[c] == acc@[c * stride + (bins + 1)],
            forall|c: int|
                0 <= c < ch ==> #[trigger] non_finite@[c] == acc@[c * stride + (bins + 2)],
        decreases channels - ch,
    {
        proof {
            place_of_cell2(grid, ch as int, bins as int);
            place_of_cell2(grid, ch as int, bins + 1);
            place_of_cell2(grid, ch as int, bins + 2);
            assert(0 <= ch * stride) by (nonlinear_arith)
                requires
                    ch >= 0,
                    stride >= 0,
            ;
        }
        let base: usize = ch * stride;
        below.push(acc[base + bins]);
        above.push(acc[base + bins + 1]);
        non_finite.push(acc[base + bins + 2]);
        ch = ch + 1;
    }
    let h = Histogram { counts, below, above, non_finite, bins, channels, min, max };
    proof {
        assert forall|c: int| 0 <= c < channels implies #[trigger] h.seen(c) <= u64::MAX by {
            let f = |b: int| h.bin(c, b);
            let g = |s: int| acc@[c * stride + s] as nat;
            assert forall|i: int| 0 <= i < bins implies #[trigger] f(i) == g(i) by {
                assert(within((channels, bins), c, i));
                assert(h.counts@.at(c, i) == acc@[c * stride + i]);
            }
            sums_agree(f, g, bins as int);
            reveal_with_fuel(sum, 4);
            assert(sum(g, bins + 3) == sum(g, bins as int) + g(bins as int) + g(bins + 1) + g(
                bins + 2,
            ));
            assert(sum(g, bins + 3) == channel_sum(acc@, bins as int, c));
        }
        assert forall|c: int, s: int|
            0 <= c < channels && 0 <= s < bins + 3 implies #[trigger] h.count(c, s) == acc@[c * (
        bins + 3) + s] by {
            if s < bins {
                assert(within((channels, bins), c, s));
                assert(h.counts@.at(c, s) == acc@[c * stride + s]);
            }
        }
    }
    Ok(h)
}

/// The slots of a sample, taken together, hold it once.
proof fn one_slot<A: Arithmetic>(value: u32, scale: Scale, n: int)
    requires
        0 < scale.bins,
        0 <= n <= scale.bins + 3,
    ensures
        0 <= slot::<A>(value, scale.min, scale.max, scale.bins as int) < scale.bins + 3,
        sum(
            |s: int|
                if slot::<A>(value, scale.min, scale.max, scale.bins as int) == s {
                    1nat
                } else {
                    0nat
                },
            n,
        ) == (if slot::<A>(value, scale.min, scale.max, scale.bins as int) < n {
            1nat
        } else {
            0nat
        }),
    decreases n,
{
    if n > 0 {
        one_slot::<A>(value, scale, n - 1);
    }
}

proof fn sums_add(f: spec_fn(int) -> nat, g: spec_fn(int) -> nat, h: spec_fn(int) -> nat, n: int)
    requires
        forall|i: int| 0 <= i < n ==> #[trigger] h(i) == f(i) + g(i),
    ensures
        sum(h, n) == sum(f, n) + sum(g, n),
    decreases n,
{
    if n > 0 {
        sums_add(f, g, h, n - 1);
        assert(h(n - 1) == f(n - 1) + g(n - 1));
    }
}

/// How many of the places from 0 up to `to` belong to a channel.
pub open spec fn places(channels: int, ch: int, to: int) -> nat
    decreases to,
{
    if to <= 0 {
        0
    } else {
        places(channels, ch, to - 1) + if (to - 1) % channels == ch {
            1nat
        } else {
            0nat
        }
    }
}

/// Every sample of a channel is counted in exactly one slot.
pub proof fn every_sample_counted<A: Arithmetic>(
    samples: Seq<u32>,
    channels: int,
    scale: Scale,
    ch: int,
    to: int,
)
    requires
        0 < scale.bins,
        0 <= to,
    ensures
        sum(
            |s: int| hits::<A>(samples, channels, scale, ch, s, 0, to),
            scale.bins + 3,
        ) == places(channels, ch, to),
    decreases to,
{
    let h = |s: int| hits::<A>(samples, channels, scale, ch, s, 0, to);
    let n = scale.bins + 3;
    if to == 0 {
        let zero = |s: int| 0nat;
        sums_agree(h, zero, n);
        sum_of_zeros(n);
    } else {
        every_sample_counted::<A>(samples, channels, scale, ch, to - 1);
        let f = |s: int| hits::<A>(samples, channels, scale, ch, s, 0, to - 1);
        let v = samples[to - 1];
        let g = |s: int|
            if slot::<A>(v, scale.min, scale.max, scale.bins as int) == s {
                1nat
            } else {
                0nat
            };
        one_slot::<A>(v, scale, n);
        if (to - 1) % channels == ch {
            sums_add(f, g, h, n);
        } else {
            sums_agree(h, f, n);
        }
    }
}

proof fn sum_of_zeros(n: int)
    ensures
        sum(|s: int| 0nat, n) == 0,
    decreases n,
{
    if n > 0 {
        sum_of_zeros(n - 1);
    }
}

/// A channel has one sample per pixel.
proof fn one_place_per_pixel(channels: int, ch: int, pixels: int, extra: int)
    requires
        0 <= ch < channels,
        0 <= pixels,
        0 <= extra <= channels,
    ensures
        places(channels, ch, pixels * channels + extra) == pixels + if ch < extra {
            1nat
        } else {
            0nat
        },
    decreases pixels, extra,
{
    assert(0 <= pixels * channels) by (nonlinear_arith)
        requires
            0 <= pixels,
            0 < channels,
    ;
    if extra > 0 {
        one_place_per_pixel(channels, ch, pixels, extra - 1);
        vstd::arithmetic::div_mod::lemma_fundamental_div_mod_converse(
            pixels * channels + (extra - 1),
            channels,
            pixels,
            extra - 1,
        );
        assert(pixels * channels == channels * pixels) by (nonlinear_arith);
    } else if pixels > 0 {
        one_place_per_pixel(channels, ch, pixels - 1, channels);
        assert((pixels - 1) * channels + channels == pixels * channels) by (nonlinear_arith);
    } else {
        assert(pixels * channels == 0) by (nonlinear_arith)
            requires
                pixels == 0,
        ;
    }
}

/// Whether a histogram holds the distribution of a raster.
pub open spec fn describes<A: Arithmetic>(h: Histogram, r: Raster<u32>, scale: Scale) -> bool {
    &&& h.valid()
    &&& h.channels == r.shape.2
    &&& h.bins == scale.bins
    &&& h.min == scale.min
    &&& h.max == scale.max
    &&& forall|ch: int, s: int|
        0 <= ch < h.channels && 0 <= s < h.bins + 3 ==> #[trigger] h.count(ch, s) == hits::<A>(
            r.cells,
            r.shape.2 as int,
            scale,
            ch,
            s,
            0,
            volume(r.shape),
        )
}

/// Each channel's total is the number of pixels: no sample is lost or counted
/// twice.
pub proof fn totals_are_pixel_counts<A: Arithmetic>(
    h: Histogram,
    r: Raster<u32>,
    scale: Scale,
    ch: int,
)
    requires
        describes::<A>(h, r, scale),
        0 < scale.bins,
        0 <= ch < h.channels,
    ensures
        h.seen(ch) == r.shape.0 * r.shape.1,
{
    let (rows, cols, c) = (r.shape.0 as int, r.shape.1 as int, r.shape.2 as int);
    let n = scale.bins as int;
    let f = |s: int| hits::<A>(r.cells, c, scale, ch, s, 0, volume(r.shape));
    assert(0 <= rows * cols) by (nonlinear_arith)
        requires
            0 <= rows,
            0 <= cols,
    ;
    assert(0 <= rows * cols * c) by (nonlinear_arith)
        requires
            0 <= rows * cols,
            0 <= c,
    ;
    every_sample_counted::<A>(r.cells, c, scale, ch, volume(r.shape));
    one_place_per_pixel(c, ch, rows * cols, 0);
    let g = |b: int| h.bin(ch, b);
    assert forall|i: int| 0 <= i < n implies #[trigger] g(i) == f(i) by {
        assert(h.count(ch, i) == f(i));
    }
    sums_agree(g, f, n);
    reveal_with_fuel(sum, 4);
    assert(h.count(ch, n) == f(n));
    assert(h.count(ch, n + 1) == f(n + 1));
    assert(h.count(ch, n + 2) == f(n + 2));
    assert(sum(f, n + 3) == sum(f, n) + f(n) + f(n + 1) + f(n + 2));
}

/// The rows that one part of an image counts, for the given threads.
pub fn chunk_rows(h: usize, threads: usize) -> (r: usize)
    ensures
        ({
            let t = if threads == 0 {
                1
            } else {
                threads as int
            };
            let parts = if t * 4 > usize::MAX {
                usize::MAX as int
            } else {
                t * 4
            };
            let rows = (h + parts - 1) / parts;
            r == if rows == 0 {
                1
            } else {
                rows
            }
        }),
{
    let t: usize = if threads == 0 {
        1
    } else {
        threads
    };
    let parts: usize = match t.checked_mul(4) {
        Some(n) => n,
        None => usize::MAX,
    };
    let rows: usize = if h == 0 {
        0
    } else {
        (h - 1) / parts + 1
    };
    proof {
        let (a, b) = (h as int, parts as int);
        if h > 0 {
            assert((a - 1) / b + 1 == (a + b - 1) / b) by (nonlinear_arith)
                requires
                    a > 0,
                    b > 0,
            ;
        } else {
            assert((b - 1) / b == 0) by (nonlinear_arith)
                requires
                    b > 0,
            ;
        }
    }
    if rows == 0 {
        1
    } else {
        rows
    }
}

/// Counts how the samples of an image are distributed, per channel.
pub fn histogram<A: Arithmetic>(img: &Image, params: &HistogramParams) -> (r: Result<
    Histogram,
    PhaiosError,
>)
    requires
        faithful::<A>(),
    ensures
        ({
            let scale = Scale { min: params.min, max: params.max, bins: params.bins as usize };
            match r {
                Ok(h) => {
                    &&& histogram_fault::<A>(img@.shape, *params) is None
                    &&& permitted2::<u64>((img@.shape.2, params.bins as usize))
                    &&& describes::<A>(h, img@, scale)
                },
                Err(e) => match histogram_fault::<A>(img@.shape, *params) {
                    Some(fault) => e@ == fault,
                    None => refusal2::<u64>((img@.shape.2, params.bins as usize), e@),
                },
            }
        }),
{
    let (h, w, c) = img.dim();
    if let Err(e) = validate_shape::<A>((h, w, c), params) {
        return Err(e);
    }
    let scale = Scale { min: params.min, max: params.max, bins: params.bins as usize };
    let rows: usize = chunk_rows(h, current_num_threads());
    let acc = reduce::<A>(img, &scale, rows, 0, h);
    proof {
        addressable_volume(h as int, w as int, c as int);
        assert(h * (w * c) == h * w * c) by (nonlinear_arith);
        assert(0 * (w * c) == 0) by (nonlinear_arith);
        assert forall|ch: int| 0 <= ch < c implies #[trigger] channel_sum(
            acc@,
            scale.bins as int,
            ch,
        ) <= u64::MAX by {
            let f = |s: int| hits::<A>(img@.cells, c as int, scale, ch, s, 0, volume(img@.shape));
            let g = |s: int| acc@[ch * (scale.bins + 3) + s] as nat;
            every_sample_counted::<A>(img@.cells, c as int, scale, ch, volume(img@.shape));
            sums_agree(g, f, scale.bins + 3);
            places_bounded(c as int, ch, volume(img@.shape));
        }
    }
    assemble(acc, c, scale.bins, params.min, params.max)
}

proof fn places_bounded(channels: int, ch: int, to: int)
    requires
        0 <= to,
    ensures
        places(channels, ch, to) <= to,
    decreases to,
{
    if to > 0 {
        places_bounded(channels, ch, to - 1);
    }
}

/// The edges of the range land in the end bins.
pub proof fn range_ends_land_in_end_bins<A: Arithmetic>(params: HistogramParams)
    requires
        rounds::<A>(),
        params_fault::<A>(params) is None,
    ensures
        slot::<A>(params.min, params.min, params.max, params.bins as int) == 0,
        slot::<A>(params.max, params.min, params.max, params.bins as int) == params.bins - 1,
{
    small_numbers();
    let (min, max) = (params.min, params.max);
    let span = minus_of::<A>(max, min);
    difference_is_positive::<A>(max, min);
    let bins = of_count_of::<A>(params.bins as u64);
    whole_halves::<A>(params.bins as u64);
    // The lower edge: nothing over the span is nothing.
    minus_exact::<A>(min, min, 0);
    let none = minus_of::<A>(min, min);
    assert(0 * value(span) == 0 && 0 * (2 * half()) == 0) by (nonlinear_arith);
    over_exact::<A>(none, span, 0);
    let low = over_of::<A>(none, span);
    values_are_ordered(low, 0);
    times_zero::<A>(bins, low);
    whole_count::<A>(times_of::<A>(low, bins), 0);
    // The upper edge: the span over itself is one.
    over_itself::<A>(span);
    times_one::<A>(bins);
    whole_count::<A>(times_of::<A>(single::ONE, bins), params.bins as u64);
}

/// The samples of a channel, pixel by pixel.
pub open spec fn channel_samples(r: Raster<u32>, ch: int) -> Seq<u32> {
    Seq::new((r.shape.0 * r.shape.1) as nat, |i: int| r.cells[i * r.shape.2 + ch])
}

/// Within a pixel only the sample of the channel itself can count.
proof fn one_pixel<A: Arithmetic>(
    samples: Seq<u32>,
    channels: int,
    scale: Scale,
    ch: int,
    s: int,
    p: int,
    j: int,
)
    requires
        0 <= ch < channels,
        0 <= p,
        0 <= j <= channels,
    ensures
        hits::<A>(samples, channels, scale, ch, s, 0, p * channels + j) == hits::<A>(
            samples,
            channels,
            scale,
            ch,
            s,
            0,
            p * channels,
        ) + if j > ch && slot::<A>(
            samples[p * channels + ch],
            scale.min,
            scale.max,
            scale.bins as int,
        ) == s {
            1nat
        } else {
            0nat
        },
    decreases j,
{
    if j > 0 {
        one_pixel::<A>(samples, channels, scale, ch, s, p, j - 1);
        let i = p * channels + (j - 1);
        assert(i % channels == j - 1) by (nonlinear_arith)
            requires
                i == p * channels + (j - 1),
                0 <= j - 1 < channels,
        ;
        assert(p * channels >= 0) by (nonlinear_arith)
            requires
                p >= 0,
                channels >= 0,
        ;
    }
}

/// The hits of a channel are occurrences among its samples.
proof fn hits_are_occurrences<A: Arithmetic>(r: Raster<u32>, scale: Scale, ch: int, s: int, p: int)
    requires
        0 <= ch < r.shape.2,
        0 <= p <= r.shape.0 * r.shape.1,
    ensures
        hits::<A>(r.cells, r.shape.2 as int, scale, ch, s, 0, p * r.shape.2) == occurrences(
            channel_samples(r, ch).take(p),
            |v: u32| slot::<A>(v, scale.min, scale.max, scale.bins as int) == s,
        ),
    decreases p,
{
    let c = r.shape.2 as int;
    let all = channel_samples(r, ch);
    if p > 0 {
        hits_are_occurrences::<A>(r, scale, ch, s, p - 1);
        one_pixel::<A>(r.cells, c, scale, ch, s, p - 1, c);
        assert((p - 1) * c + c == p * c) by (nonlinear_arith);
        assert(all.take(p).drop_last() =~= all.take(p - 1));
        assert(all.take(p).last() == r.cells[(p - 1) * c + ch]);
    } else {
        assert(0 * c == 0) by (nonlinear_arith);
    }
}

/// Where the samples of a channel lie does not matter: images whose channels hold the
/// same samples, in whatever arrangement, have the same counts there.
pub proof fn arrangement_does_not_count<A: Arithmetic>(
    h: Histogram,
    r: Raster<u32>,
    other_h: Histogram,
    other: Raster<u32>,
    scale: Scale,
    ch: int,
    s: int,
)
    requires
        describes::<A>(h, r, scale),
        describes::<A>(other_h, other, scale),
        r.shape.2 == other.shape.2,
        0 <= ch < r.shape.2,
        0 <= s < scale.bins + 3,
        channel_samples(r, ch).to_multiset() == channel_samples(other, ch).to_multiset(),
    ensures
        h.count(ch, s) == other_h.count(ch, s),
{
    let wanted = |v: u32| slot::<A>(v, scale.min, scale.max, scale.bins as int) == s;
    let (a, b) = (channel_samples(r, ch), channel_samples(other, ch));
    let (p, q) = (r.shape.0 * r.shape.1, other.shape.0 * other.shape.1);
    assert(p >= 0) by (nonlinear_arith)
        requires
            p == r.shape.0 * r.shape.1,
            r.shape.0 >= 0,
            r.shape.1 >= 0,
    ;
    assert(q >= 0) by (nonlinear_arith)
        requires
            q == other.shape.0 * other.shape.1,
            other.shape.0 >= 0,
            other.shape.1 >= 0,
    ;
    hits_are_occurrences::<A>(r, scale, ch, s, p);
    hits_are_occurrences::<A>(other, scale, ch, s, q);
    assert(a.take(p) =~= a && b.take(q) =~= b);
    order_does_not_count(a, b, wanted);
}

} // verus!
