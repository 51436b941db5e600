//! Hot-pixel removal: a sample that strays too far from the median of its
//! three by three neighbourhood is replaced by that median.

use vstd::prelude::*;

use crate::allocation::{image, permitted, refusal};
use crate::arith::{
    faithful, minus, minus_of, plus, plus_of, text, text_of, times, times_of, Arithmetic,
};
use crate::error::{PhaiosError, Report};
use crate::integral::{high, low, window_span};
use crate::raster::{inside, is_tabulated, tabulate, tabulated, Image, Raster};
use crate::remark::{refuse, unexpected};
use crate::single;
use crate::counting::{occurrences, order_does_not_count, rearranged_items};

verus! {

/// Parameters for [`hot_pixels`].
#[derive(Clone, Copy, Debug)]
pub struct HotPixelParams {
    /// The tolerated distance from the median, a single-precision bit pattern.
    pub threshold: u32,
    /// The tolerance added per unit of the median's magnitude.
    pub relative: u32,
}

impl HotPixelParams {
    /// Parameters from the absolute and the relative tolerance.
    pub fn new(threshold: u32, relative: u32) -> (r: Self)
        ensures
            r == (HotPixelParams { threshold, relative }),
    {
        HotPixelParams { threshold, relative }
    }

    /// Whether both fields match by their bits.
    pub fn __eq__(&self, other: &Self) -> (r: bool)
        ensures
            r == (*self == *other),
    {
        self.threshold == other.threshold && self.relative == other.relative
    }

    /// A debug representation.
    pub fn __repr__<A: Arithmetic>(&self) -> (r: String)
        requires
            faithful::<A>(),
        ensures
            r@ == "HotPixelParams(threshold="@ + text_of::<A>(self.threshold) + ", relative="@
                + text_of::<A>(self.relative) + ")"@,
    {
        let mut out = String::from_str("HotPixelParams(threshold=");
        out.append(text::<A>(self.threshold).as_str());
        out.append(", relative=");
        out.append(text::<A>(self.relative).as_str());
        out.append(")");
        out
    }
}

/// What is wrong with the parameters, if anything.
pub open spec fn hot_fault<A: Arithmetic>(params: HotPixelParams) -> Option<Report> {
    if !single::is_non_negative(params.threshold) {
        Some(
            unexpected::<A>(
                "threshold"@,
                params.threshold,
                ", expected a finite value of at least 0"@,
            ),
        )
    } else if !single::is_non_negative(params.relative) {
        Some(
            unexpected::<A>(
                "relative"@,
                params.relative,
                ", expected a finite value of at least 0"@,
            ),
        )
    } else {
        None
    }
}

/// Holds the parameters to their domain.
pub fn validate<A: Arithmetic>(params: &HotPixelParams) -> (r: Result<(), PhaiosError>)
    requires
        faithful::<A>(),
    ensures
        match r {
            Ok(()) => hot_fault::<A>(*params) is None,
            Err(e) => hot_fault::<A>(*params) == Some(e@),
        },
{
    if !single::is_non_negative(params.threshold) {
        return Err(
            refuse::<A>("threshold", params.threshold, ", expected a finite value of at least 0"),
        );
    }
    if !single::is_non_negative(params.relative) {
        return Err(
            refuse::<A>("relative", params.relative, ", expected a finite value of at least 0"),
        );
    }
    Ok(())
}

/// Two places of a window with the smaller number at `i` and the larger at `j`.
#[verifier::opaque]
pub open spec fn exchanged(s: Seq<u32>, i: int, j: int) -> Seq<u32> {
    s.update(i, single::smaller(s[i], s[j])).update(j, single::larger(s[i], s[j]))
}

/// The window after the first nine exchanges: each row of three in order.
pub open spec fn rows_sorted(s: Seq<u32>) -> Seq<u32> {
    let a = exchanged(exchanged(exchanged(s, 1, 2), 4, 5), 7, 8);
    let b = exchanged(exchanged(exchanged(a, 0, 1), 3, 4), 6, 7);
    exchanged(exchanged(exchanged(b, 1, 2), 4, 5), 7, 8)
}

/// The window after the next seven exchanges: the largest of the rows' smallest
/// numbers at 6, the smallest of their largest at 2, the middle of their middle
/// ones at 4.
pub open spec fn columns_sorted(s: Seq<u32>) -> Seq<u32> {
    let a = exchanged(exchanged(exchanged(s, 0, 3), 5, 8), 4, 7);
    exchanged(exchanged(exchanged(exchanged(a, 3, 6), 1, 4), 2, 5), 4, 7)
}

/// The window after the last three exchanges: the middle of those three at 4.
pub open spec fn diagonal_sorted(s: Seq<u32>) -> Seq<u32> {
    exchanged(exchanged(exchanged(s, 4, 2), 6, 4), 4, 2)
}

/// The number at the centre of the window after a fixed network of nineteen
/// exchanges.
pub open spec fn median_of(s: Seq<u32>) -> u32 {
    diagonal_sorted(columns_sorted(rows_sorted(s)))[4]
}

fn sort2(v: &mut [u32; 9], i: usize, j: usize)
    requires
        i < 9,
        j < 9,
    ensures
        final(v)@ == exchanged(old(v)@, i as int, j as int),
{
    let lo: u32 = single::smaller(v[i], v[j]);
    let hi: u32 = single::larger(v[i], v[j]);
    v[i] = lo;
    v[j] = hi;
    reveal(exchanged);
    assert(v@ =~= exchanged(old(v)@, i as int, j as int));
}

/// The median of nine numbers, by comparison and selection alone.
pub fn median9(window: [u32; 9]) -> (r: u32)
    ensures
        r == median_of(window@),
{
    let mut v: [u32; 9] = window;
    sort2(&mut v, 1, 2);
    sort2(&mut v, 4, 5);
    sort2(&mut v, 7, 8);
    sort2(&mut v, 0, 1);
    sort2(&mut v, 3, 4);
    sort2(&mut v, 6, 7);
    sort2(&mut v, 1, 2);
    sort2(&mut v, 4, 5);
    sort2(&mut v, 7, 8);
    assert(v@ == rows_sorted(window@));
    sort2(&mut v, 0, 3);
    sort2(&mut v, 5, 8);
    sort2(&mut v, 4, 7);
    sort2(&mut v, 3, 6);
    sort2(&mut v, 1, 4);
    sort2(&mut v, 2, 5);
    sort2(&mut v, 4, 7);
    assert(v@ == columns_sorted(rows_sorted(window@)));
    sort2(&mut v, 4, 2);
    sort2(&mut v, 6, 4);
    sort2(&mut v, 4, 2);
    v[4]
}

/// Whether every number of `t` is a number of `s`.
pub open spec fn drawn_from(t: Seq<u32>, s: Seq<u32>) -> bool {
    t.len() == 9 && forall|i: int| 0 <= i < 9 ==> s.contains(#[trigger] t[i])
}

proof fn exchange_draws(s: Seq<u32>, t: Seq<u32>, i: int, j: int)
    requires
        drawn_from(t, s),
        0 <= i < 9,
        0 <= j < 9,
    ensures
        drawn_from(exchanged(t, i, j), s),
{
    reveal(exchanged);
    let u = exchanged(t, i, j);
    assert forall|n: int| 0 <= n < 9 implies s.contains(#[trigger] u[n]) by {
        assert(s.contains(t[i]) && s.contains(t[j]) && s.contains(t[n]));
    }
}

/// The median of a window is one of the window's numbers.
pub proof fn median_is_a_member(s: Seq<u32>)
    requires
        s.len() == 9,
    ensures
        s.contains(median_of(s)),
{
    assert forall|i: int| 0 <= i < 9 implies s.contains(#[trigger] s[i]) by {}
    let a = exchanged(s, 1, 2);
    exchange_draws(s, s, 1, 2);
    let b = exchanged(a, 4, 5);
    exchange_draws(s, a, 4, 5);
    let c = exchanged(b, 7, 8);
    exchange_draws(s, b, 7, 8);
    let d = exchanged(c, 0, 1);
    exchange_draws(s, c, 0, 1);
    let e = exchanged(d, 3, 4);
    exchange_draws(s, d, 3, 4);
    let f = exchanged(e, 6, 7);
    exchange_draws(s, e, 6, 7);
    let g = exchanged(f, 1, 2);
    exchange_draws(s, f, 1, 2);
    let h = exchanged(g, 4, 5);
    exchange_draws(s, g, 4, 5);
    let k = exchanged(h, 7, 8);
    exchange_draws(s, h, 7, 8);
    let l = exchanged(k, 0, 3);
    exchange_draws(s, k, 0, 3);
    let m = exchanged(l, 5, 8);
    exchange_draws(s, l, 5, 8);
    let n = exchanged(m, 4, 7);
    exchange_draws(s, m, 4, 7);
    let o = exchanged(n, 3, 6);
    exchange_draws(s, n, 3, 6);
    let p = exchanged(o, 1, 4);
    exchange_draws(s, o, 1, 4);
    let q = exchanged(p, 2, 5);
    exchange_draws(s, p, 2, 5);
    let r = exchanged(q, 4, 7);
    exchange_draws(s, q, 4, 7);
    let t = exchanged(r, 4, 2);
    exchange_draws(s, r, 4, 2);
    let u = exchanged(t, 6, 4);
    exchange_draws(s, t, 6, 4);
    let v = exchanged(u, 4, 2);
    exchange_draws(s, u, 4, 2);
    assert(median_of(s) == v[4]);
}

/// How many of the first `n` numbers of a window are at most `m`.
pub open spec fn at_most_count(s: Seq<u32>, m: u32, n: int) -> nat
    decreases n,
{
    if n <= 0 {
        0
    } else {
        at_most_count(s, m, n - 1) + if single::at_most(s[n - 1], m) {
            1nat
        } else {
            0nat
        }
    }
}

/// How many of the first `n` numbers of a window are at least `m`.
pub open spec fn at_least_count(s: Seq<u32>, m: u32, n: int) -> nat
    decreases n,
{
    if n <= 0 {
        0
    } else {
        at_least_count(s, m, n - 1) + if single::at_most(m, s[n - 1]) {
            1nat
        } else {
            0nat
        }
    }
}

#[verifier::opaque]
spec fn lesser(a: int, b: int) -> int {
    if a <= b {
        a
    } else {
        b
    }
}

#[verifier::opaque]
spec fn greater(a: int, b: int) -> int {
    if a <= b {
        b
    } else {
        a
    }
}

#[verifier::opaque]
spec fn one_if_at_most(a: int, b: int) -> int {
    if a <= b {
        1
    } else {
        0
    }
}

/// The places of a window's numbers.
spec fn places(s: Seq<u32>) -> Seq<int> {
    Seq::new(9, |i: int| single::place(s[i]))
}

#[verifier::opaque]
spec fn all_numbers(s: Seq<u32>) -> bool {
    s.len() == 9 && forall|i: int| 0 <= i < 9 ==> !single::is_nan(#[trigger] s[i])
}

proof fn exchange_orders(s: Seq<u32>, i: int, j: int)
    requires
        all_numbers(s),
        0 <= i < 9,
        0 <= j < 9,
        i != j,
    ensures
        all_numbers(exchanged(s, i, j)),
        places(exchanged(s, i, j)) == places(s).update(
            i,
            lesser(places(s)[i], places(s)[j]),
        ).update(j, greater(places(s)[i], places(s)[j])),
{
    reveal(exchanged);
    reveal(all_numbers);
    reveal(lesser);
    reveal(greater);
    let t = exchanged(s, i, j);
    assert(!single::is_nan(s[i]) && !single::is_nan(s[j]));
    assert forall|n: int| 0 <= n < 9 implies !single::is_nan(#[trigger] t[n]) by {
        assert(!single::is_nan(s[n]));
    }
    assert(places(t) =~= places(s).update(i, lesser(places(s)[i], places(s)[j])).update(
        j,
        greater(places(s)[i], places(s)[j]),
    ));
}

/// Three exchanges put three numbers in order and keep them.
proof fn three_in_order(a: int, b: int, c: int, m: int)
    ensures
        ({
            let (b1, c1) = (lesser(b, c), greater(b, c));
            let (a2, b2) = (lesser(a, b1), greater(a, b1));
            let (b3, c3) = (lesser(b2, c1), greater(b2, c1));
            &&& a2 <= b3 <= c3
            &&& one_if_at_most(a2, m) + one_if_at_most(b3, m) + one_if_at_most(c3, m) == one_if_at_most(a, m) + one_if_at_most(b, m) + one_if_at_most(c, m)
            &&& one_if_at_most(m, a2) + one_if_at_most(m, b3) + one_if_at_most(m, c3) == one_if_at_most(m, a) + one_if_at_most(m, b) + one_if_at_most(m, c)
        }),
{
    reveal(one_if_at_most);
    reveal(lesser);
    reveal(greater);
}

/// Of three ordered rows, the middle of the largest first, the middle second and
/// the smallest third number has five of the nine on either side.
proof fn middle_of_rows(
    a0: int,
    a1: int,
    a2: int,
    b0: int,
    b1: int,
    b2: int,
    c0: int,
    c1: int,
    c2: int,
)
    requires
        a0 <= a1 <= a2,
        b0 <= b1 <= b2,
        c0 <= c1 <= c2,
    ensures
        ({
            let x = greater(greater(a0, b0), c0);
            let y = lesser(greater(a1, lesser(b1, c1)), greater(b1, c1));
            let z = lesser(a2, lesser(b2, c2));
            let m = lesser(greater(x, lesser(y, z)), greater(y, z));
            &&& one_if_at_most(a0, m) + one_if_at_most(a1, m) + one_if_at_most(a2, m) + one_if_at_most(b0, m) + one_if_at_most(b1, m) + one_if_at_most(b2, m) + one_if_at_most(c0, m) + one_if_at_most(c1, m) + one_if_at_most(c2, m) >= 5
            &&& one_if_at_most(m, a0) + one_if_at_most(m, a1) + one_if_at_most(m, a2) + one_if_at_most(m, b0) + one_if_at_most(m, b1) + one_if_at_most(m, b2) + one_if_at_most(m, c0) + one_if_at_most(m, c1) + one_if_at_most(m, c2) >= 5
        }),
{
    reveal(one_if_at_most);
    reveal(lesser);
    reveal(greater);
}

/// Three numbers after three exchanges.
spec fn in_order(a: int, b: int, c: int) -> (int, int, int) {
    let (b1, c1) = (lesser(b, c), greater(b, c));
    let (a2, b2) = (lesser(a, b1), greater(a, b1));
    (a2, lesser(b2, c1), greater(b2, c1))
}

proof fn rows_in_order(s: Seq<u32>)
    requires
        all_numbers(s),
    ensures
        all_numbers(rows_sorted(s)),
        ({
            let p = places(s);
            let q = places(rows_sorted(s));
            &&& (q[0], q[1], q[2]) == in_order(p[0], p[1], p[2])
            &&& (q[3], q[4], q[5]) == in_order(p[3], p[4], p[5])
            &&& (q[6], q[7], q[8]) == in_order(p[6], p[7], p[8])
        }),
{
    let t1 = exchanged(s, 1, 2);
    exchange_orders(s, 1, 2);
    let t2 = exchanged(t1, 4, 5);
    exchange_orders(t1, 4, 5);
    let t3 = exchanged(t2, 7, 8);
    exchange_orders(t2, 7, 8);
    let t4 = exchanged(t3, 0, 1);
    exchange_orders(t3, 0, 1);
    let t5 = exchanged(t4, 3, 4);
    exchange_orders(t4, 3, 4);
    let t6 = exchanged(t5, 6, 7);
    exchange_orders(t5, 6, 7);
    let t7 = exchanged(t6, 1, 2);
    exchange_orders(t6, 1, 2);
    let t8 = exchanged(t7, 4, 5);
    exchange_orders(t7, 4, 5);
    let t9 = exchanged(t8, 7, 8);
    exchange_orders(t8, 7, 8);
}

proof fn columns_in_order(s: Seq<u32>)
    requires
        all_numbers(s),
    ensures
        all_numbers(columns_sorted(s)),
        ({
            let p = places(s);
            let q = places(columns_sorted(s));
            &&& q[6] == greater(greater(p[0], p[3]), p[6])
            &&& q[4] == lesser(greater(p[1], lesser(p[4], p[7])), greater(p[4], p[7]))
            &&& q[2] == lesser(p[2], lesser(p[5], p[8]))
        }),
{
    let t1 = exchanged(s, 0, 3);
    exchange_orders(s, 0, 3);
    let t2 = exchanged(t1, 5, 8);
    exchange_orders(t1, 5, 8);
    let t3 = exchanged(t2, 4, 7);
    exchange_orders(t2, 4, 7);
    let t4 = exchanged(t3, 3, 6);
    exchange_orders(t3, 3, 6);
    let t5 = exchanged(t4, 1, 4);
    exchange_orders(t4, 1, 4);
    let t6 = exchanged(t5, 2, 5);
    exchange_orders(t5, 2, 5);
    let t7 = exchanged(t6, 4, 7);
    exchange_orders(t6, 4, 7);
}

proof fn diagonal_in_order(s: Seq<u32>)
    requires
        all_numbers(s),
    ensures
        all_numbers(diagonal_sorted(s)),
        ({
            let p = places(s);
            places(diagonal_sorted(s))[4] == lesser(
                greater(p[6], lesser(p[4], p[2])),
                greater(p[4], p[2]),
            )
        }),
{
    let t1 = exchanged(s, 4, 2);
    exchange_orders(s, 4, 2);
    let t2 = exchanged(t1, 6, 4);
    exchange_orders(t1, 6, 4);
    let t3 = exchanged(t2, 4, 2);
    exchange_orders(t2, 4, 2);
}

proof fn counts_are_sums(s: Seq<u32>, m: u32)
    requires
        all_numbers(s),
        !single::is_nan(m),
    ensures
        ({
            let p = places(s);
            let q = single::place(m);
            &&& at_most_count(s, m, 9) == one_if_at_most(p[0], q) + one_if_at_most(p[1], q) + one_if_at_most(p[2], q) + one_if_at_most(p[3], q) + one_if_at_most(p[4], q) + one_if_at_most(p[5], q) + one_if_at_most(p[6], q)
                + one_if_at_most(p[7], q) + one_if_at_most(p[8], q)
            &&& at_least_count(s, m, 9) == one_if_at_most(q, p[0]) + one_if_at_most(q, p[1]) + one_if_at_most(q, p[2]) + one_if_at_most(q, p[3]) + one_if_at_most(q, p[4]) + one_if_at_most(q, p[5]) + one_if_at_most(q, p[6])
                + one_if_at_most(q, p[7]) + one_if_at_most(q, p[8])
        }),
{
    reveal(all_numbers);
    reveal(one_if_at_most);
    reveal_with_fuel(at_most_count, 10);
    reveal_with_fuel(at_least_count, 10);
    assert forall|i: int| 0 <= i < 9 implies single::at_most(#[trigger] s[i], m) == (places(s)[i]
        <= single::place(m)) && single::at_most(m, s[i]) == (single::place(m) <= places(s)[i]) by {}
}

/// Where the network leaves the middle of nine places.
#[verifier::opaque]
spec fn middle_place(p: Seq<int>) -> int {
    let (a0, a1, a2) = in_order(p[0], p[1], p[2]);
    let (b0, b1, b2) = in_order(p[3], p[4], p[5]);
    let (c0, c1, c2) = in_order(p[6], p[7], p[8]);
    let x = greater(greater(a0, b0), c0);
    let y = lesser(greater(a1, lesser(b1, c1)), greater(b1, c1));
    let z = lesser(a2, lesser(b2, c2));
    lesser(greater(x, lesser(y, z)), greater(y, z))
}

proof fn network_finds_middle(s: Seq<u32>)
    requires
        all_numbers(s),
    ensures
        !single::is_nan(median_of(s)),
        single::place(median_of(s)) == middle_place(places(s)),
{
    reveal(middle_place);
    let r = rows_sorted(s);
    let c = columns_sorted(r);
    let d = diagonal_sorted(c);
    rows_in_order(s);
    columns_in_order(r);
    diagonal_in_order(c);
    assert(single::place(d[4]) == places(d)[4]);
    assert(!single::is_nan(d[4])) by {
        reveal(all_numbers);
    }
}

proof fn five_on_either_side(p: Seq<int>)
    ensures
        ({
            let m = middle_place(p);
            &&& one_if_at_most(p[0], m) + one_if_at_most(p[1], m) + one_if_at_most(p[2], m) + one_if_at_most(p[3], m)
                + one_if_at_most(p[4], m) + one_if_at_most(p[5], m) + one_if_at_most(p[6], m) + one_if_at_most(p[7], m)
                + one_if_at_most(p[8], m) >= 5
            &&& one_if_at_most(m, p[0]) + one_if_at_most(m, p[1]) + one_if_at_most(m, p[2]) + one_if_at_most(m, p[3])
                + one_if_at_most(m, p[4]) + one_if_at_most(m, p[5]) + one_if_at_most(m, p[6]) + one_if_at_most(m, p[7])
                + one_if_at_most(m, p[8]) >= 5
        }),
{
    reveal(middle_place);
    let m = middle_place(p);
    let (a0, a1, a2) = in_order(p[0], p[1], p[2]);
    let (b0, b1, b2) = in_order(p[3], p[4], p[5]);
    let (c0, c1, c2) = in_order(p[6], p[7], p[8]);
    three_in_order(p[0], p[1], p[2], m);
    three_in_order(p[3], p[4], p[5], m);
    three_in_order(p[6], p[7], p[8], m);
    middle_of_rows(a0, a1, a2, b0, b1, b2, c0, c1, c2);
}

/// The median of nine numbers has at least five of them at or below it and at
/// least five at or above it.
pub proof fn median_is_in_the_middle(s: Seq<u32>)
    requires
        s.len() == 9,
        forall|i: int| 0 <= i < 9 ==> !single::is_nan(#[trigger] s[i]),
    ensures
        at_most_count(s, median_of(s), 9) >= 5,
        at_least_count(s, median_of(s), 9) >= 5,
{
    assert(all_numbers(s)) by {
        reveal(all_numbers);
    }
    let m = median_of(s);
    network_finds_middle(s);
    five_on_either_side(places(s));
    counts_are_sums(s, m);
}

/// The counts around a number are counts of occurrences.
proof fn counts_are_occurrences(s: Seq<u32>, m: u32, n: int)
    requires
        0 <= n <= s.len(),
    ensures
        at_most_count(s, m, n) == occurrences(s.take(n), |v: u32| single::at_most(v, m)),
        at_least_count(s, m, n) == occurrences(s.take(n), |v: u32| single::at_most(m, v)),
    decreases n,
{
    if n > 0 {
        counts_are_occurrences(s, m, n - 1);
        assert(s.take(n).drop_last() =~= s.take(n - 1));
        assert(s.take(n).last() == s[n - 1]);
    }
}

/// Nothing is both at most a number and at least a larger one.
proof fn counts_are_disjoint(s: Seq<u32>, a: u32, b: u32, n: int)
    requires
        single::less(a, b),
        0 <= n,
    ensures
        at_most_count(s, a, n) + at_least_count(s, b, n) <= n,
    decreases n,
{
    if n > 0 {
        counts_are_disjoint(s, a, b, n - 1);
    }
}

/// The median does not depend on the order of the nine numbers.
pub proof fn median_ignores_order(s: Seq<u32>, t: Seq<u32>)
    requires
        s.len() == 9,
        forall|i: int| 0 <= i < 9 ==> !single::is_nan(#[trigger] s[i]),
        s.to_multiset() == t.to_multiset(),
    ensures
        single::same(median_of(s), median_of(t)),
{
    assert forall|i: int| 0 <= i < t.len() implies !single::is_nan(#[trigger] t[i]) by {
        rearranged_items(s, t, i);
    }
    vstd::seq_lib::to_multiset_len(s);
    vstd::seq_lib::to_multiset_len(t);
    let (m, n) = (median_of(s), median_of(t));
    median_is_a_member(s);
    median_is_a_member(t);
    median_is_in_the_middle(s);
    median_is_in_the_middle(t);
    assert(s.take(9) =~= s && t.take(9) =~= t);
    counts_are_occurrences(s, m, 9);
    counts_are_occurrences(t, m, 9);
    order_does_not_count(s, t, |v: u32| single::at_most(v, m));
    order_does_not_count(s, t, |v: u32| single::at_most(m, v));
    if single::less(m, n) {
        counts_are_disjoint(t, m, n, 9);
    }
    if single::less(n, m) {
        counts_are_disjoint(t, n, m, 9);
    }
}

/// The three by three neighbourhood of a sample in its channel, row by row. Past
/// the border it repeats the border's samples.
pub open spec fn neighbourhood(r: Raster<u32>, y: int, x: int, k: int) -> Seq<u32> {
    let (y0, y2) = (low(y, 1), high(y, 1, r.shape.0 as int));
    let (x0, x2) = (low(x, 1), high(x, 1, r.shape.1 as int));
    seq![
        r.at(y0, x0, k),
        r.at(y0, x, k),
        r.at(y0, x2, k),
        r.at(y, x0, k),
        r.at(y, x, k),
        r.at(y, x2, k),
        r.at(y2, x0, k),
        r.at(y2, x, k),
        r.at(y2, x2, k),
    ]
}

/// A sample, or the median of its neighbourhood where the sample is further
/// from it than `threshold + relative * |median|`.
pub open spec fn treated<A: Arithmetic>(
    r: Raster<u32>,
    params: HotPixelParams,
    y: int,
    x: int,
    k: int,
) -> u32 {
    let p = r.at(y, x, k);
    let m = median_of(neighbourhood(r, y, x, k));
    let limit = plus_of::<A>(
        params.threshold,
        times_of::<A>(params.relative, single::magnitude(m)),
    );
    if single::less(limit, single::magnitude(minus_of::<A>(p, m))) {
        m
    } else {
        p
    }
}

fn treat<A: Arithmetic>(
    img: &Image,
    params: &HotPixelParams,
    y: usize,
    x: usize,
    k: usize,
) -> (r: u32)
    requires
        faithful::<A>(),
        inside(img@.shape, y as int, x as int, k as int),
    ensures
        r == treated::<A>(img@, *params, y as int, x as int, k as int),
{
    let (h, w, _c) = img.dim();
    let (y0, y2) = window_span(y, 1, h);
    let (x0, x2) = window_span(x, 1, w);
    let window: [u32; 9] = [
        img.cell(y0, x0, k),
        img.cell(y0, x, k),
        img.cell(y0, x2, k),
        img.cell(y, x0, k),
        img.cell(y, x, k),
        img.cell(y, x2, k),
        img.cell(y2, x0, k),
        img.cell(y2, x, k),
        img.cell(y2, x2, k),
    ];
    assert(window@ =~= neighbourhood(img@, y as int, x as int, k as int));
    let p: u32 = img.cell(y, x, k);
    let m: u32 = median9(window);
    let limit: u32 = plus::<A>(
        params.threshold,
        times::<A>(params.relative, single::magnitude(m)),
    );
    if single::less(limit, single::magnitude(minus::<A>(p, m))) {
        m
    } else {
        p
    }
}

/// A raster with its hot pixels removed.
pub open spec fn treated_raster<A: Arithmetic>(r: Raster<u32>, params: HotPixelParams) -> Raster<
    u32,
> {
    tabulate(r.shape, |y: int, x: int, k: int| treated::<A>(r, params, y, x, k))
}

/// Every sample of the result is a sample of the neighbourhood it stands for:
/// none is made up.
pub proof fn result_is_a_neighbour<A: Arithmetic>(
    r: Raster<u32>,
    params: HotPixelParams,
    y: int,
    x: int,
    k: int,
)
    requires
        inside(r.shape, y, x, k),
    ensures
        neighbourhood(r, y, x, k).contains(treated_raster::<A>(r, params).at(y, x, k)),
{
    tabulated(r.shape, |y: int, x: int, k: int| treated::<A>(r, params, y, x, k));
    let n = neighbourhood(r, y, x, k);
    median_is_a_member(n);
    assert(n[4] == r.at(y, x, k));
}

/// A channel of the result depends on that channel of the image alone.
pub proof fn channels_are_independent<A: Arithmetic>(
    a: Raster<u32>,
    b: Raster<u32>,
    params: HotPixelParams,
    y: int,
    x: int,
    k: int,
)
    requires
        a.shape == b.shape,
        inside(a.shape, y, x, k),
        forall|j: int, i: int|
            inside(a.shape, j, i, k) ==> #[trigger] a.at(j, i, k) == b.at(j, i, k),
    ensures
        treated_raster::<A>(a, params).at(y, x, k) == treated_raster::<A>(b, params).at(y, x, k),
{
    tabulated(a.shape, |y: int, x: int, k: int| treated::<A>(a, params, y, x, k));
    tabulated(b.shape, |y: int, x: int, k: int| treated::<A>(b, params, y, x, k));
    assert(neighbourhood(a, y, x, k) =~= neighbourhood(b, y, x, k));
}

/// Removes hot pixels with a conditional median of three by three.
pub fn hot_pixels<A: Arithmetic>(img: &Image, params: &HotPixelParams) -> (r: Result<
    Image,
    PhaiosError,
>)
    requires
        faithful::<A>(),
    ensures
        match r {
            Ok(out) => hot_fault::<A>(*params) is None && permitted::<u32>(img@.shape) && out@
                == treated_raster::<A>(img@, *params),
            Err(e) => match hot_fault::<A>(*params) {
                Some(fault) => e@ == fault,
                None => refusal::<u32>(img@.shape, e@),
            },
        },
{
    if let Err(e) = validate::<A>(params) {
        return Err(e);
    }
    let make = |y: usize, x: usize, k: usize| -> (s: u32)
        requires
            faithful::<A>(),
            inside(img@.shape, y as int, x as int, k as int),
        ensures
            s == treated::<A>(img@, *params, y as int, x as int, k as int),
        { treat::<A>(img, params, y, x, k) };
    let r = image(img.dim(), make);
    if let Ok(out) = &r {
        proof {
            is_tabulated(out@, |y: int, x: int, k: int| treated::<A>(img@, *params, y, x, k));
        }
    }
    r
}

} // verus!
