//! Counting without regard to order.

use vstd::prelude::*;
use vstd::seq_lib::{to_multiset_contains, to_multiset_len, to_multiset_remove};

verus! {

/// How many items of a sequence are as asked.
pub open spec fn occurrences<T>(s: Seq<T>, wanted: spec_fn(T) -> bool) -> nat
    decreases s.len(),
{
    if s.len() == 0 {
        0
    } else {
        occurrences(s.drop_last(), wanted) + if wanted(s.last()) {
            1nat
        } else {
            0nat
        }
    }
}

/// Taking out one item takes it out of the count.
proof fn one_fewer<T>(s: Seq<T>, wanted: spec_fn(T) -> bool, i: int)
    requires
        0 <= i < s.len(),
    ensures
        occurrences(s, wanted) == occurrences(s.remove(i), wanted) + if wanted(s[i]) {
            1nat
        } else {
            0nat
        },
    decreases s.len(),
{
    if i == s.len() - 1 {
        assert(s.remove(i) =~= s.drop_last());
    } else {
        one_fewer(s.drop_last(), wanted, i);
        assert(s.remove(i).drop_last() =~= s.drop_last().remove(i));
        assert(s.remove(i).last() == s.last());
    }
}

/// Sequences of the same items, in whatever order, have the same counts.
pub proof fn order_does_not_count<T>(s: Seq<T>, t: Seq<T>, wanted: spec_fn(T) -> bool)
    requires
        s.to_multiset() == t.to_multiset(),
    ensures
        occurrences(s, wanted) == occurrences(t, wanted),
    decreases s.len(),
{
    to_multiset_len(s);
    to_multiset_len(t);
    if s.len() > 0 {
        let v = s.last();
        to_multiset_contains(s, v);
        to_multiset_contains(t, v);
        assert(s.contains(v)) by {
            assert(s[s.len() - 1] == v);
        }
        let i = choose|i: int| 0 <= i < t.len() && t[i] == v;
        to_multiset_remove(s, s.len() - 1);
        to_multiset_remove(t, i);
        assert(s.remove(s.len() - 1) =~= s.drop_last());
        order_does_not_count(s.drop_last(), t.remove(i), wanted);
        one_fewer(t, wanted, i);
    }
}

/// What all items of one sequence are, all items of a rearrangement are.
pub proof fn rearranged_items<T>(s: Seq<T>, t: Seq<T>, i: int)
    requires
        s.to_multiset() == t.to_multiset(),
        0 <= i < t.len(),
    ensures
        s.len() == t.len(),
        s.contains(t[i]),
{
    to_multiset_len(s);
    to_multiset_len(t);
    to_multiset_contains(s, t[i]);
    to_multiset_contains(t, t[i]);
    assert(t.contains(t[i]));
}

} // verus!
