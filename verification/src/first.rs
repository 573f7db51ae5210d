//! The primitive sorter: `u32` values, ordered by a direction flag.
use crate::length::{lemma_valid_length_halves, valid_length};
use crate::network::{
    bitonic, lemma_build_step, lemma_merge_step, lemma_rearranged_halves, pair_kept,
    pair_kept_or_exchanged, pair_ordered, partners_exchanged, partners_ordered,
};
use crate::relation::{
    directed, lemma_directed_strict_weak_order, lemma_ordered_is_nondecreasing,
    lemma_sorted_rearrangement_is_equal, nondecreasing, nonincreasing, ordered,
    strict_weak_order, ties_are_equal,
};
use crate::slices::exchange;
use vstd::prelude::*;

verus! {

/// The order of the integers: `a` is strictly below `b`.
pub open spec fn below() -> spec_fn(u32, u32) -> bool {
    |a: u32, b: u32| a < b
}

/// Every element of `s` is at most each later one.
pub open spec fn ascending(s: Seq<u32>) -> bool {
    forall|i: int, j: int| 0 <= i < j < s.len() ==> s[i] <= s[j]
}

/// Every element of `s` is at least each later one.
pub open spec fn descending(s: Seq<u32>) -> bool {
    forall|i: int, j: int| 0 <= i < j < s.len() ==> s[i] >= s[j]
}

/// `s` is sorted: ascending when `up` holds, descending otherwise.
pub open spec fn sorted(s: Seq<u32>, up: bool) -> bool {
    if up {
        ascending(s)
    } else {
        descending(s)
    }
}

/// `below` is a strict weak order in which only equal integers tie, and a
/// sequence is sorted exactly when it is ordered by `below`.
pub proof fn lemma_sorted_is_ordered(s: Seq<u32>, up: bool)
    ensures
        strict_weak_order(below()),
        sorted(s, up) == ordered(s, below(), up),
        ties_are_equal(s, directed(below(), up)),
{
    let lt = below();
    if ascending(s) {
        assert forall|i: int, j: int| #![trigger s[i], s[j]] 0 <= i < j < s.len() implies !lt(
            s[j],
            s[i],
        ) by {
            assert(s[i] <= s[j]);
        }
    }
    if nondecreasing(s, lt) {
        assert forall|i: int, j: int| 0 <= i < j < s.len() implies s[i] <= s[j] by {
            assert(!lt(s[j], s[i]));
        }
    }
    if descending(s) {
        assert forall|i: int, j: int| #![trigger s[i], s[j]] 0 <= i < j < s.len() implies !lt(
            s[i],
            s[j],
        ) by {
            assert(s[i] >= s[j]);
        }
    }
    if nonincreasing(s, lt) {
        assert forall|i: int, j: int| 0 <= i < j < s.len() implies s[i] >= s[j] by {
            assert(!lt(s[i], s[j]));
        }
    }
}

/// Sorts `x` in place: ascending when `up` holds, descending otherwise.
///
/// The length is not checked. On a length that is neither zero nor a power of
/// two the elements are rearranged, but need not end up sorted.
pub fn sort(x: &mut [u32], up: bool)
    ensures
        final(x)@.len() == old(x)@.len(),
        final(x)@.to_multiset() == old(x)@.to_multiset(),
        valid_length(old(x)@.len()) ==> sorted(final(x)@, up),
        valid_length(old(x)@.len()) && sorted(old(x)@, up) ==> final(x)@ == old(x)@,
    decreases old(x)@.len(),
{
    if x.len() > 1 {
        let mid_point: usize = x.len() / 2;
        let (lower, upper) = x.split_at_mut(mid_point);
        sort(lower, true);
        sort(upper, false);
        proof {
            lemma_rearranged_halves(old(x)@, lower@, upper@);
            if valid_length(old(x)@.len()) {
                lemma_valid_length_halves(old(x)@.len());
                lemma_sorted_is_ordered(lower@, true);
                lemma_sorted_is_ordered(upper@, false);
                lemma_build_step(lower@, upper@, below(), up);
            }
        }
        sub_sort(x, up);
        proof {
            lemma_sorted_is_ordered(x@, up);
            if valid_length(old(x)@.len()) && sorted(old(x)@, up) {
                lemma_sorted_is_ordered(old(x)@, up);
                lemma_directed_strict_weak_order(below(), up);
                lemma_ordered_is_nondecreasing(old(x)@, below(), up);
                lemma_ordered_is_nondecreasing(x@, below(), up);
                lemma_sorted_rearrangement_is_equal(old(x)@, x@, directed(below(), up));
            }
        }
    }
}

/// Merges a bitonic `x` into sorted order by rounds of compare-and-swap on
/// ever shorter halves.
fn sub_sort(x: &mut [u32], up: bool)
    ensures
        final(x)@.len() == old(x)@.len(),
        final(x)@.to_multiset() == old(x)@.to_multiset(),
        valid_length(old(x)@.len()) && bitonic(old(x)@, directed(below(), up)) ==> ordered(
            final(x)@,
            below(),
            up,
        ),
    decreases old(x)@.len(),
{
    if x.len() > 1 {
        compare_and_swap(x, up);
        let ghost round = x@;
        let mid_point: usize = x.len() / 2;
        let (lower, upper) = x.split_at_mut(mid_point);
        sub_sort(lower, up);
        sub_sort(upper, up);
        proof {
            lemma_rearranged_halves(round, lower@, upper@);
            if valid_length(old(x)@.len()) && bitonic(old(x)@, directed(below(), up)) {
                lemma_valid_length_halves(old(x)@.len());
                lemma_sorted_is_ordered(round, up);
                lemma_directed_strict_weak_order(below(), up);
                lemma_ordered_is_nondecreasing(lower@, below(), up);
                lemma_ordered_is_nondecreasing(upper@, below(), up);
                lemma_ordered_is_nondecreasing(lower@ + upper@, below(), up);
                lemma_merge_step(old(x)@, round, lower@, upper@, directed(below(), up));
            }
        }
    }
}

/// One round of the network: compares every element of the lower half with
/// its partner in the upper half and exchanges the two when they are out of
/// order for the direction `up`.
fn compare_and_swap(x: &mut [u32], up: bool)
    ensures
        final(x)@.len() == old(x)@.len(),
        final(x)@.to_multiset() == old(x)@.to_multiset(),
        partners_exchanged(old(x)@, final(x)@),
        partners_ordered(final(x)@, directed(below(), up)),
{
    let mid_point: usize = x.len() / 2;
    for i in 0..mid_point
        invariant
            x@.len() == old(x)@.len(),
            mid_point == x@.len() / 2,
            x@.to_multiset() == old(x)@.to_multiset(),
            forall|k: int| 0 <= k < i ==> #[trigger] pair_kept_or_exchanged(old(x)@, x@, k),
            forall|k: int| 0 <= k < i ==> #[trigger] pair_ordered(x@, directed(below(), up), k),
            forall|k: int| i <= k < mid_point ==> #[trigger] pair_kept(old(x)@, x@, k),
            x@.len() % 2 == 1 ==> x@.last() == old(x)@.last(),
    {
        let ghost previous = x@;
        if (x[i] > x[mid_point + i]) == up {
            exchange(x, i, mid_point + i);
        }
        proof {
            assert forall|k: int| 0 <= k < mid_point implies {
                &&& k < i ==> pair_kept(previous, x@, k)
                &&& k > i ==> pair_kept(previous, x@, k)
                &&& k == i ==> #[trigger] pair_kept_or_exchanged(previous, x@, k)
            } by {}
            assert forall|k: int| i + 1 <= k < mid_point implies #[trigger] pair_kept(
                old(x)@,
                x@,
                k,
            ) by {
                assert(pair_kept(old(x)@, previous, k));
                assert(pair_kept_or_exchanged(previous, x@, k));
            }
            assert forall|k: int| 0 <= k < i + 1 implies #[trigger] pair_kept_or_exchanged(
                old(x)@,
                x@,
                k,
            ) by {
                assert(pair_kept_or_exchanged(previous, x@, k));
                if k < i {
                    assert(pair_kept_or_exchanged(old(x)@, previous, k));
                } else {
                    assert(pair_kept(old(x)@, previous, k));
                }
            }
            assert forall|k: int| 0 <= k < i + 1 implies #[trigger] pair_ordered(
                x@,
                directed(below(), up),
                k,
            ) by {
                assert(pair_kept_or_exchanged(previous, x@, k));
                if k < i {
                    assert(pair_ordered(previous, directed(below(), up), k));
                }
            }
        }
    }
}

} // verus!
