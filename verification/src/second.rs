//! The generic sorter: any `Ord` type in its natural order, with the length checked.
use crate::comparator::{lemma_natural_order_is_strict_weak, natural_order};
use crate::length::{
    is_valid_length, lemma_short_lengths_are_valid, lemma_valid_length_halves, valid_length,
};
use crate::network::{
    bitonic, lemma_build_step, lemma_merge_step, lemma_rearranged_halves, pair_kept,
    pair_kept_or_exchanged, pair_ordered, partners_exchanged, partners_ordered,
};
use crate::relation::{
    directed, lemma_directed_strict_weak_order, lemma_ordered_is_nondecreasing,
    lemma_sorted_rearrangement_is_equal, lemma_sorted_rearrangements_tie, ordered,
    tie_by_position, ties_are_equal,
};
use crate::slices::exchange;
use crate::{SortError, SortOrder};
use vstd::laws_cmp::obeys_cmp;
use vstd::prelude::*;

verus! {

/// Sorts `x` in place by the natural order of `T`, in the direction `order`.
///
/// A length that is neither zero nor a power of two is refused, and `x` is
/// then left as it was. What "sorted" means rests on `T` keeping the laws of
/// comparison. A sorted `x` keeps in every position an element that ties with
/// the one it held, and is left as it was where only equal elements tie.
pub fn sort<T: Ord>(x: &mut [T], order: &SortOrder) -> (result: Result<(), SortError>)
    ensures
        final(x)@.len() == old(x)@.len(),
        final(x)@.to_multiset() == old(x)@.to_multiset(),
        valid_length(old(x)@.len()) ==> result is Ok,
        old(x)@.len() <= 1 ==> result is Ok,
        !valid_length(old(x)@.len()) ==> final(x)@ == old(x)@ && (result matches Err(
            SortError::InvalidLength(n),
        ) && n == old(x)@.len()),
        result is Ok && obeys_cmp::<T>() ==> ordered(
            final(x)@,
            natural_order::<T>(),
            order.is_up(),
        ),
        result is Ok && obeys_cmp::<T>() && ordered(old(x)@, natural_order::<T>(), order.is_up())
            ==> tie_by_position(old(x)@, final(x)@, natural_order::<T>()),
        result is Ok && obeys_cmp::<T>() && ordered(old(x)@, natural_order::<T>(), order.is_up())
            && ties_are_equal(old(x)@, natural_order::<T>()) ==> final(x)@ == old(x)@,
{
    proof {
        lemma_short_lengths_are_valid();
    }
    if is_valid_length(x.len()) {
        match *order {
            SortOrder::Ascending => do_sort(x, true),
            SortOrder::Descending => do_sort(x, false),
        };
        proof {
            if obeys_cmp::<T>() && ordered(old(x)@, natural_order::<T>(), order.is_up()) {
                let lt = natural_order::<T>();
                lemma_natural_order_is_strict_weak::<T>();
                lemma_directed_strict_weak_order(lt, order.is_up());
                lemma_ordered_is_nondecreasing(old(x)@, lt, order.is_up());
                lemma_ordered_is_nondecreasing(x@, lt, order.is_up());
                lemma_sorted_rearrangements_tie(old(x)@, x@, directed(lt, order.is_up()));
                if ties_are_equal(old(x)@, lt) {
                    lemma_sorted_rearrangement_is_equal(old(x)@, x@, directed(lt, order.is_up()));
                }
            }
        }
        Ok(())
    } else {
        Err(SortError::InvalidLength(x.len()))
    }
}

/// Sorts each half of `x` the opposite way, which makes `x` bitonic, and merges it.
fn do_sort<T: Ord>(x: &mut [T], up: bool)
    ensures
        final(x)@.len() == old(x)@.len(),
        final(x)@.to_multiset() == old(x)@.to_multiset(),
        valid_length(old(x)@.len()) && obeys_cmp::<T>() ==> ordered(
            final(x)@,
            natural_order::<T>(),
            up,
        ),
    decreases old(x)@.len(),
{
    if x.len() > 1 {
        let mid_point: usize = x.len() / 2;
        let (lower, upper) = x.split_at_mut(mid_point);
        do_sort(lower, true);
        do_sort(upper, false);
        proof {
            lemma_rearranged_halves(old(x)@, lower@, upper@);
            if valid_length(old(x)@.len()) && obeys_cmp::<T>() {
                lemma_valid_length_halves(old(x)@.len());
                lemma_natural_order_is_strict_weak::<T>();
                lemma_build_step(lower@, upper@, natural_order::<T>(), up);
            }
        }
        sub_sort(x, up)
    }
}

/// Merges a bitonic `x` into sorted order by rounds of compare-and-swap on
/// ever shorter halves.
fn sub_sort<T: Ord>(x: &mut [T], up: bool)
    ensures
        final(x)@.len() == old(x)@.len(),
        final(x)@.to_multiset() == old(x)@.to_multiset(),
        valid_length(old(x)@.len()) && obeys_cmp::<T>() && bitonic(
            old(x)@,
            directed(natural_order::<T>(), up),
        ) ==> ordered(final(x)@, natural_order::<T>(), up),
    decreases old(x)@.len(),
{
    if x.len() > 1 {
        compare_and_swap(x, up);
        let ghost round = x@;
        let mid_point: usize = x.len() / 2;
        let (lower, upper) = x.split_at_mut(mid_point);
        sub_sort(lower, up);
        sub_sort(upper, up);
        proof {
            let lt = natural_order::<T>();
            lemma_rearranged_halves(round, lower@, upper@);
            if valid_length(old(x)@.len()) && obeys_cmp::<T>() && bitonic(
                old(x)@,
                directed(lt, up),
            ) {
                lemma_valid_length_halves(old(x)@.len());
                lemma_natural_order_is_strict_weak::<T>();
                lemma_directed_strict_weak_order(lt, up);
                lemma_ordered_is_nondecreasing(lower@, lt, up);
                lemma_ordered_is_nondecreasing(upper@, lt, up);
                lemma_ordered_is_nondecreasing(lower@ + upper@, lt, up);
                lemma_merge_step(old(x)@, round, lower@, upper@, directed(lt, up));
            }
        }
    }
}

/// One round of the network: compares every element of the lower half with
/// its partner in the upper half and exchanges the two when they are out of
/// order for the direction `up`.
fn compare_and_swap<T: Ord>(x: &mut [T], up: bool)
    ensures
        final(x)@.len() == old(x)@.len(),
        final(x)@.to_multiset() == old(x)@.to_multiset(),
        partners_exchanged(old(x)@, final(x)@),
        obeys_cmp::<T>() ==> partners_ordered(final(x)@, directed(natural_order::<T>(), up)),
{
    let mid_point: usize = x.len() / 2;
    for i in 0..mid_point
        invariant
            x@.len() == old(x)@.len(),
            mid_point == x@.len() / 2,
            x@.to_multiset() == old(x)@.to_multiset(),
            forall|k: int| 0 <= k < i ==> #[trigger] pair_kept_or_exchanged(old(x)@, x@, k),
            obeys_cmp::<T>() ==> forall|k: int|
                0 <= k < i ==> #[trigger] pair_ordered(x@, directed(natural_order::<T>(), up), k),
            forall|k: int| i <= k < mid_point ==> #[trigger] pair_kept(old(x)@, x@, k),
            x@.len() % 2 == 1 ==> x@.last() == old(x)@.last(),
    {
        let ghost previous = x@;
        let ghost lt = directed(natural_order::<T>(), up);
        if (x[i] > x[mid_point + i]) == up {
            exchange(x, i, mid_point + i);
        }
        proof {
            assert forall|k: int| 0 <= k < mid_point implies {
                &&& k < i ==> pair_kept(previous, x@, k)
                &&& k > i ==> pair_kept(previous, x@, k)
                &&& k == i ==> #[trigger] pair_kept_or_exchanged(previous, x@, k)
            } by {}
            assert forall|k: int| i + 1 <= k < mid_point implies #[trigger] pair_kept(
                old(x)@,
                x@,
                k,
            ) by {
                assert(pair_kept(old(x)@, previous, k));
                assert(pair_kept_or_exchanged(previous, x@, k));
            }
            assert forall|k: int| 0 <= k < i + 1 implies #[trigger] pair_kept_or_exchanged(
                old(x)@,
                x@,
                k,
            ) by {
                assert(pair_kept_or_exchanged(previous, x@, k));
                if k < i {
                    assert(pair_kept_or_exchanged(old(x)@, previous, k));
                } else {
                    assert(pair_kept(old(x)@, previous, k));
                }
            }
            if obeys_cmp::<T>() {
                lemma_natural_order_is_strict_weak::<T>();
                assert forall|k: int| 0 <= k < i + 1 implies #[trigger] pair_ordered(x@, lt, k) by {
                    assert(pair_kept_or_exchanged(previous, x@, k));
                    if k < i {
                        assert(pair_ordered(previous, lt, k));
                    }
                }
            }
        }
    }
}

} // verus!
