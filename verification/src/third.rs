//! The comparator sorter: any type, ordered by a comparator that the caller
//! hands in, with the length checked.
use crate::comparator::{
    comparable, decides, lemma_halves_are_comparable, lemma_natural_order_is_strict_weak,
    lemma_rearranged_is_comparable, natural_order,
};
use crate::length::{
    is_valid_length, lemma_short_lengths_are_valid, lemma_valid_length_halves, valid_length,
};
use crate::network::{
    bitonic, lemma_build_step, lemma_merge_step, lemma_rearranged_halves, pair_kept,
    pair_kept_or_exchanged, pair_ordered, partners_exchanged, partners_ordered,
};
use crate::relation::{
    directed, flip, lemma_directed_strict_weak_order, lemma_flip_strict_weak_order,
    lemma_ordered_is_nondecreasing, lemma_sorted_rearrangement_is_equal,
    lemma_sorted_rearrangements_tie, nondecreasing, ordered, strict_weak_order, tie_by_position,
    ties_are_equal,
};
use crate::slices::exchange;
use crate::{SortError, SortOrder};
use std::cmp::Ordering;
use vstd::laws_cmp::obeys_cmp;
use vstd::prelude::*;
use vstd::std_specs::cmp::OrdSpec;

verus! {

/// Compares `a` with `b` in the natural order of `T`.
fn forwards<T: Ord>(a: &T, b: &T) -> (o: Ordering)
    ensures
        T::obeys_cmp_spec() ==> o == a.cmp_spec(b),
{
    a.cmp(b)
}

/// Compares `a` with `b` in the natural order of `T` read backwards.
fn backwards<T: Ord>(a: &T, b: &T) -> (o: Ordering)
    ensures
        T::obeys_cmp_spec() ==> o == b.cmp_spec(a),
{
    b.cmp(a)
}

/// Sorts `x` in place by the natural order of `T`, in the direction `order`.
///
/// A length that is neither zero nor a power of two is refused, and `x` is
/// then left as it was. What "sorted" means rests on `T` keeping the laws of
/// comparison. A sorted `x` keeps in every position an element that ties with
/// the one it held, and is left as it was where only equal elements tie.
pub fn sort<T: Ord>(x: &mut [T], order: &SortOrder) -> (result: Result<(), SortError>)
    ensures
        final(x)@.len() == old(x)@.len(),
        final(x)@.to_multiset() == old(x)@.to_multiset(),
        valid_length(old(x)@.len()) ==> result is Ok,
        old(x)@.len() <= 1 ==> result is Ok,
        !valid_length(old(x)@.len()) ==> final(x)@ == old(x)@ && (result matches Err(
            SortError::InvalidLength(n),
        ) && n == old(x)@.len()),
        result is Ok && obeys_cmp::<T>() ==> ordered(
            final(x)@,
            natural_order::<T>(),
            order.is_up(),
        ),
        result is Ok && obeys_cmp::<T>() && ordered(old(x)@, natural_order::<T>(), order.is_up())
            ==> tie_by_position(old(x)@, final(x)@, natural_order::<T>()),
        result is Ok && obeys_cmp::<T>() && ordered(old(x)@, natural_order::<T>(), order.is_up())
            && ties_are_equal(old(x)@, natural_order::<T>()) ==> final(x)@ == old(x)@,
{
    let ghost lt = natural_order::<T>();
    proof {
        if obeys_cmp::<T>() {
            lemma_natural_order_is_strict_weak::<T>();
            lemma_flip_strict_weak_order(lt);
            lemma_ordered_is_nondecreasing(old(x)@, lt, order.is_up());
        }
    }
    match *order {
        SortOrder::Ascending => {
            let result = sort_by(x, &forwards::<T>);
            proof {
                if obeys_cmp::<T>() {
                    assert(decides(forwards::<T>, lt));
                }
            }
            result
        },
        SortOrder::Descending => {
            let result = sort_by(x, &backwards::<T>);
            proof {
                if obeys_cmp::<T>() {
                    assert(decides(backwards::<T>, flip(lt)));
                }
            }
            result
        },
    }
}

/// Sorts `x` in place into non-decreasing order by `comparator`.
///
/// A length that is neither zero nor a power of two is refused, and `x` is
/// then left as it was. The comparator is trusted to decide a strict weak
/// order: for each such order that it decides, `x` ends up sorted by it. An
/// `x` that was sorted by it keeps in every position an element that ties
/// with the one it held, and is left as it was where only equal elements tie.
/// Under any comparator `x` is only rearranged.
pub fn sort_by<T, F>(x: &mut [T], comparator: &F) -> (result: Result<(), SortError>) where
    F: Fn(&T, &T) -> Ordering,

    requires
        comparable(old(x)@, *comparator),
    ensures
        final(x)@.len() == old(x)@.len(),
        final(x)@.to_multiset() == old(x)@.to_multiset(),
        valid_length(old(x)@.len()) ==> result is Ok,
        old(x)@.len() <= 1 ==> result is Ok,
        !valid_length(old(x)@.len()) ==> final(x)@ == old(x)@ && (result matches Err(
            SortError::InvalidLength(n),
        ) && n == old(x)@.len()),
        result is Ok ==> forall|lt: spec_fn(T, T) -> bool| #[trigger]
            decides(*comparator, lt) && strict_weak_order(lt) ==> {
                &&& nondecreasing(final(x)@, lt)
                &&& nondecreasing(old(x)@, lt) ==> tie_by_position(old(x)@, final(x)@, lt)
                &&& nondecreasing(old(x)@, lt) && ties_are_equal(old(x)@, lt) ==> final(x)@ == old(
                    x,
                )@
            },
{
    proof {
        lemma_short_lengths_are_valid();
    }
    if is_valid_length(x.len()) {
        do_sort(x, true, comparator);
        proof {
            assert forall|lt: spec_fn(T, T) -> bool| #[trigger]
                decides(*comparator, lt) && strict_weak_order(lt) implies {
                &&& nondecreasing(x@, lt)
                &&& nondecreasing(old(x)@, lt) ==> tie_by_position(old(x)@, x@, lt)
                &&& nondecreasing(old(x)@, lt) && ties_are_equal(old(x)@, lt) ==> x@ == old(x)@
            } by {
                assert(ordered(x@, lt, true));
                if nondecreasing(old(x)@, lt) {
                    lemma_sorted_rearrangements_tie(old(x)@, x@, lt);
                    if ties_are_equal(old(x)@, lt) {
                        lemma_sorted_rearrangement_is_equal(old(x)@, x@, lt);
                    }
                }
            }
        }
        Ok(())
    } else {
        Err(SortError::InvalidLength(x.len()))
    }
}

/// Sorts each half of `x` the opposite way, which makes `x` bitonic, and merges it.
fn do_sort<T, F>(x: &mut [T], forward: bool, comparator: &F) where F: Fn(&T, &T) -> Ordering
    requires
        comparable(old(x)@, *comparator),
    ensures
        final(x)@.len() == old(x)@.len(),
        final(x)@.to_multiset() == old(x)@.to_multiset(),
        valid_length(old(x)@.len()) ==> forall|lt: spec_fn(T, T) -> bool| #[trigger]
            decides(*comparator, lt) && strict_weak_order(lt) ==> ordered(final(x)@, lt, forward),
    decreases old(x)@.len(),
{
    if x.len() > 1 {
        proof {
            lemma_halves_are_comparable(old(x)@, *comparator);
        }
        let mid_point: usize = x.len() / 2;
        let (lower, upper) = x.split_at_mut(mid_point);
        do_sort(lower, true, comparator);
        do_sort(upper, false, comparator);
        let ghost sorted_lower = lower@;
        let ghost sorted_upper = upper@;
        proof {
            lemma_rearranged_halves(old(x)@, sorted_lower, sorted_upper);
            lemma_rearranged_is_comparable(old(x)@, sorted_lower + sorted_upper, *comparator);
        }
        sub_sort(x, forward, comparator);
        proof {
            if valid_length(old(x)@.len()) {
                lemma_valid_length_halves(old(x)@.len());
                assert forall|lt: spec_fn(T, T) -> bool| #[trigger]
                    decides(*comparator, lt) && strict_weak_order(lt) implies ordered(
                    x@,
                    lt,
                    forward,
                ) by {
                    lemma_build_step(sorted_lower, sorted_upper, lt, forward);
                }
            }
        }
    }
}

/// Merges a bitonic `x` into sorted order by rounds of compare-and-swap on
/// ever shorter halves.
fn sub_sort<T, F>(x: &mut [T], forward: bool, comparator: &F) where F: Fn(&T, &T) -> Ordering
    requires
        comparable(old(x)@, *comparator),
    ensures
        final(x)@.len() == old(x)@.len(),
        final(x)@.to_multiset() == old(x)@.to_multiset(),
        valid_length(old(x)@.len()) ==> forall|lt: spec_fn(T, T) -> bool| #[trigger]
            decides(*comparator, lt) && strict_weak_order(lt) && bitonic(
                old(x)@,
                directed(lt, forward),
            ) ==> ordered(final(x)@, lt, forward),
    decreases old(x)@.len(),
{
    if x.len() > 1 {
        compare_and_swap(x, forward, comparator);
        let ghost round = x@;
        proof {
            lemma_rearranged_is_comparable(old(x)@, round, *comparator);
            lemma_halves_are_comparable(round, *comparator);
        }
        let mid_point: usize = x.len() / 2;
        let (lower, upper) = x.split_at_mut(mid_point);
        sub_sort(lower, forward, comparator);
        sub_sort(upper, forward, comparator);
        proof {
            lemma_rearranged_halves(round, lower@, upper@);
            if valid_length(old(x)@.len()) {
                lemma_valid_length_halves(old(x)@.len());
                assert forall|lt: spec_fn(T, T) -> bool| #[trigger]
                    decides(*comparator, lt) && strict_weak_order(lt) && bitonic(
                    old(x)@,
                    directed(lt, forward),
                ) implies ordered(lower@ + upper@, lt, forward) by {
                    lemma_directed_strict_weak_order(lt, forward);
                    lemma_ordered_is_nondecreasing(lower@, lt, forward);
                    lemma_ordered_is_nondecreasing(upper@, lt, forward);
                    lemma_ordered_is_nondecreasing(lower@ + upper@, lt, forward);
                    lemma_merge_step(old(x)@, round, lower@, upper@, directed(lt, forward));
                }
            }
        }
    }
}

/// One round of the network: compares every element of the lower half with
/// its partner in the upper half and exchanges the two when the comparator
/// finds them out of order: `Greater` when going `forward`, `Less` otherwise.
fn compare_and_swap<T, F>(x: &mut [T], forward: bool, comparator: &F) where
    F: Fn(&T, &T) -> Ordering,

    requires
        comparable(old(x)@, *comparator),
    ensures
        final(x)@.len() == old(x)@.len(),
        final(x)@.to_multiset() == old(x)@.to_multiset(),
        partners_exchanged(old(x)@, final(x)@),
        forall|lt: spec_fn(T, T) -> bool| #[trigger]
            decides(*comparator, lt) ==> partners_ordered(final(x)@, directed(lt, forward)),
{
    let mid_point: usize = x.len() / 2;
    for i in 0..mid_point
        invariant
            x@.len() == old(x)@.len(),
            mid_point == x@.len() / 2,
            x@.to_multiset() == old(x)@.to_multiset(),
            comparable(old(x)@, *comparator),
            forall|k: int| 0 <= k < i ==> #[trigger] pair_kept_or_exchanged(old(x)@, x@, k),
            forall|lt: spec_fn(T, T) -> bool| #[trigger]
                decides(*comparator, lt) ==> forall|k: int|
                    0 <= k < i ==> #[trigger] pair_ordered(x@, directed(lt, forward), k),
            forall|k: int| i <= k < mid_point ==> #[trigger] x@[k] == old(x)@[k],
            forall|k: int| mid_point + i <= k < x@.len() ==> #[trigger] x@[k] == old(x)@[k],
    {
        let ghost previous = x@;
        let found = comparator(&x[i], &x[mid_point + i]);
        let out_of_order = match found {
            Ordering::Greater => forward,
            Ordering::Less => !forward,
            Ordering::Equal => false,
        };
        if out_of_order {
            exchange(x, i, mid_point + i);
        }
        proof {
            assert forall|k: int| 0 <= k < mid_point implies {
                &&& k < i ==> pair_kept(previous, x@, k)
                &&& k > i ==> pair_kept(previous, x@, k)
                &&& k == i ==> #[trigger] pair_kept_or_exchanged(previous, x@, k)
            } by {}
            assert forall|k: int| 0 <= k < i + 1 implies #[trigger] pair_kept_or_exchanged(
                old(x)@,
                x@,
                k,
            ) by {
                assert(pair_kept_or_exchanged(previous, x@, k));
                if k < i {
                    assert(pair_kept_or_exchanged(old(x)@, previous, k));
                } else {
                    assert(previous[k] == old(x)@[k]);
                    assert(previous[k + mid_point] == old(x)@[k + mid_point]);
                }
            }
            assert forall|lt: spec_fn(T, T) -> bool| #[trigger]
                decides(*comparator, lt) implies forall|k: int|
                0 <= k < i + 1 ==> #[trigger] pair_ordered(x@, directed(lt, forward), k) by {
                assert forall|k: int| 0 <= k < i + 1 implies #[trigger] pair_ordered(
                    x@,
                    directed(lt, forward),
                    k,
                ) by {
                    assert(pair_kept_or_exchanged(previous, x@, k));
                    if k < i {
                        assert(pair_ordered(previous, directed(lt, forward), k));
                    } else {
                        assert(call_ensures(
                            *comparator,
                            (&previous[k], &previous[k + mid_point]),
                            found,
                        ));
                    }
                }
            }
        }
    }
}

} // verus!
