//! Exchanging two elements of a slice.
use crate::relation::lemma_exchange_rearranges;
use vstd::prelude::*;

verus! {

/// `<[E]>::swap` exchanges the elements at positions `a` and `b` and leaves
/// every other element where it was. It panics when a position is out of
/// bounds, so both are required to be in bounds.
pub assume_specification<E>[ <[E]>::swap ](slice: &mut [E], a: usize, b: usize)
    requires
        a < old(slice)@.len(),
        b < old(slice)@.len(),
    ensures
        final(slice)@ == old(slice)@.update(a as int, old(slice)@[b as int]).update(
            b as int,
            old(slice)@[a as int],
        ),
;

/// What `s` becomes when the elements at positions `i` and `j` change places.
pub open spec fn exchanged<T>(s: Seq<T>, i: int, j: int) -> Seq<T> {
    s.update(i, s[j]).update(j, s[i])
}

/// Exchanges the elements of `x` at positions `i` and `j`, which rearranges
/// `x` and moves nothing else.
pub fn exchange<T>(x: &mut [T], i: usize, j: usize)
    requires
        i < old(x)@.len(),
        j < old(x)@.len(),
    ensures
        final(x)@ == exchanged(old(x)@, i as int, j as int),
        final(x)@.len() == old(x)@.len(),
        final(x)@.to_multiset() == old(x)@.to_multiset(),
{
    x.swap(i, j);
    proof {
        lemma_exchange_rearranges(old(x)@, i as int, j as int);
    }
}

} // verus!
