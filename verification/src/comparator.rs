//! Three-way comparisons: the natural order of an `Ord` type, and comparators
//! handed in by a caller.
use crate::network::{lower_half, upper_half};
use crate::relation::{lemma_rearranged_element, strict_weak_order};
use std::cmp::Ordering;
use vstd::laws_cmp::obeys_cmp;
use vstd::prelude::*;
use vstd::std_specs::cmp::{OrdSpec, PartialEqSpec, PartialOrdSpec};

verus! {

/// The natural order of `T`: `a` compares as less than `b`.
pub open spec fn natural_order<T: Ord>() -> spec_fn(T, T) -> bool {
    |a: T, b: T| a.cmp_spec(&b) == Ordering::Less
}

/// The comparator `f` decides the order `lt`: whenever it answers, it answers
/// `Less` exactly when its first argument is strictly before its second, and
/// `Greater` exactly when its second is strictly before its first.
pub open spec fn decides<T, F: Fn(&T, &T) -> Ordering>(f: F, lt: spec_fn(T, T) -> bool) -> bool {
    forall|a: T, b: T, o: Ordering| #[trigger]
        call_ensures(f, (&a, &b), o) ==> {
            &&& (o == Ordering::Less) == lt(a, b)
            &&& (o == Ordering::Greater) == lt(b, a)
        }
}

/// The comparator `f` may be called on every pair of elements of `s`.
pub open spec fn comparable<T, F: Fn(&T, &T) -> Ordering>(s: Seq<T>, f: F) -> bool {
    forall|i: int, j: int|
        #![trigger s[i], s[j]]
        0 <= i < s.len() && 0 <= j < s.len() ==> call_requires(f, (&s[i], &s[j]))
}

/// A comparator that may be called on the elements of a sequence may be
/// called on the elements of its rearrangements.
pub proof fn lemma_rearranged_is_comparable<T, F: Fn(&T, &T) -> Ordering>(
    s: Seq<T>,
    r: Seq<T>,
    f: F,
)
    requires
        comparable(s, f),
        r.to_multiset() == s.to_multiset(),
    ensures
        comparable(r, f),
{
    assert forall|i: int, j: int|
        #![trigger r[i], r[j]]
        0 <= i < r.len() && 0 <= j < r.len() implies call_requires(f, (&r[i], &r[j])) by {
        let k = lemma_rearranged_element(s, r, i);
        let m = lemma_rearranged_element(s, r, j);
        assert(call_requires(f, (&s[k], &s[m])));
    }
}

/// A comparator that may be called on the elements of a sequence may be
/// called on the elements of each half of it.
pub proof fn lemma_halves_are_comparable<T, F: Fn(&T, &T) -> Ordering>(s: Seq<T>, f: F)
    requires
        comparable(s, f),
    ensures
        comparable(lower_half(s), f),
        comparable(upper_half(s), f),
{
    let lower = lower_half(s);
    let upper = upper_half(s);
    let mid = s.len() / 2;
    assert forall|i: int, j: int|
        #![trigger lower[i], lower[j]]
        0 <= i < lower.len() && 0 <= j < lower.len() implies call_requires(
        f,
        (&lower[i], &lower[j]),
    ) by {
        assert(call_requires(f, (&s[i], &s[j])));
    }
    assert forall|i: int, j: int|
        #![trigger upper[i], upper[j]]
        0 <= i < upper.len() && 0 <= j < upper.len() implies call_requires(
        f,
        (&upper[i], &upper[j]),
    ) by {
        assert(call_requires(f, (&s[mid + i], &s[mid + j])));
    }
}

/// Where `T` keeps the laws of comparison, its natural order is a strict weak
/// order, `>` and `cmp` agree with it, and `a > b` says the same as `b < a`.
pub proof fn lemma_natural_order_is_strict_weak<T: Ord>()
    requires
        obeys_cmp::<T>(),
    ensures
        strict_weak_order(natural_order::<T>()),
        T::obeys_cmp_spec(),
        T::obeys_partial_cmp_spec(),
        forall|a: T, b: T| #[trigger] a.partial_cmp_spec(&b) == Some(a.cmp_spec(&b)),
        forall|a: T, b: T|
            (#[trigger] a.cmp_spec(&b) == Ordering::Greater) == (b.cmp_spec(&a) == Ordering::Less),
{
    reveal(vstd::laws_cmp::obeys_cmp_ord);
    reveal(vstd::laws_cmp::obeys_cmp_partial_ord);
    reveal(vstd::laws_cmp::obeys_partial_cmp_spec_properties);
    reveal(vstd::laws_eq::obeys_eq_spec_properties);
    let lt = natural_order::<T>();
    assert forall|a: T, b: T| #[trigger] a.partial_cmp_spec(&b) == Some(a.cmp_spec(&b)) by {}
    assert forall|a: T, b: T|
        (#[trigger] a.cmp_spec(&b) == Ordering::Greater) == (b.cmp_spec(&a)
            == Ordering::Less) by {
        assert(a.partial_cmp_spec(&b) == Some(a.cmp_spec(&b)));
        assert(b.partial_cmp_spec(&a) == Some(b.cmp_spec(&a)));
    }
    assert forall|a: T| !#[trigger] lt(a, a) by {
        assert((a.cmp_spec(&a) == Ordering::Greater) == (a.cmp_spec(&a) == Ordering::Less));
    }
    assert forall|a: T, b: T, c: T| #[trigger] lt(a, b) && #[trigger] lt(b, c) implies lt(a, c) by {
        assert(a.partial_cmp_spec(&b) == Some(Ordering::Less));
        assert(b.partial_cmp_spec(&c) == Some(Ordering::Less));
        assert(a.partial_cmp_spec(&c) == Some(Ordering::Less));
    }
    assert forall|a: T, b: T, c: T| #[trigger]
        crate::relation::incomparable(lt, a, b) && #[trigger] crate::relation::incomparable(
            lt,
            b,
            c,
        ) implies crate::relation::incomparable(lt, a, c) by {
        assert((a.cmp_spec(&b) == Ordering::Greater) == (b.cmp_spec(&a) == Ordering::Less));
        assert((b.cmp_spec(&c) == Ordering::Greater) == (c.cmp_spec(&b) == Ordering::Less));
        assert(a.partial_cmp_spec(&b) == Some(Ordering::Equal));
        assert(b.partial_cmp_spec(&c) == Some(Ordering::Equal));
        assert(a.eq_spec(&b));
        assert(b.eq_spec(&c));
        assert(a.eq_spec(&c));
        assert(c.eq_spec(&a));
        assert(a.partial_cmp_spec(&c) == Some(Ordering::Equal));
        assert(c.partial_cmp_spec(&a) == Some(Ordering::Equal));
        assert(a.partial_cmp_spec(&c) == Some(a.cmp_spec(&c)));
        assert(c.partial_cmp_spec(&a) == Some(c.cmp_spec(&a)));
    }
}

} // verus!
