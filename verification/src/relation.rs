//! Strict weak orders on a type, and what it means for a sequence to be sorted by one.
use vstd::prelude::*;

verus! {

/// Neither of `a` and `b` comes strictly before the other.
pub open spec fn incomparable<T>(lt: spec_fn(T, T) -> bool, a: T, b: T) -> bool {
    !lt(a, b) && !lt(b, a)
}

/// `lt` is a strict weak order: irreflexive, transitive, and with a transitive
/// incomparability. Such a relation ranks the elements into classes of ties.
pub open spec fn strict_weak_order<T>(lt: spec_fn(T, T) -> bool) -> bool {
    &&& forall|a: T| !#[trigger] lt(a, a)
    &&& forall|a: T, b: T, c: T| #[trigger] lt(a, b) && #[trigger] lt(b, c) ==> lt(a, c)
    &&& forall|a: T, b: T, c: T|
        #[trigger] incomparable(lt, a, b) && #[trigger] incomparable(lt, b, c) ==> incomparable(
            lt,
            a,
            c,
        )
}

/// The same order read backwards.
pub open spec fn flip<T>(lt: spec_fn(T, T) -> bool) -> spec_fn(T, T) -> bool {
    |a: T, b: T| lt(b, a)
}

/// `lt` itself when `up` holds, `lt` read backwards otherwise.
pub open spec fn directed<T>(lt: spec_fn(T, T) -> bool, up: bool) -> spec_fn(T, T) -> bool {
    if up {
        lt
    } else {
        flip(lt)
    }
}

/// No element of `s` comes strictly before an earlier one.
pub open spec fn nondecreasing<T>(s: Seq<T>, lt: spec_fn(T, T) -> bool) -> bool {
    forall|i: int, j: int| #![trigger s[i], s[j]] 0 <= i < j < s.len() ==> !lt(s[j], s[i])
}

/// No element of `s` comes strictly before a later one.
pub open spec fn nonincreasing<T>(s: Seq<T>, lt: spec_fn(T, T) -> bool) -> bool {
    forall|i: int, j: int| #![trigger s[i], s[j]] 0 <= i < j < s.len() ==> !lt(s[i], s[j])
}

/// `s` is sorted by `lt`: non-decreasing when `up` holds, non-increasing otherwise.
pub open spec fn ordered<T>(s: Seq<T>, lt: spec_fn(T, T) -> bool, up: bool) -> bool {
    if up {
        nondecreasing(s, lt)
    } else {
        nonincreasing(s, lt)
    }
}

/// Elements of `s` that tie under `lt` are the same value.
pub open spec fn ties_are_equal<T>(s: Seq<T>, lt: spec_fn(T, T) -> bool) -> bool {
    forall|i: int, j: int|
        #![trigger s[i], s[j]]
        0 <= i < s.len() && 0 <= j < s.len() && incomparable(lt, s[i], s[j]) ==> s[i] == s[j]
}

/// In a strict weak order, whatever is strictly before `c` is strictly before `b`
/// or has `b` strictly before `c`.
pub proof fn lemma_negative_transitivity<T>(lt: spec_fn(T, T) -> bool, a: T, b: T, c: T)
    requires
        strict_weak_order(lt),
        lt(a, c),
    ensures
        lt(a, b) || lt(b, c),
{
    if !lt(a, b) && !lt(b, c) {
        if lt(b, a) {
            assert(lt(b, c));
        }
        if lt(c, b) {
            assert(lt(a, b));
        }
        assert(incomparable(lt, a, b));
        assert(incomparable(lt, b, c));
        assert(incomparable(lt, a, c));
    }
}

/// A strict weak order read backwards is a strict weak order.
pub proof fn lemma_flip_strict_weak_order<T>(lt: spec_fn(T, T) -> bool)
    requires
        strict_weak_order(lt),
    ensures
        strict_weak_order(flip(lt)),
{
    let r = flip(lt);
    assert forall|a: T, b: T, c: T| #[trigger] r(a, b) && #[trigger] r(b, c) implies r(a, c) by {
        assert(lt(c, b) && lt(b, a));
    }
    assert forall|a: T, b: T, c: T| #[trigger]
        incomparable(r, a, b) && #[trigger] incomparable(r, b, c) implies incomparable(r, a, c) by {
        assert(incomparable(lt, a, b));
        assert(incomparable(lt, b, c));
        assert(incomparable(lt, a, c));
    }
}

/// Either reading of a strict weak order is a strict weak order.
pub proof fn lemma_directed_strict_weak_order<T>(lt: spec_fn(T, T) -> bool, up: bool)
    requires
        strict_weak_order(lt),
    ensures
        strict_weak_order(directed(lt, up)),
{
    if !up {
        lemma_flip_strict_weak_order(lt);
    }
}

/// Sorted in a direction is non-decreasing under the order read in that
/// direction, and the elements tie under either reading alike.
pub proof fn lemma_ordered_is_nondecreasing<T>(s: Seq<T>, lt: spec_fn(T, T) -> bool, up: bool)
    ensures
        ordered(s, lt, up) == nondecreasing(s, directed(lt, up)),
        ordered(s, lt, !up) == nonincreasing(s, directed(lt, up)),
        ties_are_equal(s, lt) == ties_are_equal(s, directed(lt, up)),
        forall|r: Seq<T>| #[trigger]
            tie_by_position(s, r, lt) == tie_by_position(s, r, directed(lt, up)),
{
    let d = directed(lt, up);
    assert forall|r: Seq<T>| #[trigger]
        tie_by_position(s, r, lt) == tie_by_position(s, r, d) by {
        if tie_by_position(s, r, lt) {
            assert forall|i: int|
                #![trigger s[i]]
                #![trigger r[i]]
                0 <= i < s.len() implies incomparable(d, s[i], r[i]) by {
                assert(incomparable(lt, s[i], r[i]));
            }
        }
        if tie_by_position(s, r, d) {
            assert forall|i: int|
                #![trigger s[i]]
                #![trigger r[i]]
                0 <= i < s.len() implies incomparable(lt, s[i], r[i]) by {
                assert(incomparable(d, s[i], r[i]));
            }
        }
    }
    if ties_are_equal(s, lt) {
        assert forall|i: int, j: int|
            #![trigger s[i], s[j]]
            0 <= i < s.len() && 0 <= j < s.len() && incomparable(d, s[i], s[j]) implies s[i]
            == s[j] by {
            assert(incomparable(lt, s[i], s[j]));
        }
    }
    if ties_are_equal(s, d) {
        assert forall|i: int, j: int|
            #![trigger s[i], s[j]]
            0 <= i < s.len() && 0 <= j < s.len() && incomparable(lt, s[i], s[j]) implies s[i]
            == s[j] by {
            assert(incomparable(d, s[i], s[j]));
        }
    }
}

/// Every element of a sequence occurs in each of its rearrangements.
pub proof fn lemma_rearranged_element<T>(s: Seq<T>, r: Seq<T>, i: int) -> (k: int)
    requires
        r.to_multiset() == s.to_multiset(),
        0 <= i < r.len(),
    ensures
        0 <= k < s.len(),
        s[k] == r[i],
{
    broadcast use vstd::seq_lib::group_to_multiset_ensures;

    assert(r.contains(r[i]));
    assert(r.to_multiset().count(r[i]) > 0);
    assert(s.contains(r[i]));
    choose|k: int| 0 <= k < s.len() && s[k] == r[i]
}

/// Rearranging two sequences separately rearranges their concatenation.
pub proof fn lemma_rearranged_parts<T>(s1: Seq<T>, s2: Seq<T>, r1: Seq<T>, r2: Seq<T>)
    requires
        r1.to_multiset() == s1.to_multiset(),
        r2.to_multiset() == s2.to_multiset(),
    ensures
        (r1 + r2).to_multiset() == (s1 + s2).to_multiset(),
{
    vstd::seq_lib::lemma_multiset_commutative(s1, s2);
    vstd::seq_lib::lemma_multiset_commutative(r1, r2);
}

/// Exchanging two elements of a sequence rearranges it.
pub proof fn lemma_exchange_rearranges<T>(s: Seq<T>, i: int, j: int)
    requires
        0 <= i < s.len(),
        0 <= j < s.len(),
    ensures
        s.update(i, s[j]).update(j, s[i]).to_multiset() == s.to_multiset(),
{
    broadcast use vstd::seq_lib::group_to_multiset_ensures;
    broadcast use vstd::multiset::group_multiset_axioms;

    let once = s.update(i, s[j]);
    assert(once.to_multiset() == s.to_multiset().insert(s[j]).remove(s[i]));
    assert(once.update(j, s[i]).to_multiset() == once.to_multiset().insert(s[i]).remove(once[j]));
    assert(s.to_multiset().count(s[i]) > 0);
    assert(s.to_multiset().count(s[j]) > 0);
    assert(once.update(j, s[i]).to_multiset() =~= s.to_multiset());
}

/// `s` and `r` hold, position by position, elements that tie under `lt`.
pub open spec fn tie_by_position<T>(s: Seq<T>, r: Seq<T>, lt: spec_fn(T, T) -> bool) -> bool {
    &&& s.len() == r.len()
    &&& forall|i: int|
        #![trigger s[i]]
        #![trigger r[i]]
        0 <= i < s.len() ==> incomparable(lt, s[i], r[i])
}

/// Sorting pins a sequence down up to its ties: two sequences sorted by one
/// strict weak order, holding the same elements, tie position by position.
pub proof fn lemma_sorted_rearrangements_tie<T>(s: Seq<T>, r: Seq<T>, lt: spec_fn(T, T) -> bool)
    requires
        strict_weak_order(lt),
        r.to_multiset() == s.to_multiset(),
        nondecreasing(s, lt),
        nondecreasing(r, lt),
    ensures
        tie_by_position(s, r, lt),
    decreases s.len(),
{
    broadcast use vstd::seq_lib::group_to_multiset_ensures;
    broadcast use vstd::multiset::group_multiset_axioms;

    vstd::seq_lib::to_multiset_len(s);
    vstd::seq_lib::to_multiset_len(r);
    if s.len() > 0 {
        // Both heads are least elements, so they tie.
        let k = lemma_rearranged_element(r, s, 0);
        let m = lemma_rearranged_element(s, r, 0);
        assert(!lt(s[m], s[0]));
        assert(!lt(r[k], r[0]));
        assert(incomparable(lt, s[0], r[0]));
        // Bring the head of `s` to the head of `r`: everything up to where it
        // stood ties with it, so `r` stays sorted.
        let moved = r.update(0, r[k]).update(k, r[0]);
        lemma_exchange_rearranges(r, 0, k);
        assert forall|i: int, j: int|
            #![trigger moved[i], moved[j]]
            0 <= i < j < moved.len() implies !lt(moved[j], moved[i]) by {
            assert(!lt(r[j], r[i]));
            if i == 0 {
                let at = lemma_rearranged_element(s, moved, j);
                assert(!lt(s[at], s[0]));
            } else if j == k {
                assert(!lt(r[k], r[i]));
                if lt(r[0], r[i]) {
                    lemma_negative_transitivity(lt, r[0], r[k], r[i]);
                }
            } else if i == k {
                assert(!lt(r[j], r[0]));
            }
        }
        let s_rest = s.drop_first();
        let moved_rest = moved.drop_first();
        assert(s_rest.to_multiset() =~= s.to_multiset().remove(s[0])) by {
            assert(s_rest == s.remove(0));
        }
        assert(moved_rest.to_multiset() =~= moved.to_multiset().remove(moved[0])) by {
            assert(moved_rest == moved.remove(0));
        }
        assert forall|i: int, j: int|
            #![trigger s_rest[i], s_rest[j]]
            0 <= i < j < s_rest.len() implies !lt(s_rest[j], s_rest[i]) by {
            assert(!lt(s[j + 1], s[i + 1]));
        }
        assert forall|i: int, j: int|
            #![trigger moved_rest[i], moved_rest[j]]
            0 <= i < j < moved_rest.len() implies !lt(moved_rest[j], moved_rest[i]) by {
            assert(!lt(moved[j + 1], moved[i + 1]));
        }
        lemma_sorted_rearrangements_tie(s_rest, moved_rest, lt);
        assert forall|i: int|
            #![trigger s[i]]
            #![trigger r[i]]
            0 <= i < s.len() implies incomparable(lt, s[i], r[i]) by {
            if i > 0 {
                assert(incomparable(lt, s_rest[i - 1], moved_rest[i - 1]));
                assert(incomparable(lt, s[i], moved[i]));
                assert(incomparable(lt, r[0], r[k]));
                assert(incomparable(lt, moved[i], r[i]));
            }
        }
    }
}

/// Two sequences sorted by one strict weak order, holding the same elements,
/// none of which ties with a different one, are the same sequence.
pub proof fn lemma_sorted_rearrangement_is_equal<T>(s: Seq<T>, r: Seq<T>, lt: spec_fn(T, T) -> bool)
    requires
        strict_weak_order(lt),
        r.to_multiset() == s.to_multiset(),
        nondecreasing(s, lt),
        nondecreasing(r, lt),
        ties_are_equal(s, lt),
    ensures
        r == s,
{
    lemma_sorted_rearrangements_tie(s, r, lt);
    assert forall|i: int| 0 <= i < s.len() implies s[i] == r[i] by {
        let k = lemma_rearranged_element(s, r, i);
        assert(incomparable(lt, s[i], s[k]));
    }
    assert(r =~= s);
}

/// The order that ranks by `primary` and breaks its ties by `secondary`.
pub open spec fn lexicographic<T>(
    primary: spec_fn(T, T) -> bool,
    secondary: spec_fn(T, T) -> bool,
) -> spec_fn(T, T) -> bool {
    |a: T, b: T| primary(a, b) || (incomparable(primary, a, b) && secondary(a, b))
}

/// Ranking by one strict weak order and breaking its ties by another is a
/// strict weak order.
pub proof fn lemma_lexicographic_is_strict_weak<T>(
    primary: spec_fn(T, T) -> bool,
    secondary: spec_fn(T, T) -> bool,
)
    requires
        strict_weak_order(primary),
        strict_weak_order(secondary),
    ensures
        strict_weak_order(lexicographic(primary, secondary)),
{
    let lt = lexicographic(primary, secondary);
    assert forall|a: T, b: T, c: T| #[trigger] lt(a, b) && #[trigger] lt(b, c) implies lt(a, c) by {
        if primary(a, b) {
            lemma_negative_transitivity(primary, a, c, b);
        } else if primary(b, c) {
            lemma_negative_transitivity(primary, b, a, c);
        } else {
            assert(incomparable(primary, a, b));
            assert(incomparable(primary, b, c));
            assert(incomparable(primary, a, c));
            assert(secondary(a, b) && secondary(b, c));
        }
    }
    assert forall|a: T, b: T, c: T| #[trigger]
        incomparable(lt, a, b) && #[trigger] incomparable(lt, b, c) implies incomparable(
        lt,
        a,
        c,
    ) by {
        assert(incomparable(primary, a, b));
        assert(incomparable(primary, b, c));
        assert(incomparable(primary, a, c));
        assert(incomparable(secondary, a, b));
        assert(incomparable(secondary, b, c));
        assert(incomparable(secondary, a, c));
    }
}

/// A sequence sorted by a multi-key order is sorted by its first key, and
/// wherever two of its elements tie on the first key, the second key orders them.
pub proof fn lemma_lexicographic_sorted<T>(
    s: Seq<T>,
    primary: spec_fn(T, T) -> bool,
    secondary: spec_fn(T, T) -> bool,
)
    requires
        nondecreasing(s, lexicographic(primary, secondary)),
    ensures
        nondecreasing(s, primary),
        forall|i: int, j: int|
            #![trigger s[i], s[j]]
            0 <= i < j < s.len() && incomparable(primary, s[i], s[j]) ==> !secondary(s[j], s[i]),
{
    let lt = lexicographic(primary, secondary);
    assert forall|i: int, j: int| #![trigger s[i], s[j]] 0 <= i < j < s.len() implies !primary(
        s[j],
        s[i],
    ) && (incomparable(primary, s[i], s[j]) ==> !secondary(s[j], s[i])) by {
        assert(!lt(s[j], s[i]));
    }
}

} // verus!
