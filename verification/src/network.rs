//! Why a bitonic network sorts: the half-cleaner step on threshold cuts.
//!
//! A sequence is cut at a threshold `t` by marking the elements that `t` comes
//! strictly before. The sequence is bitonic when every such cut marks a single
//! run of positions, read cyclically. One round of compare-and-swap between
//! the two halves turns each cut of the whole into the conjunction and the
//! disjunction of its halves, which are again single runs, one of them constant.
use crate::relation::{
    directed, flip, lemma_flip_strict_weak_order, lemma_negative_transitivity,
    lemma_rearranged_element, lemma_rearranged_parts, nondecreasing, nonincreasing,
    strict_weak_order,
};
use vstd::prelude::*;
use vstd::seq_lib::to_multiset_len;

verus! {

/// The first half of `s`, up to but excluding its midpoint.
pub open spec fn lower_half<T>(s: Seq<T>) -> Seq<T> {
    s.subrange(0, s.len() as int / 2)
}

/// The second half of `s`, from its midpoint on.
pub open spec fn upper_half<T>(s: Seq<T>) -> Seq<T> {
    s.subrange(s.len() as int / 2, s.len() as int)
}

/// `b` holds `inside` exactly on the positions from `from` up to but excluding `to`.
pub open spec fn is_run(b: Seq<bool>, from: int, to: int, inside: bool) -> bool {
    &&& 0 <= from <= to <= b.len()
    &&& forall|i: int| 0 <= i < b.len() ==> #[trigger] b[i] == ((from <= i < to) == inside)
}

/// The positions that `b` marks form one run when the ends of `b` are joined.
pub open spec fn cyclic_run(b: Seq<bool>) -> bool {
    exists|from: int, to: int, inside: bool| is_run(b, from, to, inside)
}

/// The cut of `s` at `t`: which elements `t` comes strictly before.
pub open spec fn cut<T>(s: Seq<T>, lt: spec_fn(T, T) -> bool, t: T) -> Seq<bool> {
    Seq::new(s.len(), |i: int| lt(t, s[i]))
}

/// `s` is bitonic under `lt`: every cut of it marks a single run of positions,
/// read cyclically. A sequence that rises and then falls is bitonic, and so is
/// one that falls and then rises.
pub open spec fn bitonic<T>(s: Seq<T>, lt: spec_fn(T, T) -> bool) -> bool {
    forall|t: T| cyclic_run(#[trigger] cut(s, lt, t))
}

/// Position `i` of the lower half and its partner in the upper half hold in
/// `after` what they held in `before`, in the same places.
pub open spec fn pair_kept<T>(before: Seq<T>, after: Seq<T>, i: int) -> bool {
    let j = i + before.len() as int / 2;
    after[i] == before[i] && after[j] == before[j]
}

/// Position `i` of the lower half and its partner in the upper half hold in
/// `after` what they held in `before`, in the same places or exchanged.
pub open spec fn pair_kept_or_exchanged<T>(before: Seq<T>, after: Seq<T>, i: int) -> bool {
    let j = i + before.len() as int / 2;
    ||| pair_kept(before, after, i)
    ||| (after[i] == before[j] && after[j] == before[i])
}

/// The partner of position `i` in the upper half of `s` does not come
/// strictly before the element at `i`.
pub open spec fn pair_ordered<T>(s: Seq<T>, lt: spec_fn(T, T) -> bool, i: int) -> bool {
    !lt(s[i + s.len() as int / 2], s[i])
}

/// `after` differs from `before` only by exchanges between a position of the
/// lower half and its partner in the upper half.
pub open spec fn partners_exchanged<T>(before: Seq<T>, after: Seq<T>) -> bool {
    &&& after.len() == before.len()
    &&& forall|i: int|
        0 <= i < before.len() as int / 2 ==> #[trigger] pair_kept_or_exchanged(before, after, i)
    &&& before.len() % 2 == 1 ==> after.last() == before.last()
}

/// No element of the upper half of `s` comes strictly before its partner in the lower half.
pub open spec fn partners_ordered<T>(s: Seq<T>, lt: spec_fn(T, T) -> bool) -> bool {
    forall|i: int| 0 <= i < s.len() as int / 2 ==> #[trigger] pair_ordered(s, lt, i)
}

/// No element of `upper` comes strictly before an element of `lower`.
pub open spec fn all_below<T>(lower: Seq<T>, upper: Seq<T>, lt: spec_fn(T, T) -> bool) -> bool {
    forall|i: int, j: int|
        #![trigger lower[i], upper[j]]
        0 <= i < lower.len() && 0 <= j < upper.len() ==> !lt(upper[j], lower[i])
}

/// Position by position, the conjunction of the two halves of `b`.
pub open spec fn both_halves(b: Seq<bool>) -> Seq<bool> {
    Seq::new((b.len() / 2) as nat, |i: int| b[i] && b[i + b.len() as int / 2])
}

/// Position by position, the disjunction of the two halves of `b`.
pub open spec fn either_half(b: Seq<bool>) -> Seq<bool> {
    Seq::new((b.len() / 2) as nat, |i: int| b[i] || b[i + b.len() as int / 2])
}

/// The half-cleaner on marks: when `b` is a single cyclic run of even length,
/// so are the conjunction and the disjunction of its halves, and the
/// conjunction marks nothing or the disjunction marks everything.
pub proof fn lemma_half_cleaner(b: Seq<bool>)
    requires
        b.len() % 2 == 0,
        cyclic_run(b),
    ensures
        cyclic_run(both_halves(b)),
        cyclic_run(either_half(b)),
        (forall|i: int| 0 <= i < b.len() / 2 ==> !#[trigger] both_halves(b)[i]) || (forall|i: int|
            0 <= i < b.len() / 2 ==> #[trigger] either_half(b)[i]),
{
    let (from, to, inside): (int, int, bool) = choose|from: int, to: int, inside: bool|
        is_run(b, from, to, inside);
    let h = b.len() as int / 2;
    let lo = both_halves(b);
    let hi = either_half(b);
    assert forall|i: int| 0 <= i < h implies #[trigger] lo[i] == (((from <= i < to) == inside) && ((
    from <= i + h < to) == inside)) by {
        assert(b[i] == ((from <= i < to) == inside));
        assert(b[i + h] == ((from <= i + h < to) == inside));
    }
    assert forall|i: int| 0 <= i < h implies #[trigger] hi[i] == (((from <= i < to) == inside) || ((
    from <= i + h < to) == inside)) by {
        assert(b[i] == ((from <= i < to) == inside));
        assert(b[i + h] == ((from <= i + h < to) == inside));
    }
    if to - from >= h {
        // The run covers a partner of every position.
        if inside {
            assert(is_run(hi, 0, h, true));
            assert(is_run(lo, from, to - h, true));
        } else {
            assert(is_run(lo, 0, 0, true));
            assert(is_run(hi, from, to - h, false));
        }
    } else {
        // The run is too short to cover both partners of any position.
        if inside {
            assert(is_run(lo, 0, 0, true));
            if to <= h {
                assert(is_run(hi, from, to, true));
            } else if from >= h {
                assert(is_run(hi, from - h, to - h, true));
            } else {
                assert(is_run(hi, to - h, from, false));
            }
        } else {
            assert(is_run(hi, 0, h, true));
            if to <= h {
                assert(is_run(lo, from, to, false));
            } else if from >= h {
                assert(is_run(lo, from - h, to - h, false));
            } else {
                assert(is_run(lo, to - h, from, true));
            }
        }
    }
}

/// One round of compare-and-swap acts on each cut as the half-cleaner does:
/// the lower half keeps the conjunction of the halves, the upper half their
/// disjunction.
pub proof fn lemma_round_on_cut<T>(before: Seq<T>, after: Seq<T>, lt: spec_fn(T, T) -> bool, t: T)
    requires
        strict_weak_order(lt),
        before.len() % 2 == 0,
        partners_exchanged(before, after),
        partners_ordered(after, lt),
    ensures
        cut(lower_half(after), lt, t) == both_halves(cut(before, lt, t)),
        cut(upper_half(after), lt, t) == either_half(cut(before, lt, t)),
{
    let h = before.len() as int / 2;
    assert forall|i: int|
        #![trigger cut(lower_half(after), lt, t)[i]]
        #![trigger cut(upper_half(after), lt, t)[i]]
        0 <= i < h implies {
        &&& cut(lower_half(after), lt, t)[i] == both_halves(cut(before, lt, t))[i]
        &&& cut(upper_half(after), lt, t)[i] == either_half(cut(before, lt, t))[i]
    } by {
        assert(pair_kept_or_exchanged(before, after, i));
        assert(pair_ordered(after, lt, i));
        assert(lower_half(after)[i] == after[i]);
        assert(upper_half(after)[i] == after[i + h]);
        if lt(t, after[i]) {
            lemma_negative_transitivity(lt, t, after[i + h], after[i]);
        }
    }
    assert(cut(lower_half(after), lt, t) =~= both_halves(cut(before, lt, t)));
    assert(cut(upper_half(after), lt, t) =~= either_half(cut(before, lt, t)));
}

/// One round of compare-and-swap on a bitonic sequence of even length leaves
/// two bitonic halves, with no element of the upper half strictly before one
/// of the lower half.
pub proof fn lemma_round_splits_bitonic<T>(before: Seq<T>, after: Seq<T>, lt: spec_fn(T, T) -> bool)
    requires
        strict_weak_order(lt),
        before.len() % 2 == 0,
        bitonic(before, lt),
        partners_exchanged(before, after),
        partners_ordered(after, lt),
    ensures
        bitonic(lower_half(after), lt),
        bitonic(upper_half(after), lt),
        all_below(lower_half(after), upper_half(after), lt),
{
    let lower = lower_half(after);
    let upper = upper_half(after);
    assert forall|t: T| cyclic_run(#[trigger] cut(lower, lt, t)) by {
        lemma_round_on_cut(before, after, lt, t);
        lemma_half_cleaner(cut(before, lt, t));
    }
    assert forall|t: T| cyclic_run(#[trigger] cut(upper, lt, t)) by {
        lemma_round_on_cut(before, after, lt, t);
        lemma_half_cleaner(cut(before, lt, t));
    }
    assert forall|i: int, j: int|
        #![trigger lower[i], upper[j]]
        0 <= i < lower.len() && 0 <= j < upper.len() implies !lt(upper[j], lower[i]) by {
        let t = upper[j];
        lemma_round_on_cut(before, after, lt, t);
        lemma_half_cleaner(cut(before, lt, t));
        assert(cut(lower, lt, t)[i] == lt(t, lower[i]));
        assert(cut(upper, lt, t)[j] == lt(t, upper[j]));
    }
}

/// Marks that never go back from set to unset are unset up to some position
/// and set from it on.
pub proof fn lemma_step_position(b: Seq<bool>) -> (step: int)
    requires
        forall|i: int, j: int| 0 <= i < j < b.len() && #[trigger] b[i] ==> #[trigger] b[j],
    ensures
        0 <= step <= b.len(),
        forall|i: int| 0 <= i < b.len() ==> #[trigger] b[i] == (step <= i),
    decreases b.len(),
{
    if b.len() == 0 {
        0
    } else {
        let front = b.drop_last();
        assert forall|i: int, j: int| 0 <= i < j < front.len() && #[trigger] front[i]
            implies #[trigger] front[j] by {
            assert(b[i] ==> b[j]);
        }
        let inner = lemma_step_position(front);
        assert forall|i: int| 0 <= i < front.len() implies #[trigger] b[i] == front[i] by {}
        if b.last() {
            inner
        } else {
            assert forall|i: int| 0 <= i < b.len() implies !#[trigger] b[i] by {
                if i < b.len() - 1 {
                    assert(b[i] ==> b[b.len() - 1]);
                }
            }
            b.len() as int
        }
    }
}

/// A sequence that does not decrease up to `mid` and does not increase from
/// `mid` on is bitonic.
pub proof fn lemma_rise_then_fall_is_bitonic<T>(s: Seq<T>, mid: int, lt: spec_fn(T, T) -> bool)
    requires
        strict_weak_order(lt),
        0 <= mid <= s.len(),
        nondecreasing(s.subrange(0, mid), lt),
        nonincreasing(s.subrange(mid, s.len() as int), lt),
    ensures
        bitonic(s, lt),
{
    let rise = s.subrange(0, mid);
    let fall = s.subrange(mid, s.len() as int);
    assert forall|t: T| cyclic_run(#[trigger] cut(s, lt, t)) by {
        let above = cut(rise, lt, t);
        let not_above = Seq::new(fall.len(), |i: int| !lt(t, fall[i]));
        assert forall|i: int, j: int| 0 <= i < j < above.len() && #[trigger] above[i]
            implies #[trigger] above[j] by {
            assert(!lt(rise[j], rise[i]));
            lemma_negative_transitivity(lt, t, rise[j], rise[i]);
        }
        assert forall|i: int, j: int| 0 <= i < j < not_above.len() && #[trigger] not_above[i]
            implies #[trigger] not_above[j] by {
            assert(!lt(fall[i], fall[j]));
            if lt(t, fall[j]) {
                lemma_negative_transitivity(lt, t, fall[i], fall[j]);
            }
        }
        let from = lemma_step_position(above);
        let to = mid + lemma_step_position(not_above);
        let marks = cut(s, lt, t);
        assert forall|i: int| 0 <= i < marks.len() implies #[trigger] marks[i] == ((from <= i < to)
            == true) by {
            if i < mid {
                assert(above[i] == lt(t, rise[i]));
            } else {
                assert(not_above[i - mid] == !lt(t, fall[i - mid]));
            }
        }
        assert(is_run(marks, from, to, true));
    }
}

/// A sequence that does not increase up to `mid` and does not decrease from
/// `mid` on is bitonic.
pub proof fn lemma_fall_then_rise_is_bitonic<T>(s: Seq<T>, mid: int, lt: spec_fn(T, T) -> bool)
    requires
        strict_weak_order(lt),
        0 <= mid <= s.len(),
        nonincreasing(s.subrange(0, mid), lt),
        nondecreasing(s.subrange(mid, s.len() as int), lt),
    ensures
        bitonic(s, lt),
{
    let fall = s.subrange(0, mid);
    let rise = s.subrange(mid, s.len() as int);
    assert forall|t: T| cyclic_run(#[trigger] cut(s, lt, t)) by {
        let not_above = Seq::new(fall.len(), |i: int| !lt(t, fall[i]));
        let above = cut(rise, lt, t);
        assert forall|i: int, j: int| 0 <= i < j < not_above.len() && #[trigger] not_above[i]
            implies #[trigger] not_above[j] by {
            assert(!lt(fall[i], fall[j]));
            if lt(t, fall[j]) {
                lemma_negative_transitivity(lt, t, fall[i], fall[j]);
            }
        }
        assert forall|i: int, j: int| 0 <= i < j < above.len() && #[trigger] above[i]
            implies #[trigger] above[j] by {
            assert(!lt(rise[j], rise[i]));
            lemma_negative_transitivity(lt, t, rise[j], rise[i]);
        }
        let from = lemma_step_position(not_above);
        let to = mid + lemma_step_position(above);
        let marks = cut(s, lt, t);
        assert forall|i: int| 0 <= i < marks.len() implies #[trigger] marks[i] == ((from <= i < to)
            == false) by {
            if i < mid {
                assert(not_above[i] == !lt(t, fall[i]));
            } else {
                assert(above[i - mid] == lt(t, rise[i - mid]));
            }
        }
        assert(is_run(marks, from, to, false));
    }
}

/// Rearranging each half of `before` on its own rearranges the whole.
pub proof fn lemma_rearranged_halves<T>(before: Seq<T>, lower: Seq<T>, upper: Seq<T>)
    requires
        lower.to_multiset() == lower_half(before).to_multiset(),
        upper.to_multiset() == upper_half(before).to_multiset(),
    ensures
        (lower + upper).len() == before.len(),
        (lower + upper).to_multiset() == before.to_multiset(),
        lower.len() == before.len() / 2,
{
    assert(before =~= lower_half(before) + upper_half(before));
    lemma_rearranged_parts(lower_half(before), upper_half(before), lower, upper);
    to_multiset_len(lower + upper);
    to_multiset_len(before);
    to_multiset_len(lower);
    to_multiset_len(lower_half(before));
}

/// The build step: a part that does not decrease, followed by a part that
/// does not increase, is bitonic under either reading of the order.
pub proof fn lemma_build_step<T>(lower: Seq<T>, upper: Seq<T>, lt: spec_fn(T, T) -> bool, up: bool)
    requires
        strict_weak_order(lt),
        nondecreasing(lower, lt),
        nonincreasing(upper, lt),
    ensures
        bitonic(lower + upper, directed(lt, up)),
{
    let whole = lower + upper;
    let mid = lower.len() as int;
    assert(whole.subrange(0, mid) =~= lower);
    assert(whole.subrange(mid, whole.len() as int) =~= upper);
    if up {
        lemma_rise_then_fall_is_bitonic(whole, mid, lt);
    } else {
        lemma_flip_strict_weak_order(lt);
        assert(nonincreasing(lower, flip(lt)));
        assert(nondecreasing(upper, flip(lt)));
        lemma_fall_then_rise_is_bitonic(whole, mid, flip(lt));
    }
}

/// The merge step: when `round` is what one round of compare-and-swap leaves
/// of a bitonic sequence of even length, sorting each half of it on its own
/// sorts the whole.
pub proof fn lemma_merge_step<T>(
    before: Seq<T>,
    round: Seq<T>,
    lower: Seq<T>,
    upper: Seq<T>,
    lt: spec_fn(T, T) -> bool,
)
    requires
        strict_weak_order(lt),
        before.len() % 2 == 0,
        bitonic(before, lt),
        partners_exchanged(before, round),
        partners_ordered(round, lt),
        lower.to_multiset() == lower_half(round).to_multiset(),
        upper.to_multiset() == upper_half(round).to_multiset(),
        bitonic(lower_half(round), lt) ==> nondecreasing(lower, lt),
        bitonic(upper_half(round), lt) ==> nondecreasing(upper, lt),
    ensures
        nondecreasing(lower + upper, lt),
{
    let whole = lower + upper;
    let mid = lower.len() as int;
    lemma_round_splits_bitonic(before, round, lt);
    assert forall|i: int, j: int|
        #![trigger whole[i], whole[j]]
        0 <= i < j < whole.len() implies !lt(whole[j], whole[i]) by {
        if j < mid {
            assert(!lt(lower[j], lower[i]));
        } else if i >= mid {
            assert(!lt(upper[j - mid], upper[i - mid]));
        } else {
            let k = lemma_rearranged_element(lower_half(round), lower, i);
            let m = lemma_rearranged_element(upper_half(round), upper, j - mid);
            assert(!lt(upper_half(round)[m], lower_half(round)[k]));
        }
    }
}

} // verus!
