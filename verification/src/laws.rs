//! What holds of all four algorithms, and of both their forms.

use crate::instrumented::{
    clones_are_equal, lemma_recorded_rest, recorded, replayed, replayed_all, reports,
};
use crate::order::{lemma_irreflexive, lt, strict_weak_order};
use crate::sequence::{
    apply_swaps, in_bounds, inverting, lemma_apply_permutes, lemma_inverting_rest, sorted,
    swapped,
};
use crate::sorts::bubble::{lemma_bubble_sorts, lemma_sorted_pass_is_clean};
use crate::sorts::insertion::lemma_insertion_sorts;
use crate::sorts::quick::{lemma_quick_sorts, quick_sort_swaps};
use crate::sorts::selection::lemma_selection_sorts;
use crate::variant::AlgorithmVariant;
use vstd::prelude::*;

verus! {

/// The exchanges of every algorithm stay within the bounds of the sequence.
/// The result holds the elements of the input, each as often as the input
/// holds it, and no element of the result is less than one before it.
pub proof fn law_sorted_rearrangement<T: PartialOrd>(variant: AlgorithmVariant, s: Seq<T>)
    requires
        strict_weak_order::<T>(),
    ensures
        in_bounds(variant.swaps(s), s.len()),
        apply_swaps(s, variant.swaps(s)).len() == s.len(),
        apply_swaps(s, variant.swaps(s)).to_multiset() == s.to_multiset(),
        sorted(apply_swaps(s, variant.swaps(s))),
{
    match variant {
        AlgorithmVariant::Selection => lemma_selection_sorts(s),
        AlgorithmVariant::Bubble => lemma_bubble_sorts(s),
        AlgorithmVariant::Insertion => lemma_insertion_sorts(s),
        AlgorithmVariant::Quick => lemma_quick_sorts(s),
    }
    lemma_apply_permutes(s, variant.swaps(s));
}

/// No algorithm exchanges anything in a sequence of at most one element: the
/// silent form leaves it as it is, and the instrumented form reports
/// nothing.
pub proof fn law_short_is_left<T: PartialOrd>(variant: AlgorithmVariant, s: Seq<T>)
    requires
        s.len() <= 1,
    ensures
        variant.swaps(s) == Seq::<(int, int)>::empty(),
        apply_swaps(s, variant.swaps(s)) == s,
{
    match variant {
        AlgorithmVariant::Selection => crate::sorts::selection::lemma_short_is_left(s),
        AlgorithmVariant::Bubble => crate::sorts::bubble::lemma_short_is_left(s),
        AlgorithmVariant::Insertion => crate::sorts::insertion::lemma_short_is_left(s),
        AlgorithmVariant::Quick => crate::sorts::quick::lemma_short_is_left(s),
    }
}

/// Selection, bubble and insertion sort exchange nothing in a sorted
/// sequence.
pub proof fn law_sorted_is_left<T: PartialOrd>(variant: AlgorithmVariant, s: Seq<T>)
    requires
        strict_weak_order::<T>(),
        sorted(s),
        variant != AlgorithmVariant::Quick,
    ensures
        variant.swaps(s) == Seq::<(int, int)>::empty(),
        apply_swaps(s, variant.swaps(s)) == s,
{
    match variant {
        AlgorithmVariant::Selection => crate::sorts::selection::lemma_sorted_is_left_from(s, 0),
        AlgorithmVariant::Bubble => lemma_sorted_pass_is_clean(s, 1),
        AlgorithmVariant::Insertion => crate::sorts::insertion::lemma_sorted_is_left_from(s, 1),
        AlgorithmVariant::Quick => {},
    }
}

/// Of two elements neither is less than the other.
pub open spec fn equivalent<T: PartialOrd>(a: T, b: T) -> bool {
    !lt(a, b) && !lt(b, a)
}

/// No two different elements of `s` are equivalent.
pub open spec fn ties_are_equal<T: PartialOrd>(s: Seq<T>) -> bool {
    forall|i: int, j: int|
        0 <= i < s.len() && 0 <= j < s.len() && equivalent(#[trigger] s[i], #[trigger] s[j])
            ==> s[i] == s[j]
}

/// A sorted sequence without ties among different elements has one sorted
/// rearrangement only: itself.
pub proof fn law_sorted_is_unique<T: PartialOrd>(x: Seq<T>, y: Seq<T>)
    requires
        strict_weak_order::<T>(),
        sorted(x),
        sorted(y),
        x.to_multiset() == y.to_multiset(),
        ties_are_equal(x),
    ensures
        x == y,
    decreases x.len(),
{
    broadcast use vstd::seq_lib::group_to_multiset_ensures;
    broadcast use vstd::multiset::group_multiset_axioms;

    assert(x.to_multiset().len() == x.len());
    assert(y.to_multiset().len() == y.len());
    if x.len() > 0 {
        assert(y.contains(y[0]));
        assert(x.to_multiset().count(y[0]) > 0);
        assert(x.contains(y[0]));
        let i = choose|i: int| 0 <= i < x.len() && x[i] == y[0];
        assert(x.contains(x[0]));
        assert(y.to_multiset().count(x[0]) > 0);
        assert(y.contains(x[0]));
        let j = choose|j: int| 0 <= j < y.len() && y[j] == x[0];
        lemma_irreflexive(x[0]);
        assert(!lt(x[i], x[0]));
        assert(!lt(y[j], y[0]));
        assert(equivalent(x[i], x[0]));
        assert(x[0] == y[0]);
        let xs = x.drop_first();
        let ys = y.drop_first();
        assert(xs =~= x.remove(0));
        assert(ys =~= y.remove(0));
        assert(xs.to_multiset() == ys.to_multiset());
        assert forall|a: int, b: int| 0 <= a < b < xs.len() implies !lt(
            #[trigger] xs[b],
            #[trigger] xs[a],
        ) by {
            assert(xs[a] == x[a + 1] && xs[b] == x[b + 1]);
        }
        assert forall|a: int, b: int| 0 <= a < b < ys.len() implies !lt(
            #[trigger] ys[b],
            #[trigger] ys[a],
        ) by {
            assert(ys[a] == y[a + 1] && ys[b] == y[b + 1]);
        }
        assert forall|a: int, b: int|
            0 <= a < xs.len() && 0 <= b < xs.len() && equivalent(
                #[trigger] xs[a],
                #[trigger] xs[b],
            ) implies xs[a] == xs[b] by {
            assert(xs[a] == x[a + 1] && xs[b] == x[b + 1]);
        }
        law_sorted_is_unique(xs, ys);
        assert(x =~= seq![x[0]] + xs);
        assert(y =~= seq![y[0]] + ys);
    }
}

/// Quicksort may exchange elements of a sorted sequence, but it leaves the
/// sequence as it was, provided that no two different elements of it are
/// equivalent.
pub proof fn law_quick_keeps_sorted<T: PartialOrd>(s: Seq<T>)
    requires
        strict_weak_order::<T>(),
        sorted(s),
        ties_are_equal(s),
    ensures
        apply_swaps(s, quick_sort_swaps(s)) == s,
{
    lemma_quick_sorts(s);
    lemma_apply_permutes(s, quick_sort_swaps(s));
    law_sorted_is_unique(s, apply_swaps(s, quick_sort_swaps(s)));
}

/// Selection, bubble and insertion sort exchange two elements only where the
/// later one is less than the earlier one; bubble and insertion sort exchange
/// neighbours only.
pub proof fn law_exchanges_put_right<T: PartialOrd>(variant: AlgorithmVariant, s: Seq<T>)
    requires
        strict_weak_order::<T>(),
        variant != AlgorithmVariant::Quick,
    ensures
        inverting(s, variant.swaps(s), variant != AlgorithmVariant::Selection),
{
    match variant {
        AlgorithmVariant::Selection => crate::sorts::selection::lemma_selection_inverts_from(
            s,
            0,
        ),
        AlgorithmVariant::Bubble => crate::sorts::bubble::lemma_bubble_inverts_from(
            s,
            1,
            false,
            s.len(),
        ),
        AlgorithmVariant::Insertion => crate::sorts::insertion::lemma_insertion_inverts_from(
            s,
            1,
            1,
        ),
        AlgorithmVariant::Quick => {},
    }
}

/// For each position of the sequence after `swaps`, the position at which
/// its element stood before them.
pub open spec fn origins(len: nat, swaps: Seq<(int, int)>) -> Seq<int> {
    apply_swaps(Seq::new(len, |k: int| k), swaps)
}

/// `from` tells where each element of `now` stood in `s`, and two elements
/// of `now` stand in another order than they stood in `s` only if the one
/// that now comes first is less than the other.
pub open spec fn order_kept<T: PartialOrd>(s: Seq<T>, now: Seq<T>, from: Seq<int>) -> bool {
    &&& now.len() == s.len()
    &&& from.len() == s.len()
    &&& forall|k: int|
        0 <= k < now.len() ==> 0 <= #[trigger] from[k] < s.len() && now[k] == s[from[k]]
    &&& forall|a: int, b: int|
        0 <= a < b < now.len() && #[trigger] from[a] >= #[trigger] from[b] ==> lt(now[a], now[b])
}

/// Exchanges of neighbours out of order keep the order of elements that are
/// not less than each other.
pub proof fn lemma_order_kept<T: PartialOrd>(
    s: Seq<T>,
    now: Seq<T>,
    from: Seq<int>,
    swaps: Seq<(int, int)>,
)
    requires
        strict_weak_order::<T>(),
        order_kept(s, now, from),
        inverting(now, swaps, true),
    ensures
        order_kept(s, apply_swaps(now, swaps), apply_swaps(from, swaps)),
    decreases swaps.len(),
{
    if swaps.len() > 0 {
        let (i, j) = swaps[0];
        lemma_inverting_rest(now, swaps, true);
        let next = swapped(now, i, j);
        let next_from = swapped(from, i, j);
        assert forall|a: int, b: int|
            0 <= a < b < next.len() && #[trigger] next_from[a] >= #[trigger] next_from[b]
            implies lt(next[a], next[b]) by {
            let was_a = if a == i {
                j
            } else if a == j {
                i
            } else {
                a
            };
            let was_b = if b == i {
                j
            } else if b == j {
                i
            } else {
                b
            };
            assert(next[a] == now[was_a] && next_from[a] == from[was_a]);
            assert(next[b] == now[was_b] && next_from[b] == from[was_b]);
            if a == i && b == j {
            } else {
                assert(was_a < was_b);
            }
        }
        assert forall|k: int| 0 <= k < next.len() implies 0 <= #[trigger] next_from[k] < s.len()
            && next[k] == s[next_from[k]] by {
            let was = if k == i {
                j
            } else if k == j {
                i
            } else {
                k
            };
            assert(next[k] == now[was] && next_from[k] == from[was]);
        }
        lemma_order_kept(s, next, next_from, swaps.drop_first());
    }
}

/// Bubble sort and insertion sort are stable: of two elements neither of
/// which is less than the other, the one that stood first in the input
/// stands first in the result.
pub proof fn law_stable<T: PartialOrd>(variant: AlgorithmVariant, s: Seq<T>)
    requires
        strict_weak_order::<T>(),
        variant == AlgorithmVariant::Bubble || variant == AlgorithmVariant::Insertion,
    ensures
        order_kept(s, apply_swaps(s, variant.swaps(s)), origins(s.len(), variant.swaps(s))),
        forall|a: int, b: int|
            0 <= a < b < s.len() && equivalent(
                apply_swaps(s, variant.swaps(s))[a],
                apply_swaps(s, variant.swaps(s))[b],
            ) ==> #[trigger] origins(s.len(), variant.swaps(s))[a] < #[trigger] origins(
                s.len(),
                variant.swaps(s),
            )[b],
{
    law_exchanges_put_right(variant, s);
    lemma_order_kept(s, s, Seq::new(s.len(), |k: int| k), variant.swaps(s));
}

/// The reports of an instrumented run are as many as the exchanges by which
/// the silent form of the same algorithm sorts the same input, and the
/// report of each names the positions of that exchange.
pub proof fn law_events_match_swaps<T: PartialOrd + Clone>(
    variant: AlgorithmVariant,
    s: Seq<T>,
    events: Seq<[(usize, T); 2]>,
)
    requires
        recorded(events, s, variant.swaps(s)),
    ensures
        events.len() == variant.swaps(s).len(),
        forall|k: int|
            0 <= k < events.len() ==> (#[trigger] events[k])@[0].0 == variant.swaps(s)[k].0
                && events[k]@[1].0 == variant.swaps(s)[k].1,
{
}

/// Every report of an instrumented run names two positions of the sequence.
pub proof fn law_events_in_bounds<T: PartialOrd + Clone>(
    variant: AlgorithmVariant,
    s: Seq<T>,
    events: Seq<[(usize, T); 2]>,
)
    requires
        strict_weak_order::<T>(),
        recorded(events, s, variant.swaps(s)),
    ensures
        forall|k: int|
            0 <= k < events.len() ==> (#[trigger] events[k])@[0].0 < s.len() && events[k]@[1].0
                < s.len(),
{
    law_sorted_rearrangement(variant, s);
}

/// A copy of the input that is brought up to date with the reports of an
/// instrumented run, one after the other, ends as the sorted sequence, where
/// clones of elements are equal to the elements.
pub proof fn law_replay_follows<T: Clone>(
    s: Seq<T>,
    swaps: Seq<(int, int)>,
    events: Seq<[(usize, T); 2]>,
)
    requires
        clones_are_equal::<T>(),
        in_bounds(swaps, s.len()),
        recorded(events, s, swaps),
    ensures
        replayed_all(s, events) == apply_swaps(s, swaps),
    decreases swaps.len(),
{
    if swaps.len() > 0 {
        let (i, j) = swaps[0];
        let after = swapped(s, i, j);
        lemma_recorded_rest(events, s, swaps);
        assert(replayed(s, events[0]) =~= after);
        let rest = swaps.drop_first();
        assert forall|k: int| 0 <= k < rest.len() implies 0 <= (#[trigger] rest[k]).0
            < after.len() && 0 <= rest[k].1 < after.len() by {
            assert(rest[k] == swaps[k + 1]);
        }
        law_replay_follows(after, rest, events.drop_first());
    }
}

} // verus!
