//! Quicksort: the last element of a range is its pivot; two pointers close
//! in from both ends and exchange what stands on the wrong side; the pivot
//! is then placed between the two parts, and each part is sorted in turn,
//! the left one first.

use crate::exchange::exchange;
use crate::instrumented::{record, recorded, swap_event, Instrumented};
use crate::order::{
    gt, lemma_asymmetric, lemma_greater_is_less, lemma_irreflexive, lemma_less_then_not_less,
    lemma_not_less_transitive, lemma_operators_agree, lt, operators_agree, strict_weak_order,
};
use crate::sequence::{
    apply_swaps, in_bounds, lemma_apply_concat, lemma_apply_confined,
    lemma_apply_first, lemma_apply_permutes, lemma_within_concat, lemma_within_in_bounds,
    lemma_within_widen, occurs_in, sorted, sorted_between, swapped, within,
};
use vstd::prelude::*;

verus! {

/// Where the left pointer stops when it starts at `l`: at the first position
/// up to `high` whose element is not less than the pivot, which stands at
/// `high`.
pub open spec fn scan_up<T: PartialOrd>(s: Seq<T>, l: int, high: int) -> int
    decreases high - l + 1,
{
    if l <= high && lt(s[l], s[high]) {
        scan_up(s, l + 1, high)
    } else {
        l
    }
}

/// Where the right pointer stops when it starts at `h`: at the first
/// position down to `low` whose element is not greater than the pivot, which
/// stands at `high`.
pub open spec fn scan_down<T: PartialOrd>(s: Seq<T>, h: int, low: int, high: int) -> int
    decreases h - low + 1,
{
    if h >= low && gt(s[h], s[high]) {
        scan_down(s, h - 1, low, high)
    } else {
        h
    }
}

/// The left pointer never moves down.
pub proof fn lemma_scan_up_moves_up<T: PartialOrd>(s: Seq<T>, l: int, high: int)
    ensures
        l <= scan_up(s, l, high),
    decreases high - l + 1,
{
    if l <= high && lt(s[l], s[high]) {
        lemma_scan_up_moves_up(s, l + 1, high);
    }
}

/// The right pointer never moves up.
pub proof fn lemma_scan_down_moves_down<T: PartialOrd>(s: Seq<T>, h: int, low: int, high: int)
    ensures
        scan_down(s, h, low, high) <= h,
    decreases h - low + 1,
{
    if h >= low && gt(s[h], s[high]) {
        lemma_scan_down_moves_down(s, h - 1, low, high);
    }
}

/// The exchanges that partition `low..=high` of `s` with the pointers at `l`
/// and `h`: while the pointers have not met after their scans, one exchange
/// of what they stand on, each then moving one step on; at the end the
/// exchange that places the pivot where the left pointer stands.
pub open spec fn partition_swaps<T: PartialOrd>(
    s: Seq<T>,
    low: int,
    high: int,
    l: int,
    h: int,
) -> Seq<(int, int)>
    decreases h - l + 2,
{
    let l1 = scan_up(s, l, high);
    let h1 = scan_down(s, h, low, high);
    if l1 >= h1 {
        seq![(l1, high)]
    } else {
        proof {
            lemma_scan_up_moves_up(s, l, high);
            lemma_scan_down_moves_down(s, h, low, high);
        }
        seq![(l1, h1)] + partition_swaps(swapped(s, l1, h1), low, high, l1 + 1, h1 - 1)
    }
}

/// The exchanges that quicksort makes on `low..=high` of `s`, in order:
/// those of the partition, then those of the part left of the placed pivot,
/// then those of the part right of it.
pub open spec fn quick_swaps<T: PartialOrd>(s: Seq<T>, low: int, high: int) -> Seq<(int, int)>
    decreases high + 1 - low,
{
    if 0 <= low < high < s.len() {
        let parting = partition_swaps(s, low, high, low, high);
        let split = parting.last().0;
        let parted = apply_swaps(s, parting);
        // Under a strict weak ordering the pivot always lands here.
        if low < split <= high {
            let left = quick_swaps(parted, low, split - 1);
            let right = quick_swaps(apply_swaps(parted, left), split + 1, high);
            parting + left + right
        } else {
            parting
        }
    } else {
        Seq::empty()
    }
}

/// The exchanges that quicksort makes on the whole of `s`, in order.
pub open spec fn quick_sort_swaps<T: PartialOrd>(s: Seq<T>) -> Seq<(int, int)> {
    quick_swaps(s, 0, s.len() - 1)
}

/// What holds of a range under partition whenever the pointers are about to
/// scan: they stand at the ends or have each moved inward, nothing left of
/// the left pointer is greater than the pivot, and nothing right of the
/// right pointer is less than it.
pub open spec fn partitioning<T: PartialOrd>(
    s: Seq<T>,
    low: int,
    high: int,
    l: int,
    h: int,
) -> bool {
    &&& 0 <= low < high < s.len()
    &&& (l == low && h == high) || (low < l <= h + 1 && h < high)
    &&& forall|k: int| low <= k < l ==> !lt(s[high], #[trigger] s[k])
    &&& forall|k: int| h < k <= high ==> !lt(#[trigger] s[k], s[high])
}

/// What holds of a range once its pivot is placed at `split`: nothing left
/// of it is greater, nothing right of it is less.
pub open spec fn parted<T: PartialOrd>(s: Seq<T>, low: int, high: int, split: int) -> bool {
    &&& 0 <= low <= split <= high < s.len()
    &&& forall|k: int| low <= k < split ==> !lt(s[split], #[trigger] s[k])
    &&& forall|k: int| split < k <= high ==> !lt(#[trigger] s[k], s[split])
}

/// The left pointer stops inside the range, past elements less than the
/// pivot, on one that is not.
pub proof fn lemma_scan_up<T: PartialOrd>(s: Seq<T>, l: int, high: int)
    requires
        strict_weak_order::<T>(),
        0 <= l <= high < s.len(),
    ensures
        l <= scan_up(s, l, high) <= high,
        forall|k: int| l <= k < scan_up(s, l, high) ==> lt(#[trigger] s[k], s[high]),
        !lt(s[scan_up(s, l, high)], s[high]),
    decreases high - l,
{
    lemma_irreflexive(s[high]);
    if lt(s[l], s[high]) {
        lemma_scan_up(s, l + 1, high);
    }
}

/// The right pointer stops at or above any position whose element is not
/// greater than the pivot, past elements greater than the pivot, on one that
/// is not.
pub proof fn lemma_scan_down<T: PartialOrd>(s: Seq<T>, h: int, low: int, high: int, stop: int)
    requires
        strict_weak_order::<T>(),
        0 <= low <= stop <= h <= high < s.len(),
        !gt(s[stop], s[high]),
    ensures
        stop <= scan_down(s, h, low, high) <= h,
        forall|k: int| scan_down(s, h, low, high) < k <= h ==> gt(#[trigger] s[k], s[high]),
        !gt(s[scan_down(s, h, low, high)], s[high]),
    decreases h - stop,
{
    if gt(s[h], s[high]) {
        lemma_scan_down(s, h - 1, low, high, stop);
    }
}

/// One round of the partition: both pointers stop inside the range; if they
/// have not met, the exchange leaves the range as a partition in progress
/// expects it; if they have, placing the pivot parts the range.
pub proof fn lemma_partition_round<T: PartialOrd>(s: Seq<T>, low: int, high: int, l: int, h: int)
    requires
        strict_weak_order::<T>(),
        partitioning(s, low, high, l, h),
    ensures
        l <= scan_up(s, l, high) <= high,
        low <= scan_down(s, h, low, high) <= h,
        scan_up(s, l, high) < scan_down(s, h, low, high) ==> partitioning(
            swapped(s, scan_up(s, l, high), scan_down(s, h, low, high)),
            low,
            high,
            scan_up(s, l, high) + 1,
            scan_down(s, h, low, high) - 1,
        ),
        scan_up(s, l, high) >= scan_down(s, h, low, high) ==> low < scan_up(s, l, high) && parted(
            swapped(s, scan_up(s, l, high), high),
            low,
            high,
            scan_up(s, l, high),
        ),
{
    let l1 = scan_up(s, l, high);
    let h1 = scan_down(s, h, low, high);
    let pivot = s[high];
    lemma_irreflexive(pivot);
    lemma_greater_is_less(pivot, pivot);
    if l <= high {
        lemma_scan_up(s, l, high);
    } else {
        assert(false);
    }
    if l == low && h == high {
        lemma_scan_down(s, h, low, high, high);
    } else {
        lemma_greater_is_less(s[l - 1], pivot);
        lemma_scan_down(s, h, low, high, l - 1);
    }
    lemma_greater_is_less(s[h1], pivot);
    assert forall|k: int| h1 < k <= high implies !lt(#[trigger] s[k], pivot) by {
        if k <= h {
            lemma_greater_is_less(s[k], pivot);
            lemma_asymmetric(pivot, s[k]);
        }
    }
    assert forall|k: int| low <= k < l1 implies !lt(pivot, #[trigger] s[k]) by {
        if k >= l {
            lemma_asymmetric(s[k], pivot);
        }
    }
    if l1 < h1 {
        let next = swapped(s, l1, h1);
        if h1 == high {
            // The pivot itself moves to the left; what was at `l1` is the new pivot.
            let moved = s[l1];
            assert(next[high] == moved);
            assert forall|k: int| low <= k < l1 + 1 implies !lt(next[high], #[trigger] next[k]) by {
                if k < l1 {
                    assert(next[k] == s[k]);
                    lemma_less_then_not_less(s[k], pivot, moved);
                    lemma_asymmetric(s[k], moved);
                } else {
                    assert(next[k] == pivot);
                }
            }
            assert forall|k: int| h1 - 1 < k <= high implies !lt(
                #[trigger] next[k],
                next[high],
            ) by {
                lemma_irreflexive(moved);
            }
        } else {
            assert(next[high] == pivot);
            assert forall|k: int| low <= k < l1 + 1 implies !lt(next[high], #[trigger] next[k]) by {
                if k < l1 {
                    assert(next[k] == s[k]);
                } else {
                    assert(next[k] == s[h1]);
                }
            }
            assert forall|k: int| h1 - 1 < k <= high implies !lt(
                #[trigger] next[k],
                next[high],
            ) by {
                if k == h1 {
                    assert(next[k] == s[l1]);
                } else {
                    assert(next[k] == s[k]);
                }
            }
        }
    } else {
        let done = swapped(s, l1, high);
        assert(done[l1] == pivot);
        assert forall|k: int| low <= k < l1 implies !lt(done[l1], #[trigger] done[k]) by {
            assert(done[k] == s[k]);
        }
        assert forall|k: int| l1 < k <= high implies !lt(#[trigger] done[k], done[l1]) by {
            if k == high {
                assert(done[k] == s[l1]);
            } else {
                assert(done[k] == s[k]);
            }
        }
    }
}

/// The partition exchanges only positions of the range, ends with the
/// placement of the pivot right of the range's first position, and leaves
/// the range parted there.
pub proof fn lemma_partition<T: PartialOrd>(s: Seq<T>, low: int, high: int, l: int, h: int)
    requires
        strict_weak_order::<T>(),
        partitioning(s, low, high, l, h),
    ensures
        within(partition_swaps(s, low, high, l, h), low, high),
        partition_swaps(s, low, high, l, h).len() > 0,
        low < partition_swaps(s, low, high, l, h).last().0 <= high,
        parted(
            apply_swaps(s, partition_swaps(s, low, high, l, h)),
            low,
            high,
            partition_swaps(s, low, high, l, h).last().0,
        ),
    decreases h - l + 2,
{
    let l1 = scan_up(s, l, high);
    let h1 = scan_down(s, h, low, high);
    lemma_partition_round(s, low, high, l, h);
    if l1 >= h1 {
        let only = seq![(l1, high)];
        assert(only.drop_first() =~= Seq::<(int, int)>::empty());
        assert(apply_swaps(s, only) == swapped(s, l1, high)) by {
            reveal_with_fuel(apply_swaps, 2);
        }
    } else {
        let next = swapped(s, l1, h1);
        let rest = partition_swaps(next, low, high, l1 + 1, h1 - 1);
        lemma_partition(next, low, high, l1 + 1, h1 - 1);
        lemma_apply_first(s, l1, h1, rest);
        let all = seq![(l1, h1)] + rest;
        assert(all.last() == rest.last());
        assert forall|k: int| 0 <= k < all.len() implies low <= (#[trigger] all[k]).0 <= high
            && low <= all[k].1 <= high by {
            if k > 0 {
                assert(all[k] == rest[k - 1]);
            }
        }
    }
}

/// Quicksort of `low..=high` exchanges only positions of that range and
/// leaves it sorted.
pub proof fn lemma_quick_sorts_range<T: PartialOrd>(s: Seq<T>, low: int, high: int)
    requires
        strict_weak_order::<T>(),
        0 <= low,
        high < s.len(),
    ensures
        within(quick_swaps(s, low, high), low, high),
        sorted_between(apply_swaps(s, quick_swaps(s, low, high)), low, high),
    decreases high + 1 - low,
{
    if low < high {
        let parting = partition_swaps(s, low, high, low, high);
        let split = parting.last().0;
        let s1 = apply_swaps(s, parting);
        lemma_partition(s, low, high, low, high);
        lemma_apply_confined(s, parting, low, high);

        let left = quick_swaps(s1, low, split - 1);
        let s2 = apply_swaps(s1, left);
        lemma_quick_sorts_range(s1, low, split - 1);
        lemma_apply_confined(s1, left, low, split - 1);

        let right = quick_swaps(s2, split + 1, high);
        let s3 = apply_swaps(s2, right);
        lemma_quick_sorts_range(s2, split + 1, high);
        lemma_apply_confined(s2, right, split + 1, high);

        lemma_apply_concat(s, parting, left);
        lemma_apply_concat(s, parting + left, right);
        lemma_within_widen(left, low, split - 1, low, high);
        lemma_within_widen(right, split + 1, high, low, high);
        lemma_within_concat(parting, left, low, high);
        lemma_within_concat(parting + left, right, low, high);

        let pivot = s1[split];
        assert(s3[split] == pivot);
        assert forall|k: int| low <= k < split implies !lt(pivot, #[trigger] s3[k]) by {
            assert(s3[k] == s2[k]);
            assert(occurs_in(s1, s2[k], low, split - 1));
        }
        assert forall|k: int| split < k <= high implies !lt(#[trigger] s3[k], pivot) by {
            assert(occurs_in(s2, s3[k], split + 1, high));
            let m = choose|m: int| 0 <= m < s2.len() && split + 1 <= m <= high && s2[m] == s3[k];
            assert(s2[m] == s1[m]);
        }
        assert forall|i: int, j: int| low <= i < j <= high implies !lt(
            #[trigger] s3[j],
            #[trigger] s3[i],
        ) by {
            if j < split {
                assert(s3[i] == s2[i]);
                assert(s3[j] == s2[j]);
            } else if i > split {
            } else if j == split {
            } else if i == split {
            } else {
                lemma_not_less_transitive(s3[j], pivot, s3[i]);
            }
        }
    }
}

/// Quicksort leaves any sequence sorted, by exchanges within bounds.
pub proof fn lemma_quick_sorts<T: PartialOrd>(s: Seq<T>)
    requires
        strict_weak_order::<T>(),
    ensures
        in_bounds(quick_sort_swaps(s), s.len()),
        sorted(apply_swaps(s, quick_sort_swaps(s))),
{
    lemma_quick_sorts_range(s, 0, s.len() - 1);
    lemma_within_in_bounds(quick_sort_swaps(s), 0, s.len() - 1, s.len());
    // The result is as long as `s`, so sorted in `0..=s.len() - 1` is sorted.
    lemma_apply_permutes(s, quick_sort_swaps(s));
}

/// Sorts `low..=high` of `vec` in place; does nothing unless `low < high`.
fn quicksort<T: PartialOrd + Clone>(vec: &mut Vec<T>, low: usize, high: usize)
    requires
        strict_weak_order::<T>(),
        low < high ==> high < old(vec)@.len(),
    ensures
        final(vec)@ == apply_swaps(old(vec)@, quick_swaps(old(vec)@, low as int, high as int)),
        final(vec)@.len() == old(vec)@.len(),
    decreases high + 1 - low,
{
    if low < high {
        let pivot = high;
        let mut l = low;
        let mut h = high;
        let ghost parting = partition_swaps(vec@, low as int, high as int, low as int, high as int);
        let ghost split = parting.last().0;
        let ghost parted_seq = apply_swaps(vec@, parting);
        proof {
            lemma_partition(vec@, low as int, high as int, low as int, high as int);
            lemma_apply_confined(vec@, parting, low as int, high as int);
        }
        loop
            invariant_except_break
                partitioning(vec@, low as int, high as int, l as int, h as int),
                partition_swaps(vec@, low as int, high as int, l as int, h as int).last().0
                    == split,
                apply_swaps(
                    vec@,
                    partition_swaps(vec@, low as int, high as int, l as int, h as int),
                ) == parted_seq,
            invariant
                strict_weak_order::<T>(),
                pivot == high,
                low < high < vec.len(),
                vec@.len() == old(vec)@.len(),
            ensures
                l == split,
                low < l <= high,
                swapped(vec@, l as int, high as int) == parted_seq,
            decreases h - l + 2,
        {
            let ghost l0 = l;
            let ghost h0 = h;
            proof {
                lemma_partition_round(vec@, low as int, high as int, l as int, h as int);
                lemma_operators_agree::<T>();
            }
            while l <= high && vec[l] < vec[pivot]
                invariant
                    pivot == high,
                    high < vec.len(),
                    l0 <= l <= high + 1,
                    operators_agree::<T>(),
                    scan_up(vec@, l as int, high as int) == scan_up(vec@, l0 as int, high as int),
                decreases high + 1 - l,
            {
                l += 1;
            }
            while h >= low && vec[h] > vec[pivot]
                invariant
                    pivot == high,
                    high < vec.len(),
                    h <= h0 <= high,
                    operators_agree::<T>(),
                    low <= scan_down(vec@, h0 as int, low as int, high as int),
                    scan_down(vec@, h as int, low as int, high as int) == scan_down(
                        vec@,
                        h0 as int,
                        low as int,
                        high as int,
                    ),
                decreases h,
            {
                proof {
                    lemma_scan_down_moves_down(vec@, h - 1, low as int, high as int);
                }
                h -= 1;
            }
            if l >= h {
                proof {
                    let only = seq![(l as int, high as int)];
                    assert(only.drop_first() =~= Seq::<(int, int)>::empty());
                    assert(apply_swaps(vec@, only) == swapped(vec@, l as int, high as int)) by {
                        reveal_with_fuel(apply_swaps, 2);
                    }
                }
                break ;
            }
            proof {
                let rest = partition_swaps(
                    swapped(vec@, l as int, h as int),
                    low as int,
                    high as int,
                    l + 1,
                    h - 1,
                );
                lemma_apply_first(vec@, l as int, h as int, rest);
                lemma_partition(
                    swapped(vec@, l as int, h as int),
                    low as int,
                    high as int,
                    l + 1,
                    h - 1,
                );
                assert((seq![(l as int, h as int)] + rest).last() == rest.last());
            }
            exchange(vec, l, h);
            l += 1;
            h -= 1;
        }
        exchange(vec, l, pivot);
        let ghost before_left = vec@;
        quicksort(vec, low, l - 1);
        let ghost before_right = vec@;
        quicksort(vec, l + 1, high);
        proof {
            let left = quick_swaps(before_left, low as int, l - 1);
            let right = quick_swaps(before_right, l + 1, high as int);
            lemma_apply_concat(old(vec)@, parting, left);
            lemma_apply_concat(old(vec)@, parting + left, right);
        }
    } else {
        assert(quick_swaps(old(vec)@, low as int, high as int) =~= Seq::<(int, int)>::empty());
    }
}

/// Quicksort exchanges nothing in a sequence of at most one element.
pub proof fn lemma_short_is_left<T: PartialOrd>(s: Seq<T>)
    requires
        s.len() <= 1,
    ensures
        quick_sort_swaps(s) == Seq::<(int, int)>::empty(),
{
    assert(quick_sort_swaps(s) =~= Seq::<(int, int)>::empty());
}

/// Sorting in place by quicksort.
pub trait QuickSort {
    /// The element type's comparisons form a strict weak ordering.
    spec fn ordered() -> bool;

    /// Sorts `self` in place.
    fn sort(&mut self)
        requires
            Self::ordered(),
    ;
}

impl<T: PartialOrd + Clone> QuickSort for Vec<T> {
    open spec fn ordered() -> bool {
        strict_weak_order::<T>()
    }

    fn sort(&mut self)
        ensures
            final(self)@ == apply_swaps(old(self)@, quick_sort_swaps(old(self)@)),
            sorted(final(self)@),
            final(self)@.to_multiset() == old(self)@.to_multiset(),
            old(self)@.len() <= 1 ==> final(self)@ == old(self)@,
    {
        let len = self.len();
        proof {
            lemma_quick_sorts(self@);
            lemma_apply_permutes(self@, quick_sort_swaps(self@));
        }
        if len <= 1 {
            return ;
        }
        quicksort(self, 0, len - 1);
    }
}

/// The exchanges still to be made on `low..=high` when its partition stands
/// with the pointers at `l` and `h`: the rest of the partition, then the
/// part left of the placed pivot, then the part right of it.
pub open spec fn resume_swaps<T: PartialOrd>(
    s: Seq<T>,
    low: int,
    high: int,
    l: int,
    h: int,
) -> Seq<(int, int)> {
    let parting = partition_swaps(s, low, high, l, h);
    let split = parting.last().0;
    let parted = apply_swaps(s, parting);
    if low < split <= high {
        let left = quick_swaps(parted, low, split - 1);
        let right = quick_swaps(apply_swaps(parted, left), split + 1, high);
        parting + left + right
    } else {
        parting
    }
}

/// The exchanges that sorting the ranges on `stack` makes, the range pushed
/// last sorted first.
pub open spec fn stack_swaps<T: PartialOrd>(s: Seq<T>, stack: Seq<(usize, usize)>) -> Seq<
    (int, int),
>
    decreases stack.len(),
{
    if stack.len() == 0 {
        Seq::empty()
    } else {
        let top = quick_swaps(s, stack.last().0 as int, stack.last().1 as int);
        top + stack_swaps(apply_swaps(s, top), stack.drop_last())
    }
}

/// Where the pointers have not met, the rest of the work on a range is the
/// exchange of what they stand on and then the work from one step further
/// in.
pub proof fn lemma_resume_after_swap<T: PartialOrd>(s: Seq<T>, low: int, high: int, l: int, h: int)
    requires
        strict_weak_order::<T>(),
        partitioning(s, low, high, l, h),
        scan_up(s, l, high) < scan_down(s, h, low, high),
    ensures
        resume_swaps(s, low, high, l, h) == seq![
            (scan_up(s, l, high), scan_down(s, h, low, high)),
        ] + resume_swaps(
            swapped(s, scan_up(s, l, high), scan_down(s, h, low, high)),
            low,
            high,
            scan_up(s, l, high) + 1,
            scan_down(s, h, low, high) - 1,
        ),
{
    let l1 = scan_up(s, l, high);
    let h1 = scan_down(s, h, low, high);
    let next = swapped(s, l1, h1);
    lemma_partition_round(s, low, high, l, h);
    lemma_partition(next, low, high, l1 + 1, h1 - 1);
    let rest = partition_swaps(next, low, high, l1 + 1, h1 - 1);
    let parting = seq![(l1, h1)] + rest;
    assert(parting.last() == rest.last());
    lemma_apply_first(s, l1, h1, rest);
    let split = rest.last().0;
    let parted_seq = apply_swaps(next, rest);
    let left = quick_swaps(parted_seq, low, split - 1);
    let right = quick_swaps(apply_swaps(parted_seq, left), split + 1, high);
    assert(parting + left + right =~= seq![(l1, h1)] + (rest + left + right));
}

/// Where the pointers have met, the rest of the work on a range is the
/// placement of the pivot, then the left part, then the right part.
pub proof fn lemma_resume_after_placing<T: PartialOrd>(
    s: Seq<T>,
    low: int,
    high: int,
    l: int,
    h: int,
)
    requires
        strict_weak_order::<T>(),
        partitioning(s, low, high, l, h),
        scan_up(s, l, high) >= scan_down(s, h, low, high),
    ensures
        low < scan_up(s, l, high) <= high,
        resume_swaps(s, low, high, l, h) == seq![(scan_up(s, l, high), high)] + (quick_swaps(
            swapped(s, scan_up(s, l, high), high),
            low,
            scan_up(s, l, high) - 1,
        ) + quick_swaps(
            apply_swaps(
                swapped(s, scan_up(s, l, high), high),
                quick_swaps(swapped(s, scan_up(s, l, high), high), low, scan_up(s, l, high) - 1),
            ),
            scan_up(s, l, high) + 1,
            high,
        )),
{
    let l1 = scan_up(s, l, high);
    lemma_partition_round(s, low, high, l, h);
    let only = seq![(l1, high)];
    assert(only.drop_first() =~= Seq::<(int, int)>::empty());
    assert(apply_swaps(s, only) == swapped(s, l1, high)) by {
        reveal_with_fuel(apply_swaps, 2);
    }
    let placed = swapped(s, l1, high);
    let left = quick_swaps(placed, low, l1 - 1);
    let right = quick_swaps(apply_swaps(placed, left), l1 + 1, high);
    assert(only + left + right =~= only + (left + right));
}

/// The exchanges that a run has still to make: those of the range under
/// partition, if there is one, and then those of the ranges that wait.
pub open spec fn run_swaps<T: PartialOrd>(
    s: Seq<T>,
    stack: Seq<(usize, usize)>,
    active: bool,
    low: int,
    high: int,
    l: int,
    h: int,
) -> Seq<(int, int)> {
    if active {
        let first = resume_swaps(s, low, high, l, h);
        first + stack_swaps(apply_swaps(s, first), stack)
    } else {
        stack_swaps(s, stack)
    }
}

/// Taking a range off the stack changes nothing of what is still to do:
/// a range of more than one element comes under partition, with the
/// pointers at its ends, and any other range has no exchanges to make.
pub proof fn lemma_run_after_pop<T: PartialOrd>(s: Seq<T>, stack: Seq<(usize, usize)>)
    requires
        stack.len() > 0,
        stack.last().0 < stack.last().1 ==> stack.last().1 < s.len(),
    ensures
        stack_swaps(s, stack) == run_swaps(
            s,
            stack.drop_last(),
            stack.last().0 < stack.last().1,
            stack.last().0 as int,
            stack.last().1 as int,
            stack.last().0 as int,
            stack.last().1 as int,
        ),
{
    let low = stack.last().0 as int;
    let high = stack.last().1 as int;
    let top = quick_swaps(s, low, high);
    if low < high {
        assert(top == resume_swaps(s, low, high, low, high));
    } else {
        assert(top =~= Seq::<(int, int)>::empty());
        assert(apply_swaps(s, top) == s);
        assert(top + stack_swaps(s, stack.drop_last()) =~= stack_swaps(s, stack.drop_last()));
    }
}

/// Where the pointers have not met, what is still to do is the exchange of
/// what they stand on and then what is to do from one step further in.
pub proof fn lemma_run_after_swap<T: PartialOrd>(
    s: Seq<T>,
    stack: Seq<(usize, usize)>,
    low: int,
    high: int,
    l: int,
    h: int,
)
    requires
        strict_weak_order::<T>(),
        partitioning(s, low, high, l, h),
        scan_up(s, l, high) < scan_down(s, h, low, high),
    ensures
        run_swaps(s, stack, true, low, high, l, h).len() > 0,
        run_swaps(s, stack, true, low, high, l, h)[0] == (
            scan_up(s, l, high),
            scan_down(s, h, low, high),
        ),
        run_swaps(s, stack, true, low, high, l, h).drop_first() == run_swaps(
            swapped(s, scan_up(s, l, high), scan_down(s, h, low, high)),
            stack,
            true,
            low,
            high,
            scan_up(s, l, high) + 1,
            scan_down(s, h, low, high) - 1,
        ),
{
    let l1 = scan_up(s, l, high);
    let h1 = scan_down(s, h, low, high);
    let next = swapped(s, l1, h1);
    lemma_resume_after_swap(s, low, high, l, h);
    let later = resume_swaps(next, low, high, l1 + 1, h1 - 1);
    let first = seq![(l1, h1)] + later;
    lemma_apply_first(s, l1, h1, later);
    let rest = stack_swaps(apply_swaps(next, later), stack);
    assert(first + rest =~= seq![(l1, h1)] + (later + rest));
    assert((seq![(l1, h1)] + (later + rest)).drop_first() =~= later + rest);
}

/// Where the pointers have met, what is still to do is the placement of the
/// pivot and then the ranges that wait, the part left of the pivot first,
/// the part right of it second.
pub proof fn lemma_run_after_placing<T: PartialOrd>(
    s: Seq<T>,
    stack: Seq<(usize, usize)>,
    low: int,
    high: int,
    l: int,
    h: int,
)
    requires
        strict_weak_order::<T>(),
        partitioning(s, low, high, l, h),
        scan_up(s, l, high) >= scan_down(s, h, low, high),
        high < usize::MAX,
    ensures
        low < scan_up(s, l, high) <= high,
        run_swaps(s, stack, true, low, high, l, h).len() > 0,
        run_swaps(s, stack, true, low, high, l, h)[0] == (scan_up(s, l, high), high),
        run_swaps(s, stack, true, low, high, l, h).drop_first() == stack_swaps(
            swapped(s, scan_up(s, l, high), high),
            stack.push(((scan_up(s, l, high) + 1) as usize, high as usize)).push(
                (low as usize, (scan_up(s, l, high) - 1) as usize),
            ),
        ),
{
    let l1 = scan_up(s, l, high);
    lemma_resume_after_placing(s, low, high, l, h);
    let placed = swapped(s, l1, high);
    let left = quick_swaps(placed, low, l1 - 1);
    let after_left = apply_swaps(placed, left);
    let right = quick_swaps(after_left, l1 + 1, high);
    let first = resume_swaps(s, low, high, l, h);
    let one = stack.push(((l1 + 1) as usize, high as usize));
    let two = one.push((low as usize, (l1 - 1) as usize));
    assert(two.drop_last() =~= one);
    assert(one.drop_last() =~= stack);
    lemma_apply_first(s, l1, high, left + right);
    lemma_apply_concat(placed, left, right);
    let rest = stack_swaps(apply_swaps(after_left, right), stack);
    assert(stack_swaps(after_left, one) == right + rest);
    assert(stack_swaps(placed, two) == left + (right + rest));
    assert(first + rest =~= seq![(l1, high)] + (left + (right + rest)));
    assert((seq![(l1, high)] + (left + (right + rest))).drop_first() =~= left + (right + rest));
}

/// Every range on `stack` that has more than one element lies below `len`.
pub open spec fn ranges_in_bounds(stack: Seq<(usize, usize)>, len: nat) -> bool {
    forall|k: int|
        0 <= k < stack.len() && (#[trigger] stack[k]).0 < stack[k].1 ==> stack[k].1 < len
}

/// A quicksort that is advanced one exchange at a time. The ranges that the
/// recursive form would sort later wait on a stack.
pub struct QuickRun<T> {
    data: Vec<T>,
    /// The ranges still to be sorted, the next one last.
    stack: Vec<(usize, usize)>,
    /// Whether a range is under partition.
    active: bool,
    /// The range under partition.
    low: usize,
    high: usize,
    /// The two pointers.
    l: usize,
    h: usize,
}

impl<T: PartialOrd + Clone> QuickRun<T> {
    /// A run that is about to sort `data`.
    pub fn new(data: Vec<T>) -> (run: Self)
        requires
            strict_weak_order::<T>(),
        ensures
            run.wf(),
            run.data() == data@,
            run.pending() == quick_sort_swaps(data@),
    {
        let len = data.len();
        let mut stack: Vec<(usize, usize)> = Vec::new();
        if len >= 2 {
            stack.push((0, len - 1));
            proof {
                let whole = quick_swaps(data@, 0, len - 1);
                assert(stack@.drop_last() =~= Seq::<(usize, usize)>::empty());
                assert(stack_swaps(data@, stack@) =~= whole) by {
                    reveal_with_fuel(stack_swaps, 2);
                }
            }
        }
        QuickRun { data, stack, active: false, low: 0, high: 0, l: 0, h: 0 }
    }

    /// The pointers after their scans, from where they stand.
    fn scan(&self) -> (stops: (usize, usize))
        requires
            self.wf(),
            self.active,
        ensures
            stops.0 == scan_up(self.data@, self.l as int, self.high as int),
            stops.1 == scan_down(self.data@, self.h as int, self.low as int, self.high as int),
            self.l <= stops.0 <= self.high < usize::MAX,
            self.low <= stops.1 <= self.h,
    {
        let low = self.low;
        let high = self.high;
        let mut l = self.l;
        let mut h = self.h;
        proof {
            lemma_partition_round(self.data@, low as int, high as int, l as int, h as int);
            lemma_operators_agree::<T>();
            assert(high < self.data.len());
        }
        while l <= high && self.data[l] < self.data[high]
            invariant
                high == self.high,
                high < self.data.len(),
                self.l <= l <= high + 1,
                operators_agree::<T>(),
                scan_up(self.data@, l as int, high as int) == scan_up(
                    self.data@,
                    self.l as int,
                    high as int,
                ),
            decreases high + 1 - l,
        {
            l += 1;
        }
        while h >= low && self.data[h] > self.data[high]
            invariant
                high == self.high,
                low == self.low,
                high < self.data.len(),
                h <= self.h <= high,
                operators_agree::<T>(),
                low <= scan_down(self.data@, self.h as int, low as int, high as int),
                scan_down(self.data@, h as int, low as int, high as int) == scan_down(
                    self.data@,
                    self.h as int,
                    low as int,
                    high as int,
                ),
            decreases h,
        {
            proof {
                lemma_scan_down_moves_down(self.data@, h - 1, low as int, high as int);
            }
            h -= 1;
        }
        (l, h)
    }
}

impl<T: PartialOrd + Clone> Instrumented<T> for QuickRun<T> {
    closed spec fn wf(&self) -> bool {
        &&& strict_weak_order::<T>()
        &&& ranges_in_bounds(self.stack@, self.data@.len())
        &&& self.active ==> partitioning(
            self.data@,
            self.low as int,
            self.high as int,
            self.l as int,
            self.h as int,
        )
    }

    closed spec fn data(&self) -> Seq<T> {
        self.data@
    }

    closed spec fn pending(&self) -> Seq<(int, int)> {
        run_swaps(
            self.data@,
            self.stack@,
            self.active,
            self.low as int,
            self.high as int,
            self.l as int,
            self.h as int,
        )
    }

    fn next_event(&mut self) -> (ev: Option<[(usize, T); 2]>) {
        loop
            invariant
                self.wf(),
                self.data@ == old(self).data@,
                self.pending() == old(self).pending(),
            decreases self.stack@.len(),
        {
            if !self.active {
                let ghost waiting = self.stack@;
                match self.stack.pop() {
                    None => {
                        return None;
                    },
                    Some((low, high)) => {
                        proof {
                            lemma_run_after_pop(self.data@, waiting);
                            assert(self.stack@ =~= waiting.drop_last());
                        }
                        if low < high {
                            self.active = true;
                            self.low = low;
                            self.high = high;
                            self.l = low;
                            self.h = high;
                        } else {
                            continue ;
                        }
                    },
                }
            }
            let low = self.low;
            let high = self.high;
            let ghost waiting = self.stack@;
            let (l, h) = self.scan();
            if l >= h {
                proof {
                    lemma_run_after_placing(
                        self.data@,
                        waiting,
                        low as int,
                        high as int,
                        self.l as int,
                        self.h as int,
                    );
                }
                exchange(&mut self.data, l, high);
                self.active = false;
                self.stack.push((l + 1, high));
                self.stack.push((low, l - 1));
                return Some(swap_event(&self.data, l, high));
            }
            proof {
                lemma_run_after_swap(
                    self.data@,
                    waiting,
                    low as int,
                    high as int,
                    self.l as int,
                    self.h as int,
                );
                lemma_partition_round(
                    self.data@,
                    low as int,
                    high as int,
                    self.l as int,
                    self.h as int,
                );
            }
            exchange(&mut self.data, l, h);
            self.l = l + 1;
            self.h = h - 1;
            return Some(swap_event(&self.data, l, h));
        }
    }

    fn into_data(self) -> (v: Vec<T>) {
        self.data
    }
}

/// Sorting by quicksort with a report of every exchange.
pub trait RenderQuickSort<S> {
    /// The element type's comparisons form a strict weak ordering.
    spec fn ordered() -> bool;

    /// Sorts `self` and hands the report of each exchange to `cb`, in the
    /// order in which the exchanges are made.
    fn sort(self, cb: S)
        requires
            Self::ordered(),
    ;
}

impl<'a, T: PartialOrd + Clone> RenderQuickSort<&'a mut Vec<[(usize, T); 2]>> for Vec<T> {
    open spec fn ordered() -> bool {
        strict_weak_order::<T>()
    }

    /// Appends the reports to `cb`.
    fn sort(self, cb: &'a mut Vec<[(usize, T); 2]>)
        ensures
            final(cb)@.len() == old(cb)@.len() + quick_sort_swaps(self@).len(),
            final(cb)@.take(old(cb)@.len() as int) == old(cb)@,
            recorded(final(cb)@.skip(old(cb)@.len() as int), self@, quick_sort_swaps(self@)),
            self@.len() <= 1 ==> final(cb)@ == old(cb)@,
    {
        proof {
            if self@.len() <= 1 {
                lemma_short_is_left(self@);
            }
        }
        let ghost before = cb@;
        let run = QuickRun::new(self);
        let _ = record(run, cb);
        proof {
            if self@.len() <= 1 {
                assert(cb@ =~= cb@.take(before.len() as int));
            }
        }
    }
}

} // verus!
