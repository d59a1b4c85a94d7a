//! Selection sort: each position in turn receives the first least element
//! of what stands from it onward.

use crate::exchange::exchange;
use crate::instrumented::{record, recorded, swap_event, Instrumented};
use crate::order::{
    lemma_irreflexive, lemma_less_then_not_less, lemma_operators_agree, lemma_transitive, lt,
    strict_weak_order,
};
use crate::sequence::{
    apply_swaps, in_bounds, inverting, lemma_apply_first, lemma_apply_permutes,
    lemma_in_bounds_first, lemma_inverting_first, sorted, swapped,
};
use vstd::prelude::*;

verus! {

/// Where a left-to-right scan for the least element of `s` ends, when it has
/// reached position `i` and the least seen so far stands at `best`. Only a
/// strictly smaller element replaces the best, so of equal elements the
/// first wins.
pub open spec fn scan_min<T: PartialOrd>(s: Seq<T>, best: int, i: int) -> int
    decreases s.len() - i,
{
    if i >= s.len() {
        best
    } else if lt(s[i], s[best]) {
        scan_min(s, i, i + 1)
    } else {
        scan_min(s, best, i + 1)
    }
}

/// The scan ends on a position of the sequence if it began on one.
pub proof fn lemma_scan_min_in_range<T: PartialOrd>(s: Seq<T>, best: int, i: int)
    requires
        0 <= best < s.len(),
        0 <= i,
    ensures
        0 <= scan_min(s, best, i) < s.len(),
    decreases s.len() - i,
{
    if i < s.len() {
        if lt(s[i], s[best]) {
            lemma_scan_min_in_range(s, i, i + 1);
        } else {
            lemma_scan_min_in_range(s, best, i + 1);
        }
    }
}

/// The position of the first least element of `s` from `start` onward.
pub open spec fn first_min<T: PartialOrd>(s: Seq<T>, start: int) -> int {
    scan_min(s, start, start + 1)
}

/// The exchanges that selection sort makes on `s` once the positions before
/// `start` are settled: for each position from `start` onward, one exchange
/// with the first least element of the rest, unless that element stands
/// there already.
pub open spec fn selection_swaps_from<T: PartialOrd>(s: Seq<T>, start: int) -> Seq<(int, int)>
    decreases s.len() - start,
{
    if start < 0 || start >= s.len() {
        Seq::empty()
    } else {
        let m = first_min(s, start);
        if m != start {
            proof {
                lemma_scan_min_in_range(s, start, start + 1);
            }
            seq![(start, m)] + selection_swaps_from(swapped(s, start, m), start + 1)
        } else {
            selection_swaps_from(s, start + 1)
        }
    }
}

/// The exchanges that selection sort makes on `s`, in order.
pub open spec fn selection_swaps<T: PartialOrd>(s: Seq<T>) -> Seq<(int, int)> {
    selection_swaps_from(s, 0)
}

/// The scan ends on a position of the range it covers; nothing in that
/// range is less than what stands there, and everything before it in that
/// range is greater.
pub proof fn lemma_scan_min<T: PartialOrd>(s: Seq<T>, start: int, best: int, i: int)
    requires
        strict_weak_order::<T>(),
        0 <= start <= best < i <= s.len(),
        forall|k: int| start <= k < i ==> !lt(#[trigger] s[k], s[best]),
        forall|k: int| start <= k < best ==> lt(s[best], #[trigger] s[k]),
    ensures
        start <= scan_min(s, best, i) < s.len(),
        forall|k: int| start <= k < s.len() ==> !lt(#[trigger] s[k], s[scan_min(s, best, i)]),
        forall|k: int|
            start <= k < scan_min(s, best, i) ==> lt(s[scan_min(s, best, i)], #[trigger] s[k]),
    decreases s.len() - i,
{
    if i < s.len() {
        if lt(s[i], s[best]) {
            assert forall|k: int| start <= k < i + 1 implies !lt(#[trigger] s[k], s[i]) by {
                if k == i {
                    lemma_irreflexive(s[i]);
                } else if lt(s[k], s[i]) {
                    lemma_transitive(s[k], s[i], s[best]);
                }
            }
            assert forall|k: int| start <= k < i implies lt(s[i], #[trigger] s[k]) by {
                lemma_less_then_not_less(s[i], s[best], s[k]);
            }
            lemma_scan_min(s, start, i, i + 1);
        } else {
            lemma_scan_min(s, start, best, i + 1);
        }
    }
}

/// The first least element from `start` onward stands at or after `start`;
/// nothing from `start` onward is less than it, and everything from `start`
/// up to it is greater.
pub proof fn lemma_first_min<T: PartialOrd>(s: Seq<T>, start: int)
    requires
        strict_weak_order::<T>(),
        0 <= start < s.len(),
    ensures
        start <= first_min(s, start) < s.len(),
        forall|k: int| start <= k < s.len() ==> !lt(#[trigger] s[k], s[first_min(s, start)]),
        forall|k: int|
            start <= k < first_min(s, start) ==> lt(s[first_min(s, start)], #[trigger] s[k]),
{
    lemma_irreflexive(s[start]);
    lemma_scan_min(s, start, start, start + 1);
}

/// Where every element before `start` is settled (nothing after it is less
/// than it), the exchanges from `start` onward stay within bounds and leave
/// the sequence sorted.
pub proof fn lemma_selection_sorts_from<T: PartialOrd>(s: Seq<T>, start: int)
    requires
        strict_weak_order::<T>(),
        0 <= start <= s.len(),
        forall|i: int, j: int|
            0 <= i < start && i < j < s.len() ==> !lt(#[trigger] s[j], #[trigger] s[i]),
    ensures
        in_bounds(selection_swaps_from(s, start), s.len()),
        sorted(apply_swaps(s, selection_swaps_from(s, start))),
    decreases s.len() - start,
{
    if start < s.len() {
        let m = first_min(s, start);
        lemma_first_min(s, start);
        let next = if m != start {
            swapped(s, start, m)
        } else {
            s
        };
        assert forall|i: int, j: int| 0 <= i < start + 1 && i < j < next.len() implies !lt(
            #[trigger] next[j],
            #[trigger] next[i],
        ) by {
            let from = if j == m {
                start
            } else if j == start {
                m
            } else {
                j
            };
            assert(next[j] == s[from]);
            if i < start {
                assert(next[i] == s[i]);
            } else {
                assert(next[i] == s[m]);
            }
        }
        lemma_selection_sorts_from(next, start + 1);
        if m != start {
            let rest = selection_swaps_from(next, start + 1);
            lemma_apply_first(s, start, m, rest);
            lemma_in_bounds_first(start, m, rest, s.len());
        }
    }
}

/// Selection sort leaves any sequence sorted, by exchanges within bounds.
pub proof fn lemma_selection_sorts<T: PartialOrd>(s: Seq<T>)
    requires
        strict_weak_order::<T>(),
    ensures
        in_bounds(selection_swaps(s), s.len()),
        sorted(apply_swaps(s, selection_swaps(s))),
{
    lemma_selection_sorts_from(s, 0);
}

/// A scan that meets nothing less than its best ends on that best.
pub proof fn lemma_scan_min_stays<T: PartialOrd>(s: Seq<T>, best: int, i: int)
    requires
        forall|k: int| i <= k < s.len() ==> !lt(#[trigger] s[k], s[best]),
    ensures
        scan_min(s, best, i) == best,
    decreases s.len() - i,
{
    if i < s.len() {
        lemma_scan_min_stays(s, best, i + 1);
    }
}

/// Selection sort exchanges nothing from `start` onward in a sorted
/// sequence.
pub proof fn lemma_sorted_is_left_from<T: PartialOrd>(s: Seq<T>, start: int)
    requires
        sorted(s),
        0 <= start,
    ensures
        selection_swaps_from(s, start) == Seq::<(int, int)>::empty(),
    decreases s.len() - start,
{
    if start < s.len() {
        lemma_scan_min_stays(s, start, start + 1);
        lemma_sorted_is_left_from(s, start + 1);
    }
}

/// Where the scan ends on another position than its best, the element there
/// is less than that best.
pub proof fn lemma_scan_min_is_less<T: PartialOrd>(s: Seq<T>, best: int, i: int)
    requires
        strict_weak_order::<T>(),
    ensures
        scan_min(s, best, i) == best || lt(s[scan_min(s, best, i)], s[best]),
    decreases s.len() - i,
{
    if i < s.len() {
        if lt(s[i], s[best]) {
            lemma_scan_min_is_less(s, i, i + 1);
            if scan_min(s, i, i + 1) != i {
                lemma_transitive(s[scan_min(s, i, i + 1)], s[i], s[best]);
            }
        } else {
            lemma_scan_min_is_less(s, best, i + 1);
        }
    }
}

/// Every exchange of selection sort brings a lesser element forward.
pub proof fn lemma_selection_inverts_from<T: PartialOrd>(s: Seq<T>, start: int)
    requires
        strict_weak_order::<T>(),
    ensures
        inverting(s, selection_swaps_from(s, start), false),
    decreases s.len() - start,
{
    if 0 <= start < s.len() {
        let m = first_min(s, start);
        lemma_first_min(s, start);
        lemma_scan_min_is_less(s, start, start + 1);
        if m != start {
            let next = swapped(s, start, m);
            lemma_selection_inverts_from(next, start + 1);
            lemma_inverting_first(s, start, m, selection_swaps_from(next, start + 1), false);
        } else {
            lemma_selection_inverts_from(s, start + 1);
        }
    }
}

/// Selection sort exchanges nothing in a sequence of at most one element.
pub proof fn lemma_short_is_left<T: PartialOrd>(s: Seq<T>)
    requires
        s.len() <= 1,
    ensures
        selection_swaps(s) == Seq::<(int, int)>::empty(),
{
    reveal_with_fuel(selection_swaps_from, 3);
    reveal_with_fuel(scan_min, 2);
    assert(selection_swaps(s) =~= Seq::<(int, int)>::empty());
}

/// Sorting in place by selection.
pub trait SelectionSort {
    /// The element type's comparisons form a strict weak ordering.
    spec fn ordered() -> bool;

    /// Sorts `self` in place.
    fn sort(&mut self)
        requires
            Self::ordered(),
    ;
}

impl<T: PartialOrd + Clone> SelectionSort for Vec<T> {
    open spec fn ordered() -> bool {
        strict_weak_order::<T>()
    }

    fn sort(&mut self)
        ensures
            final(self)@ == apply_swaps(old(self)@, selection_swaps(old(self)@)),
            sorted(final(self)@),
            final(self)@.to_multiset() == old(self)@.to_multiset(),
            old(self)@.len() <= 1 ==> final(self)@ == old(self)@,
    {
        let len = self.len();
        proof {
            lemma_operators_agree::<T>();
            lemma_selection_sorts(self@);
            lemma_apply_permutes(self@, selection_swaps(self@));
            if len <= 1 {
                reveal_with_fuel(selection_swaps_from, 2);
                reveal_with_fuel(scan_min, 2);
            }
        }
        if len <= 1 {
            return ;
        }
        let mut start: usize = 0;
        while start < len
            invariant
                strict_weak_order::<T>(),
                self@.len() == len,
                start <= len,
                apply_swaps(self@, selection_swaps_from(self@, start as int)) == apply_swaps(
                    old(self)@,
                    selection_swaps(old(self)@),
                ),
            decreases len - start,
        {
            let mut min_index = start;
            for i in start + 1..len
                invariant
                    strict_weak_order::<T>(),
                    self@.len() == len,
                    start <= min_index < i,
                    start < len,
                    scan_min(self@, min_index as int, i as int) == first_min(self@, start as int),
            {
                proof {
                    lemma_operators_agree::<T>();
                }
                if self[i] < self[min_index] {
                    min_index = i;
                }
            }
            if start != min_index {
                proof {
                    lemma_apply_first(
                        self@,
                        start as int,
                        min_index as int,
                        selection_swaps_from(
                            swapped(self@, start as int, min_index as int),
                            start + 1,
                        ),
                    );
                }
                exchange(self, start, min_index);
            }
            start += 1;
        }
    }
}

/// A selection sort that is advanced one exchange at a time.
pub struct SelectionRun<T> {
    data: Vec<T>,
    start: usize,
}

impl<T: PartialOrd + Clone> SelectionRun<T> {
    /// A run that is about to sort `data`.
    pub fn new(data: Vec<T>) -> (run: Self)
        requires
            strict_weak_order::<T>(),
        ensures
            run.wf(),
            run.data() == data@,
            run.pending() == selection_swaps(data@),
    {
        SelectionRun { data, start: 0 }
    }
}

impl<T: PartialOrd + Clone> Instrumented<T> for SelectionRun<T> {
    closed spec fn wf(&self) -> bool {
        &&& strict_weak_order::<T>()
        &&& self.start <= self.data@.len()
    }

    closed spec fn data(&self) -> Seq<T> {
        self.data@
    }

    closed spec fn pending(&self) -> Seq<(int, int)> {
        selection_swaps_from(self.data@, self.start as int)
    }

    fn next_event(&mut self) -> (ev: Option<[(usize, T); 2]>) {
        let len = self.data.len();
        while self.start < len
            invariant
                strict_weak_order::<T>(),
                self.data@ == old(self).data@,
                self.data@.len() == len,
                self.start <= len,
                selection_swaps_from(self.data@, self.start as int) == old(self).pending(),
            decreases len - self.start,
        {
            let start = self.start;
            let mut min_index = start;
            for i in start + 1..len
                invariant
                    strict_weak_order::<T>(),
                    self.data@.len() == len,
                    start <= min_index < i,
                    start < len,
                    start == self.start,
                    self.data@ == old(self).data@,
                    scan_min(self.data@, min_index as int, i as int) == first_min(
                        self.data@,
                        start as int,
                    ),
            {
                proof {
                    lemma_operators_agree::<T>();
                }
                if self.data[i] < self.data[min_index] {
                    min_index = i;
                }
            }
            self.start = start + 1;
            if start != min_index {
                proof {
                    let rest = selection_swaps_from(
                        swapped(self.data@, start as int, min_index as int),
                        start + 1,
                    );
                    assert((seq![(start as int, min_index as int)] + rest).drop_first() =~= rest);
                }
                exchange(&mut self.data, start, min_index);
                return Some(swap_event(&self.data, start, min_index));
            }
        }
        None
    }

    fn into_data(self) -> (v: Vec<T>) {
        self.data
    }
}

/// Sorting by selection with a report of every exchange.
pub trait RenderSelectionSort<S> {
    /// The element type's comparisons form a strict weak ordering.
    spec fn ordered() -> bool;

    /// Sorts `self` and hands the report of each exchange to `cb`, in the
    /// order in which the exchanges are made.
    fn sort(self, cb: S)
        requires
            Self::ordered(),
    ;
}

impl<'a, T: PartialOrd + Clone> RenderSelectionSort<&'a mut Vec<[(usize, T); 2]>> for Vec<T> {
    open spec fn ordered() -> bool {
        strict_weak_order::<T>()
    }

    /// Appends the reports to `cb`.
    fn sort(self, cb: &'a mut Vec<[(usize, T); 2]>)
        ensures
            final(cb)@.len() == old(cb)@.len() + selection_swaps(self@).len(),
            final(cb)@.take(old(cb)@.len() as int) == old(cb)@,
            recorded(final(cb)@.skip(old(cb)@.len() as int), self@, selection_swaps(self@)),
            self@.len() <= 1 ==> final(cb)@ == old(cb)@,
    {
        proof {
            if self@.len() <= 1 {
                lemma_short_is_left(self@);
            }
        }
        let ghost before = cb@;
        let run = SelectionRun::new(self);
        let _ = record(run, cb);
        proof {
            if self@.len() <= 1 {
                assert(cb@ =~= cb@.take(before.len() as int));
            }
        }
    }
}

} // verus!
