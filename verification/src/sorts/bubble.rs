//! Bubble sort: passes over the neighbouring pairs, each pair out of order
//! exchanged at once, until a pass exchanges nothing.

use crate::exchange::exchange;
use crate::instrumented::{record, recorded, swap_event, Instrumented};
use crate::order::{
    gt, lemma_asymmetric, lemma_greater_is_less, lemma_not_less_transitive,
    lemma_operators_agree, lt, strict_weak_order,
};
use crate::sequence::{
    apply_swaps, in_bounds, inverting, lemma_apply_concat, lemma_apply_first,
    lemma_apply_permutes, lemma_in_bounds_concat, lemma_in_bounds_first, lemma_inverting_concat,
    lemma_inverting_first, lemma_short_is_sorted, sorted, swapped,
};
use vstd::prelude::*;

verus! {

/// The exchanges that the rest of one pass makes on `s` when the pass has
/// reached the pair `(i - 1, i)`.
pub open spec fn pass_swaps<T: PartialOrd>(s: Seq<T>, i: int) -> Seq<(int, int)>
    decreases s.len() - i,
{
    if i < 1 || i >= s.len() {
        Seq::empty()
    } else if gt(s[i - 1], s[i]) {
        seq![(i - 1, i)] + pass_swaps(swapped(s, i - 1, i), i + 1)
    } else {
        pass_swaps(s, i + 1)
    }
}

/// The exchanges that bubble sort still makes on `s` when a pass has reached
/// the pair `(i - 1, i)`: those of the rest of this pass and, if this pass
/// exchanges anything (`dirty` says whether it already has), those of the
/// passes that follow. `passes` bounds how many may follow; a run on `n`
/// elements under a strict weak ordering never takes more than `n` of them.
pub open spec fn bubble_swaps_from<T: PartialOrd>(
    s: Seq<T>,
    i: int,
    dirty: bool,
    passes: nat,
) -> Seq<(int, int)>
    decreases passes,
{
    let rest = pass_swaps(s, i);
    if (dirty || rest.len() > 0) && passes > 0 {
        rest + bubble_swaps_from(apply_swaps(s, rest), 1, false, (passes - 1) as nat)
    } else {
        rest
    }
}

/// The exchanges that bubble sort makes on `s`, in order.
pub open spec fn bubble_swaps<T: PartialOrd>(s: Seq<T>) -> Seq<(int, int)> {
    bubble_swaps_from(s, 1, false, s.len())
}

/// The last `k` elements of `s` have reached their places: none of them is
/// less than anything before it.
pub open spec fn settled<T: PartialOrd>(s: Seq<T>, k: int) -> bool {
    forall|i: int, j: int|
        0 <= i < j < s.len() && s.len() - k <= j ==> !lt(#[trigger] s[j], #[trigger] s[i])
}

/// The element before position `i` is not less than anything before it: it
/// is what the pass carries upward.
pub open spec fn carried<T: PartialOrd>(s: Seq<T>, i: int) -> bool {
    forall|m: int| 0 <= m < i - 1 ==> !lt(s[i - 1], #[trigger] s[m])
}

/// A pass exchanges nothing in a sorted sequence.
pub proof fn lemma_sorted_pass_is_clean<T: PartialOrd>(s: Seq<T>, i: int)
    requires
        strict_weak_order::<T>(),
        sorted(s),
    ensures
        pass_swaps(s, i) == Seq::<(int, int)>::empty(),
    decreases s.len() - i,
{
    if 1 <= i < s.len() {
        lemma_greater_is_less(s[i - 1], s[i]);
        lemma_sorted_pass_is_clean(s, i + 1);
    }
}

/// A sequence in which a pass exchanges nothing is sorted, if it is sorted
/// up to where the pass has come.
pub proof fn lemma_clean_pass_is_sorted<T: PartialOrd>(s: Seq<T>, i: int)
    requires
        strict_weak_order::<T>(),
        1 <= i,
        pass_swaps(s, i).len() == 0,
        forall|a: int, b: int|
            0 <= a < b < i && b < s.len() ==> !lt(#[trigger] s[b], #[trigger] s[a]),
    ensures
        sorted(s),
    decreases s.len() - i,
{
    if i < s.len() {
        if gt(s[i - 1], s[i]) {
            assert(pass_swaps(s, i)[0] == (i - 1, i));
        } else {
            lemma_greater_is_less(s[i - 1], s[i]);
            assert forall|a: int, b: int| 0 <= a < b < i + 1 && b < s.len() implies !lt(
                #[trigger] s[b],
                #[trigger] s[a],
            ) by {
                if b == i && a < i - 1 {
                    lemma_not_less_transitive(s[i], s[i - 1], s[a]);
                }
            }
            lemma_clean_pass_is_sorted(s, i + 1);
        }
    }
}

/// What holds of a pass that has reached the pair `(i - 1, i)` after `k`
/// elements were settled by earlier passes: those are still settled, the
/// pass carries the greatest element so far, and once it has reached the
/// settled elements it has settled one more.
pub open spec fn passing<T: PartialOrd>(s: Seq<T>, i: int, k: int) -> bool {
    &&& 1 <= i
    &&& 0 <= k
    &&& settled(s, k)
    &&& i <= s.len() ==> carried(s, i)
    &&& k < s.len() && i > s.len() - k ==> settled(s, k + 1)
}

/// One step of a pass: a pair is exchanged only before the settled
/// elements, and either way the pass goes on as a pass should.
pub proof fn lemma_pass_step<T: PartialOrd>(s: Seq<T>, i: int, k: int)
    requires
        strict_weak_order::<T>(),
        passing(s, i, k),
        i < s.len(),
    ensures
        gt(s[i - 1], s[i]) ==> i < s.len() - k && passing(swapped(s, i - 1, i), i + 1, k),
        !gt(s[i - 1], s[i]) ==> passing(s, i + 1, k),
{
    let len = s.len() as int;
    lemma_greater_is_less(s[i - 1], s[i]);
    if i >= len - k {
        // Position `i` is settled, so the pair is in order.
        assert(!lt(s[i], s[i - 1]));
        assert forall|m: int| 0 <= m < i implies !lt(s[i], #[trigger] s[m]) by {}
    } else if gt(s[i - 1], s[i]) {
        let next = swapped(s, i - 1, i);
        assert forall|a: int, b: int| 0 <= a < b < len && len - k <= b implies !lt(
            #[trigger] next[b],
            #[trigger] next[a],
        ) by {
            let from = if a == i {
                i - 1
            } else if a == i - 1 {
                i
            } else {
                a
            };
            assert(next[a] == s[from]);
            assert(next[b] == s[b]);
        }
        assert forall|m: int| 0 <= m < i implies !lt(next[i], #[trigger] next[m]) by {
            if m == i - 1 {
                lemma_asymmetric(s[i], s[i - 1]);
            } else {
                assert(next[m] == s[m]);
            }
        }
        if i + 1 > len - k {
            assert forall|a: int, b: int| 0 <= a < b < len && len - (k + 1) <= b implies !lt(
                #[trigger] next[b],
                #[trigger] next[a],
            ) by {}
        }
    } else {
        assert forall|m: int| 0 <= m < i implies !lt(s[i], #[trigger] s[m]) by {
            if m < i - 1 {
                lemma_not_less_transitive(s[i], s[i - 1], s[m]);
            }
        }
        if i + 1 > len - k {
            assert forall|a: int, b: int| 0 <= a < b < len && len - (k + 1) <= b implies !lt(
                #[trigger] s[b],
                #[trigger] s[a],
            ) by {}
        }
    }
}

/// A pass that has come to its end has settled one element more, and the
/// next pass may begin.
pub proof fn lemma_pass_end<T: PartialOrd>(s: Seq<T>, i: int, k: int)
    requires
        strict_weak_order::<T>(),
        passing(s, i, k),
        i >= s.len(),
        k < s.len(),
    ensures
        passing(s, 1, k + 1),
{
}

/// The rest of a pass stays within bounds and settles one element more.
pub proof fn lemma_pass_settles<T: PartialOrd>(s: Seq<T>, i: int, k: int)
    requires
        strict_weak_order::<T>(),
        passing(s, i, k),
        i <= s.len(),
        k < s.len(),
    ensures
        in_bounds(pass_swaps(s, i), s.len()),
        apply_swaps(s, pass_swaps(s, i)).len() == s.len(),
        settled(apply_swaps(s, pass_swaps(s, i)), k + 1),
    decreases s.len() - i,
{
    if i < s.len() {
        lemma_pass_step(s, i, k);
        if gt(s[i - 1], s[i]) {
            let next = swapped(s, i - 1, i);
            lemma_pass_settles(next, i + 1, k);
            let rest = pass_swaps(next, i + 1);
            lemma_apply_first(s, i - 1, i, rest);
            lemma_in_bounds_first(i - 1, i, rest, s.len());
        } else {
            lemma_pass_settles(s, i + 1, k);
        }
    } else {
        lemma_pass_end(s, i, k);
    }
}

/// From the start of a pass with the last `k` elements settled, and with
/// passes enough left for the others, the exchanges stay within bounds and
/// leave the sequence sorted.
pub proof fn lemma_bubble_sorts_from<T: PartialOrd>(s: Seq<T>, passes: nat, k: int)
    requires
        strict_weak_order::<T>(),
        0 <= k,
        settled(s, k),
        passes + k >= s.len(),
    ensures
        in_bounds(bubble_swaps_from(s, 1, false, passes), s.len()),
        sorted(apply_swaps(s, bubble_swaps_from(s, 1, false, passes))),
    decreases passes,
{
    let rest = pass_swaps(s, 1);
    if k >= s.len() {
        lemma_sorted_pass_is_clean(s, 1);
    } else {
        lemma_pass_settles(s, 1, k);
        if rest.len() == 0 {
            lemma_clean_pass_is_sorted(s, 1);
        } else if passes > 0 {
            let next = apply_swaps(s, rest);
            lemma_bubble_sorts_from(next, (passes - 1) as nat, k + 1);
            let later = bubble_swaps_from(next, 1, false, (passes - 1) as nat);
            lemma_apply_concat(s, rest, later);
            lemma_in_bounds_concat(rest, later, s.len());
        }
    }
}

/// Bubble sort leaves any sequence sorted, by exchanges within bounds.
pub proof fn lemma_bubble_sorts<T: PartialOrd>(s: Seq<T>)
    requires
        strict_weak_order::<T>(),
    ensures
        in_bounds(bubble_swaps(s), s.len()),
        sorted(apply_swaps(s, bubble_swaps(s))),
{
    lemma_bubble_sorts_from(s, s.len(), 0);
}

/// Bubble sort exchanges nothing in a sorted sequence.
pub proof fn lemma_sorted_is_left<T: PartialOrd>(s: Seq<T>)
    requires
        strict_weak_order::<T>(),
        sorted(s),
    ensures
        bubble_swaps(s) == Seq::<(int, int)>::empty(),
{
    lemma_sorted_pass_is_clean(s, 1);
}

/// Where a pass has exchanged a pair, the run goes on as from the next pair
/// of a pass that has exchanged something.
pub proof fn lemma_bubble_step_swap<T: PartialOrd>(s: Seq<T>, i: int, dirty: bool, passes: nat)
    requires
        1 <= i < s.len(),
        gt(s[i - 1], s[i]),
    ensures
        bubble_swaps_from(s, i, dirty, passes) == seq![(i - 1, i)] + bubble_swaps_from(
            swapped(s, i - 1, i),
            i + 1,
            true,
            passes,
        ),
{
    let next = swapped(s, i - 1, i);
    let rest = pass_swaps(next, i + 1);
    lemma_apply_first(s, i - 1, i, rest);
    if passes > 0 {
        let later = bubble_swaps_from(apply_swaps(next, rest), 1, false, (passes - 1) as nat);
        assert((seq![(i - 1, i)] + rest) + later =~= seq![(i - 1, i)] + (rest + later));
    }
}

/// Every exchange of a pass puts right two neighbours out of order.
pub proof fn lemma_pass_inverts<T: PartialOrd>(s: Seq<T>, i: int)
    requires
        strict_weak_order::<T>(),
    ensures
        inverting(s, pass_swaps(s, i), true),
        apply_swaps(s, pass_swaps(s, i)).len() == s.len(),
    decreases s.len() - i,
{
    if 1 <= i < s.len() {
        lemma_greater_is_less(s[i - 1], s[i]);
        if gt(s[i - 1], s[i]) {
            let next = swapped(s, i - 1, i);
            lemma_pass_inverts(next, i + 1);
            lemma_inverting_first(s, i - 1, i, pass_swaps(next, i + 1), true);
            lemma_apply_first(s, i - 1, i, pass_swaps(next, i + 1));
        } else {
            lemma_pass_inverts(s, i + 1);
        }
    }
}

/// Every exchange of bubble sort puts right two neighbours out of order.
pub proof fn lemma_bubble_inverts_from<T: PartialOrd>(s: Seq<T>, i: int, dirty: bool, passes: nat)
    requires
        strict_weak_order::<T>(),
    ensures
        inverting(s, bubble_swaps_from(s, i, dirty, passes), true),
    decreases passes,
{
    let rest = pass_swaps(s, i);
    lemma_pass_inverts(s, i);
    if (dirty || rest.len() > 0) && passes > 0 {
        let next = apply_swaps(s, rest);
        lemma_bubble_inverts_from(next, 1, false, (passes - 1) as nat);
        lemma_inverting_concat(
            s,
            rest,
            bubble_swaps_from(next, 1, false, (passes - 1) as nat),
            true,
        );
    }
}

/// Bubble sort exchanges nothing in a sequence of at most one element.
pub proof fn lemma_short_is_left<T: PartialOrd>(s: Seq<T>)
    requires
        s.len() <= 1,
    ensures
        bubble_swaps(s) == Seq::<(int, int)>::empty(),
{
    assert(bubble_swaps(s) =~= Seq::<(int, int)>::empty());
}

/// Sorting in place by bubble sort.
pub trait BubbleSort {
    /// The element type's comparisons form a strict weak ordering.
    spec fn ordered() -> bool;

    /// Sorts `self` in place.
    fn sort(&mut self)
        requires
            Self::ordered(),
    ;
}

impl<T: PartialOrd + Clone> BubbleSort for Vec<T> {
    open spec fn ordered() -> bool {
        strict_weak_order::<T>()
    }

    fn sort(&mut self)
        ensures
            final(self)@ == apply_swaps(old(self)@, bubble_swaps(old(self)@)),
            sorted(final(self)@),
            final(self)@.to_multiset() == old(self)@.to_multiset(),
            old(self)@.len() <= 1 ==> final(self)@ == old(self)@,
    {
        let len = self.len();
        proof {
            lemma_bubble_sorts(self@);
            lemma_apply_permutes(self@, bubble_swaps(self@));
            if len <= 1 {
                lemma_short_is_sorted(self@);
                lemma_sorted_is_left(self@);
            }
        }
        if len <= 1 {
            return ;
        }
        let mut swap_ct: usize = 0;
        let ghost goal = apply_swaps(self@, bubble_swaps(self@));
        let ghost passes: nat = len as nat;
        let ghost k: int = 0;
        loop
            invariant_except_break
                swap_ct == 0,
                settled(self@, k),
                0 <= k,
                passes + k >= len,
                apply_swaps(self@, bubble_swaps_from(self@, 1, false, passes)) == goal,
            invariant
                strict_weak_order::<T>(),
                self@.len() == len,
                1 < len,
            ensures
                self@ == goal,
            decreases passes,
        {
            let ghost start = self@;
            for i in 1..len
                invariant
                    strict_weak_order::<T>(),
                    self@.len() == len,
                    start.len() == len,
                    1 < len,
                    swap_ct < i,
                    pass_swaps(start, 1).len() == swap_ct + pass_swaps(self@, i as int).len(),
                    apply_swaps(self@, pass_swaps(self@, i as int)) == apply_swaps(
                        start,
                        pass_swaps(start, 1),
                    ),
                    apply_swaps(self@, bubble_swaps_from(self@, i as int, swap_ct > 0, passes))
                        == goal,
            {
                proof {
                    lemma_operators_agree::<T>();
                }
                if self[i - 1] > self[i] {
                    proof {
                        lemma_bubble_step_swap(self@, i as int, swap_ct > 0, passes);
                        lemma_apply_first(
                            self@,
                            i - 1,
                            i as int,
                            bubble_swaps_from(swapped(self@, i - 1, i as int), i + 1, true, passes),
                        );
                        lemma_apply_first(
                            self@,
                            i - 1,
                            i as int,
                            pass_swaps(swapped(self@, i - 1, i as int), i + 1),
                        );
                    }
                    exchange(self, i - 1, i);
                    swap_ct += 1;
                }
            }
            if swap_ct == 0 {
                break ;
            }
            proof {
                // A pass that exchanged something did not start on a sorted
                // sequence, so not everything was settled before it.
                if k >= len {
                    lemma_sorted_pass_is_clean(start, 1);
                }
                lemma_pass_settles(start, 1, k);
                passes = (passes - 1) as nat;
                k = k + 1;
            }
            swap_ct = 0;
        }
    }
}

/// A bubble sort that is advanced one exchange at a time.
pub struct BubbleRun<T> {
    data: Vec<T>,
    /// The pair `(i - 1, i)` is the next to be looked at.
    i: usize,
    /// The exchanges that the pass under way has made.
    swap_ct: usize,
    /// How many passes may still follow the one under way.
    passes: Ghost<nat>,
    /// How many elements the earlier passes have settled.
    settled: Ghost<int>,
}

impl<T: PartialOrd + Clone> BubbleRun<T> {
    /// A run that is about to sort `data`.
    pub fn new(data: Vec<T>) -> (run: Self)
        requires
            strict_weak_order::<T>(),
        ensures
            run.wf(),
            run.data() == data@,
            run.pending() == bubble_swaps(data@),
    {
        let ghost len = data@.len();
        BubbleRun { data, i: 1, swap_ct: 0, passes: Ghost(len), settled: Ghost(0) }
    }
}

impl<T: PartialOrd + Clone> Instrumented<T> for BubbleRun<T> {
    closed spec fn wf(&self) -> bool {
        &&& strict_weak_order::<T>()
        &&& self.swap_ct < self.i
        &&& passing(self.data@, self.i as int, self.settled@)
        &&& self.passes@ + self.settled@ >= self.data@.len()
        &&& self.swap_ct > 0 ==> self.settled@ < self.data@.len()
    }

    closed spec fn data(&self) -> Seq<T> {
        self.data@
    }

    closed spec fn pending(&self) -> Seq<(int, int)> {
        bubble_swaps_from(self.data@, self.i as int, self.swap_ct > 0, self.passes@)
    }

    fn next_event(&mut self) -> (ev: Option<[(usize, T); 2]>) {
        let len = self.data.len();
        loop
            invariant
                self.wf(),
                self.data@ == old(self).data@,
                self.data@.len() == len,
                self.pending() == old(self).pending(),
            decreases
                    (if self.swap_ct > 0 {
                        1int
                    } else {
                        0int
                    }),
                    len - self.i,
        {
            let ghost so_far = self.swap_ct;
            while self.i < len
                invariant
                    self.wf(),
                    self.data@ == old(self).data@,
                    self.data@.len() == len,
                    self.pending() == old(self).pending(),
                    self.swap_ct == so_far,
                decreases len - self.i,
            {
                let i = self.i;
                proof {
                    lemma_operators_agree::<T>();
                    lemma_pass_step(self.data@, i as int, self.settled@);
                }
                self.i = i + 1;
                if self.data[i - 1] > self.data[i] {
                    proof {
                        lemma_bubble_step_swap(
                            self.data@,
                            i as int,
                            self.swap_ct > 0,
                            self.passes@,
                        );
                        let rest = bubble_swaps_from(
                            swapped(self.data@, i - 1, i as int),
                            i + 1,
                            true,
                            self.passes@,
                        );
                        assert((seq![(i - 1, i as int)] + rest).drop_first() =~= rest);
                    }
                    exchange(&mut self.data, i - 1, i);
                    self.swap_ct += 1;
                    return Some(swap_event(&self.data, i - 1, i));
                }
            }
            if self.swap_ct == 0 {
                return None;
            }
            proof {
                lemma_pass_end(self.data@, self.i as int, self.settled@);
                assert(pass_swaps(self.data@, self.i as int) =~= Seq::<(int, int)>::empty());
                assert(self.pending() =~= bubble_swaps_from(
                    self.data@,
                    1,
                    false,
                    (self.passes@ - 1) as nat,
                ));
                self.passes@ = (self.passes@ - 1) as nat;
                self.settled@ = self.settled@ + 1;
            }
            self.swap_ct = 0;
            self.i = 1;
        }
    }

    fn into_data(self) -> (v: Vec<T>) {
        self.data
    }
}

/// Sorting by bubble sort with a report of every exchange.
pub trait RenderBubbleSort<S> {
    /// The element type's comparisons form a strict weak ordering.
    spec fn ordered() -> bool;

    /// Sorts `self` and hands the report of each exchange to `cb`, in the
    /// order in which the exchanges are made.
    fn sort(self, cb: S)
        requires
            Self::ordered(),
    ;
}

impl<'a, T: PartialOrd + Clone> RenderBubbleSort<&'a mut Vec<[(usize, T); 2]>> for Vec<T> {
    open spec fn ordered() -> bool {
        strict_weak_order::<T>()
    }

    /// Appends the reports to `cb`.
    fn sort(self, cb: &'a mut Vec<[(usize, T); 2]>)
        ensures
            final(cb)@.len() == old(cb)@.len() + bubble_swaps(self@).len(),
            final(cb)@.take(old(cb)@.len() as int) == old(cb)@,
            recorded(final(cb)@.skip(old(cb)@.len() as int), self@, bubble_swaps(self@)),
            self@.len() <= 1 ==> final(cb)@ == old(cb)@,
    {
        proof {
            if self@.len() <= 1 {
                lemma_short_is_left(self@);
            }
        }
        let ghost before = cb@;
        let run = BubbleRun::new(self);
        let _ = record(run, cb);
        proof {
            if self@.len() <= 1 {
                assert(cb@ =~= cb@.take(before.len() as int));
            }
        }
    }
}

} // verus!
