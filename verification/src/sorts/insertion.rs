//! Insertion sort: a sorted front part grows by one element at a time, the
//! new element walking left past every neighbour greater than it.

use crate::exchange::exchange;
use crate::instrumented::{record, recorded, swap_event, Instrumented};
use crate::order::{
    gt, lemma_asymmetric, lemma_greater_is_less, lemma_not_less_transitive,
    lemma_operators_agree, lt, operators_agree, strict_weak_order,
};
use crate::sequence::{
    apply_swaps, in_bounds, inverting, lemma_apply_concat, lemma_apply_first,
    lemma_apply_permutes, lemma_in_bounds_concat, lemma_in_bounds_first, lemma_inverting_concat,
    lemma_inverting_first, sorted, sorted_between, swapped,
};
use vstd::prelude::*;

verus! {

/// The exchanges by which the element at `cur` walks left: one with its left
/// neighbour for as long as that neighbour is greater.
pub open spec fn walk_swaps<T: PartialOrd>(s: Seq<T>, cur: int) -> Seq<(int, int)>
    decreases cur,
{
    if 1 <= cur < s.len() && gt(s[cur - 1], s[cur]) {
        seq![(cur - 1, cur)] + walk_swaps(swapped(s, cur - 1, cur), cur - 1)
    } else {
        Seq::empty()
    }
}

/// A walk exchanges positions of the sequence only, so it keeps the length.
pub proof fn lemma_walk_in_bounds<T: PartialOrd>(s: Seq<T>, cur: int)
    ensures
        in_bounds(walk_swaps(s, cur), s.len()),
        apply_swaps(s, walk_swaps(s, cur)).len() == s.len(),
    decreases cur,
{
    if 1 <= cur < s.len() && gt(s[cur - 1], s[cur]) {
        let next = swapped(s, cur - 1, cur);
        lemma_walk_in_bounds(next, cur - 1);
        lemma_in_bounds_first(cur - 1, cur, walk_swaps(next, cur - 1), s.len());
        lemma_apply_first(s, cur - 1, cur, walk_swaps(next, cur - 1));
    }
}

/// The exchanges that insertion sort still makes on `s` when the element
/// admitted at `partition` has walked left to `cur`: the rest of that walk,
/// then the walks of the elements admitted after it, each from its own
/// position.
pub open spec fn insertion_swaps_from<T: PartialOrd>(
    s: Seq<T>,
    partition: int,
    cur: int,
) -> Seq<(int, int)>
    decreases s.len() - partition,
{
    if partition < 1 || partition >= s.len() {
        Seq::empty()
    } else {
        let walk = walk_swaps(s, cur);
        proof {
            lemma_walk_in_bounds(s, cur);
        }
        walk + insertion_swaps_from(apply_swaps(s, walk), partition + 1, partition + 1)
    }
}

/// The exchanges that insertion sort makes on `s`, in order.
pub open spec fn insertion_swaps<T: PartialOrd>(s: Seq<T>) -> Seq<(int, int)> {
    insertion_swaps_from(s, 1, 1)
}

/// What holds while the element admitted at `partition` walks left and
/// stands at `cur`: the rest of `0..=partition` is sorted, and nothing after
/// `cur` in it is less than the walking element.
pub open spec fn walking<T: PartialOrd>(s: Seq<T>, partition: int, cur: int) -> bool {
    &&& 0 <= cur <= partition < s.len()
    &&& forall|i: int, j: int|
        0 <= i < j <= partition && i != cur && j != cur ==> !lt(#[trigger] s[j], #[trigger] s[i])
    &&& forall|j: int| cur < j <= partition ==> !lt(#[trigger] s[j], s[cur])
}

/// A walk leaves `0..=partition` sorted.
pub proof fn lemma_walk_sorts<T: PartialOrd>(s: Seq<T>, partition: int, cur: int)
    requires
        strict_weak_order::<T>(),
        walking(s, partition, cur),
    ensures
        sorted_between(apply_swaps(s, walk_swaps(s, cur)), 0, partition),
    decreases cur,
{
    if cur >= 1 {
        lemma_greater_is_less(s[cur - 1], s[cur]);
    }
    if cur >= 1 && gt(s[cur - 1], s[cur]) {
        let next = swapped(s, cur - 1, cur);
        lemma_asymmetric(s[cur], s[cur - 1]);
        assert forall|i: int, j: int|
            0 <= i < j <= partition && i != cur - 1 && j != cur - 1 implies !lt(
            #[trigger] next[j],
            #[trigger] next[i],
        ) by {
            let from_i = if i == cur {
                cur - 1
            } else {
                i
            };
            let from_j = if j == cur {
                cur - 1
            } else {
                j
            };
            assert(next[i] == s[from_i]);
            assert(next[j] == s[from_j]);
        }
        assert forall|j: int| cur - 1 < j <= partition implies !lt(
            #[trigger] next[j],
            next[cur - 1],
        ) by {
            if j > cur {
                assert(next[j] == s[j]);
            }
        }
        lemma_walk_sorts(next, partition, cur - 1);
        lemma_apply_first(s, cur - 1, cur, walk_swaps(next, cur - 1));
    } else {
        assert forall|i: int, j: int| 0 <= i < j <= partition implies !lt(
            #[trigger] s[j],
            #[trigger] s[i],
        ) by {
            if j == cur && i < cur - 1 {
                lemma_not_less_transitive(s[cur], s[cur - 1], s[i]);
            }
        }
    }
}

/// From a walk in progress, the exchanges stay within bounds and leave the
/// sequence sorted.
pub proof fn lemma_insertion_sorts_from<T: PartialOrd>(s: Seq<T>, partition: int, cur: int)
    requires
        strict_weak_order::<T>(),
        1 <= partition,
        partition < s.len() ==> walking(s, partition, cur),
        partition >= s.len() ==> sorted(s),
    ensures
        in_bounds(insertion_swaps_from(s, partition, cur), s.len()),
        sorted(apply_swaps(s, insertion_swaps_from(s, partition, cur))),
    decreases s.len() - partition,
{
    if partition < s.len() {
        let walk = walk_swaps(s, cur);
        let next = apply_swaps(s, walk);
        lemma_walk_in_bounds(s, cur);
        lemma_walk_sorts(s, partition, cur);
        lemma_insertion_sorts_from(next, partition + 1, partition + 1);
        let later = insertion_swaps_from(next, partition + 1, partition + 1);
        lemma_apply_concat(s, walk, later);
        lemma_in_bounds_concat(walk, later, s.len());
    }
}

/// Insertion sort leaves any sequence sorted, by exchanges within bounds.
pub proof fn lemma_insertion_sorts<T: PartialOrd>(s: Seq<T>)
    requires
        strict_weak_order::<T>(),
    ensures
        in_bounds(insertion_swaps(s), s.len()),
        sorted(apply_swaps(s, insertion_swaps(s))),
{
    lemma_insertion_sorts_from(s, 1, 1);
}

/// Where the walking element has been exchanged with its left neighbour, the
/// run goes on as from its new position.
pub proof fn lemma_insertion_step_swap<T: PartialOrd>(s: Seq<T>, partition: int, cur: int)
    requires
        1 <= cur <= partition < s.len(),
        gt(s[cur - 1], s[cur]),
    ensures
        insertion_swaps_from(s, partition, cur) == seq![(cur - 1, cur)] + insertion_swaps_from(
            swapped(s, cur - 1, cur),
            partition,
            cur - 1,
        ),
{
    let next = swapped(s, cur - 1, cur);
    let rest = walk_swaps(next, cur - 1);
    lemma_apply_first(s, cur - 1, cur, rest);
    let later = insertion_swaps_from(apply_swaps(next, rest), partition + 1, partition + 1);
    assert((seq![(cur - 1, cur)] + rest) + later =~= seq![(cur - 1, cur)] + (rest + later));
}

/// Insertion sort exchanges nothing in a sorted sequence once the element
/// admitted at `partition` stands where it was admitted.
pub proof fn lemma_sorted_is_left_from<T: PartialOrd>(s: Seq<T>, partition: int)
    requires
        strict_weak_order::<T>(),
        sorted(s),
        1 <= partition,
    ensures
        insertion_swaps_from(s, partition, partition) == Seq::<(int, int)>::empty(),
    decreases s.len() - partition,
{
    if partition < s.len() {
        lemma_greater_is_less(s[partition - 1], s[partition]);
        assert(walk_swaps(s, partition) == Seq::<(int, int)>::empty());
        lemma_sorted_is_left_from(s, partition + 1);
        assert(apply_swaps(s, Seq::<(int, int)>::empty()) == s);
        assert(Seq::<(int, int)>::empty() + Seq::<(int, int)>::empty() =~= Seq::<
            (int, int),
        >::empty());
    }
}

/// Every exchange of a walk puts right two neighbours out of order.
pub proof fn lemma_walk_inverts<T: PartialOrd>(s: Seq<T>, cur: int)
    requires
        strict_weak_order::<T>(),
    ensures
        inverting(s, walk_swaps(s, cur), true),
    decreases cur,
{
    if 1 <= cur < s.len() && gt(s[cur - 1], s[cur]) {
        lemma_greater_is_less(s[cur - 1], s[cur]);
        let next = swapped(s, cur - 1, cur);
        lemma_walk_inverts(next, cur - 1);
        lemma_inverting_first(s, cur - 1, cur, walk_swaps(next, cur - 1), true);
    }
}

/// Every exchange of insertion sort puts right two neighbours out of order.
pub proof fn lemma_insertion_inverts_from<T: PartialOrd>(s: Seq<T>, partition: int, cur: int)
    requires
        strict_weak_order::<T>(),
    ensures
        inverting(s, insertion_swaps_from(s, partition, cur), true),
    decreases s.len() - partition,
{
    if 1 <= partition < s.len() {
        let walk = walk_swaps(s, cur);
        let next = apply_swaps(s, walk);
        lemma_walk_in_bounds(s, cur);
        lemma_walk_inverts(s, cur);
        lemma_insertion_inverts_from(next, partition + 1, partition + 1);
        lemma_inverting_concat(
            s,
            walk,
            insertion_swaps_from(next, partition + 1, partition + 1),
            true,
        );
    }
}

/// Insertion sort exchanges nothing in a sequence of at most one element.
pub proof fn lemma_short_is_left<T: PartialOrd>(s: Seq<T>)
    requires
        s.len() <= 1,
    ensures
        insertion_swaps(s) == Seq::<(int, int)>::empty(),
{
    assert(insertion_swaps(s) =~= Seq::<(int, int)>::empty());
}

/// Sorting in place by insertion.
pub trait InsertionSort {
    /// The element type's comparisons form a strict weak ordering.
    spec fn ordered() -> bool;

    /// Sorts `self` in place.
    fn sort(&mut self)
        requires
            Self::ordered(),
    ;
}

impl<T: PartialOrd + Clone> InsertionSort for Vec<T> {
    open spec fn ordered() -> bool {
        strict_weak_order::<T>()
    }

    fn sort(&mut self)
        ensures
            final(self)@ == apply_swaps(old(self)@, insertion_swaps(old(self)@)),
            sorted(final(self)@),
            final(self)@.to_multiset() == old(self)@.to_multiset(),
            old(self)@.len() <= 1 ==> final(self)@ == old(self)@,
    {
        let len = self.len();
        proof {
            lemma_insertion_sorts(self@);
            lemma_apply_permutes(self@, insertion_swaps(self@));
        }
        if len <= 1 {
            return ;
        }
        let ghost goal = apply_swaps(self@, insertion_swaps(self@));
        let mut partition: usize = 1;
        while partition < len
            invariant
                strict_weak_order::<T>(),
                self@.len() == len,
                1 <= partition <= len,
                apply_swaps(self@, insertion_swaps_from(self@, partition as int, partition as int))
                    == goal,
            decreases len - partition,
        {
            let mut cur = partition;
            proof {
                lemma_operators_agree::<T>();
            }
            while cur >= 1 && self[cur - 1] > self[cur]
                invariant
                    operators_agree::<T>(),
                    self@.len() == len,
                    cur <= partition < len,
                    apply_swaps(self@, insertion_swaps_from(self@, partition as int, cur as int))
                        == goal,
                decreases cur,
            {
                proof {
                    lemma_insertion_step_swap(self@, partition as int, cur as int);
                    lemma_apply_first(
                        self@,
                        cur - 1,
                        cur as int,
                        insertion_swaps_from(
                            swapped(self@, cur - 1, cur as int),
                            partition as int,
                            cur - 1,
                        ),
                    );
                }
                exchange(self, cur - 1, cur);
                cur -= 1;
            }
            partition += 1;
        }
    }
}

/// An insertion sort that is advanced one exchange at a time.
pub struct InsertionRun<T> {
    data: Vec<T>,
    /// The position whose element is being admitted.
    partition: usize,
    /// Where that element has walked to.
    cur: usize,
}

impl<T: PartialOrd + Clone> InsertionRun<T> {
    /// A run that is about to sort `data`.
    pub fn new(data: Vec<T>) -> (run: Self)
        requires
            strict_weak_order::<T>(),
        ensures
            run.wf(),
            run.data() == data@,
            run.pending() == insertion_swaps(data@),
    {
        InsertionRun { data, partition: 1, cur: 1 }
    }
}

impl<T: PartialOrd + Clone> Instrumented<T> for InsertionRun<T> {
    closed spec fn wf(&self) -> bool {
        &&& strict_weak_order::<T>()
        &&& 1 <= self.partition
        &&& self.partition < self.data@.len() ==> self.cur <= self.partition
    }

    closed spec fn data(&self) -> Seq<T> {
        self.data@
    }

    closed spec fn pending(&self) -> Seq<(int, int)> {
        insertion_swaps_from(self.data@, self.partition as int, self.cur as int)
    }

    fn next_event(&mut self) -> (ev: Option<[(usize, T); 2]>) {
        let len = self.data.len();
        while self.partition < len
            invariant
                self.wf(),
                self.data@ == old(self).data@,
                self.data@.len() == len,
                self.pending() == old(self).pending(),
            decreases len - self.partition,
        {
            let cur = self.cur;
            proof {
                lemma_operators_agree::<T>();
            }
            if cur >= 1 && self.data[cur - 1] > self.data[cur] {
                proof {
                    lemma_insertion_step_swap(self.data@, self.partition as int, cur as int);
                    let rest = insertion_swaps_from(
                        swapped(self.data@, cur - 1, cur as int),
                        self.partition as int,
                        cur - 1,
                    );
                    assert((seq![(cur - 1, cur as int)] + rest).drop_first() =~= rest);
                }
                exchange(&mut self.data, cur - 1, cur);
                self.cur = cur - 1;
                return Some(swap_event(&self.data, cur - 1, cur));
            }
            proof {
                assert(walk_swaps(self.data@, cur as int) =~= Seq::<(int, int)>::empty());
                assert(self.pending() =~= insertion_swaps_from(
                    self.data@,
                    self.partition + 1,
                    self.partition + 1,
                ));
            }
            self.partition += 1;
            self.cur = self.partition;
        }
        None
    }

    fn into_data(self) -> (v: Vec<T>) {
        self.data
    }
}

/// Sorting by insertion with a report of every exchange.
pub trait RenderInsertionSort<S> {
    /// The element type's comparisons form a strict weak ordering.
    spec fn ordered() -> bool;

    /// Sorts `self` and hands the report of each exchange to `cb`, in the
    /// order in which the exchanges are made.
    fn sort(self, cb: S)
        requires
            Self::ordered(),
    ;
}

impl<'a, T: PartialOrd + Clone> RenderInsertionSort<&'a mut Vec<[(usize, T); 2]>> for Vec<T> {
    open spec fn ordered() -> bool {
        strict_weak_order::<T>()
    }

    /// Appends the reports to `cb`.
    fn sort(self, cb: &'a mut Vec<[(usize, T); 2]>)
        ensures
            final(cb)@.len() == old(cb)@.len() + insertion_swaps(self@).len(),
            final(cb)@.take(old(cb)@.len() as int) == old(cb)@,
            recorded(final(cb)@.skip(old(cb)@.len() as int), self@, insertion_swaps(self@)),
            self@.len() <= 1 ==> final(cb)@ == old(cb)@,
    {
        proof {
            if self@.len() <= 1 {
                lemma_short_is_left(self@);
            }
        }
        let ghost before = cb@;
        let run = InsertionRun::new(self);
        let _ = record(run, cb);
        proof {
            if self@.len() <= 1 {
                assert(cb@ =~= cb@.take(before.len() as int));
            }
        }
    }
}

} // verus!
