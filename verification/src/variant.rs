//! The closed set of algorithms, and what is chosen by naming one.

use crate::instrumented::Instrumented;
use crate::order::strict_weak_order;
use crate::sequence::{apply_swaps, sorted};
use crate::sorts::bubble::{bubble_swaps, BubbleRun, BubbleSort};
use crate::sorts::insertion::{insertion_swaps, InsertionRun, InsertionSort};
use crate::sorts::quick::{quick_sort_swaps, QuickRun, QuickSort};
use crate::sorts::selection::{selection_swaps, SelectionRun, SelectionSort};
use vstd::prelude::*;

verus! {

/// Whether two strings hold the same text, by `==` of the standard library
/// on `str`. Trusted: that it returns `true` exactly where both hold the
/// same characters in the same order.
#[verifier::external_body]
fn same_text(a: &str, b: &str) -> (same: bool)
    ensures
        same == (a@ == b@),
{
    a == b
}

/// One of the four algorithms.
#[derive(Clone, Copy, Debug, PartialEq, Eq, Structural)]
pub enum AlgorithmVariant {
    Selection,
    Bubble,
    Insertion,
    Quick,
}

impl AlgorithmVariant {
    /// The exchanges that the algorithm makes on `s`, in order.
    pub open spec fn swaps<T: PartialOrd>(self, s: Seq<T>) -> Seq<(int, int)> {
        match self {
            AlgorithmVariant::Selection => selection_swaps(s),
            AlgorithmVariant::Bubble => bubble_swaps(s),
            AlgorithmVariant::Insertion => insertion_swaps(s),
            AlgorithmVariant::Quick => quick_sort_swaps(s),
        }
    }

    /// The name by which the algorithm is chosen.
    pub open spec fn spec_name(self) -> Seq<char> {
        match self {
            AlgorithmVariant::Selection => "selection"@,
            AlgorithmVariant::Bubble => "bubble"@,
            AlgorithmVariant::Insertion => "insertion"@,
            AlgorithmVariant::Quick => "quick"@,
        }
    }

    /// The colour in which the algorithm's timings are drawn.
    pub open spec fn spec_colour(self) -> Seq<char> {
        match self {
            AlgorithmVariant::Selection => "red"@,
            AlgorithmVariant::Bubble => "blue"@,
            AlgorithmVariant::Insertion => "orange"@,
            AlgorithmVariant::Quick => "green"@,
        }
    }

    /// For how many nanoseconds an instrumented run of the algorithm pauses
    /// after each report.
    pub open spec fn spec_pacing_nanos(self) -> u64 {
        match self {
            AlgorithmVariant::Insertion => 0,
            _ => 1,
        }
    }

    /// All four, in the order in which they are run against each other.
    pub fn all() -> (variants: [AlgorithmVariant; 4])
        ensures
            variants@ == seq![
                AlgorithmVariant::Selection,
                AlgorithmVariant::Bubble,
                AlgorithmVariant::Insertion,
                AlgorithmVariant::Quick,
            ],
    {
        [
            AlgorithmVariant::Selection,
            AlgorithmVariant::Bubble,
            AlgorithmVariant::Insertion,
            AlgorithmVariant::Quick,
        ]
    }

    /// The name by which the algorithm is chosen.
    pub fn name(&self) -> (name: &'static str)
        ensures
            name@ == self.spec_name(),
    {
        match self {
            AlgorithmVariant::Selection => "selection",
            AlgorithmVariant::Bubble => "bubble",
            AlgorithmVariant::Insertion => "insertion",
            AlgorithmVariant::Quick => "quick",
        }
    }

    /// The algorithm chosen by `name`, or `None` where `name` names none.
    pub fn from_name(name: &str) -> (variant: Option<AlgorithmVariant>)
        ensures
            match variant {
                Some(v) => name@ == v.spec_name(),
                None => forall|v: AlgorithmVariant| name@ != v.spec_name(),
            },
    {
        if same_text(name, "selection") {
            Some(AlgorithmVariant::Selection)
        } else if same_text(name, "bubble") {
            Some(AlgorithmVariant::Bubble)
        } else if same_text(name, "insertion") {
            Some(AlgorithmVariant::Insertion)
        } else if same_text(name, "quick") {
            Some(AlgorithmVariant::Quick)
        } else {
            None
        }
    }

    /// The colour in which the algorithm's timings are drawn.
    pub fn colour(&self) -> (colour: &'static str)
        ensures
            colour@ == self.spec_colour(),
    {
        match self {
            AlgorithmVariant::Selection => "red",
            AlgorithmVariant::Bubble => "blue",
            AlgorithmVariant::Insertion => "orange",
            AlgorithmVariant::Quick => "green",
        }
    }

    /// For how many nanoseconds an instrumented run of the algorithm pauses
    /// after each report.
    pub fn pacing_nanos(&self) -> (nanos: u64)
        ensures
            nanos == self.spec_pacing_nanos(),
    {
        match self {
            AlgorithmVariant::Insertion => 0,
            _ => 1,
        }
    }

    /// Sorts `v` in place by this algorithm.
    pub fn sort<T: PartialOrd + Clone>(&self, v: &mut Vec<T>)
        requires
            strict_weak_order::<T>(),
        ensures
            final(v)@ == apply_swaps(old(v)@, self.swaps(old(v)@)),
            sorted(final(v)@),
            final(v)@.to_multiset() == old(v)@.to_multiset(),
            old(v)@.len() <= 1 ==> final(v)@ == old(v)@,
    {
        match self {
            AlgorithmVariant::Selection => SelectionSort::sort(v),
            AlgorithmVariant::Bubble => BubbleSort::sort(v),
            AlgorithmVariant::Insertion => InsertionSort::sort(v),
            AlgorithmVariant::Quick => QuickSort::sort(v),
        }
    }

    /// An instrumented run of this algorithm that is about to sort `data`.
    pub fn start<T: PartialOrd + Clone>(&self, data: Vec<T>) -> (run: Run<T>)
        requires
            strict_weak_order::<T>(),
        ensures
            run.wf(),
            run.variant() == *self,
            run.data() == data@,
            run.pending() == self.swaps(data@),
    {
        match self {
            AlgorithmVariant::Selection => Run::Selection(SelectionRun::new(data)),
            AlgorithmVariant::Bubble => Run::Bubble(BubbleRun::new(data)),
            AlgorithmVariant::Insertion => Run::Insertion(InsertionRun::new(data)),
            AlgorithmVariant::Quick => Run::Quick(QuickRun::new(data)),
        }
    }
}

/// An instrumented run of any of the four algorithms.
pub enum Run<T> {
    Selection(SelectionRun<T>),
    Bubble(BubbleRun<T>),
    Insertion(InsertionRun<T>),
    Quick(QuickRun<T>),
}

impl<T: PartialOrd + Clone> Run<T> {
    /// The algorithm that the run follows.
    pub open spec fn variant(&self) -> AlgorithmVariant {
        match self {
            Run::Selection(_) => AlgorithmVariant::Selection,
            Run::Bubble(_) => AlgorithmVariant::Bubble,
            Run::Insertion(_) => AlgorithmVariant::Insertion,
            Run::Quick(_) => AlgorithmVariant::Quick,
        }
    }
}

impl<T: PartialOrd + Clone> Instrumented<T> for Run<T> {
    open spec fn wf(&self) -> bool {
        match self {
            Run::Selection(run) => run.wf(),
            Run::Bubble(run) => run.wf(),
            Run::Insertion(run) => run.wf(),
            Run::Quick(run) => run.wf(),
        }
    }

    open spec fn data(&self) -> Seq<T> {
        match self {
            Run::Selection(run) => run.data(),
            Run::Bubble(run) => run.data(),
            Run::Insertion(run) => run.data(),
            Run::Quick(run) => run.data(),
        }
    }

    open spec fn pending(&self) -> Seq<(int, int)> {
        match self {
            Run::Selection(run) => run.pending(),
            Run::Bubble(run) => run.pending(),
            Run::Insertion(run) => run.pending(),
            Run::Quick(run) => run.pending(),
        }
    }

    fn next_event(&mut self) -> (ev: Option<[(usize, T); 2]>)
        ensures
            final(self).variant() == old(self).variant(),
    {
        match self {
            Run::Selection(run) => run.next_event(),
            Run::Bubble(run) => run.next_event(),
            Run::Insertion(run) => run.next_event(),
            Run::Quick(run) => run.next_event(),
        }
    }

    fn into_data(self) -> (v: Vec<T>) {
        match self {
            Run::Selection(run) => run.into_data(),
            Run::Bubble(run) => run.into_data(),
            Run::Insertion(run) => run.into_data(),
            Run::Quick(run) => run.into_data(),
        }
    }
}

} // verus!
