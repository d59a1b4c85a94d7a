//! What one panel of a display is set up with.

use crate::data::value_bounds;
use crate::instrumented::Instrumented;
use crate::order::lemma_i32_ordered;
use crate::variant::{AlgorithmVariant, Run};
use vstd::prelude::*;

verus! {

/// The set-up of one panel: the name of the algorithm that it shows and the
/// values that the algorithm sorts.
#[derive(Clone, Eq, PartialEq)]
pub struct GraphComponentProperties {
    pub message_type: String,
    pub data: Vec<i32>,
}

impl GraphComponentProperties {
    /// The algorithm that the panel names, or `None` where it names none.
    pub fn variant(&self) -> (variant: Option<AlgorithmVariant>)
        ensures
            match variant {
                Some(v) => self.message_type@ == v.spec_name(),
                None => forall|v: AlgorithmVariant| self.message_type@ != v.spec_name(),
            },
    {
        AlgorithmVariant::from_name(self.message_type.as_str())
    }

    /// The least and the greatest of the panel's values, or `None` where it
    /// has no values.
    pub fn bounds(&self) -> (bounds: Option<(i32, i32)>)
        ensures
            bounds is None <==> self.data@.len() == 0,
            bounds matches Some((least, greatest)) ==> {
                &&& exists|i: int| 0 <= i < self.data@.len() && self.data@[i] == least
                &&& exists|i: int| 0 <= i < self.data@.len() && self.data@[i] == greatest
                &&& forall|i: int|
                    0 <= i < self.data@.len() ==> least <= #[trigger] self.data@[i] <= greatest
            },
    {
        value_bounds(&self.data)
    }

    /// An instrumented run of the panel's algorithm on a copy of the panel's
    /// values, or `None` where the panel names no algorithm.
    pub fn start(&self) -> (run: Option<Run<i32>>)
        ensures
            match run {
                Some(run) => {
                    &&& run.wf()
                    &&& self.message_type@ == run.variant().spec_name()
                    &&& run.data() == self.data@
                    &&& run.pending() == run.variant().swaps(self.data@)
                },
                None => forall|v: AlgorithmVariant| self.message_type@ != v.spec_name(),
            },
    {
        match self.variant() {
            Some(variant) => {
                proof {
                    lemma_i32_ordered();
                }
                let copy = self.data.clone();
                assert(copy@ =~= self.data@);
                Some(variant.start(copy))
            },
            None => None,
        }
    }
}

} // verus!
