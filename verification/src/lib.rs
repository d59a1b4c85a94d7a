//! Classic in-place comparison sorts over `Vec<T>`, each in a silent form and
//! in an instrumented form that reports every exchange it makes.

use crate::instrumented::{clones_are_equal, replayed};
use vstd::prelude::*;

pub mod data;
mod exchange;
pub mod instrumented;
pub mod laws;
pub mod order;
pub mod panel;
pub mod runner;
pub mod sequence;
pub mod sorts;
pub mod variant;

verus! {

/// What a consumer of an instrumented sort is told: the two positions that
/// one exchange touched, each with the value it now holds.
#[derive(Clone, Eq, PartialEq)]
pub enum Msg<T> {
    Data([(usize, T); 2]),
}

impl<T: Clone> Msg<T> {
    /// The report that the message carries.
    pub open spec fn event(&self) -> [(usize, T); 2] {
        match *self {
            Msg::Data(ev) => ev,
        }
    }

    /// Brings a copy of the sequence up to date with the exchange that the
    /// message reports: both positions named in it receive the values
    /// reported for them, the second position last.
    pub fn apply_to(&self, mirror: &mut Vec<T>)
        requires
            self.event()@[0].0 < old(mirror)@.len(),
            self.event()@[1].0 < old(mirror)@.len(),
        ensures
            final(mirror)@.len() == old(mirror)@.len(),
            forall|k: int|
                0 <= k < old(mirror)@.len() && k != self.event()@[0].0 && k != self.event()@[1].0
                    ==> final(mirror)@[k] == old(mirror)@[k],
            cloned(self.event()@[1].1, final(mirror)@[self.event()@[1].0 as int]),
            self.event()@[0].0 != self.event()@[1].0 ==> cloned(
                self.event()@[0].1,
                final(mirror)@[self.event()@[0].0 as int],
            ),
            clones_are_equal::<T>() ==> final(mirror)@ == replayed(old(mirror)@, self.event()),
    {
        match self {
            Msg::Data(ev) => {
                let first = ev[0].1.clone();
                let second = ev[1].1.clone();
                assert(cloned(ev[0].1, first) && cloned(ev[1].1, second));
                mirror[ev[0].0] = first;
                mirror[ev[1].0] = second;
            },
        }
    }
}

} // verus!
