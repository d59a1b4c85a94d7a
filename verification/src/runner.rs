//! A data set that all four algorithms are run on.

use vstd::prelude::*;

verus! {

/// Holds one data set, of which every algorithm sorts a copy of its own.
pub struct Runner<T> {
    data_set: Vec<T>,
}

impl<T> View for Runner<T> {
    type V = Seq<T>;

    closed spec fn view(&self) -> Seq<T> {
        self.data_set@
    }
}

impl<T: PartialOrd + Clone> Runner<T> {
    /// A runner for `data_set`.
    pub fn _new(data_set: Vec<T>) -> (runner: Self)
        ensures
            runner@ == data_set@,
    {
        Runner { data_set }
    }

    /// The data set as it was given.
    pub fn data_set(&self) -> (data_set: &Vec<T>)
        ensures
            data_set@ == self@,
    {
        &self.data_set
    }
}

} // verus!
