//! The one mutation that the sorts make.

use crate::sequence::swapped;
use vstd::prelude::*;

verus! {

/// Exchanges two elements of a vector in place, by `<[T]>::swap` of the
/// standard library. Trusted: that both positions being below the length
/// rules out its panic, and that afterwards the vector holds what it held
/// with the elements at `i` and `j` exchanged and nothing else changed.
#[verifier::external_body]
pub(crate) fn exchange<T>(v: &mut Vec<T>, i: usize, j: usize)
    requires
        i < old(v)@.len(),
        j < old(v)@.len(),
    ensures
        final(v)@ == swapped(old(v)@, i as int, j as int),
{
    v.swap(i, j)
}

} // verus!
