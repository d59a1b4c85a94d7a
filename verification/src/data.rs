//! Data sets for the sorts: random ones to run them on, and the range of
//! values that a set holds.

use rand::Rng;
use vstd::prelude::*;

verus! {

/// The least value of a random data set.
pub const LEAST_VALUE: i32 = 1;

/// The bound below which every value of a random data set lies.
pub const VALUE_LIMIT: i32 = 2147483647;

/// `rand::rngs::ThreadRng`, the generator that each thread keeps for itself.
/// Nothing is known of what it holds.
#[verifier::external_type_specification]
#[verifier::external_body]
pub struct ExThreadRng(rand::rngs::ThreadRng);

/// The calling thread's generator, by `rand::thread_rng`. Nothing is claimed
/// of it. (Where the system gives no entropy the call panics; no input could
/// rule that out.)
#[verifier::external_body]
fn thread_generator() -> rand::rngs::ThreadRng {
    rand::thread_rng()
}

/// One integer drawn by `rand::Rng::gen_range` from `low..high`. Trusted:
/// that a range that is not empty rules out the call's panic, and that what
/// is drawn lies in the range. Which value is drawn is left open.
#[verifier::external_body]
fn draw(generator: &mut rand::rngs::ThreadRng, low: i32, high: i32) -> (value: i32)
    requires
        low < high,
    ensures
        low <= value < high,
{
    generator.gen_range(low..high)
}

/// A data set of `size` random values, each from `LEAST_VALUE` up to but not
/// including `VALUE_LIMIT`.
pub fn gen_random_data(size: usize) -> (data_set: Vec<i32>)
    ensures
        data_set@.len() == size,
        forall|i: int| 0 <= i < size ==> LEAST_VALUE <= #[trigger] data_set@[i] < VALUE_LIMIT,
{
    let mut data_set = vec![0; size];
    let mut generator = thread_generator();
    for i in 0..size
        invariant
            data_set@.len() == size,
            forall|k: int| 0 <= k < i ==> LEAST_VALUE <= #[trigger] data_set@[k] < VALUE_LIMIT,
    {
        data_set[i] = draw(&mut generator, LEAST_VALUE, VALUE_LIMIT);
    }
    data_set
}

/// The least and the greatest value of `data`, or `None` where it is empty.
pub fn value_bounds(data: &Vec<i32>) -> (bounds: Option<(i32, i32)>)
    ensures
        bounds is None <==> data@.len() == 0,
        bounds matches Some((least, greatest)) ==> {
            &&& exists|i: int| 0 <= i < data@.len() && data@[i] == least
            &&& exists|i: int| 0 <= i < data@.len() && data@[i] == greatest
            &&& forall|i: int| 0 <= i < data@.len() ==> least <= #[trigger] data@[i] <= greatest
        },
{
    if data.len() == 0 {
        return None;
    }
    let mut least = data[0];
    let mut greatest = data[0];
    for i in 1..data.len()
        invariant
            0 < data@.len(),
            exists|k: int| 0 <= k < i && data@[k] == least,
            exists|k: int| 0 <= k < i && data@[k] == greatest,
            forall|k: int| 0 <= k < i ==> least <= #[trigger] data@[k] <= greatest,
    {
        if data[i] < least {
            least = data[i];
        }
        if data[i] > greatest {
            greatest = data[i];
        }
    }
    Some((least, greatest))
}

} // verus!
