//! The random choices a builder makes, taken from the `rand` crate.
use vstd::prelude::*;
use rand::rngs::ThreadRng;
use rand::seq::SliceRandom;
use rand::Rng;

verus! {

/// `rand`'s handle on the thread-local generator.
#[verifier::external_type_specification]
#[verifier::external_body]
pub struct ExThreadRng(ThreadRng);

/// Calls `rand::thread_rng`. Nothing is claimed of the handle it returns.
#[verifier::external_body]
pub(crate) fn new_rng() -> ThreadRng {
    rand::thread_rng()
}

/// Calls `Rng::gen_range` on `low..high`, which panics on an empty range (hence the
/// `requires`) and otherwise returns some value of the range. Which value is not stated: it
/// depends on the generator's state.
#[verifier::external_body]
pub(crate) fn random_in_range(rng: &mut ThreadRng, low: i32, high: i32) -> (r: i32)
    requires
        low < high,
    ensures
        low <= r < high,
{
    rng.gen_range(low..high)
}

/// Calls `SliceRandom::shuffle`, a Fisher-Yates shuffle made of swaps: the vector afterwards
/// holds the same items, each as often as before. Their order is not stated: it depends on the
/// generator's state.
#[verifier::external_body]
pub(crate) fn shuffle(v: &mut Vec<usize>, rng: &mut ThreadRng)
    ensures
        final(v)@.len() == old(v)@.len(),
        final(v)@.to_multiset() == old(v)@.to_multiset(),
{
    v.shuffle(rng)
}

} // verus!
