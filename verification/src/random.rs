//! The random choices that the generator makes, drawn from the thread-local
//! generator of the `rand` crate.

use vstd::prelude::*;
use rand::seq::SliceRandom;
use rand::Rng;

verus! {

/// Calls `rand::random::<bool>()`. Nothing is claimed of the result: either
/// value can come back.
#[verifier::external_body]
pub(crate) fn random_bool() -> bool {
    rand::random()
}

/// Calls `Rng::gen_range(0..n)` on `rand::thread_rng()`. The contract claims
/// that the number drawn lies in the range, as the sampler's source shows;
/// an empty range, on which `gen_range` panics, is left out.
#[verifier::external_body]
pub(crate) fn random_below(n: usize) -> (r: usize)
    requires
        n > 0,
    ensures
        r < n,
{
    rand::thread_rng().gen_range(0..n)
}

/// Calls `SliceRandom::shuffle` on the vector's slice with
/// `rand::thread_rng()`. The contract claims only that the items are
/// rearranged: the shuffle does nothing but swap entries, so what the vector
/// holds, counted with repeats, stays the same.
#[verifier::external_body]
pub(crate) fn shuffle<T>(v: &mut Vec<T>)
    ensures
        final(v)@.to_multiset() == old(v)@.to_multiset(),
{
    v.shuffle(&mut rand::thread_rng());
}

} // verus!
