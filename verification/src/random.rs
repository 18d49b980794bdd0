//! The random source that the randomized solvers draw from.
//!
//! Nothing here is proved: the functions of this module call the `rand`
//! crate, and their contracts say what its source shows of every outcome.

use rand::rngs::StdRng;
use rand::seq::SliceRandom;
use rand::Rng;
use vstd::prelude::*;

verus! {

/// `rand::rngs::StdRng`, the generator that callers seed and hand in. Its
/// state is hidden from the proofs.
#[verifier::external_type_specification]
#[verifier::external_body]
pub struct ExStdRng(StdRng);

/// `rand::Rng::gen_range` on the inclusive range `low..=high`: some number
/// of that range. The range must not be empty, or `gen_range` panics.
#[verifier::external_body]
pub(crate) fn uniform(rng: &mut StdRng, low: usize, high: usize) -> (x: usize)
    requires
        low <= high,
    ensures
        low <= x <= high,
{
    rng.gen_range(low..=high)
}

/// `rand::seq::SliceRandom::shuffle`: swaps elements of the slice among
/// themselves, so the vector afterwards holds what it held, in some order.
#[verifier::external_body]
pub(crate) fn shuffle<T>(rng: &mut StdRng, items: &mut Vec<T>)
    ensures
        final(items)@.to_multiset() == old(items)@.to_multiset(),
{
    items.shuffle(rng);
}

} // verus!
