//! The random source, and the draws the search makes from it.

use rand::rngs::StdRng;
use rand::seq::SliceRandom;
use rand::Rng;
use vstd::prelude::*;

verus! {

/// `rand::rngs::StdRng`, the generator that every random step is handed.
/// Nothing is known of its state.
#[verifier::external_type_specification]
#[verifier::external_body]
pub struct ExStdRng(rand::rngs::StdRng);

/// Draws a number below `bound`.
///
/// Calls `rand::Rng::gen_range` with the bounds `0` and `bound`. Trusted of
/// it: the value it returns lies in the half-open range it was given. It
/// panics on an empty range, which the precondition rules out.
#[verifier::external_body]
pub(crate) fn uniform_below(rng: &mut StdRng, bound: usize) -> (drawn: usize)
    requires
        bound > 0,
    ensures
        drawn < bound,
{
    rng.gen_range(0, bound)
}

/// Puts the entries of `items` in a random order.
///
/// Calls `rand::seq::SliceRandom::shuffle`. Trusted of it: it only swaps
/// entries of the slice, so the same entries are there afterwards, each as
/// often as before.
#[verifier::external_body]
pub(crate) fn shuffle(items: &mut Vec<usize>, rng: &mut StdRng)
    ensures
        final(items)@.to_multiset() == old(items)@.to_multiset(),
{
    items.shuffle(rng)
}

} // verus!
