//! The random source that the scheduler and the random strategy draw from:
//! a seedable generator of the `rand` crate, threaded through explicitly.

use rand::rngs::StdRng;
use rand::seq::SliceRandom;
use rand::Rng;
use rand::SeedableRng;
use vstd::prelude::*;

verus! {

#[verifier::external_type_specification]
#[verifier::external_body]
pub struct ExStdRng(StdRng);

/// Relies on `rand::SeedableRng::seed_from_u64` for `StdRng`: a generator
/// whose draws depend on the seed alone.
#[verifier::external_body]
pub(crate) fn seeded_rng(seed: u64) -> StdRng {
    StdRng::seed_from_u64(seed)
}

/// Relies on `rand::Rng::gen_range` over the inclusive range `0..=high`,
/// which is never empty: a number from `0` to `high`.
#[verifier::external_body]
pub(crate) fn draw_up_to(rng: &mut StdRng, high: u32) -> (r: u32)
    ensures
        r <= high,
{
    rng.gen_range(0..=high)
}

/// Relies on `rand::seq::SliceRandom::shuffle`, which only swaps elements:
/// the result holds the same elements, in an order drawn at random.
#[verifier::external_body]
pub(crate) fn shuffle(v: &mut Vec<usize>, rng: &mut StdRng)
    ensures
        final(v)@.to_multiset() == old(v)@.to_multiset(),
{
    v.shuffle(rng)
}

} // verus!
