//! The randomness collaborator.
//!
//! The index owns a small, seedable pseudo-random generator and draws from
//! it when sampling a node's level and when picking the entry point of a
//! search.  Nothing is assumed about the drawn values beyond their range:
//! every caller is verified for every outcome.

use rand::Rng;
use vstd::prelude::*;

verus! {

#[verifier::external_type_specification]
#[verifier::external_body]
pub struct ExSmallRng(rand::rngs::SmallRng);

/// Relies on `rand::Rng::gen_range` over the half-open integer range
/// `0..bound`: the range is non-empty, so the call does not panic, and the
/// sampled value lies below `bound`.
#[verifier::external_body]
pub(crate) fn rand_below(rng: &mut rand::rngs::SmallRng, bound: usize) -> (r: usize)
    requires
        bound >= 1,
    ensures
        r < bound,
{
    rng.gen_range(0..bound)
}

} // verus!
