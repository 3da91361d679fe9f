//! The pseudo-random source that tree generation and crossover draw from,
//! wrapped so that the rest of the library can be verified against what a
//! draw is guaranteed to satisfy: nothing beyond its range.

use vstd::prelude::*;

verus! {

#[verifier::external_type_specification]
#[verifier::external_body]
pub struct ExSmallRng(rand::rngs::SmallRng);

/// Relies on rand's `RngExt::random_range` over `0..n`: the result lies in
/// the range, and the call panics only on an empty range, which `n > 0`
/// rules out. Nothing further is assumed of the draw.
#[verifier::external_body]
pub(crate) fn random_below(rng: &mut rand::rngs::SmallRng, n: usize) -> (r: usize)
    requires
        n > 0,
    ensures
        r < n,
{
    rand::RngExt::random_range(rng, 0..n)
}

} // verus!
