//! Seedable randomness for the generators, wrapped so that the rest of the
//! library can be verified for every outcome of the draws.

use vstd::prelude::*;

verus! {

/// The seedable pseudo-random generator the library draws from.
#[verifier::external_type_specification]
#[verifier::external_body]
pub struct ExStdRng(rand::rngs::StdRng);

/// Relies on rand's `SeedableRng::seed_from_u64` for `StdRng`: builds a
/// generator from a seed. Nothing is assumed about the stream it produces.
#[verifier::external_body]
pub(crate) fn rng_from_seed(seed: u64) -> rand::rngs::StdRng {
    <rand::rngs::StdRng as rand::SeedableRng>::seed_from_u64(seed)
}

/// Relies on rand's `Rng::gen_range` over `0..bound`: the draw is uniform,
/// and in particular always below `bound`.
#[verifier::external_body]
pub(crate) fn rand_below(rng: &mut rand::rngs::StdRng, bound: u64) -> (r: u64)
    requires
        bound >= 1,
    ensures
        r < bound,
{
    rand::Rng::gen_range(rng, 0..bound)
}

/// Relies on rand's `SliceRandom::shuffle`: permutes the slice in place, so
/// the multiset of elements is unchanged.
#[verifier::external_body]
pub(crate) fn shuffle_pairs(v: &mut Vec<(usize, usize)>, rng: &mut rand::rngs::StdRng)
    ensures
        final(v)@.to_multiset() == old(v)@.to_multiset(),
{
    rand::seq::SliceRandom::shuffle(v.as_mut_slice(), rng)
}

} // verus!
