//! Trusted access to the pseudo-random source.
//!
//! Every engine draws its randomness through these wrappers around a
//! seedable generator owned by the caller, so a run can be reproduced
//! from its seed.  Nothing is assumed about which value comes out of a
//! draw beyond its range.

use vstd::prelude::*;
use crate::grid::Pos;
use rand::Rng;
use rand::SeedableRng;
use rand::seq::SliceRandom;
use rand::rngs::StdRng;

verus! {

#[verifier::external_type_specification]
#[verifier::external_body]
pub struct ExStdRng(StdRng);

/// Relies on rand's `StdRng::seed_from_u64` (`SeedableRng`): builds a
/// generator from a seed.
#[verifier::external_body]
pub fn rng_from_seed(seed: u64) -> StdRng {
    StdRng::seed_from_u64(seed)
}

/// Relies on rand's `Rng::gen_range` over `0..n`, which returns a value
/// of that range and panics only when the range is empty.
#[verifier::external_body]
pub fn rand_below(rng: &mut StdRng, n: usize) -> (r: usize)
    requires
        n >= 1,
    ensures
        r < n,
{
    rng.gen_range(0..n)
}

/// Relies on rand's `Rng::gen` with the `Standard` distribution on
/// `bool`: a coin flip.
#[verifier::external_body]
pub fn rand_bool(rng: &mut StdRng) -> bool {
    rng.gen()
}

/// Relies on rand's `SliceRandom::shuffle`: a Fisher-Yates permutation
/// of the slice in place.
#[verifier::external_body]
pub fn shuffle_positions(rng: &mut StdRng, v: &mut Vec<Pos>)
    ensures
        final(v)@.len() == old(v)@.len(),
        final(v)@.to_multiset() == old(v)@.to_multiset(),
        forall|i: int| 0 <= i < final(v)@.len() ==> old(v)@.contains(#[trigger] final(v)@[i]),
{
    v.shuffle(rng);
}

} // verus!
