//! Randomness for sampling plaintexts, ring elements and noise.
//!
//! The generator is `rand`'s standard PRNG, seeded explicitly so that runs
//! are reproducible.  Nothing is assumed of the stream beyond the range of
//! each drawn value.

use vstd::prelude::*;

verus! {

#[verifier::external_type_specification]
#[verifier::external_body]
pub struct ExStdRng(rand::rngs::StdRng);

/// Relies on rand::SeedableRng::seed_from_u64: builds a deterministic
/// generator from the given seed.
#[verifier::external_body]
pub fn rng_from_seed(seed: u64) -> rand::rngs::StdRng {
    <rand::rngs::StdRng as rand::SeedableRng>::seed_from_u64(seed)
}

/// Relies on rand::Rng::gen_range over the half-open range `0..bound`:
/// the drawn value lies in `[0, bound)`.
#[verifier::external_body]
pub fn gen_below(rng: &mut rand::rngs::StdRng, bound: u128) -> (r: u128)
    requires
        bound >= 1,
    ensures
        r < bound,
{
    rand::Rng::gen_range(rng, 0..bound)
}

} // verus!
