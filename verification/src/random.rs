//! Random values drawn from a seeded random number generator.
use vstd::prelude::*;
use rand::Rng;

verus! {

#[verifier::external_type_specification]
#[verifier::external_body]
pub struct ExStdRng(rand::rngs::StdRng);

/// A uniformly random `u64`, drawn by `rand::Rng::gen`.  Nothing is stated of
/// the value: any `u64` may come back.
#[verifier::external_body]
pub(crate) fn random_u64(rng: &mut rand::rngs::StdRng) -> u64 {
    rng.gen::<u64>()
}

/// A uniformly random `u128`, drawn by `rand::Rng::gen`.  Nothing is stated of
/// the value: any `u128` may come back.
#[verifier::external_body]
pub(crate) fn random_u128(rng: &mut rand::rngs::StdRng) -> u128 {
    rng.gen::<u128>()
}

} // verus!
