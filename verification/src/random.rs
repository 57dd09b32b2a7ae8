//! Sampling of random coding vectors.
//!
//! Randomness is the one outside capability the coding engines need. It
//! enters through a single sampling routine over the `rand` crate's
//! thread-local generator; everything downstream of the drawn bytes is
//! ordinary verified code that holds for every possible draw.

use vstd::prelude::*;

verus! {

#[verifier::external_type_specification]
#[verifier::external_body]
pub struct ExThreadRng(rand::rngs::ThreadRng);

/// Relies on `rand::Rng::fill` on `ThreadRng`: it fills the whole buffer
/// with random bytes. Nothing is promised of the values drawn, only that
/// `count` bytes come back.
#[verifier::external_body]
pub(crate) fn sample_random_bytes(rng: &mut rand::rngs::ThreadRng, count: usize) -> (r: Vec<u8>)
    ensures
        r@.len() == count,
{
    let mut buffer = vec![0u8; count];
    rand::Rng::fill(rng, buffer.as_mut_slice());
    buffer
}

} // verus!
