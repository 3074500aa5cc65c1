//! Trusted boundary to the `rand` crate: the thread-local generator and a
//! uniform fixed-point sample in `[0, ONE]`.

use vstd::prelude::*;
use crate::fx::ONE;

verus! {

/// `rand`'s thread-local generator, opaque to the verifier.
#[verifier::external_type_specification]
#[verifier::external_body]
pub struct ExThreadRng(rand::rngs::ThreadRng);

/// Relies on rand::Rng::gen_range: a sample drawn from a non-empty
/// inclusive integer range lies within that range. Nothing else is assumed
/// of the outcome.
#[verifier::external_body]
pub fn rand_unit(rng: &mut rand::rngs::ThreadRng) -> (r: i64)
    ensures
        0 <= r <= ONE,
{
    rand::Rng::gen_range(rng, 0..=ONE)
}

} // verus!
