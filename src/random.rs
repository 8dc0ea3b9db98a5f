use rand::rngs::StdRng;
use rand::RngExt;
use vstd::prelude::*;

verus! {

/// The seedable generator used for every random decision of the model.
#[verifier::external_type_specification]
#[verifier::external_body]
pub struct ExStdRng(StdRng);

/// Relies on `rand::RngExt::random::<u8>`: draws one byte from the generator.
/// Any byte may come back; nothing more is promised.
#[verifier::external_body]
pub(crate) fn draw_u8(rng: &mut StdRng) -> u8 {
    rng.random::<u8>()
}

/// Relies on `rand::RngExt::random::<u64>`: draws one 64-bit word from the
/// generator. Any word may come back; nothing more is promised.
#[verifier::external_body]
pub(crate) fn draw_u64(rng: &mut StdRng) -> u64 {
    rng.random::<u64>()
}

} // verus!
