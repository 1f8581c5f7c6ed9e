//! The deterministic stream from which a dealer draws all of its randomness.

use crate::error::Error;
use rand_chacha::ChaCha20Rng;
use rand_core::SeedableRng;
use vstd::prelude::*;

verus! {

/// The ChaCha stream generator with twenty rounds. Its state is opaque here.
#[verifier::external_type_specification]
#[verifier::external_body]
pub struct ExChaCha20Rng(ChaCha20Rng);

/// The length of the seed that starts a stream.
pub const SEED_LEN: usize = 32;

/// `ChaCha20Rng::from_seed`, on a seed copied into the array that it takes.
/// Nothing is claimed of the stream that comes back.
#[verifier::external_body]
fn stream_from_block(seed: &[u8]) -> (rng: ChaCha20Rng)
    requires
        seed@.len() == SEED_LEN,
{
    let mut block = [0u8; 32];
    block.copy_from_slice(seed);
    ChaCha20Rng::from_seed(block)
}

/// Starts the dealer's stream from the bytes drawn from the caller's random
/// source. Exactly 32 bytes are accepted.
pub fn seeded_stream(seed: &[u8]) -> (r: Result<ChaCha20Rng, Error>)
    ensures
        r is Ok <==> seed@.len() == SEED_LEN,
        r matches Err(e) ==> e == Error::InvalidRng,
{
    if seed.len() != SEED_LEN {
        return Err(Error::InvalidRng);
    }
    Ok(stream_from_block(seed))
}

} // verus!
