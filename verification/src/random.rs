//! The two sources of randomness: the ChaCha8 keystream of a seed, and a fresh
//! seed from the operating system.
use vstd::prelude::*;

verus! {

/// The first `len` bytes of the ChaCha8 keystream that `rand_chacha` produces
/// for a 32-byte seed.
pub uninterp spec fn chacha8_stream(seed: Seq<u8>, len: nat) -> Seq<u8>;

/// `ChaCha8Rng::from_seed` followed by `RngCore::fill_bytes`: the first `len`
/// bytes of the keystream of `seed`, the same on every machine.
#[verifier::external_body]
pub(crate) fn chacha8_bytes(seed: &[u8], len: usize) -> (r: Vec<u8>)
    requires
        seed@.len() == 32,
    ensures
        r@.len() == len,
        r@ == chacha8_stream(seed@, len as nat),
{
    let mut key = [0u8; 32];
    key.copy_from_slice(seed);
    let mut rng = <rand_chacha::ChaCha8Rng as rand::SeedableRng>::from_seed(key);
    let mut out = vec![0u8; len];
    rand::RngCore::fill_bytes(&mut rng, &mut out);
    out
}

/// `rand::thread_rng` and `Rng::fill`: 32 bytes that nothing is known about.
#[verifier::external_body]
pub(crate) fn fresh_seed() -> (r: [u8; 32])
{
    let mut seed = [0u8; 32];
    rand::Rng::fill(&mut rand::thread_rng(), &mut seed);
    seed
}

} // verus!
