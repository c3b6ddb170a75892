//! The seeded generator that the stages of a pipeline draw from.
use vstd::prelude::*;
use rand::{RngCore, SeedableRng};
use rand_chacha::ChaCha8Rng;

verus! {

#[verifier::external_type_specification]
#[verifier::external_body]
pub struct ExChaCha8Rng(ChaCha8Rng);

/// The generator state that `ChaCha8Rng::seed_from_u64` builds from a seed.
pub uninterp spec fn seeded(state: u64) -> ChaCha8Rng;

/// The generator state that `ChaCha8Rng::from_seed` builds from a 32-byte key.
pub uninterp spec fn keyed(key: Seq<u8>) -> ChaCha8Rng;

/// Relies on `RngCore::fill_bytes` of `rand::thread_rng()`, the thread-local
/// generator seeded from system entropy: 32 bytes drawn from it.
#[verifier::external_body]
fn entropy_key() -> (k: Vec<u8>)
    ensures
        k@.len() == 32,
{
    let mut k = vec![0u8; 32];
    rand::thread_rng().fill_bytes(&mut k);
    k
}

/// Relies on `SeedableRng::from_seed` for `ChaCha8Rng`: the state depends on
/// the key alone.
#[verifier::external_body]
fn chacha_from_key(k: &Vec<u8>) -> (r: ChaCha8Rng)
    requires
        k@.len() == 32,
    ensures
        r == keyed(k@),
{
    let mut seed = [0u8; 32];
    seed.copy_from_slice(k);
    ChaCha8Rng::from_seed(seed)
}

/// Relies on `SeedableRng::seed_from_u64` for `ChaCha8Rng`: the state depends
/// on the seed alone.
#[verifier::external_body]
fn chacha_from_seed(state: u64) -> (r: ChaCha8Rng)
    ensures
        r == seeded(state),
{
    ChaCha8Rng::seed_from_u64(state)
}

/// A generator owned by one evaluation and reseeded in place.
pub struct PRNG {
    pub rng: ChaCha8Rng,
}

impl PRNG {
    /// A generator keyed with 32 bytes drawn from system entropy, as
    /// `SeedableRng::from_rng` keys it.
    pub fn new() -> (r: PRNG)
        ensures
            exists|k: Seq<u8>| k.len() == 32 && r.rng == keyed(k),
    {
        let k = entropy_key();
        PRNG { rng: chacha_from_key(&k) }
    }

    /// Reseeds the generator: its state is then a function of `state` alone.
    pub fn setseed(&mut self, state: u64)
        ensures
            final(self).rng == seeded(state),
    {
        self.rng = chacha_from_seed(state);
    }
}

/// Two generators reseeded with the same value are in the same state, so the
/// same draws from them give the same results.
pub proof fn lemma_reseed_deterministic(a: PRNG, b: PRNG, state: u64)
    requires
        a.rng == seeded(state),
        b.rng == seeded(state),
    ensures
        a == b,
{
}

} // verus!
