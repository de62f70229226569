//! Trusted boundary around rand_chacha's ChaCha8 generator, the seeded
//! deterministic stream the policy selector draws from.
//!
//! ChaCha8 is a pure stream cipher: seeding is a function of the seed alone,
//! and each word drawn, like the state left behind, is a function of the
//! generator state alone. Those three results are named below, so that
//! contracts can say which word a draw returns and how the stream advances;
//! nothing further is assumed about the values.

use vstd::prelude::*;
use rand_chacha::ChaCha8Rng;
use rand_chacha::rand_core::{Rng, SeedableRng};

verus! {

#[verifier::external_type_specification]
#[verifier::external_body]
pub struct ExChaCha8Rng(ChaCha8Rng);

/// The generator that seeding with the given value builds.
pub uninterp spec fn chacha_from_seed(seed: u64) -> ChaCha8Rng;

/// The next word of the generator's stream.
pub uninterp spec fn chacha_next_word(r: ChaCha8Rng) -> u32;

/// The generator's state after one word is drawn.
pub uninterp spec fn chacha_next_state(r: ChaCha8Rng) -> ChaCha8Rng;

/// Relies on ChaCha8Rng's `SeedableRng::seed_from_u64`, which builds a
/// generator deterministically from a 64-bit seed.
#[verifier::external_body]
pub(crate) fn rng_from_seed(seed: u64) -> (r: ChaCha8Rng)
    ensures
        r == chacha_from_seed(seed),
{
    ChaCha8Rng::seed_from_u64(seed)
}

/// Relies on ChaCha8Rng's `Rng::next_u32`: the next word of the stream and
/// the state it leaves behind are functions of the generator state alone.
/// Nothing is known of the word's value.
#[verifier::external_body]
pub(crate) fn rng_next_u32(rng: &mut ChaCha8Rng) -> (r: u32)
    ensures
        r == chacha_next_word(*old(rng)),
        *final(rng) == chacha_next_state(*old(rng)),
{
    rng.next_u32()
}

} // verus!
