//! The random generator behind token sampling.

use chacha20::rand_core::{Rng, SeedableRng};
use chacha20::ChaCha12Rng;
use vstd::prelude::*;

verus! {

/// The ChaCha generator with twelve rounds of the `chacha20` crate.
#[verifier::external_type_specification]
#[verifier::external_body]
pub struct ExChaCha12Rng(ChaCha12Rng);

/// The state of a generator as `ChaCha12Rng::serialize_state` writes it: seed, stream and position
/// in the stream. What a generator returns next depends on nothing else.
pub uninterp spec fn rng_state(rng: ChaCha12Rng) -> Seq<u8>;

/// The state that `SeedableRng::seed_from_u64` starts a `ChaCha12Rng` in.
pub uninterp spec fn chacha12_seeded(seed: u64) -> Seq<u8>;

/// What `Rng::next_u64` of a `ChaCha12Rng` returns in a state, and the state it leaves.
pub uninterp spec fn chacha12_next(state: Seq<u8>) -> (u64, Seq<u8>);

/// Calls `ChaCha12Rng::seed_from_u64`, which expands the number into a full seed by a fixed rule.
#[verifier::external_body]
pub(crate) fn seeded_rng(seed: u64) -> (rng: ChaCha12Rng)
    ensures
        rng_state(rng) == chacha12_seeded(seed),
{
    ChaCha12Rng::seed_from_u64(seed)
}

/// Calls `rand::make_rng`, which seeds a generator from the system's entropy. Nothing is claimed
/// of the state it starts in.
#[verifier::external_body]
pub(crate) fn entropy_rng() -> ChaCha12Rng {
    rand::make_rng::<ChaCha12Rng>()
}

/// Calls `ChaCha12Rng::next_u64`: the word, and the state afterwards, are functions of the state
/// before.
#[verifier::external_body]
pub(crate) fn next_word(rng: &mut ChaCha12Rng) -> (word: u64)
    ensures
        (word, rng_state(*final(rng))) == chacha12_next(rng_state(*old(rng))),
{
    rng.next_u64()
}

/// Calls `ChaCha12Rng::deserialize_state` on what `ChaCha12Rng::serialize_state` returned: a second
/// generator in the same state.
#[verifier::external_body]
pub(crate) fn copy_rng(rng: &ChaCha12Rng) -> (copy: ChaCha12Rng)
    ensures
        rng_state(copy) == rng_state(*rng),
{
    ChaCha12Rng::deserialize_state(&rng.serialize_state())
}

/// The numerator, over 2^53, of the next uniform number in [0, 1).
pub open spec fn uniform_numerator(state: Seq<u8>) -> u64 {
    chacha12_next(state).0 / 2048
}

/// The state after one uniform number was drawn.
pub open spec fn after_draw(state: Seq<u8>) -> Seq<u8> {
    chacha12_next(state).1
}

/// Draw the numerator of the next uniform number: the upper 53 bits of a word.
pub(crate) fn draw_numerator(rng: &mut ChaCha12Rng) -> (numerator: u64)
    ensures
        numerator == uniform_numerator(rng_state(*old(rng))),
        numerator < 0x20_0000_0000_0000,
        rng_state(*final(rng)) == after_draw(rng_state(*old(rng))),
{
    let word: u64 = next_word(rng);
    word / 2048
}

} // verus!
