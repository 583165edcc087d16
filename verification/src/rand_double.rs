//! The random source: a ChaCha generator with twenty rounds, asked for one
//! word at a time.

use vstd::prelude::*;
use rand_chacha::rand_core::RngCore;
use rand_chacha::ChaCha20Rng;

verus! {

/// `rand_chacha::ChaCha20Rng`: the state of the generator. It is carried to
/// where a random number is drawn and never looked into.
#[verifier::external_type_specification]
#[verifier::external_body]
pub struct ExChaCha20Rng(rand_chacha::ChaCha20Rng);

/// `RngCore::next_u64` of `ChaCha20Rng`: the next 64 bits of the stream.
/// They depend on the generator's seed and on how much of the stream was
/// read before, so the contract says nothing of them.
#[verifier::external_body]
pub(crate) fn next_word(rng: &mut ChaCha20Rng) -> (word: u64) {
    rng.next_u64()
}

/// The axis that a random word selects: its remainder by three.
pub fn axis_of(word: u64) -> (axis: i8)
    ensures
        axis == word % 3,
{
    (word % 3) as i8
}

/// An axis drawn from `rng`: 0, 1 or 2.
pub fn random_axis(rng: &mut ChaCha20Rng) -> (axis: i8)
    ensures
        0 <= axis < 3,
{
    let word = next_word(rng);
    axis_of(word)
}

} // verus!
