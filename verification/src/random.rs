use vstd::bytes::{spec_u64_to_le_bytes, u64_to_le_bytes};
use vstd::prelude::*;

use crate::consts::SEED_SIZE;

verus! {

/// Calls `rand::Rng::gen` on `rand::thread_rng()` for a word.
///
/// Trusted: nothing is claimed of the word.
#[verifier::external_body]
fn random_word() -> u64 {
    rand::Rng::gen(&mut rand::thread_rng())
}

/// A random bit: the lowest of a random word.
pub(crate) fn random_bool() -> bool {
    word_bool(random_word())
}

/// A random byte that is zero or one: the lowest bit of a random word.
pub(crate) fn random_bit() -> (r: u8)
    ensures
        r < 2,
{
    word_bit(random_word())
}

/// A random number below `bound`: what a random word leaves over.
pub(crate) fn random_below(bound: u16) -> (r: u16)
    requires
        bound > 0,
    ensures
        r < bound,
{
    word_below(random_word(), bound)
}

/// The bytes of a random seed: those of two random words.
pub(crate) fn random_bytes() -> (r: [u8; SEED_SIZE])
    ensures
        r@.len() == SEED_SIZE,
{
    word_bytes(random_word(), random_word())
}

/// Whether the lowest bit of `word` is set.
pub fn word_bool(word: u64) -> (r: bool)
    ensures
        r == (word % 2 == 1),
{
    word % 2 == 1
}

/// The lowest bit of `word`.
pub fn word_bit(word: u64) -> (r: u8)
    ensures
        r == word % 2,
{
    (word % 2) as u8
}

/// What division of `word` by `bound` leaves over.
pub fn word_below(word: u64, bound: u16) -> (r: u16)
    requires
        bound > 0,
    ensures
        r == word as int % bound as int,
{
    (word % (bound as u64)) as u16
}

/// The bytes of `low` and then those of `high`, each least significant first.
pub fn word_bytes(low: u64, high: u64) -> (r: [u8; SEED_SIZE])
    ensures
        r@ == spec_u64_to_le_bytes(low) + spec_u64_to_le_bytes(high),
{
    let low_bytes = u64_to_le_bytes(low);
    let high_bytes = u64_to_le_bytes(high);
    let mut r = [0u8; SEED_SIZE];
    for i in 0..8usize
        invariant
            low_bytes@.len() == 8,
            high_bytes@.len() == 8,
            forall|j: int| 0 <= j < i ==> r@[j] == low_bytes@[j],
            forall|j: int| 0 <= j < i ==> r@[j + 8] == high_bytes@[j],
    {
        r[i] = low_bytes[i];
        r[i + 8] = high_bytes[i];
    }
    assert(r@ =~= low_bytes@ + high_bytes@) by {
        assert forall|j: int| 8 <= j < 16 implies r@[j] == high_bytes@[j - 8] by {
            assert(r@[(j - 8) + 8] == high_bytes@[j - 8]);
        }
    }
    r
}

} // verus!
