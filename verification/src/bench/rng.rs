//! The random numbers of the benchmark.
//!
//! The generator is the `XorShiftRng` of the `rand_xorshift` crate. What it
//! draws rests on its state alone, so a run with a seed can repeat.

use rand::{Rng, RngCore, SeedableRng};
use rand_xorshift::XorShiftRng;
use vstd::prelude::*;

verus! {

/// The random number generator of the `rand_xorshift` crate.
#[verifier::external_type_specification]
#[verifier::external_body]
pub struct ExXorShiftRng(rand_xorshift::XorShiftRng);

/// The four words that a generator holds.
pub uninterp spec fn rng_state(rng: XorShiftRng) -> Seq<u32>;

/// The state of a generator with the seed `seed`.
pub uninterp spec fn seeded_state(seed: u64) -> Seq<u32>;

/// The bytes that a generator fills into a slice of `len` bytes, and its
/// state after that.
pub uninterp spec fn fill_draw(state: Seq<u32>, len: nat) -> (Seq<u8>, Seq<u32>);

/// The number below `n` that a generator draws, and its state after that.
pub uninterp spec fn range_draw(state: Seq<u32>, n: usize) -> (usize, Seq<u32>);

/// The word that a generator draws, and its state after that.
pub uninterp spec fn word_draw(state: Seq<u32>) -> (u64, Seq<u32>);

/// `XorShiftRng::seed_from_u64`: the state rests on the seed alone.
#[verifier::external_body]
fn seed_from_u64(seed: u64) -> (rng: XorShiftRng)
    ensures
        rng_state(rng) == seeded_state(seed),
{
    XorShiftRng::seed_from_u64(seed)
}

/// `XorShiftRng::from_os_rng`: the seed comes from the operating system, so
/// nothing is known of the state. It panics when the operating system has no
/// random numbers.
#[verifier::external_body]
pub(crate) fn from_os_rng() -> (rng: XorShiftRng) {
    XorShiftRng::from_os_rng()
}

/// `RngCore::fill_bytes` on a new slice of `len` bytes: it fills the whole
/// slice, and the bytes and the next state rest on the state and the length
/// alone. No slice is longer than `isize::MAX` bytes.
#[verifier::external_body]
pub(crate) fn fill_bytes(rng: &mut XorShiftRng, len: usize) -> (bytes: Vec<u8>)
    requires
        len <= isize::MAX,
    ensures
        bytes@.len() == len,
        (bytes@, rng_state(*final(rng))) == fill_draw(rng_state(*old(rng)), len as nat),
{
    let mut bytes = vec![0u8; len];
    rng.fill_bytes(bytes.as_mut_slice());
    bytes
}

/// `Rng::random_range` on `0..n`: it panics on an empty range. The number is
/// below `n`, and the number and the next state rest on the state and `n`
/// alone.
#[verifier::external_body]
pub(crate) fn random_below(rng: &mut XorShiftRng, n: usize) -> (drawn: usize)
    requires
        n > 0,
    ensures
        drawn < n,
        (drawn, rng_state(*final(rng))) == range_draw(rng_state(*old(rng)), n),
{
    rng.random_range(0..n)
}

/// `RngCore::next_u64`: the word and the next state rest on the state alone.
#[verifier::external_body]
pub(crate) fn next_word(rng: &mut XorShiftRng) -> (word: u64)
    ensures
        (word, rng_state(*final(rng))) == word_draw(rng_state(*old(rng))),
{
    rng.next_u64()
}

/// A generator with the seed, or with one of the operating system.
pub fn rng_from(seed: Option<u64>) -> (rng: XorShiftRng)
    ensures
        seed matches Some(seed) ==> rng_state(rng) == seeded_state(seed),
{
    match seed {
        Some(seed) => seed_from_u64(seed),
        None => from_os_rng(),
    }
}

} // verus!
