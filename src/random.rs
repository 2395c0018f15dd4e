//! The seeded ChaCha8 generator that drives the maze, behind small wrappers.
use rand::seq::SliceRandom;
use rand::{Rng, SeedableRng};
use rand_chacha::ChaCha8Rng;
use vstd::prelude::*;

verus! {

#[verifier::external_type_specification]
#[verifier::external_body]
pub struct ExChaCha8Rng(ChaCha8Rng);

/// The state of a ChaCha8 generator as rand_chacha compares two of them: its
/// 32-byte key, its stream number and its position in the stream. What it
/// draws next is a function of this state alone.
pub type GenState = (Seq<u8>, u64, u128);

/// The state a generator is in.
pub uninterp spec fn generator_state(rng: ChaCha8Rng) -> GenState;

/// The state of a generator seeded from a 64-bit seed.
pub uninterp spec fn seeded_state(seed: u64) -> GenState;

/// The value drawn below a bound, and the state after it.
pub uninterp spec fn draw_below(state: GenState, bound: u64) -> (u64, GenState);

/// The reordered items of a shuffle, and the state after it.
pub uninterp spec fn shuffled(state: GenState, items: Seq<usize>) -> (Seq<usize>, GenState);

/// Relies on rand_chacha's `SeedableRng::seed_from_u64` for `ChaCha8Rng`:
/// builds a generator from a 64-bit seed, its state a function of the seed.
#[verifier::external_body]
pub(crate) fn seeded(seed: u64) -> (r: ChaCha8Rng)
    ensures
        generator_state(r) == seeded_state(seed),
{
    ChaCha8Rng::seed_from_u64(seed)
}

/// Relies on rand's `Rng::gen_range` over `0..bound` of `u64`: a value below
/// `bound`; it panics on an empty range, which `requires` leaves out. The
/// value and the state after it follow from the state before and the bound
/// (sampling in `u64` rather than `usize` keeps this so on every target).
#[verifier::external_body]
pub(crate) fn below(rng: &mut ChaCha8Rng, bound: u64) -> (r: u64)
    requires
        0 < bound,
    ensures
        r < bound,
        (r, generator_state(*final(rng))) == draw_below(generator_state(*old(rng)), bound),
{
    rng.gen_range(0..bound)
}

/// Relies on rand's `SliceRandom::shuffle`: reorders the items in place; the
/// order and the state after it follow from the state before and the items.
#[verifier::external_body]
pub(crate) fn shuffle(rng: &mut ChaCha8Rng, items: &mut Vec<usize>)
    ensures
        final(items)@.to_multiset() == old(items)@.to_multiset(),
        final(items)@.len() == old(items)@.len(),
        (final(items)@, generator_state(*final(rng))) == shuffled(generator_state(*old(rng)), old(items)@),
{
    items.shuffle(rng)
}

} // verus!
