//! The seeded generator that every random choice is drawn from.
//!
//! A generator is deterministic: what it yields, and the state it is left in, depend on
//! nothing but the state it was in and the arguments of the draw. The functions without a
//! body below name those results; nothing is said of their values beyond their ranges.

use rand::rngs::StdRng;
use rand::Rng;
use rand::SeedableRng;
use vstd::prelude::*;

verus! {

/// `rand::rngs::StdRng`, carried as a value that nothing here looks into.
#[verifier::external_type_specification]
#[verifier::external_body]
pub struct ExStdRng(rand::rngs::StdRng);

/// What a generator holds: its internal state, as a sequence of words.
pub uninterp spec fn state_of(rng: StdRng) -> Seq<u32>;

/// The state that `StdRng::seed_from_u64` builds from a seed.
pub uninterp spec fn seeded_state(seed: u64) -> Seq<u32>;

/// The 64-bit word that a generator in the given state yields next, and the state it is
/// left in.
pub uninterp spec fn word_drawn(state: Seq<u32>) -> (u64, Seq<u32>);

/// The value below `bound` that a generator in the given state yields, and the state it is
/// left in.
pub uninterp spec fn below_drawn(state: Seq<u32>, bound: u64) -> (u64, Seq<u32>);

/// The value in `-reach..=reach` that a generator in the given state yields, and the state
/// it is left in.
pub uninterp spec fn spread_drawn(state: Seq<u32>, reach: i16) -> (i16, Seq<u32>);

/// The three bytes that a generator in the given state yields next, and the state it is
/// left in.
pub uninterp spec fn bytes_drawn(state: Seq<u32>) -> ((u8, u8, u8), Seq<u32>);

/// One more than the largest draw from the unit interval: such a draw counts units of
/// `2^-53`.
pub const UNIT: u64 = 0x20_0000_0000_0000;

/// One half, in units of `2^-53`.
pub const HALF: u64 = 0x10_0000_0000_0000;

/// The draw from the unit interval that a word stands for: its top 53 bits.
pub open spec fn unit_of(word: u64) -> u64 {
    word >> 11
}

/// The draw from the unit interval that a generator in the given state yields next, and the
/// state it is left in.
pub open spec fn unit_drawn(state: Seq<u32>) -> (u64, Seq<u32>) {
    (unit_of(word_drawn(state).0), word_drawn(state).1)
}

/// `StdRng::seed_from_u64`: the generator's state is a function of the seed alone.
#[verifier::external_body]
pub(crate) fn seeded(seed: u64) -> (rng: StdRng)
    ensures
        state_of(rng) == seeded_state(seed),
{
    StdRng::seed_from_u64(seed)
}

/// `Rng::gen` for `u64`: the next word and the new state are functions of the old state
/// alone.
#[verifier::external_body]
pub(crate) fn draw_word(rng: &mut StdRng) -> (word: u64)
    ensures
        (word, state_of(*final(rng))) == word_drawn(state_of(*old(rng))),
{
    rng.gen::<u64>()
}

/// `Rng::gen_range` on `0..bound`, which panics on an empty range: the value is below
/// `bound`, and it and the new state are functions of the old state and `bound` alone.
#[verifier::external_body]
pub(crate) fn draw_below(rng: &mut StdRng, bound: u64) -> (value: u64)
    requires
        bound > 0,
    ensures
        value < bound,
        (value, state_of(*final(rng))) == below_drawn(state_of(*old(rng)), bound),
{
    rng.gen_range(0..bound)
}

/// `Rng::gen_range` on `-reach..=reach`, which panics on an empty range: the value is in
/// that range, and it and the new state are functions of the old state and `reach` alone.
#[verifier::external_body]
pub(crate) fn draw_spread(rng: &mut StdRng, reach: i16) -> (offset: i16)
    requires
        0 <= reach,
    ensures
        -reach <= offset <= reach,
        (offset, state_of(*final(rng))) == spread_drawn(state_of(*old(rng)), reach),
{
    rng.gen_range(-reach..=reach)
}

/// `Rng::gen` for `[u8; 3]`: the three bytes, in the order drawn, and the new state are
/// functions of the old state alone.
#[verifier::external_body]
pub(crate) fn draw_bytes(rng: &mut StdRng) -> (bytes: (u8, u8, u8))
    ensures
        (bytes, state_of(*final(rng))) == bytes_drawn(state_of(*old(rng))),
{
    let [r, g, b]: [u8; 3] = rng.gen();
    (r, g, b)
}

/// Draws from the unit interval, in units of `2^-53`.
pub fn draw_unit(rng: &mut StdRng) -> (unit: u64)
    ensures
        (unit, state_of(*final(rng))) == unit_drawn(state_of(*old(rng))),
        unit < UNIT,
{
    let word = draw_word(rng);
    assert(word >> 11 < 0x20_0000_0000_0000u64) by (bit_vector);
    word >> 11
}

/// A generator seeded with `seed`.
pub fn from_seed(seed: u64) -> (rng: StdRng)
    ensures
        state_of(rng) == seeded_state(seed),
{
    seeded(seed)
}

} // verus!
