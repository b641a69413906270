//! Tie-break keys: the pseudo-random numbers that order candidates of equal
//! score.
//!
//! The generator is reseeded at every node of the search from the number of
//! rows placed there, so the keys depend on the depth of the node and on the
//! position of the candidate among the feasible ones, and on nothing else.

use vstd::prelude::*;
use rand::rngs::StdRng;
use rand::{Rng, SeedableRng};

verus! {

/// The seed used for a box with no row placed.
pub const FIRST_SEED: u64 = 124;

/// The smallest tie-break key.
pub const KEY_MIN: i32 = 0;

/// The largest tie-break key.
pub const KEY_MAX: i32 = 20;

/// The generator of `rand`, carried through as an opaque value.
#[verifier::external_type_specification]
#[verifier::external_body]
pub struct ExStdRng(StdRng);

/// The generator that `StdRng::seed_from_u64` returns for a seed.
pub uninterp spec fn seeded(seed: u64) -> StdRng;

/// What `Rng::gen_range(low..=high)` does on a generator: the number it
/// returns, and the generator as it leaves it.
pub uninterp spec fn drawn(generator: StdRng, low: int, high: int) -> (int, StdRng);

/// A generator for `seed`.
///
/// Trusted: this is `StdRng::seed_from_u64`, which expands the seed by a
/// fixed rule into the state of the generator. The state is a function of the
/// seed alone.
#[verifier::external_body]
pub(crate) fn seed_generator(seed: u64) -> (generator: StdRng)
    ensures
        generator == seeded(seed),
{
    StdRng::seed_from_u64(seed)
}

/// The next number between `low` and `high`, both included.
///
/// Trusted: this is `Rng::gen_range` on an inclusive range, which panics on
/// an empty range and otherwise returns a number of the range. The number and
/// the state in which the generator is left are functions of the state before
/// the call and of the two bounds alone.
#[verifier::external_body]
pub(crate) fn draw_key(generator: &mut StdRng, low: i32, high: i32) -> (key: i32)
    requires
        low <= high,
    ensures
        low <= key <= high,
        (key as int, *final(generator)) == drawn(*old(generator), low as int, high as int),
{
    generator.gen_range(low..=high)
}

/// The seed for a box with `placed` rows.
pub open spec fn row_seed(placed: nat) -> u64 {
    ((FIRST_SEED + placed) % 0x1_0000_0000_0000_0000) as u64
}

/// The generator seeded with `seed`, after `draws` keys were drawn from it.
pub open spec fn generator_after(seed: u64, draws: nat) -> StdRng
    decreases draws,
{
    if draws == 0 {
        seeded(seed)
    } else {
        drawn(generator_after(seed, (draws - 1) as nat), KEY_MIN as int, KEY_MAX as int).1
    }
}

/// The key of the `j`-th feasible candidate, counting from zero, at a node
/// whose generator was seeded with `seed`.
pub open spec fn tie_break_key(seed: u64, j: nat) -> int {
    drawn(generator_after(seed, j), KEY_MIN as int, KEY_MAX as int).0
}

/// The seed for a box with `placed` rows.
pub fn seed_for_row(placed: usize) -> (seed: u64)
    ensures
        seed == row_seed(placed as nat),
{
    FIRST_SEED.wrapping_add(placed as u64)
}

/// Draws the next tie-break key from a generator that has given `draws` keys
/// since it was seeded with `seed`.
pub(crate) fn next_key(
    generator: &mut StdRng,
    Ghost(seed): Ghost<u64>,
    Ghost(draws): Ghost<nat>,
) -> (key: i32)
    requires
        *old(generator) == generator_after(seed, draws),
    ensures
        *final(generator) == generator_after(seed, draws + 1),
        key == tie_break_key(seed, draws),
        KEY_MIN <= key <= KEY_MAX,
{
    draw_key(generator, KEY_MIN, KEY_MAX)
}

} // verus!
