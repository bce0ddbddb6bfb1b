//! Random draws for seeding a board, made through `rand`.
use rand::{Rng, SeedableRng};
use vstd::prelude::*;

verus! {

/// The outcome of a fresh `StdRng` seeded with `seed` drawing a boolean that
/// is true with probability `numerator / denominator`.
pub uninterp spec fn seeded_chance(seed: u64, numerator: u32, denominator: u32) -> bool;

/// Relies on `rand::rngs::StdRng::seed_from_u64` and `rand::Rng::gen_ratio`:
/// the draw depends on the seed and the ratio alone; a ratio of zero never
/// gives `true` and a ratio of one always does. `gen_ratio` panics when the
/// denominator is zero or below the numerator.
#[verifier::external_body]
pub(crate) fn draw_seeded(seed: u64, numerator: u32, denominator: u32) -> (r: bool)
    requires
        0 < denominator,
        numerator <= denominator,
    ensures
        r == seeded_chance(seed, numerator, denominator),
        numerator == 0 ==> !r,
        numerator == denominator ==> r,
{
    rand::rngs::StdRng::seed_from_u64(seed).gen_ratio(numerator, denominator)
}

/// Relies on `rand::rngs::StdRng::from_entropy` and `rand::Rng::gen_ratio`:
/// the draw comes from a generator seeded by the operating system; a ratio
/// of zero never gives `true` and a ratio of one always does.
#[verifier::external_body]
pub(crate) fn draw_from_entropy(numerator: u32, denominator: u32) -> (r: bool)
    requires
        0 < denominator,
        numerator <= denominator,
    ensures
        numerator == 0 ==> !r,
        numerator == denominator ==> r,
{
    rand::rngs::StdRng::from_entropy().gen_ratio(numerator, denominator)
}

/// The seed of the generator for the cell in row `row`, column `col`:
/// `seed * row + col`, wrapping at 64 bits. Distinct cells may share a seed.
pub open spec fn cell_seed(seed: u64, row: nat, col: nat) -> u64 {
    vstd::wrapping::u64_specs::wrapping_add(
        vstd::wrapping::u64_specs::wrapping_mul(seed, row as u64),
        col as u64,
    )
}

} // verus!
