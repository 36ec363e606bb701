//! Seeded random draws.
//!
//! A draw is determined by the seed and by how far into the generator's stream
//! it is made, so both are plain values here and a draw gives the position
//! behind it.

use rand::{Rng, SeedableRng};
use rand_chacha::{ChaCha12Rng, ChaCha8Rng};

use vstd::prelude::*;

verus! {

/// What [`Rng::random_ratio`] draws from a [`ChaCha12Rng`] with this seed at
/// this position, in 32-bit words, and the position behind the draw.
pub uninterp spec fn ratio12(seed: u64, pos: u128, numerator: u32, denominator: u32) -> (bool, u128);

/// What [`Rng::random_range`] draws between `lo` and `hi`, both included, from a
/// [`ChaCha12Rng`] with this seed at this position, and the position behind the
/// draw.
pub uninterp spec fn range12(seed: u64, pos: u128, lo: u64, hi: u64) -> (u64, u128);

/// What [`Rng::random_ratio`] draws from a [`ChaCha8Rng`] with this seed at this
/// position, and the position behind the draw.
pub uninterp spec fn ratio8(seed: u64, pos: u128, numerator: u32, denominator: u32) -> (bool, u128);

/// What [`Rng::random_range`] draws between `lo` and `hi`, both included, from a
/// [`ChaCha8Rng`] with this seed at this position, and the position behind the
/// draw.
pub uninterp spec fn range8(seed: u64, pos: u128, lo: u64, hi: u64) -> (u64, u128);

/// [`Rng::random_ratio`] on a [`ChaCha12Rng`] that is seeded by
/// [`SeedableRng::seed_from_u64`] and set to a word position. The draw and the
/// position behind it depend on nothing else. A ratio of 0 is never drawn and a
/// ratio of 1 always. A ratio above 1, or one without a denominator, would panic.
#[verifier::external_body]
fn draw_ratio12(seed: u64, pos: u128, numerator: u32, denominator: u32) -> (r: (bool, u128))
    requires
        0 < denominator,
        numerator <= denominator,
    ensures
        r == ratio12(seed, pos, numerator, denominator),
        numerator == 0 ==> !r.0,
        numerator == denominator ==> r.0,
{
    let mut rng = ChaCha12Rng::seed_from_u64(seed);
    rng.set_word_pos(pos);
    let drawn = rng.random_ratio(numerator, denominator);
    (drawn, rng.get_word_pos())
}

/// [`Rng::random_range`] over `lo..=hi` on a [`ChaCha12Rng`] that is seeded by
/// [`SeedableRng::seed_from_u64`] and set to a word position. The draw lies in
/// the range; it and the position behind it depend on nothing else. An empty
/// range would panic.
#[verifier::external_body]
fn draw_range12(seed: u64, pos: u128, lo: u64, hi: u64) -> (r: (u64, u128))
    requires
        lo <= hi,
    ensures
        r == range12(seed, pos, lo, hi),
        lo <= r.0 <= hi,
{
    let mut rng = ChaCha12Rng::seed_from_u64(seed);
    rng.set_word_pos(pos);
    let drawn = rng.random_range(lo..=hi);
    (drawn, rng.get_word_pos())
}

/// [`Rng::random_ratio`] on a [`ChaCha8Rng`] that is seeded by
/// [`SeedableRng::seed_from_u64`] and set to a word position. The draw and the
/// position behind it depend on nothing else. A ratio of 0 is never drawn and a
/// ratio of 1 always. A ratio above 1, or one without a denominator, would panic.
#[verifier::external_body]
fn draw_ratio8(seed: u64, pos: u128, numerator: u32, denominator: u32) -> (r: (bool, u128))
    requires
        0 < denominator,
        numerator <= denominator,
    ensures
        r == ratio8(seed, pos, numerator, denominator),
        numerator == 0 ==> !r.0,
        numerator == denominator ==> r.0,
{
    let mut rng = ChaCha8Rng::seed_from_u64(seed);
    rng.set_word_pos(pos);
    let drawn = rng.random_ratio(numerator, denominator);
    (drawn, rng.get_word_pos())
}

/// [`Rng::random_range`] over `lo..=hi` on a [`ChaCha8Rng`] that is seeded by
/// [`SeedableRng::seed_from_u64`] and set to a word position. The draw lies in
/// the range; it and the position behind it depend on nothing else. An empty
/// range would panic.
#[verifier::external_body]
fn draw_range8(seed: u64, pos: u128, lo: u64, hi: u64) -> (r: (u64, u128))
    requires
        lo <= hi,
    ensures
        r == range8(seed, pos, lo, hi),
        lo <= r.0 <= hi,
{
    let mut rng = ChaCha8Rng::seed_from_u64(seed);
    rng.set_word_pos(pos);
    let drawn = rng.random_range(lo..=hi);
    (drawn, rng.get_word_pos())
}

/// A seeded ChaCha generator with 12 rounds, which is what `rand::rngs::StdRng`
/// is made of.
#[derive(Debug, Clone, Copy)]
pub struct Dice12 {
    pub seed: u64,
    /// How many 32-bit words of the stream have been used.
    pub pos: u128,
}

impl Dice12 {
    pub fn new(seed: u64) -> (r: Self)
        ensures
            r == (Dice12 { seed, pos: 0 }),
    {
        Dice12 { seed, pos: 0 }
    }

    /// `true` with probability `numerator / denominator`.
    pub fn ratio(&mut self, numerator: u32, denominator: u32) -> (r: bool)
        requires
            0 < denominator,
            numerator <= denominator,
        ensures
            (r, final(self).pos) == ratio12(old(self).seed, old(self).pos, numerator, denominator),
            final(self).seed == old(self).seed,
            numerator == 0 ==> !r,
            numerator == denominator ==> r,
    {
        let (r, pos) = draw_ratio12(self.seed, self.pos, numerator, denominator);
        self.pos = pos;
        r
    }

    /// Any number from `lo` to `hi`, both included.
    pub fn range(&mut self, lo: u64, hi: u64) -> (r: u64)
        requires
            lo <= hi,
        ensures
            (r, final(self).pos) == range12(old(self).seed, old(self).pos, lo, hi),
            final(self).seed == old(self).seed,
            lo <= r <= hi,
    {
        let (r, pos) = draw_range12(self.seed, self.pos, lo, hi);
        self.pos = pos;
        r
    }
}

/// A seeded ChaCha generator with 8 rounds.
#[derive(Debug, Clone, Copy)]
pub struct Dice8 {
    pub seed: u64,
    /// How many 32-bit words of the stream have been used.
    pub pos: u128,
}

impl Dice8 {
    pub fn new(seed: u64) -> (r: Self)
        ensures
            r == (Dice8 { seed, pos: 0 }),
    {
        Dice8 { seed, pos: 0 }
    }

    /// `true` with probability `numerator / denominator`.
    pub fn ratio(&mut self, numerator: u32, denominator: u32) -> (r: bool)
        requires
            0 < denominator,
            numerator <= denominator,
        ensures
            (r, final(self).pos) == ratio8(old(self).seed, old(self).pos, numerator, denominator),
            final(self).seed == old(self).seed,
            numerator == 0 ==> !r,
            numerator == denominator ==> r,
    {
        let (r, pos) = draw_ratio8(self.seed, self.pos, numerator, denominator);
        self.pos = pos;
        r
    }

    /// Any number from `lo` to `hi`, both included.
    pub fn range(&mut self, lo: u64, hi: u64) -> (r: u64)
        requires
            lo <= hi,
        ensures
            (r, final(self).pos) == range8(old(self).seed, old(self).pos, lo, hi),
            final(self).seed == old(self).seed,
            lo <= r <= hi,
    {
        let (r, pos) = draw_range8(self.seed, self.pos, lo, hi);
        self.pos = pos;
        r
    }
}

} // verus!
