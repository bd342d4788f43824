//! Random numbers, behind trusted wrappers.
//!
//! The engine draws from a seedable generator so that playout-based tests are
//! reproducible; production callers seed from entropy.  Nothing is assumed
//! about the values drawn beyond their range: every caller decides correctly
//! whatever number comes back.

use vstd::prelude::*;
use rand::Rng;
use rand::SeedableRng;

verus! {

#[verifier::external_type_specification]
#[verifier::external_body]
pub struct ExStdRng(rand::rngs::StdRng);

/// Relies on `rand::rngs::StdRng::seed_from_u64` (via `SeedableRng`): builds a
/// generator from a 64-bit seed.  Nothing is promised of the stream.
#[verifier::external_body]
pub fn seed_rng(seed: u64) -> (rng: rand::rngs::StdRng) {
    rand::rngs::StdRng::seed_from_u64(seed)
}

/// Relies on `rand::Rng::gen_range` over `0..n`: a uniform draw below `n`.
/// Only the range is promised.
#[verifier::external_body]
pub fn rand_below(rng: &mut rand::rngs::StdRng, n: usize) -> (r: usize)
    requires
        n > 0,
    ensures
        r < n,
{
    rng.gen_range(0..n)
}

/// Relies on `rand::Rng::gen_range` over `0..n` for `u64`: a uniform draw
/// below `n`.  Only the range is promised.
#[verifier::external_body]
pub fn rand_below_u64(rng: &mut rand::rngs::StdRng, n: u64) -> (r: u64)
    requires
        n > 0,
    ensures
        r < n,
{
    rng.gen_range(0..n)
}

/// Relies on `rand::Rng::gen_ratio`: a coin that is true with probability
/// `num / den`.  Nothing is promised of the outcome.
#[verifier::external_body]
pub fn rand_ratio(rng: &mut rand::rngs::StdRng, num: u32, den: u32) -> (r: bool)
    requires
        den > 0,
        num <= den,
{
    rng.gen_ratio(num, den)
}

} // verus!
