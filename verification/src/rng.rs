//! Trusted boundary to the `rand` crate. Every draw of randomness the engine
//! makes goes through the wrappers here; each states only what holds of any
//! outcome, never which outcome comes.

use rand::rngs::SmallRng;
use rand::seq::IteratorRandom;
use rand::Rng;
use rand::SeedableRng;
use vstd::prelude::*;

verus! {

#[verifier::external_type_specification]
#[verifier::external_body]
pub struct ExSmallRng(SmallRng);

/// Relies on rand's `SeedableRng::seed_from_u64`: a small, fast generator
/// built from one word of seed material.
#[verifier::external_body]
pub(crate) fn rng_from_seed(seed: u64) -> SmallRng {
    SmallRng::seed_from_u64(seed)
}

/// Relies on rand's `SeedableRng::from_entropy`: a generator seeded by the
/// operating system.
#[verifier::external_body]
pub(crate) fn fresh_rng() -> SmallRng {
    SmallRng::from_entropy()
}

/// Relies on rand's `Rng::gen_range` over `lo..hi`: a value in the half-open
/// range. The call panics on an empty range, so one is required non-empty.
#[verifier::external_body]
pub(crate) fn gen_range_u32(rng: &mut SmallRng, lo: u32, hi: u32) -> (r: u32)
    requires
        lo < hi,
    ensures
        lo <= r < hi,
{
    rng.gen_range(lo..hi)
}

/// Relies on rand's `Rng::gen_range` over `lo..hi`, for indices.
#[verifier::external_body]
pub(crate) fn gen_range_usize(rng: &mut SmallRng, lo: usize, hi: usize) -> (r: usize)
    requires
        lo < hi,
    ensures
        lo <= r < hi,
{
    rng.gen_range(lo..hi)
}

/// Relies on rand's `IteratorRandom::choose_multiple` over `0..n`: a sample,
/// without replacement, of `amount` positions (all of them when the range is
/// shorter than `amount`), each below `n`.
#[verifier::external_body]
pub(crate) fn sample_indices(rng: &mut SmallRng, n: usize, amount: usize) -> (r: Vec<usize>)
    ensures
        r@.len() == if n < amount {
            n as int
        } else {
            amount as int
        },
        forall|m: int| 0 <= m < r@.len() ==> #[trigger] r@[m] < n,
        r@.no_duplicates(),
{
    (0..n).choose_multiple(rng, amount)
}

} // verus!
