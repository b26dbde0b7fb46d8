use vstd::prelude::*;
use rand::rngs::StdRng;
use rand::{RngExt, SeedableRng};

verus! {

/// The seeded random number generator of `rand`.
#[verifier::external_type_specification]
#[verifier::external_body]
pub struct ExStdRng(StdRng);

/// A generator seeded with `seed` by `rand`'s `SeedableRng::seed_from_u64`. Nothing is stated of
/// the numbers it will give.
#[verifier::external_body]
pub(crate) fn seeded_rng(seed: u64) -> StdRng {
    StdRng::seed_from_u64(seed)
}

/// A number drawn by `rand`'s `RngExt::random_range` from `lo..=hi`: states only that it lies in
/// that range, which the crate's documentation promises.
#[verifier::external_body]
pub(crate) fn random_i64_in(rng: &mut StdRng, lo: i64, hi: i64) -> (r: i64)
    requires
        lo <= hi,
    ensures
        lo <= r <= hi,
{
    rng.random_range(lo..=hi)
}

/// An index drawn by `rand`'s `RngExt::random_range` from `0..n`: states only that it lies in
/// that range.
#[verifier::external_body]
pub(crate) fn random_index(rng: &mut StdRng, n: usize) -> (r: usize)
    requires
        n > 0,
    ensures
        r < n,
{
    rng.random_range(0..n)
}

/// A coin toss by `rand`'s `RngExt::random_ratio`, true with chance `numerator / denominator`:
/// states only what the documentation promises of the edge cases (always true when the two are
/// equal, always false when `numerator` is 0).
#[verifier::external_body]
pub(crate) fn random_ratio(rng: &mut StdRng, numerator: u32, denominator: u32) -> (r: bool)
    requires
        0 < denominator,
        numerator <= denominator,
    ensures
        numerator == denominator ==> r,
        numerator == 0 ==> !r,
{
    rng.random_ratio(numerator, denominator)
}

} // verus!
