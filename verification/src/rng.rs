//! The seeded random number generator that breaks ties between optimal
//! segmentations.
use rand::rngs::StdRng;
use rand::Rng;
use rand::SeedableRng;
use vstd::prelude::*;

verus! {

/// `rand::rngs::StdRng`, carried through as an opaque value.
#[verifier::external_type_specification]
#[verifier::external_body]
pub struct ExStdRng(StdRng);

/// Calls `rand::SeedableRng::seed_from_u64` for `StdRng`.  Nothing is
/// claimed of the generator it returns: rand does not promise which stream a
/// seed gives across versions and platforms.
#[verifier::external_body]
pub(crate) fn seeded_rng(seed: u64) -> StdRng {
    StdRng::seed_from_u64(seed)
}

/// Calls `rand::Rng::gen_range` with the range `low..=high`.  The contract
/// claims only that the result lies in that range, which rand documents; it
/// panics on an empty range, so `low <= high` is required.
#[verifier::external_body]
pub(crate) fn gen_range_inclusive(rng: &mut StdRng, low: usize, high: usize) -> (r: usize)
    requires
        low <= high,
    ensures
        low <= r <= high,
{
    rng.gen_range(low..=high)
}

} // verus!
