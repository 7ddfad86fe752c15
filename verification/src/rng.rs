use vstd::prelude::*;
use rand::rngs::SmallRng;
use rand::{RngExt, SeedableRng};

verus! {

/// rand's small, fast generator; its state is opaque here.
#[verifier::external_type_specification]
#[verifier::external_body]
pub struct ExSmallRng(SmallRng);

/// A generator seeded from `seed` (rand `SmallRng::seed_from_u64`). Nothing is
/// stated of its state.
#[verifier::external_body]
pub(crate) fn seeded_rng(seed: u64) -> SmallRng {
    SmallRng::seed_from_u64(seed)
}

/// A number drawn from `lo..hi` (rand `RngExt::random_range` on an `i32` range).
/// Only that it lies in the range is stated: which number comes depends on the
/// generator's state.
#[verifier::external_body]
pub(crate) fn random_i32_in(rng: &mut SmallRng, lo: i32, hi: i32) -> (v: i32)
    requires
        lo < hi,
    ensures
        lo <= v < hi,
{
    rng.random_range(lo..hi)
}

} // verus!
