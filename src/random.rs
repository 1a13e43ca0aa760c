//! Random draws, from the `rand` crate.

use vstd::prelude::*;
use rand::rngs::SmallRng;
use rand::{Rng, SeedableRng};

verus! {

#[verifier::external_type_specification]
#[verifier::external_body]
pub struct ExSmallRng(SmallRng);

/// Relies on rand_core's `SeedableRng::seed_from_u64` for `SmallRng`: it
/// builds a generator from the seed and does not fail. Nothing is promised of
/// the numbers it yields.
#[verifier::external_body]
pub(crate) fn seeded_rng(seed: u64) -> SmallRng {
    SmallRng::seed_from_u64(seed)
}

/// Relies on rand's `Rng::gen_range` over the inclusive range `lo..=hi`: the
/// value lies in the range (it panics only on an empty range, which
/// `requires` leaves out).
#[verifier::external_body]
pub(crate) fn draw_in(rng: &mut SmallRng, lo: u32, hi: u32) -> (v: u32)
    requires
        lo <= hi,
    ensures
        lo <= v <= hi,
{
    rng.gen_range(lo..=hi)
}

} // verus!
