use vstd::prelude::*;

use rand::rngs::StdRng;
use rand::{Rng, SeedableRng};

verus! {

/// The simulation's seeded pseudo-random generator (`rand::rngs::StdRng`).
/// Its state is opaque here.
#[verifier::external_type_specification]
#[verifier::external_body]
pub struct ExStdRng(StdRng);

/// `rand::SeedableRng::seed_from_u64` for `StdRng`: a generator seeded
/// from `seed`. Nothing is promised of its state.
#[verifier::external_body]
pub(crate) fn seeded_rng(seed: u64) -> StdRng {
    StdRng::seed_from_u64(seed)
}

/// `rand::Rng::gen_ratio`: `true` with a chance of `numerator` in
/// `denominator`. The outcome is random; all that rand promises of every
/// outcome is that a zero numerator gives `false` and a numerator equal to
/// the denominator gives `true`. It panics on a zero denominator or a
/// numerator above the denominator, which `requires` leaves out.
#[verifier::external_body]
pub(crate) fn chance(rng: &mut StdRng, numerator: u32, denominator: u32) -> (r: bool)
    requires
        0 < denominator,
        numerator <= denominator,
    ensures
        numerator == 0 ==> !r,
        numerator == denominator ==> r,
{
    rng.gen_ratio(numerator, denominator)
}

/// `rand::Rng::gen_range` on the inclusive range `low..=high` of `u32`: a
/// random value within the range. It panics on an empty range, which
/// `requires` leaves out.
#[verifier::external_body]
pub(crate) fn uniform_u32(rng: &mut StdRng, low: u32, high: u32) -> (r: u32)
    requires
        low <= high,
    ensures
        low <= r <= high,
{
    rng.gen_range(low..=high)
}

} // verus!
