//! Chance and time: the random number generator of the `rand` crate and the clock of the
//! standard library.
//!
//! Nothing in this file is proved: each function states what the function it calls
//! promises of every outcome.

use rand::rngs::StdRng;
use std::time::{Duration, Instant};
use vstd::prelude::*;

verus! {

/// The random number generator `rand::rngs::StdRng`; nothing is known of its state.
#[verifier::external_type_specification]
#[verifier::external_body]
pub struct ExStdRng(rand::rngs::StdRng);

/// A moment of the clock, `std::time::Instant`; nothing is known of it.
#[verifier::external_type_specification]
#[verifier::external_body]
pub struct ExInstant(std::time::Instant);

/// `SeedableRng::seed_from_u64` for `StdRng`: a generator whose stream the seed fixes.
#[verifier::external_body]
pub(crate) fn seeded_rng(seed: u64) -> (rng: StdRng) {
    rand::SeedableRng::seed_from_u64(seed)
}

/// `Rng::gen_range(0, bound)`: a number at least 0 and below `bound`. The method panics
/// where the range is empty, so `bound` must be positive.
#[verifier::external_body]
pub(crate) fn random_below(rng: &mut StdRng, bound: usize) -> (pick: usize)
    requires
        bound > 0,
    ensures
        pick < bound,
{
    rand::Rng::gen_range(rng, 0, bound)
}

/// `Instant::now`: the present moment.
#[verifier::external_body]
pub(crate) fn now() -> (moment: Instant) {
    Instant::now()
}

/// `Instant::elapsed`: the time that has passed since `start`.
#[verifier::external_body]
pub(crate) fn elapsed(start: &Instant) -> (passed: Duration) {
    start.elapsed()
}

/// `Duration::as_secs`: the whole seconds of a duration.
#[verifier::external_body]
pub(crate) fn whole_secs(passed: &Duration) -> (secs: u64) {
    passed.as_secs()
}

} // verus!
