//! Random numbers for the sampling of the ray tracer.
use vstd::prelude::*;
use rand::Rng;

verus! {

/// Draws an integer uniformly from `low ..= high` with the thread-local
/// generator of `rand` (`rand::thread_rng` and `Rng::gen_range`).
/// Claimed: the value lies in `low ..= high`; `gen_range` panics on an empty
/// range, which `requires` leaves out. Which value comes out is left unsaid:
/// it rests on chance.
#[verifier::external_body]
fn random_u8_inclusive(low: u8, high: u8) -> (value: u8)
    requires
        low <= high,
    ensures
        low <= value <= high,
{
    rand::thread_rng().gen_range(low..=high)
}

/// A random value between 0 and 2 (both included).
pub fn random3() -> (value: u8)
    ensures
        value <= 2,
{
    random_u8_inclusive(0, 2)
}

} // verus!
