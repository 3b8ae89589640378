//! The injectable source of randomness: priorities and jitters are drawn
//! here and handed to the engine as plain numbers, so every decision that
//! consumes them is verified for every value they can take.

use rand::Rng;
use vstd::prelude::*;

verus! {

/// Relies on rand::Rng::gen_range over rand::thread_rng: returns a value
/// uniformly drawn from the half-open range, which is all that is promised
/// of it; panics only on an empty range, which the precondition excludes.
#[verifier::external_body]
pub fn draw_in_range(lo: u32, hi: u32) -> (r: u32)
    requires
        lo < hi,
    ensures
        lo <= r < hi,
{
    rand::thread_rng().gen_range(lo..hi)
}

/// The randomized election priority: drawn from the protocol's fixed range.
pub fn draw_priority() -> (r: u32)
    ensures
        10 <= r < 30,
{
    draw_in_range(10, 30)
}

/// The small random delay that desynchronizes near-simultaneous election
/// initiations, in milliseconds.
pub fn draw_jitter_millis() -> (r: u32)
    ensures
        10 <= r < 30,
{
    draw_in_range(10, 30)
}

} // verus!
