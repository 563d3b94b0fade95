//! Randomness for the election timer and the simulated-crash hook.
//!
//! The one call into the random number generator is trusted; everything that
//! uses a drawn value is verified for every value the contract admits.

use vstd::prelude::*;

verus! {

/// Relies on rand::Rng::gen_range over rand::rngs::ThreadRng: a uniform
/// draw from the inclusive range, which always lies inside it. Nothing more
/// is assumed of the draw; callers must hold for every value in range.
#[verifier::external_body]
pub fn random_in_range(lo: u64, hi: u64) -> (r: u64)
    requires
        lo <= hi,
    ensures
        lo <= r <= hi,
{
    rand::Rng::gen_range(&mut rand::thread_rng(), lo..=hi)
}

/// A fresh election timeout: uniformly random in `[min_ms, max_ms]`, so that
/// peers waking from symmetric failures rarely collide.
pub fn election_timeout_ms(min_ms: u64, max_ms: u64) -> (r: u64)
    requires
        min_ms <= max_ms,
    ensures
        min_ms <= r <= max_ms,
{
    random_in_range(min_ms, max_ms)
}

/// One in `CRASH_DENOMINATOR` commit-advancement attempts deliberately
/// crashes when the test hook is enabled.
pub const CRASH_DENOMINATOR: u64 = 10000;

/// Draws the simulated-crash lot: true with probability
/// `1 / CRASH_DENOMINATOR` per call.
pub fn crash_lot() -> (r: bool) {
    let draw = random_in_range(0, CRASH_DENOMINATOR - 1);
    draw == 0
}

} // verus!
