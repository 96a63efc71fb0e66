//! The wall clock, in milliseconds.

use vstd::prelude::*;

verus! {

/// `SystemTime::elapsed` of std, on the Unix epoch: the milliseconds since then, or `None`
/// where the clock stands before it. Nothing is said of the number: it is the time.
#[verifier::external_body]
fn since_epoch() -> Option<u128> {
    std::time::SystemTime::UNIX_EPOCH.elapsed().ok().map(|d| d.as_millis())
}

/// The milliseconds that a reading of the clock comes to: 0 for a clock before the epoch.
pub fn millis_of(elapsed: Option<u128>) -> (r: u64)
    ensures
        r as nat == (match elapsed {
            Some(ms) => (ms as nat) % 0x1_0000_0000_0000_0000,
            None => 0,
        }),
{
    match elapsed {
        Some(ms) => (ms % 0x1_0000_0000_0000_0000) as u64,
        None => 0,
    }
}

/// Unix time in milliseconds.
pub fn now_millis() -> u64 {
    millis_of(since_epoch())
}

} // verus!
