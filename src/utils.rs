//! The clock.
use vstd::prelude::*;

verus! {

/// Relies on `SystemTime::now` and `duration_since(UNIX_EPOCH)`: whole
/// seconds since the epoch, or `None` for a clock set before it.
#[verifier::external_body]
fn seconds_since_epoch() -> (r: Option<u64>) {
    std::time::SystemTime::now().duration_since(std::time::SystemTime::UNIX_EPOCH).ok().map(|d| d.as_secs())
}

/// A clock reading in seconds since the epoch; a clock set before the
/// epoch reads as 0.
pub fn seconds_or_epoch(reading: Option<u64>) -> (r: u64)
    ensures
        r == match reading {
            Some(s) => s,
            None => 0,
        },
{
    match reading {
        Some(s) => s,
        None => 0,
    }
}

/// Seconds since the Unix epoch; a clock set before the epoch reads as 0.
pub fn get_unix_seconds() -> u64 {
    seconds_or_epoch(seconds_since_epoch())
}

} // verus!
