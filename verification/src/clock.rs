//! The current time.

use vstd::prelude::*;

use crate::error::EnvError;

verus! {

/// Calls `SystemTime::now().duration_since(UNIX_EPOCH)` and takes whole
/// seconds. Trusted: nothing is stated of the value, which depends on the
/// clock; `None` when the clock reads a time before the epoch.
#[verifier::external_body]
fn seconds_since_epoch() -> (r: Option<u64>) {
    std::time::SystemTime::now().duration_since(std::time::UNIX_EPOCH).ok().map(|d| d.as_secs())
}

/// Seconds since the Unix epoch, as a signed number (wrapping as `as i64` does).
pub fn current_timestamp() -> (r: Result<i64, EnvError>)
    ensures
        r matches Err(e) ==> e == EnvError::ClockBeforeEpoch,
{
    match seconds_since_epoch() {
        Some(secs) => Ok(#[verifier::truncate] (secs as i64)),
        None => Err(EnvError::ClockBeforeEpoch),
    }
}

} // verus!
