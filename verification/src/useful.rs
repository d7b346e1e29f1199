//! Host-clock access: the Unix timestamp used to stamp each record with the
//! instant it was first ingested.

use vstd::prelude::*;

verus! {

/// Why the host clock could not give a Unix timestamp: it reads a time
/// before the Unix epoch, which is a host misconfiguration, not bad data.
#[derive(Clone, Copy, Debug, PartialEq, Eq, Structural)]
pub enum ClockError {
    BeforeEpoch,
}

/// Relies on `std::time::SystemTime::now` and `duration_since` with
/// `UNIX_EPOCH`: the whole seconds since the Unix epoch, or `None` when
/// the clock reads earlier than the epoch. The result depends on the host
/// clock, so nothing is promised of it.
#[verifier::external_body]
fn read_clock_seconds() -> (r: Option<u64>) {
    std::time::SystemTime::now()
        .duration_since(std::time::UNIX_EPOCH)
        .ok()
        .map(|d| d.as_secs())
}

/// The current Unix timestamp in whole seconds, or `ClockError` when the
/// system clock reads a time before the Unix epoch. The value depends on
/// the host clock; only the error taxonomy is fixed.
pub fn try_unix_timestamp() -> (r: Result<u64, ClockError>)
    ensures
        r is Err ==> r->Err_0 == ClockError::BeforeEpoch,
{
    match read_clock_seconds() {
        Some(secs) => Ok(secs),
        None => Err(ClockError::BeforeEpoch),
    }
}

} // verus!
