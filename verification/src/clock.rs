//! The wall clock that stamps trades.

use vstd::prelude::*;
use std::time::{Duration, SystemTime, SystemTimeError, UNIX_EPOCH};

verus! {

/// `std::time::SystemTime`, carried through unopened.
#[verifier::external_type_specification]
#[verifier::external_body]
pub struct ExSystemTime(SystemTime);

/// `std::time::SystemTimeError`, carried through unopened.
#[verifier::external_type_specification]
#[verifier::external_body]
pub struct ExSystemTimeError(SystemTimeError);

/// Calls `std::time::SystemTime::now`. The result depends on the machine's
/// clock, so nothing is claimed about it.
#[verifier::external_body]
fn system_now() -> SystemTime {
    SystemTime::now()
}

/// Calls `std::time::SystemTime::duration_since` with `UNIX_EPOCH`. Nothing is
/// claimed about the result (its value depends on a clock reading).
#[verifier::external_body]
fn since_unix_epoch(t: &SystemTime) -> Result<Duration, SystemTimeError> {
    t.duration_since(UNIX_EPOCH)
}

/// The whole seconds in a `Duration`, as `std::time::Duration::as_secs`
/// returns them; a function of the duration alone.
pub uninterp spec fn duration_secs(d: Duration) -> u64;

/// Calls `std::time::Duration::as_secs`, whose result is named
/// `duration_secs` of the duration.
#[verifier::external_body]
fn whole_seconds(d: &Duration) -> (s: u64)
    ensures
        s == duration_secs(*d),
{
    d.as_secs()
}

/// What the wall clock reads, as the time elapsed since the Unix epoch, or
/// the error of a reading before the epoch.
pub(crate) fn elapsed_since_epoch() -> Result<Duration, SystemTimeError> {
    let now = system_now();
    since_unix_epoch(&now)
}

/// A trade's timestamp from a clock reading: the whole seconds elapsed since
/// the Unix epoch, or 0 when the clock read a time before the epoch.
pub fn trade_timestamp(elapsed: Result<Duration, SystemTimeError>) -> (s: u64)
    ensures
        elapsed matches Ok(d) ==> s == duration_secs(d),
        elapsed is Err ==> s == 0,
{
    match elapsed {
        Ok(d) => whole_seconds(&d),
        Err(_) => 0,
    }
}

} // verus!
