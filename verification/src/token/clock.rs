//! The wall clock, read through `chrono`.

use vstd::prelude::*;

verus! {

/// No time that the clock can show lies behind this second: `chrono`
/// counts the days of a date in 32 bits, and a day has 86400 seconds.
pub const CLOCK_MAX: i64 = 185_542_587_187_199;

/// Calls `chrono::Utc::now` and `DateTime::timestamp`: the current time in
/// seconds since the Unix epoch. Trusted: `chrono` takes the time that has
/// passed since the epoch and makes a date of it whose day count fits in
/// 32 bits, so the seconds are not negative and not more than
/// `CLOCK_MAX`. Which second it is, is whatever the system clock says.
/// `chrono` stops the process where that clock stands before the epoch.
#[verifier::external_body]
pub(crate) fn current_timestamp() -> (now: i64)
    ensures
        0 <= now <= CLOCK_MAX,
{
    chrono::Utc::now().timestamp()
}

} // verus!
