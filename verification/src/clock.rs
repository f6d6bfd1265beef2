//! The clock and the time zone of the machine.

use vstd::prelude::*;

verus! {

/// The earliest second that a calendar date is known for.
pub const FIRST_SECOND: i64 = -8_334_601_228_800;

/// The last one.
pub const LAST_SECOND: i64 = 8_210_266_876_799;

/// `chrono::Utc::now` and `DateTime::timestamp`: the seconds since the Unix epoch. A clock set
/// before the epoch or behind the last known date makes `now` fail, so what comes back lies
/// between the two. Which second it is depends on the machine.
#[verifier::external_body]
pub(crate) fn unix_now() -> (now: i64)
    ensures
        0 <= now <= LAST_SECOND,
{
    chrono::Utc::now().timestamp()
}

/// `chrono::DateTime::from_timestamp`, `with_timezone` of the local zone and `hour`: the hour of
/// the day that the machine's clocks show at a second since the Unix epoch. There is one exactly
/// for the seconds of chrono's calendar, from the year -262143 to 262142. Which hour it is depends
/// on the time zone that the machine is set to. A zone file with an offset of a day or more makes
/// `with_timezone` fail.
#[verifier::external_body]
pub(crate) fn local_hour(second: i64) -> (hour: Option<u32>)
    ensures
        hour is Some <==> FIRST_SECOND <= second <= LAST_SECOND,
        hour matches Some(h) ==> h < 24,
{
    match chrono::DateTime::from_timestamp(second, 0) {
        Some(utc) => Some(chrono::Timelike::hour(&utc.with_timezone(&chrono::Local))),
        None => None,
    }
}

} // verus!
