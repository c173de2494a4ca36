use chrono::{DateTime, FixedOffset};
use vstd::prelude::*;

verus! {

/// Days from 0001-01-01 (day 1) to 1970-01-01.
pub const UNIX_EPOCH_DAY: i64 = 719_163;

/// The day number, counted as from 0001-01-01 being day 1, of the earliest
/// date chrono represents (January 1, 262144 BCE).
pub const FIRST_DAY: i64 = -95_746_129;

/// The day number of the latest date chrono represents (December 31, 262142 CE).
pub const LAST_DAY: i64 = 95_745_399;

/// Whether chrono can represent the instant `seconds` after the Unix epoch:
/// its UTC day lies between chrono's first and last date.
pub open spec fn chrono_accepts_timestamp(seconds: i64) -> bool {
    FIRST_DAY <= seconds / 86_400 + UNIX_EPOCH_DAY <= LAST_DAY
}

/// Relies on chrono's `DateTime::from_timestamp`, which returns `None`
/// exactly where the day of `seconds` falls outside `NaiveDate::MIN` to
/// `NaiveDate::MAX`.
#[verifier::external_body]
pub(crate) fn timestamp_representable(seconds: i64) -> (r: bool)
    ensures
        r == chrono_accepts_timestamp(seconds),
{
    DateTime::from_timestamp(seconds, 0).is_some()
}

/// Relies on chrono's `FixedOffset::east_opt`, which accepts an offset from
/// UTC strictly within one day either way.
#[verifier::external_body]
pub(crate) fn offset_representable(seconds: i32) -> (r: bool)
    ensures
        r == (-86_400 < seconds && seconds < 86_400),
{
    FixedOffset::east_opt(seconds).is_some()
}

} // verus!
