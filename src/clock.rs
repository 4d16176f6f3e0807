//! The wall clock.
use vstd::prelude::*;

verus! {

/// Relies on `time::OffsetDateTime::now_utc` and `unix_timestamp_nanos`: the current
/// time in nanoseconds since the Unix epoch (it fits an `i64` until the year 2262).
/// Nothing is promised of the value.
#[verifier::external_body]
pub(crate) fn now_nanos() -> (r: i64) {
    time::OffsetDateTime::now_utc().unix_timestamp_nanos() as i64
}

} // verus!
