//! Timestamps. The library works with plain Unix timestamps (seconds since
//! the epoch, UTC); only reading the current time and parsing the remote
//! service's RFC 3339 date strings call outside code.

use vstd::prelude::*;

verus! {

/// The Unix timestamp that an RFC 3339 date string denotes, if it denotes
/// one. The result depends on the characters alone.
pub uninterp spec fn datetime_of(s: Seq<char>) -> Option<int>;

/// Relies on chrono's DateTime::parse_from_rfc3339 and DateTime::timestamp:
/// parses an RFC 3339 date string and yields its Unix timestamp in seconds.
#[verifier::external_body]
pub(crate) fn parse_datetime(s: &str) -> (r: Option<i64>)
    ensures
        r is Some <==> datetime_of(s@) is Some,
        r matches Some(t) ==> datetime_of(s@) == Some(t as int),
{
    chrono::DateTime::parse_from_rfc3339(s).ok().map(|d| d.timestamp())
}

/// Relies on chrono's Utc::now and DateTime::timestamp: the current Unix
/// timestamp in seconds. Nothing is promised of the value; it depends on the
/// clock.
#[verifier::external_body]
pub(crate) fn now_timestamp() -> i64 {
    chrono::Utc::now().timestamp()
}

} // verus!
