use vstd::prelude::*;

use crate::events::SessionRecord;

verus! {

/// Largest second count the formatter accepts: the last second of year 9999.
/// Every nanosecond count that fits in a `u64` lands well below it.
pub const MAX_FORMAT_SECONDS: u64 = 253_402_300_799;

/// Whole seconds in a nanosecond timestamp, fractional part discarded: the
/// persisted schema is second-precision.
pub open spec fn second_of_nanos(nanos: u64) -> int {
    nanos as int / 1_000_000_000
}

/// The RFC 3339 rendering, at second precision in UTC with a `Z` suffix, of
/// a count of seconds since the Unix epoch. The rendering is a function of
/// the second count alone.
pub uninterp spec fn rfc3339_of(seconds: int) -> Seq<char>;

/// Relies on chrono's `DateTime::<Utc>::from_timestamp` to turn a second
/// count into a UTC datetime (documented to succeed for every in-range
/// count, and every count up to year 9999 is in range) and on its
/// `to_rfc3339_opts(SecondsFormat::Secs, true)` to render it; the rendered
/// text depends on the datetime value alone.
#[verifier::external_body]
fn format_utc_seconds(seconds: u64) -> (r: String)
    requires
        seconds <= MAX_FORMAT_SECONDS,
    ensures
        r@ == rfc3339_of(seconds as int),
{
    let datetime = chrono::DateTime::<chrono::Utc>::from_timestamp(seconds as i64, 0).unwrap();
    datetime.to_rfc3339_opts(chrono::SecondsFormat::Secs, true)
}

/// The two timestamp columns a record is persisted with, as character
/// sequences: its start and its end, each rendered at second precision.
pub open spec fn row_of(record: SessionRecord) -> (Seq<char>, Seq<char>) {
    (
        rfc3339_of(second_of_nanos(record.start_time)),
        rfc3339_of(second_of_nanos(record.end_time)),
    )
}

/// Render the three columns of one persisted row: the record's start, the
/// record's end, and the audit column holding the moment of insertion,
/// which the caller supplies.
pub fn session_row(record: &SessionRecord, insertion_nanos: u64) -> (r: (String, String, String))
    ensures
        (r.0@, r.1@) == row_of(*record),
        r.2@ == rfc3339_of(second_of_nanos(insertion_nanos)),
{
    proof {
        lemma_nanos_to_seconds_in_range(record.start_time);
        lemma_nanos_to_seconds_in_range(record.end_time);
        lemma_nanos_to_seconds_in_range(insertion_nanos);
    }
    let start = format_utc_seconds(record.start_time / 1_000_000_000);
    let end = format_utc_seconds(record.end_time / 1_000_000_000);
    let insertion = format_utc_seconds(insertion_nanos / 1_000_000_000);
    (start, end, insertion)
}

/// Any nanosecond count a `u64` can hold converts to a second count the
/// formatter accepts.
proof fn lemma_nanos_to_seconds_in_range(nanos: u64)
    ensures
        0 <= second_of_nanos(nanos) <= MAX_FORMAT_SECONDS,
{
    assert(nanos as int / 1_000_000_000 <= u64::MAX as int / 1_000_000_000);
}

} // verus!
