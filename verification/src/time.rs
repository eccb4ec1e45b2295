//! Points in time as plain numbers, and the calendar parsing and display
//! that the chrono crate performs on them.
use vstd::prelude::*;

verus! {

#[verifier::external_type_specification]
#[verifier::external_body]
pub struct ExChronoParseError(chrono::ParseError);

/// A point in time: whole seconds since 1970-01-01 00:00:00 and the
/// nanoseconds past that second (above 999_999_999 during a leap second).
/// A date and time without zone is read as if it were UTC.
#[derive(Clone, Copy, Debug, PartialEq, Eq, Structural)]
pub struct UnixTime {
    pub secs: i64,
    pub nanos: u32,
}

/// Chronological order of points in time.
pub open spec fn time_le(a: UnixTime, b: UnixTime) -> bool {
    a.secs < b.secs || (a.secs == b.secs && a.nanos <= b.nanos)
}

/// What `chrono::DateTime::parse_from_str(text, fmt)` gives, as the UTC
/// timestamp and its sub-second nanoseconds, or `None` when it fails.
pub uninterp spec fn chrono_parse_offset_datetime(text: Seq<char>, fmt: Seq<char>) -> Option<(i64, u32)>;

/// What `chrono::NaiveDateTime::parse_from_str(text, fmt)` gives, read as
/// UTC: the timestamp and its sub-second nanoseconds, or `None` when it fails.
pub uninterp spec fn chrono_parse_naive_datetime(text: Seq<char>, fmt: Seq<char>) -> Option<(i64, u32)>;

/// The text `chrono` displays for the UTC point in time
/// `DateTime::from_timestamp(secs, nanos)`, or `None` when that is out of range.
pub uninterp spec fn chrono_utc_display(secs: i64, nanos: u32) -> Option<Seq<char>>;

/// Calls `chrono::DateTime::parse_from_str(text, fmt)` and converts the
/// result to UTC.  Claimed: the outcome is the one named by
/// `chrono_parse_offset_datetime` for these arguments.
#[verifier::external_body]
pub(crate) fn parse_offset_datetime(text: &str, fmt: &str) -> (r: Result<UnixTime, chrono::ParseError>)
    ensures
        match r {
            Ok(t) => chrono_parse_offset_datetime(text@, fmt@) == Some((t.secs, t.nanos)),
            Err(_) => chrono_parse_offset_datetime(text@, fmt@) is None,
        },
{
    match chrono::DateTime::parse_from_str(text, fmt) {
        Ok(d) => {
            let u = d.with_timezone(&chrono::Utc);
            Ok(UnixTime { secs: u.timestamp(), nanos: u.timestamp_subsec_nanos() })
        },
        Err(e) => Err(e),
    }
}

/// Calls `chrono::NaiveDateTime::parse_from_str(text, fmt)`.  Claimed: the
/// outcome is the one named by `chrono_parse_naive_datetime` for these
/// arguments.
#[verifier::external_body]
pub(crate) fn parse_naive_datetime(text: &str, fmt: &str) -> (r: Result<UnixTime, chrono::ParseError>)
    ensures
        match r {
            Ok(t) => chrono_parse_naive_datetime(text@, fmt@) == Some((t.secs, t.nanos)),
            Err(_) => chrono_parse_naive_datetime(text@, fmt@) is None,
        },
{
    match chrono::NaiveDateTime::parse_from_str(text, fmt) {
        Ok(d) => {
            let u = d.and_utc();
            Ok(UnixTime { secs: u.timestamp(), nanos: u.timestamp_subsec_nanos() })
        },
        Err(e) => Err(e),
    }
}

/// Calls `chrono::DateTime::from_timestamp(secs, nanos)` and displays the
/// result with `to_string`.  Claimed: the outcome is the one named by
/// `chrono_utc_display` for these arguments.
#[verifier::external_body]
pub(crate) fn display_utc(t: UnixTime) -> (r: Option<String>)
    ensures
        match r {
            Some(s) => chrono_utc_display(t.secs, t.nanos) == Some(s@),
            None => chrono_utc_display(t.secs, t.nanos) is None,
        },
{
    match chrono::DateTime::from_timestamp(t.secs, t.nanos) {
        Some(d) => Some(d.to_string()),
        None => None,
    }
}

} // verus!
