//! Reading provider timestamps as seconds on the local wall clock.

use vstd::prelude::*;

verus! {

/// The seconds since 1970-01-01 00:00:00 on the same wall clock that the
/// text `s` denotes under the strftime-style format `fmt`, if it denotes
/// one; any UTC offset in the text is ignored.
pub uninterp spec fn wall_clock_seconds(s: Seq<char>, fmt: Seq<char>) -> Option<int>;

#[verifier::external_type_specification]
#[verifier::external_body]
pub struct ExParseError(chrono::ParseError);

/// Relies on `chrono::NaiveDateTime::parse_from_str`, which ignores any
/// offset, and on `and_utc().timestamp()`, which counts the seconds of the
/// parsed wall-clock time from the 1970 epoch.
#[verifier::external_body]
fn parse_wall_clock(s: &str, fmt: &str) -> (r: Result<i64, chrono::ParseError>)
    ensures
        match r {
            Ok(t) => wall_clock_seconds(s@, fmt@) == Some(t as int),
            Err(_) => wall_clock_seconds(s@, fmt@) is None,
        },
{
    chrono::NaiveDateTime::parse_from_str(s, fmt).map(|d| d.and_utc().timestamp())
}

/// The format of the primary provider's timestamps: `2019-05-01T10:15:00`.
pub open spec fn primary_format() -> Seq<char> {
    "%Y-%m-%dT%H:%M:%S"@
}

/// The format of the secondary provider's timestamps: RFC 3339, with an
/// offset.
pub open spec fn secondary_format() -> Seq<char> {
    "%+"@
}

/// Reads a primary provider timestamp.
pub fn parse_primary_time(s: &str) -> (r: Option<i64>)
    ensures
        match r {
            Some(t) => wall_clock_seconds(s@, primary_format()) == Some(t as int),
            None => wall_clock_seconds(s@, primary_format()) is None,
        },
{
    match parse_wall_clock(s, "%Y-%m-%dT%H:%M:%S") {
        Ok(t) => Some(t),
        Err(_) => None,
    }
}

/// Reads a secondary provider timestamp.
pub fn parse_secondary_time(s: &str) -> (r: Option<i64>)
    ensures
        match r {
            Some(t) => wall_clock_seconds(s@, secondary_format()) == Some(t as int),
            None => wall_clock_seconds(s@, secondary_format()) is None,
        },
{
    match parse_wall_clock(s, "%+") {
        Ok(t) => Some(t),
        Err(_) => None,
    }
}

} // verus!
