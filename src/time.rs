//! Timestamps: an instant in milliseconds since the Unix epoch, read from and
//! written to text with a strftime-style format through `chrono`.
use std::fmt::Write;
use vstd::prelude::*;

verus! {

/// The instant that `chrono` reads from `text` with `format`, taken as UTC.
pub uninterp spec fn parsed_millis(text: Seq<char>, format: Seq<char>) -> Option<i64>;

/// The text that `chrono` writes for the UTC instant `millis` with `format`.
pub uninterp spec fn formatted_millis(millis: i64, format: Seq<char>) -> Option<Seq<char>>;

/// Relies on `chrono::NaiveDateTime::parse_from_str`: the date and time in
/// `text` read with `format`, as milliseconds since the epoch in UTC.
#[verifier::external_body]
pub(crate) fn parse_millis(text: &str, format: &str) -> (r: Option<i64>)
    ensures
        r == parsed_millis(text@, format@),
{
    match chrono::NaiveDateTime::parse_from_str(text, format) {
        Ok(t) => Some(t.and_utc().timestamp_millis()),
        Err(_) => None,
    }
}

/// Relies on `chrono::DateTime::from_timestamp_millis` and its `format`:
/// the UTC instant `millis` written with `format`, or `None` where the
/// instant is out of range or the format holds an invalid item.
#[verifier::external_body]
pub(crate) fn format_millis(millis: i64, format: &str) -> (r: Option<String>)
    ensures
        match r {
            Some(s) => formatted_millis(millis, format@) == Some(s@),
            None => formatted_millis(millis, format@) is None,
        },
{
    let t = chrono::DateTime::from_timestamp_millis(millis)?;
    let mut out = String::new();
    match write!(out, "{}", t.naive_utc().format(format)) {
        Ok(()) => Some(out),
        Err(_) => None,
    }
}

/// Milliseconds in an hour.
pub const MILLIS_PER_HOUR: i64 = 3600000;

/// The instant `hours` hours after `millis`.
pub open spec fn shifted(millis: int, hours: int) -> int {
    millis + hours * MILLIS_PER_HOUR
}

/// Moves an instant by a signed number of hours; `None` where the result
/// does not fit in an `i64`.
pub fn shift_hours(millis: i64, hours: i64) -> (r: Option<i64>)
    ensures
        match r {
            Some(t) => t == shifted(millis as int, hours as int),
            None => shifted(millis as int, hours as int) < i64::MIN || shifted(millis as int, hours as int)
                > i64::MAX,
        },
{
    let h = hours as i128;
    assert(-9223372036854775808 * 3600000 <= h * 3600000 <= 9223372036854775807 * 3600000) by (nonlinear_arith)
        requires
            -9223372036854775808 <= h <= 9223372036854775807,
    ;
    let t: i128 = millis as i128 + h * 3600000;
    if t < i64::MIN as i128 || t > i64::MAX as i128 {
        None
    } else {
        Some(t as i64)
    }
}

} // verus!
