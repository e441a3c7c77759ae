//! Rewriting the timestamp of an entry, moved by a number of hours.
use vstd::prelude::*;
use crate::lexer::timestamp_group;
use crate::pattern::{Pattern, regex_capture};
use crate::text::append;
use crate::time::{format_millis, formatted_millis, parse_millis, parsed_millis, shift_hours, shifted};

verus! {

/// Why an entry's timestamp could not be moved.
#[derive(Debug, Clone, Copy, PartialEq, Eq)]
pub enum OffsetError {
    /// The pattern has no `timestamp` group in the entry.
    NoTimestamp,
    /// The captured timestamp does not parse with the format.
    Unparsable,
    /// The moved instant cannot be represented or written.
    OutOfRange,
}

/// The entry text with its timestamp moved by `hours` hours and written
/// back with the same format; everything else is kept as it was.
pub open spec fn offset_text(p: Seq<char>, text: Seq<char>, format: Seq<char>, hours: i64) -> Result<
    Seq<char>,
    OffsetError,
> {
    match regex_capture(p, timestamp_group(), text) {
        None => Err(OffsetError::NoTimestamp),
        Some(c) => match parsed_millis(c.1, format) {
            None => Err(OffsetError::Unparsable),
            Some(t) => {
                let u = shifted(t as int, hours as int);
                if u < i64::MIN || u > i64::MAX {
                    Err(OffsetError::OutOfRange)
                } else {
                    match formatted_millis(u as i64, format) {
                        None => Err(OffsetError::OutOfRange),
                        Some(f) => Ok(c.0 + f + c.2),
                    }
                }
            },
        },
    }
}

/// Moves the timestamp of an entry by `hours` hours: the text that the
/// pattern's `timestamp` group captures is replaced by the moved instant,
/// written with `format`.
pub fn offset_entry(pattern: &Pattern, text: &str, format: &str, hours: i64) -> (r: Result<String, OffsetError>)
    ensures
        match r {
            Ok(s) => offset_text(pattern@, text@, format@, hours) == Ok::<Seq<char>, OffsetError>(s@),
            Err(e) => offset_text(pattern@, text@, format@, hours) == Err::<Seq<char>, OffsetError>(e),
        },
{
    proof {
        reveal_strlit("timestamp");
        assert(timestamp_group() =~= "timestamp"@);
    }
    match pattern.capture("timestamp", text) {
        None => Err(OffsetError::NoTimestamp),
        Some(c) => match parse_millis(c.1.as_str(), format) {
            None => Err(OffsetError::Unparsable),
            Some(t) => match shift_hours(t, hours) {
                None => Err(OffsetError::OutOfRange),
                Some(u) => match format_millis(u, format) {
                    None => Err(OffsetError::OutOfRange),
                    Some(f) => {
                        let mut out = c.0;
                        append(&mut out, f.as_str());
                        append(&mut out, c.2.as_str());
                        Ok(out)
                    },
                },
            },
        },
    }
}

/// Moving timestamps by `h` hours and then by `-h` hours writes the
/// first instant again: the timestamp text that comes out is the one
/// that the format gives for the instant read in the first place.
pub proof fn lemma_offset_round_trip(millis: i64, h: i64, format: Seq<char>)
    requires
        i64::MIN <= shifted(millis as int, h as int) <= i64::MAX,
        h != i64::MIN,
    ensures
        i64::MIN <= shifted(shifted(millis as int, h as int), -h) <= i64::MAX,
        formatted_millis(shifted(shifted(millis as int, h as int), -h) as i64, format)
            == formatted_millis(millis, format),
{
}

} // verus!
