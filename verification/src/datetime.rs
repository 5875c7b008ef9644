//! RFC 3339 text for instants, through `chrono`.

use vstd::prelude::*;
use chrono::{DateTime, SecondsFormat, Utc};
use crate::text::{escape_colons, escape_colons_string, unescape_colons, lemma_escape_colons_leaves_none, lemma_unescape_escape};
use crate::timespan::{floor_div, fraction, fraction_of, seconds_of, valid_instant, NANOS_PER_SECOND, TICKS_PER_SECOND};

verus! {

/// The earliest whole second a `chrono::DateTime<Utc>` can hold, in seconds
/// since the Unix epoch.
pub const MIN_SECONDS: i64 = -8_334_601_228_800;

/// The latest whole second a `chrono::DateTime<Utc>` can hold.
pub const MAX_SECONDS: i64 = 8_210_266_876_799;

/// `secs` is a second a `chrono::DateTime<Utc>` can hold.
pub open spec fn seconds_in_range(secs: int) -> bool {
    MIN_SECONDS <= secs <= MAX_SECONDS
}

/// `secs` falls in the years 0000 to 9999, which RFC 3339 writes with four
/// digits.
pub open spec fn four_digit_year(secs: int) -> bool {
    -62_167_219_200 <= secs <= 253_402_300_799
}

/// A character `chrono` may write in RFC 3339 text for a UTC instant in
/// whole seconds: a digit, `-`, `+`, `T`, `:` or `Z`.
pub open spec fn rfc3339_char(c: char) -> bool {
    ('0' <= c <= '9') || c == '-' || c == '+' || c == 'T' || c == ':' || c == 'Z'
}

/// The text that `chrono` writes, with `to_rfc3339_opts(SecondsFormat::Secs,
/// true)`, for the instant `from_timestamp(secs, nanos)`: whole seconds (`60`
/// in a leap second), UTC written as `Z`, such as `2021-03-04T05:06:07Z`.
pub uninterp spec fn rfc3339_seconds(secs: i64, nanos: u32) -> Seq<char>;

/// `from_timestamp(secs, nanos)` builds an instant: the second is in range,
/// the fraction below two seconds, and a leap second ends a minute.
pub open spec fn buildable(secs: int, nanos: int) -> bool {
    &&& seconds_in_range(secs)
    &&& 0 <= nanos < 2_000_000_000
    &&& nanos >= 1_000_000_000 ==> secs % 60 == 59
}

/// What `chrono`'s `DateTime::parse_from_rfc3339` reads from `text`: the
/// instant's `timestamp()` and `timestamp_subsec_nanos()`, or `None` where it
/// refuses the text.
pub uninterp spec fn rfc3339_instant(text: Seq<char>) -> Option<(i64, u32)>;

/// Calls `chrono::DateTime::<Utc>::from_timestamp(secs, nanos)` and then
/// `to_rfc3339_opts(SecondsFormat::Secs, true)`. Claims that the text is
/// `rfc3339_seconds(secs, nanos)`; that it holds only digits, `-`, `+`, `T`,
/// `:` and `Z` (the writer in chrono's `format/formatting.rs` writes the year,
/// with a sign outside 0000 to 9999, then two-digit fields, and `Z` for UTC);
/// and that, outside a leap second and for the years 0000 to 9999,
/// `parse_from_rfc3339` reads the text back as the same second with no
/// fraction. The arguments must be ones `from_timestamp` builds an instant of
/// (the checks of `from_num_seconds_from_midnight_opt` and the date range).
#[verifier::external_body]
fn format_rfc3339_seconds(secs: i64, nanos: u32) -> (text: String)
    requires
        buildable(secs as int, nanos as int),
    ensures
        text@ == rfc3339_seconds(secs, nanos),
        forall|i: int| 0 <= i < text@.len() ==> rfc3339_char(#[trigger] text@[i]),
        four_digit_year(secs as int) && nanos < 1_000_000_000 ==> rfc3339_instant(text@) == Some(
            (secs, 0u32),
        ),
{
    DateTime::<Utc>::from_timestamp(secs, nanos).unwrap().to_rfc3339_opts(SecondsFormat::Secs, true)
}

/// Calls `chrono::DateTime::parse_from_rfc3339` and reads the parsed instant
/// with `timestamp` and `timestamp_subsec_nanos`. Claims that the result is
/// `rfc3339_instant(text@)`; that the seconds lie in the years the parser
/// reads (four digits, 0000 to 9999, shifted by an offset under a day), which
/// the loose bounds below contain; that the fraction is below two seconds, as
/// `timestamp_subsec_nanos` documents; and that a fraction of a second or more
/// (a leap second) only comes with a second that ends a minute, as
/// `NaiveTime` only holds a leap second at `:59` and the parser's offsets are
/// whole minutes.
#[verifier::external_body]
fn parse_rfc3339(text: &str) -> (instant: Option<(i64, u32)>)
    ensures
        instant == rfc3339_instant(text@),
        instant matches Some((secs, nanos)) ==> -100_000_000_000 <= secs <= 300_000_000_000
            && nanos < 2_000_000_000 && (nanos >= 1_000_000_000 ==> secs % 60 == 59),
{
    match DateTime::parse_from_rfc3339(text) {
        Ok(parsed) => Some((parsed.timestamp(), parsed.timestamp_subsec_nanos())),
        Err(_) => None,
    }
}

/// The instant that RFC 3339 `text` names, in ticks.
pub open spec fn parsed_ticks(text: Seq<char>) -> Option<i128> {
    match rfc3339_instant(text) {
        Some((secs, nanos)) => Some((secs * TICKS_PER_SECOND + nanos) as i128),
        None => None,
    }
}

/// The instant `datetime` (ticks) as RFC 3339 text in whole seconds, with
/// its colons escaped for a URL query (`2021-03-04T05%3A06%3A07Z`). No colon
/// is left, and replacing `%3A` back by `:` gives the RFC 3339 text, which,
/// outside a leap second and for the years 0000 to 9999, reads back as the
/// instant truncated to the second.
pub fn get_uri_escaped_datetime(datetime: i128) -> (text: String)
    requires
        valid_instant(datetime as int),
    ensures
        text@ == escape_colons(
            rfc3339_seconds(seconds_of(datetime as int) as i64, fraction_of(datetime as int) as u32),
        ),
        !text@.contains(':'),
        unescape_colons(text@) == rfc3339_seconds(
            seconds_of(datetime as int) as i64,
            fraction_of(datetime as int) as u32,
        ),
        four_digit_year(seconds_of(datetime as int)) && fraction_of(datetime as int)
            < NANOS_PER_SECOND ==> rfc3339_instant(unescape_colons(text@)) == Some(
            (seconds_of(datetime as int) as i64, 0u32),
        ),
{
    let secs = floor_div(datetime, TICKS_PER_SECOND) as i64;
    let nanos = fraction(datetime) as u32;
    let formatted = format_rfc3339_seconds(secs, nanos);
    proof {
        assert(!formatted@.contains('%')) by {
            if formatted@.contains('%') {
                let i = choose|i: int| 0 <= i < formatted@.len() && formatted@[i] == '%';
                assert(rfc3339_char(formatted@[i]));
            }
        }
        lemma_unescape_escape(formatted@);
        lemma_escape_colons_leaves_none(formatted@);
    }
    escape_colons_string(formatted.as_str())
}

/// Reads an RFC 3339 date and time into ticks; `None` where the text is not
/// RFC 3339.
pub fn parse_datetime(text: &str) -> (instant: Option<i128>)
    ensures
        instant == parsed_ticks(text@),
        instant matches Some(t) ==> valid_instant(t as int),
{
    match parse_rfc3339(text) {
        Some((secs, nanos)) => {
            let t = secs as i128 * TICKS_PER_SECOND + nanos as i128;
            proof {
                vstd::arithmetic::div_mod::lemma_fundamental_div_mod_converse(
                    t as int,
                    TICKS_PER_SECOND as int,
                    secs as int,
                    nanos as int,
                );
            }
            Some(t)
        },
        None => None,
    }
}

} // verus!
