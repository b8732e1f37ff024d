//! The calls into other crates and into parts of the standard library that Verus has no
//! specification for. What is stated here is believed, not proved.

use crate::calendar::date_text;
use crate::text::{ascii_lower, hex_fixed, is_ascii_text, trimmed};
use crate::time::{in_four_digit_years, is_instant};
use vstd::prelude::*;

verus! {

/// The text that `chrono` writes for an instant with `to_rfc3339_opts`, at milliseconds and
/// with `Z`, where its year does not have four digits.
pub uninterp spec fn rfc3339_millis(secs: int, nanos: int) -> Seq<char>;

/// What `chrono::DateTime::parse_from_rfc3339` reads: seconds since the epoch and nanoseconds
/// within the second, or the text of its error.
pub uninterp spec fn rfc3339_read(text: Seq<char>) -> Result<(i64, u32), Seq<char>>;

/// The time that `chrono` finds between two instants, each given by its seconds and nanoseconds:
/// whole seconds, and the nanoseconds beyond them.
pub uninterp spec fn time_between(
    to_secs: int,
    to_nanos: int,
    from_secs: int,
    from_nanos: int,
) -> (i64, i32);

/// What `uuid::Uuid::parse_str` reads, or the text of its error.
pub uninterp spec fn uuid_read(text: Seq<char>) -> Result<u128, Seq<char>>;

/// The text that `format!("{:?}")` writes for a string that has characters to escape: quoted and
/// escaped.
pub uninterp spec fn debug_quoted(text: Seq<char>) -> Seq<char>;

/// What `str::to_lowercase` gives for a text that is not ASCII.
pub uninterp spec fn lowercased(text: Seq<char>) -> Seq<char>;

/// The compact text of the JSON value that `serde_json::from_str` reads, or the text of its
/// error.
pub uninterp spec fn json_compact(text: Seq<char>) -> Result<Seq<char>, Seq<char>>;

/// The views of a result whose two sides are strings.
pub open spec fn text_result(r: Result<String, String>) -> Result<Seq<char>, Seq<char>> {
    match r {
        Ok(s) => Ok(s@),
        Err(e) => Err(e@),
    }
}

/// Seconds and nanoseconds that name an instant at milliseconds, in a year of four digits.
pub open spec fn is_stored_instant(secs: int, nanos: int) -> bool {
    is_instant(secs, nanos) && in_four_digit_years(secs) && nanos % 1_000_000 == 0
}

/// That these seconds and nanoseconds were read.
pub open spec fn reads_to(r: Result<(i64, u32), String>, secs: int, nanos: int) -> bool {
    r matches Ok(parts) && parts.0 == secs && parts.1 == nanos
}

/// That this UUID was read.
pub open spec fn is_uuid(r: Result<u128, String>, n: u128) -> bool {
    r matches Ok(m) && m == n
}

/// The five groups of a UUID in lower-case hexadecimal, joined by hyphens.
pub open spec fn hyphenated(n: nat) -> Seq<char> {
    let h = hex_fixed(n, 32);
    h.subrange(0, 8) + seq!['-'] + h.subrange(8, 12) + seq!['-'] + h.subrange(12, 16) + seq!['-']
        + h.subrange(16, 20) + seq!['-'] + h.subrange(20, 32)
}

/// The bits of version and variant that mark a random UUID.
pub open spec fn is_random_uuid(n: nat) -> bool {
    &&& (n / 0x1000_0000_0000_0000_0000) % 16 == 4
    &&& (n / 0x4000_0000_0000_0000) % 4 == 2
}

/// Calls `chrono::DateTime::to_rfc3339_opts` with `SecondsFormat::Millis` and `Z`. For the
/// years 0 to 9999 the text is the date and the time of day, each part with its digits, cut to the
/// millisecond. Of other years only the name is known.
#[verifier::external_body]
pub(crate) fn write_rfc3339_millis(secs: i64, nanos: u32) -> (s: String)
    requires
        is_instant(secs as int, nanos as int),
    ensures
        s@ == (if in_four_digit_years(secs as int) {
            date_text(secs as int, nanos as int)
        } else {
            rfc3339_millis(secs as int, nanos as int)
        }),
{
    chrono::DateTime::<chrono::Utc>::from_timestamp(secs, nanos).unwrap().to_rfc3339_opts(
        chrono::SecondsFormat::Millis,
        true,
    )
}

/// Calls `chrono::DateTime::parse_from_rfc3339`. What it reads is an instant that chrono can
/// hold. The text of an instant at milliseconds, with a year of four digits, reads as that
/// instant; of other texts only the name is known.
#[verifier::external_body]
pub(crate) fn parse_rfc3339(text: &str) -> (r: Result<(i64, u32), String>)
    ensures
        r matches Ok(parts) ==> is_instant(parts.0 as int, parts.1 as int),
        match r {
            Ok(parts) => rfc3339_read(text@) matches Ok(p) && p == parts,
            Err(e) => rfc3339_read(text@) matches Err(why) && why == e@,
        },
        forall|secs: int, nanos: int|
            is_stored_instant(secs, nanos) && text@ == #[trigger] date_text(secs, nanos)
                ==> reads_to(r, secs, nanos),
{
    match chrono::DateTime::parse_from_rfc3339(text) {
        Ok(t) => Ok((t.timestamp(), t.timestamp_subsec_nanos())),
        Err(e) => Err(e.to_string()),
    }
}

/// Calls `chrono::DateTime::signed_duration_since`, and takes the seconds and the nanoseconds of
/// the difference, which have one sign. Where neither instant lies in a leap second they are the
/// difference of the two; of others only the name is known.
#[verifier::external_body]
pub(crate) fn time_since(to_secs: i64, to_nanos: u32, from_secs: i64, from_nanos: u32) -> (r: (
    i64,
    i32,
))
    requires
        is_instant(to_secs as int, to_nanos as int),
        is_instant(from_secs as int, from_nanos as int),
    ensures
        r == time_between(to_secs as int, to_nanos as int, from_secs as int, from_nanos as int),
        -1_000_000_000 < r.1 < 1_000_000_000,
        to_nanos < 1_000_000_000 && from_nanos < 1_000_000_000 ==> r.0 * 1_000_000_000 + r.1
            == (to_secs - from_secs) * 1_000_000_000 + to_nanos - from_nanos,
{
    let to = chrono::DateTime::<chrono::Utc>::from_timestamp(to_secs, to_nanos).unwrap();
    let from = chrono::DateTime::<chrono::Utc>::from_timestamp(from_secs, from_nanos).unwrap();
    let d = to.signed_duration_since(from);
    (d.num_seconds(), d.subsec_nanos())
}

/// Calls `uuid::Uuid`'s `Display`: lower-case hexadecimal in five groups.
#[verifier::external_body]
pub(crate) fn uuid_text(n: u128) -> (s: String)
    ensures
        s@ == hyphenated(n as nat),
{
    uuid::Uuid::from_u128(n).to_string()
}

/// Calls `uuid::Uuid::parse_str`. The hyphenated text of a UUID reads as that UUID; of other texts
/// only the name is known.
#[verifier::external_body]
pub(crate) fn parse_uuid(text: &str) -> (r: Result<u128, String>)
    ensures
        match r {
            Ok(n) => uuid_read(text@) matches Ok(m) && m == n,
            Err(e) => uuid_read(text@) matches Err(why) && why == e@,
        },
        forall|n: u128| text@ == #[trigger] hyphenated(n as nat) ==> is_uuid(r, n),
{
    match uuid::Uuid::parse_str(text) {
        Ok(u) => Ok(u.as_u128()),
        Err(e) => Err(e.to_string()),
    }
}

/// Calls `uuid::Uuid::new_v4`: random but for the bits of version and variant.
#[verifier::external_body]
pub(crate) fn random_uuid() -> (n: u128)
    ensures
        is_random_uuid(n as nat),
{
    uuid::Uuid::new_v4().as_u128()
}

/// That a text is printable ASCII, without quotes and backslashes: nothing in it is escaped.
pub open spec fn is_plain_text(text: Seq<char>) -> bool {
    forall|i: int|
        0 <= i < text.len() ==> ' ' <= #[trigger] text[i] <= '~' && text[i] != '"' && text[i]
            != '\\'
}

/// A text between quotes, escaped where it has to be.
pub open spec fn quoted(text: Seq<char>) -> Seq<char> {
    if is_plain_text(text) {
        seq!['"'] + text + seq!['"']
    } else {
        debug_quoted(text)
    }
}

/// Calls the standard library's `Debug` for `str`. Printable ASCII without quotes and backslashes
/// stands between two quotes as it is; of other texts only the name is known.
#[verifier::external_body]
pub(crate) fn quote(text: &str) -> (s: String)
    ensures
        s@ == (if is_plain_text(text@) {
            seq!['"'] + text@ + seq!['"']
        } else {
            debug_quoted(text@)
        }),
{
    format!("{:?}", text)
}

/// A text in lower case.
pub open spec fn lowered(text: Seq<char>) -> Seq<char> {
    if is_ascii_text(text) {
        ascii_lower(text)
    } else {
        lowercased(text)
    }
}

/// Calls `str::to_lowercase`. In an ASCII text the letters A to Z, and only those, become a to z;
/// of other texts only the name is known.
#[verifier::external_body]
pub(crate) fn lowercase(text: &str) -> (s: String)
    ensures
        s@ == (if is_ascii_text(text@) {
            ascii_lower(text@)
        } else {
            lowercased(text@)
        }),
{
    text.to_lowercase()
}

/// Calls `str::trim`, which takes the characters with the Unicode property White_Space from both
/// ends.
#[verifier::external_body]
pub(crate) fn trim(text: &str) -> (s: &str)
    ensures
        s@ == trimmed(text@),
{
    text.trim()
}

/// Calls `serde_json::from_str` and writes the value it read with `serde_json`'s `Display`.
#[verifier::external_body]
pub(crate) fn compact_json(text: &str) -> (r: Result<String, String>)
    ensures
        text_result(r) == json_compact(text@),
{
    match serde_json::from_str::<serde_json::Value>(text) {
        Ok(v) => Ok(v.to_string()),
        Err(e) => Err(e.to_string()),
    }
}

} // verus!
