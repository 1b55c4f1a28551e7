//! Calls into the date and media-type libraries, each under a name for what
//! it returns.
use std::fmt::Write;
use vstd::prelude::*;

verus! {

/// What chrono makes of `text` read with `format` as a UTC time: its Unix seconds.
pub uninterp spec fn parsed_utc_seconds(text: Seq<char>, format: Seq<char>) -> Option<i64>;

/// What chrono writes for the UTC time `secs` Unix seconds with `format`;
/// nothing where the time is out of chrono's range or the format is not one.
pub uninterp spec fn formatted_utc(secs: i64, format: Seq<char>) -> Option<Seq<char>>;

/// The media type that mime_guess gives for a file extension.
pub uninterp spec fn media_type_of(ext: Seq<char>) -> Seq<char>;

/// Relies on chrono's `NaiveDateTime::parse_from_str` and `and_utc().timestamp()`:
/// a UTC time read with `format`, or nothing where the text does not match it.
#[verifier::external_body]
pub(crate) fn parse_utc_seconds(text: &str, format: &str) -> (r: Option<i64>)
    ensures
        r == parsed_utc_seconds(text@, format@),
{
    chrono::NaiveDateTime::parse_from_str(text, format).ok().map(|d| d.and_utc().timestamp())
}

/// Relies on chrono's `DateTime::<Utc>::from_timestamp` and `format`: the text
/// of a UTC time, or nothing where the seconds are outside chrono's range or
/// where writing with `format` fails (an unknown specifier).
#[verifier::external_body]
pub(crate) fn format_utc(secs: i64, format: &str) -> (r: Option<String>)
    ensures
        match r {
            Some(s) => formatted_utc(secs, format@) == Some(s@),
            None => formatted_utc(secs, format@) is None,
        },
{
    let d = chrono::DateTime::<chrono::Utc>::from_timestamp(secs, 0)?;
    let mut text = String::new();
    match write!(text, "{}", d.format(format)) {
        Ok(()) => Some(text),
        Err(_) => None,
    }
}

/// Relies on mime_guess's `from_ext(..).first_or_octet_stream()`: the first
/// media type known for the extension, `application/octet-stream` otherwise.
#[verifier::external_body]
pub(crate) fn media_type(ext: &str) -> (r: String)
    ensures
        r@ == media_type_of(ext@),
        ext@.len() == 0 ==> r@ == "application/octet-stream"@,
{
    mime_guess::from_ext(ext).first_or_octet_stream().to_string()
}

} // verus!
