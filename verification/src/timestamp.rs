//! The text of a timestamp, as the `chrono` crate renders it.

use vstd::prelude::*;

verus! {

/// The text `chrono` gives the date and time that lies `secs` seconds and
/// `nanos` nanoseconds after the Unix epoch, or `None` where the two numbers
/// denote no date and time `chrono` can hold.
pub uninterp spec fn timestamp_text(secs: int, nanos: int) -> Option<Seq<char>>;

/// Renders a timestamp with `chrono`.
///
/// The body builds the date and time with `chrono::DateTime::from_timestamp`,
/// which returns `None` for seconds out of range or a nanosecond part that is
/// not valid, and formats it without a time zone through the `Display` impl of
/// `chrono::NaiveDateTime` (date, a space, time of day). The contract claims
/// only that the outcome is a function of the two numbers.
#[verifier::external_body]
pub(crate) fn render_timestamp(secs: i64, nanos: u32) -> (text: Option<String>)
    ensures
        match text {
            Some(t) => timestamp_text(secs as int, nanos as int) == Some(t@),
            None => timestamp_text(secs as int, nanos as int) is None,
        },
{
    match chrono::DateTime::from_timestamp(secs, nanos) {
        Some(moment) => Some(moment.naive_utc().to_string()),
        None => None,
    }
}

} // verus!
