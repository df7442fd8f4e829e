//! Points in time: epoch seconds, days and their bounds.
use crate::json::{as_text, integer_of, number_i64, opt_view, text_of, Json, JsonView};
use crate::text::text_opt;
use vstd::prelude::*;

verus! {

/// The epoch second that `chrono::DateTime::parse_from_rfc3339` reads from a text.
pub uninterp spec fn rfc3339_timestamp(text: Seq<char>) -> Option<i64>;

/// `chrono::DateTime::parse_from_rfc3339`, then `timestamp`: the epoch second of the point in
/// time that the text names, or nothing where the text is not in that format. It depends on
/// the text alone.
#[verifier::external_body]
pub(crate) fn rfc3339_seconds(text: &str) -> (r: Option<i64>)
    ensures
        r == rfc3339_timestamp(text@),
{
    match chrono::DateTime::parse_from_rfc3339(text) {
        Ok(date) => Some(date.timestamp()),
        Err(_) => None,
    }
}

/// A number greater than ten billion counts milliseconds.
pub open spec fn epoch_seconds(number: int) -> int {
    if number > 10_000_000_000 {
        number / 1000
    } else {
        number
    }
}

pub fn seconds_from_number(number: i64) -> (r: i64)
    ensures
        r == epoch_seconds(number as int),
{
    if number > 10_000_000_000 {
        number / 1000
    } else {
        number
    }
}

/// The epoch second that a JSON value names, as a number or as an RFC 3339 text.
pub open spec fn timestamp_of(value: Option<JsonView>) -> Option<int> {
    match integer_of(value) {
        Some(number) => Some(epoch_seconds(number)),
        None => match text_of(value) {
            Some(text) => match rfc3339_timestamp(text) {
                Some(seconds) => Some(seconds as int),
                None => None,
            },
            None => None,
        },
    }
}

pub fn parse_timestamp(value: Option<&Json>) -> (r: Option<i64>)
    ensures
        match r {
            Some(seconds) => timestamp_of(opt_view(value)) == Some(seconds as int),
            None => timestamp_of(opt_view(value)) is None,
        },
{
    match number_i64(value) {
        Some(number) => Some(seconds_from_number(number)),
        None => match as_text(value) {
            Some(text) => rfc3339_seconds(text),
            None => None,
        },
    }
}

/// What a date written in a format is: the days from 1970-01-01 to it, or what is wrong with
/// it.
pub uninterp spec fn parsed_date(text: Seq<char>, format: Seq<char>) -> Result<int, Seq<char>>;

/// The first day that the calendar reaches: the first of January of the year -262143.
pub const FIRST_DAY: i32 = -96_465_292;

/// The last day that the calendar reaches: the last of December of the year 262142.
pub const LAST_DAY: i32 = 95_026_236;

/// The calendar reaches the day.
pub open spec fn is_reached(day: int) -> bool {
    FIRST_DAY <= day <= LAST_DAY
}

/// `chrono::NaiveDate::parse_from_str`, with the date as `to_epoch_days` numbers it and the
/// error as it is written out. What is read depends on the text and the format alone, and is
/// named; a date that was read lies between `NaiveDate::MIN` and `NaiveDate::MAX`, as every
/// date does, and nothing more is said of it.
#[verifier::external_body]
pub(crate) fn parse_date(text: &str, format: &str) -> (r: Result<i32, String>)
    ensures
        match (r, parsed_date(text@, format@)) {
            (Ok(day), Ok(parsed)) => day == parsed,
            (Err(error), Err(message)) => error@ == message,
            _ => false,
        },
        r matches Ok(day) ==> is_reached(day as int),
{
    match chrono::NaiveDate::parse_from_str(text, format) {
        Ok(date) => Ok(date.to_epoch_days()),
        Err(error) => Err(error.to_string()),
    }
}

/// How the day with a number is written, where the calendar reaches that far.
pub uninterp spec fn date_text(day: int) -> Option<Seq<char>>;

/// `chrono::NaiveDate::from_epoch_days`, with the date as it is written out. There is one for
/// every day from `NaiveDate::MIN` to `NaiveDate::MAX` and for no other. The text depends on
/// the day alone, and is named; nothing more is said of it.
#[verifier::external_body]
pub(crate) fn text_of_day(day: i32) -> (r: Option<String>)
    ensures
        text_opt(r) == date_text(day as int),
        r is Some <==> is_reached(day as int),
{
    chrono::NaiveDate::from_epoch_days(day).map(|date| date.to_string())
}

/// A second and the same point in time in milliseconds are read alike, for every second from
/// late in April 1970 to the year 2286.
pub proof fn lemma_seconds_and_milliseconds_agree(second: int, rest: int)
    requires
        10_000_000 < second <= 10_000_000_000,
        0 <= rest < 1000,
    ensures
        epoch_seconds(second) == second,
        epoch_seconds(second * 1000 + rest) == second,
{
}

/// A value that is a number names a second by it; a text names the one that it is written out
/// as; no other value names any.
pub proof fn lemma_time_is_number_or_text(value: JsonView)
    ensures
        integer_of(Some(value)) matches Some(number) ==> timestamp_of(Some(value)) == Some(
            epoch_seconds(number),
        ),
        text_of(Some(value)) matches Some(text) ==> (match rfc3339_timestamp(text) {
            Some(second) => timestamp_of(Some(value)) == Some(second as int),
            None => timestamp_of(Some(value)) is None,
        }),
        integer_of(Some(value)) is None && text_of(Some(value)) is None ==> timestamp_of(
            Some(value),
        ) is None,
        timestamp_of(None) is None,
{
}

} // verus!
