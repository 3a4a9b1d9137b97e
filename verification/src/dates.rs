//! Reading the date of a stored draw.

use chrono::Datelike;
use vstd::prelude::*;
use crate::models::DrawDate;

verus! {

/// What `chrono::NaiveDate::parse_from_str` makes of `text` under `format`: the
/// year, month and day of the date it returns, or `None` where it reports an
/// error. The crate's parser decides this from the two strings alone.
pub uninterp spec fn parsed_date(text: Seq<char>, format: Seq<char>) -> Option<(i32, u32, u32)>;

/// Calls `chrono::NaiveDate::parse_from_str` and reads the date it returns with
/// `Datelike::year`, `Datelike::month` and `Datelike::day`. The contract names
/// the outcome `parsed_date` and repeats what chrono documents of a date's
/// month (1 to 12) and day (1 to 31); nothing of it is proved here.
#[verifier::external_body]
pub(crate) fn parse_date(text: &str, format: &str) -> (date: Option<(i32, u32, u32)>)
    ensures
        date == parsed_date(text@, format@),
        date matches Some((_, month, day)) ==> 1 <= month <= 12 && 1 <= day <= 31,
{
    match chrono::NaiveDate::parse_from_str(text, format) {
        Ok(date) => Some((date.year(), date.month(), date.day())),
        Err(_) => None,
    }
}

/// The format of a stored date: year, month and day, separated by hyphens.
pub open spec fn iso_format() -> Seq<char> {
    "%Y-%m-%d"@
}

/// The date that a parse result stands for: the parsed date, or 1 January 1970
/// where there is none.
pub open spec fn date_or_epoch(parsed: Option<(i32, u32, u32)>) -> DrawDate {
    match parsed {
        Some((year, month, day)) => DrawDate { year, month, day },
        None => DrawDate::epoch_spec(),
    }
}

/// The date of a draw whose stored date text is `text`.
pub open spec fn stored_date(text: Seq<char>) -> DrawDate {
    date_or_epoch(parsed_date(text, iso_format()))
}

/// Turns a parse result into a date; an unreadable date becomes 1 January 1970.
pub fn resolve_date(parsed: Option<(i32, u32, u32)>) -> (date: DrawDate)
    ensures
        date == date_or_epoch(parsed),
{
    match parsed {
        Some((year, month, day)) => DrawDate { year, month, day },
        None => DrawDate::epoch(),
    }
}

/// Reads a stored date text; a text that is no date in the stored format gives
/// 1 January 1970.
pub fn decode_date(text: &str) -> (date: DrawDate)
    ensures
        date == stored_date(text@),
        date.well_formed(),
{
    resolve_date(parse_date(text, "%Y-%m-%d"))
}

} // verus!
