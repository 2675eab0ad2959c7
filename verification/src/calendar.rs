//! Calendar dates and clock times, and how they are read from text.

use crate::error::Error;
use crate::text::{
    component, number_at, parse_i32, parse_u32, split_first, three_parts, COLON, DOT,
};
use vstd::prelude::*;
use vstd::utf8::encode_utf8;

verus! {

/// The first year that a date can have.
pub const MIN_YEAR: i32 = -262143;

/// The last year that a date can have.
pub const MAX_YEAR: i32 = 262142;

/// A day of the proleptic Gregorian calendar.
#[derive(Clone, Copy, Debug, PartialEq, Eq, Structural)]
pub struct Date {
    pub year: i32,
    pub month: u32,
    pub day: u32,
}

/// A time of day, to the second. It also stands for a duration of less than
/// a day.
#[derive(Clone, Copy, Debug, PartialEq, Eq, Structural)]
pub struct Time {
    pub hour: u32,
    pub minute: u32,
    pub second: u32,
}

/// Whether `year` has a 29th of February.
pub open spec fn is_leap_year(year: int) -> bool {
    year % 4 == 0 && (year % 100 != 0 || year % 400 == 0)
}

/// The number of days of `month` in `year`, for a month from 1 to 12.
pub open spec fn days_in_month(year: int, month: int) -> int {
    if month == 2 {
        if is_leap_year(year) {
            29
        } else {
            28
        }
    } else if month == 4 || month == 6 || month == 9 || month == 11 {
        30
    } else {
        31
    }
}

/// Whether the calendar has the day `day` of `month` in `year`, and the year is
/// one that a date can have.
pub open spec fn valid_ymd(year: int, month: int, day: int) -> bool {
    &&& MIN_YEAR <= year <= MAX_YEAR
    &&& 1 <= month <= 12
    &&& 1 <= day <= days_in_month(year, month)
}

/// Whether a day has the time `hour:minute:second`.
pub open spec fn valid_hms(hour: int, minute: int, second: int) -> bool {
    0 <= hour < 24 && 0 <= minute < 60 && 0 <= second < 60
}

/// The date of the given year, month and day, if the calendar has it.
pub open spec fn date_from_ymd(year: int, month: int, day: int) -> Option<Date> {
    if valid_ymd(year, month, day) {
        Some(Date { year: year as i32, month: month as u32, day: day as u32 })
    } else {
        None
    }
}

/// The time of the given hour, minute and second, if a day has it.
pub open spec fn time_from_hms(hour: int, minute: int, second: int) -> Option<Time> {
    if valid_hms(hour, minute, second) {
        Some(Time { hour: hour as u32, minute: minute as u32, second: second as u32 })
    } else {
        None
    }
}

impl Date {
    /// Whether this is a day that the calendar has.
    pub open spec fn valid(&self) -> bool {
        valid_ymd(self.year as int, self.month as int, self.day as int)
    }

    /// The date that stands for "no date": the first day of the year 1.
    pub open spec fn sentinel() -> Date {
        Date { year: 1, month: 1, day: 1 }
    }

    /// The date of the given year, month and day, if the calendar has it.
    pub fn from_ymd(year: i32, month: u32, day: u32) -> (r: Option<Date>)
        ensures
            r == date_from_ymd(year as int, month as int, day as int),
    {
        calendar_date(year, month, day)
    }

    /// The date that is used where a record gives none.
    pub fn none_given() -> (date: Date)
        ensures
            date == Date::sentinel(),
            date.valid(),
    {
        Date { year: 1, month: 1, day: 1 }
    }
}

impl Time {
    /// Whether this is a time that a day has.
    pub open spec fn valid(&self) -> bool {
        valid_hms(self.hour as int, self.minute as int, self.second as int)
    }

    /// The time that stands for "no time": midnight.
    pub open spec fn sentinel() -> Time {
        Time { hour: 0, minute: 0, second: 0 }
    }

    /// The time of the given hour, minute and second, if a day has it.
    pub fn from_hms(hour: u32, minute: u32, second: u32) -> (r: Option<Time>)
        ensures
            r == time_from_hms(hour as int, minute as int, second as int),
    {
        clock_time(hour, minute, second)
    }

    /// The time that is used where a record gives none.
    pub fn none_given() -> (time: Time)
        ensures
            time == Time::sentinel(),
            time.valid(),
    {
        Time { hour: 0, minute: 0, second: 0 }
    }
}

/// Calls `chrono::NaiveDate::from_ymd_opt` and reads year, month and day back
/// from the date that it made. Trusted: chrono makes a date exactly for the
/// days of the proleptic Gregorian calendar in the years
/// `MIN_YEAR ..= MAX_YEAR`, and the date that it makes has the year, month and
/// day that it was given.
#[verifier::external_body]
fn calendar_date(year: i32, month: u32, day: u32) -> (r: Option<Date>)
    ensures
        r == date_from_ymd(year as int, month as int, day as int),
{
    chrono::NaiveDate::from_ymd_opt(year, month, day).map(
        |date| Date {
            year: chrono::Datelike::year(&date),
            month: chrono::Datelike::month(&date),
            day: chrono::Datelike::day(&date),
        },
    )
}

/// Calls `chrono::NaiveTime::from_hms_opt` and reads hour, minute and second
/// back from the time that it made. Trusted: chrono makes a time exactly for
/// an hour below 24, a minute below 60 and a second below 60, and the time
/// that it makes has the hour, minute and second that it was given.
#[verifier::external_body]
fn clock_time(hour: u32, minute: u32, second: u32) -> (r: Option<Time>)
    ensures
        r == time_from_hms(hour as int, minute as int, second as int),
{
    chrono::NaiveTime::from_hms_opt(hour, minute, second).map(
        |time| Time {
            hour: chrono::Timelike::hour(&time),
            minute: chrono::Timelike::minute(&time),
            second: chrono::Timelike::second(&time),
        },
    )
}

/// The date that the bytes `text` write as `day.month.year`.
///
/// Empty text gives the sentinel. Any other text must be exactly three parts
/// between two dots, day, month and year, and the three must be decimal
/// numbers that make a date of the calendar.
pub open spec fn date_of(text: Seq<u8>) -> Result<Date, Error> {
    if text.len() == 0 {
        Ok(Date::sentinel())
    } else if !three_parts(text, DOT) {
        Err(Error::NumericParse)
    } else {
        match (
            number_at(text, DOT, 0, 0, u32::MAX as int),
            number_at(text, DOT, 1, 0, u32::MAX as int),
            number_at(text, DOT, 2, i32::MIN as int, i32::MAX as int),
        ) {
            (Some(day), Some(month), Some(year)) => match date_from_ymd(year, month, day) {
                Some(date) => Ok(date),
                None => Err(Error::NumericParse),
            },
            _ => Err(Error::NumericParse),
        }
    }
}

/// The time that the bytes `text` write as `hour:minute:second`.
///
/// Empty text gives the sentinel. Any other text must be exactly three parts
/// between two colons, hour, minute and second, and the three must be decimal
/// numbers that make a time of day.
pub open spec fn time_of(text: Seq<u8>) -> Result<Time, Error> {
    if text.len() == 0 {
        Ok(Time::sentinel())
    } else if !three_parts(text, COLON) {
        Err(Error::NumericParse)
    } else {
        match (
            number_at(text, COLON, 0, 0, u32::MAX as int),
            number_at(text, COLON, 1, 0, u32::MAX as int),
            number_at(text, COLON, 2, 0, u32::MAX as int),
        ) {
            (Some(hour), Some(minute), Some(second)) => match time_from_hms(hour, minute, second) {
                Some(time) => Ok(time),
                None => Err(Error::NumericParse),
            },
            _ => Err(Error::NumericParse),
        }
    }
}

/// Parts `text` into its three parts between `sep`, where it has exactly
/// three.
fn split_three<'a>(text: &'a [u8], sep: u8) -> (r: Option<(&'a [u8], &'a [u8], &'a [u8])>)
    ensures
        r is Some <==> three_parts(text@, sep),
        r matches Some((a, b, c)) ==> component(text@, sep, 0) == Some(a@) && component(
            text@,
            sep,
            1,
        ) == Some(b@) && component(text@, sep, 2) == Some(c@),
{
    proof {
        reveal_with_fuel(component, 4);
    }
    let (first, rest) = split_first(text, sep);
    match rest {
        None => None,
        Some(rest) => {
            let (second, rest) = split_first(rest, sep);
            match rest {
                None => None,
                Some(rest) => {
                    let (third, rest) = split_first(rest, sep);
                    match rest {
                        None => Some((first, second, third)),
                        Some(_) => None,
                    }
                },
            }
        },
    }
}

/// Reads a date written as `day.month.year`.
///
/// Returns the sentinel date for empty text, the date where the text writes
/// one, and `Error::NumericParse` where the text has fewer or more than three
/// parts, a part is no decimal number, or the three make no date of the
/// calendar.
pub fn parse_date(field: &str) -> (r: Result<Date, Error>)
    ensures
        r == date_of(encode_utf8(field@)),
        r matches Ok(date) ==> date.valid(),
{
    let text = field.as_bytes();
    if text.len() == 0 {
        return Ok(Date::none_given());
    }
    match split_three(text, DOT) {
        None => Err(Error::NumericParse),
        Some((day, month, year)) => {
            match (parse_u32(day), parse_u32(month), parse_i32(year)) {
                (Some(day), Some(month), Some(year)) => match calendar_date(year, month, day) {
                    Some(date) => Ok(date),
                    None => Err(Error::NumericParse),
                },
                _ => Err(Error::NumericParse),
            }
        },
    }
}

/// Reads a time written as `hour:minute:second`.
///
/// Returns midnight for empty text, the time where the text writes one, and
/// `Error::NumericParse` where the text has fewer or more than three parts,
/// a part is no decimal number, or the three make no time of day.
pub fn parse_time(field: &str) -> (r: Result<Time, Error>)
    ensures
        r == time_of(encode_utf8(field@)),
        r matches Ok(time) ==> time.valid(),
{
    let text = field.as_bytes();
    if text.len() == 0 {
        return Ok(Time::none_given());
    }
    match split_three(text, COLON) {
        None => Err(Error::NumericParse),
        Some((hour, minute, second)) => {
            match (parse_u32(hour), parse_u32(minute), parse_u32(second)) {
                (Some(hour), Some(minute), Some(second)) => match clock_time(hour, minute, second) {
                    Some(time) => Ok(time),
                    None => Err(Error::NumericParse),
                },
                _ => Err(Error::NumericParse),
            }
        },
    }
}

} // verus!
