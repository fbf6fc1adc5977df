//! Calendar dates, read and written with `chrono`'s strftime-style formats.

use chrono::{Datelike, NaiveDate, Utc};
use crate::text::Order;
use vstd::prelude::*;

verus! {

/// A day of the proleptic Gregorian calendar.
#[derive(Clone, Copy, Debug, PartialEq, Eq, Structural)]
pub struct CalendarDate {
    pub year: i32,
    pub month: u32,
    pub day: u32,
}

/// The day that `chrono::NaiveDate::parse_from_str` reads from `value` under
/// `format`, as (year, month, day); `None` where it reports an error.
pub uninterp spec fn date_parsed(value: Seq<char>, format: Seq<char>) -> Option<(i32, u32, u32)>;

/// The text that `chrono::NaiveDate::format` writes for the day
/// (`year`, `month`, `day`) under `format`; `None` where there is no such day
/// or the format cannot be written for a date.
pub uninterp spec fn date_shown(year: i32, month: u32, day: u32, format: Seq<char>) -> Option<
    Seq<char>,
>;

impl CalendarDate {
    /// The month is one of the twelve and the day lies within 1 to 31.
    pub open spec fn in_range(self) -> bool {
        1 <= self.month <= 12 && 1 <= self.day <= 31
    }

    /// Calendar order: by year, then month, then day.
    pub open spec fn order(self, other: CalendarDate) -> Order {
        if self.year != other.year {
            if self.year < other.year {
                Order::Less
            } else {
                Order::Greater
            }
        } else if self.month != other.month {
            if self.month < other.month {
                Order::Less
            } else {
                Order::Greater
            }
        } else if self.day != other.day {
            if self.day < other.day {
                Order::Less
            } else {
                Order::Greater
            }
        } else {
            Order::Equal
        }
    }

    /// Today's date in UTC, by the clock.
    pub fn today() -> (r: CalendarDate)
        ensures
            r.in_range(),
    {
        today_utc()
    }

    /// Compares two days in calendar order.
    pub fn compare(&self, other: &CalendarDate) -> (r: Order)
        ensures
            r == self.order(*other),
            r == Order::Equal <==> *self == *other,
    {
        if self.year != other.year {
            if self.year < other.year {
                Order::Less
            } else {
                Order::Greater
            }
        } else if self.month != other.month {
            if self.month < other.month {
                Order::Less
            } else {
                Order::Greater
            }
        } else if self.day != other.day {
            if self.day < other.day {
                Order::Less
            } else {
                Order::Greater
            }
        } else {
            Order::Equal
        }
    }
}

/// Calls `chrono::NaiveDate::parse_from_str(value, format)` and takes year,
/// month and day from the date it returns (`Datelike::year`, `month`, `day`).
/// Which day comes back is taken on trust.
#[verifier::external_body]
pub(crate) fn parse_date(value: &str, format: &str) -> (r: Option<CalendarDate>)
    ensures
        match r {
            Some(d) => date_parsed(value@, format@) == Some((d.year, d.month, d.day)),
            None => date_parsed(value@, format@) is None,
        },
{
    match NaiveDate::parse_from_str(value, format) {
        Ok(d) => Some(CalendarDate { year: d.year(), month: d.month(), day: d.day() }),
        Err(_) => None,
    }
}

/// Builds the day with `chrono::NaiveDate::from_ymd_opt` and writes it under
/// `format` with `NaiveDate::format` and `DelayedFormat::write_to`. The text
/// is taken on trust; the result is `None` where `chrono` knows no such day
/// or reports an error while writing.
#[verifier::external_body]
pub(crate) fn show_date(date: CalendarDate, format: &str) -> (r: Option<String>)
    ensures
        match r {
            Some(s) => date_shown(date.year, date.month, date.day, format@) == Some(s@),
            None => date_shown(date.year, date.month, date.day, format@) is None,
        },
{
    let day = NaiveDate::from_ymd_opt(date.year, date.month, date.day)?;
    let mut out = String::new();
    match day.format(format).write_to(&mut out) {
        Ok(()) => Some(out),
        Err(_) => None,
    }
}

/// Today's date in UTC, from `chrono::Utc::now`. Only the ranges that
/// `chrono` documents for month and day are taken on trust: the day itself
/// depends on the clock. `Utc::now` panics where the system clock lies before
/// 1970.
#[verifier::external_body]
pub(crate) fn today_utc() -> (r: CalendarDate)
    ensures
        r.in_range(),
{
    let d = Utc::now().naive_utc().date();
    CalendarDate { year: d.year(), month: d.month(), day: d.day() }
}

/// A day together with the text that shows it under the format of the token
/// that holds it.
#[derive(Debug)]
pub struct DateValue {
    pub date: CalendarDate,
    pub shown: String,
}

/// What a `DateValue` holds.
pub struct DateView {
    pub date: CalendarDate,
    pub shown: Seq<char>,
}

impl View for DateValue {
    type V = DateView;

    open spec fn view(&self) -> DateView {
        DateView { date: self.date, shown: self.shown@ }
    }
}

/// The day that `value` reads as under `format`.
pub open spec fn day_parsed(value: Seq<char>, format: Seq<char>) -> Option<CalendarDate> {
    match date_parsed(value, format) {
        Some((year, month, day)) => Some(CalendarDate { year, month, day }),
        None => None,
    }
}

/// The text that shows `day` under `format`, where that text can be written
/// and reads back as the same day.
pub open spec fn day_shown(day: CalendarDate, format: Seq<char>) -> Option<Seq<char>> {
    match date_shown(day.year, day.month, day.day, format) {
        Some(text) => if day_parsed(text, format) == Some(day) {
            Some(text)
        } else {
            None
        },
        None => None,
    }
}

/// Shows `day` under `format`, and checks that what is shown reads back as
/// the same day.
pub fn show_day(day: CalendarDate, format: &str) -> (r: Option<String>)
    ensures
        match r {
            Some(text) => day_shown(day, format@) == Some(text@),
            None => day_shown(day, format@) is None,
        },
{
    match show_date(day, format) {
        Some(text) => match parse_date(text.as_str(), format) {
            Some(back) => if back.year == day.year && back.month == day.month && back.day
                == day.day {
                Some(text)
            } else {
                None
            },
            None => None,
        },
        None => None,
    }
}

/// Reads a day from `value` under `format`.
pub fn read_day(value: &str, format: &str) -> (r: Option<CalendarDate>)
    ensures
        r == day_parsed(value@, format@),
{
    parse_date(value, format)
}

} // verus!
