//! Calendar days as day numbers of the proleptic Gregorian calendar.
//!
//! A day is held as the number that chrono gives it, with January 1 of year 1
//! as day 1, so that windows and spans are plain integer intervals. chrono
//! turns year, month and day into that number and a number into text.

use chrono::{Datelike, NaiveDate};
use vstd::prelude::*;

verus! {

/// Number of chrono's earliest date, January 1 of year -262143.
pub const DAY_MIN: i32 = -95_746_129;

/// Number of chrono's latest date, December 31 of year 262142.
pub const DAY_MAX: i32 = 95_745_399;

/// The pattern for a date as year, month and day of the month, joined by hyphens.
pub const ISO_DATE_PATTERN: &'static str = "%F";

/// The pattern for the day of the month and the month, each followed by a full stop.
pub const DAY_MONTH_PATTERN: &'static str = "%d.%m.";

/// The day number that chrono's `NaiveDate::from_ymd_opt` and
/// `num_days_from_ce` give to a year, month and day of the month; `None`
/// where chrono has no such date.
pub uninterp spec fn civil_day_number(year: i32, month: u32, day: u32) -> Option<i32>;

/// The text that chrono's `NaiveDate::format` writes for the date with the
/// given day number under the given pattern.
pub uninterp spec fn calendar_text(number: i32, pattern: Seq<char>) -> Seq<char>;

/// Calls chrono's `NaiveDate::from_ymd_opt` and, on the date it makes,
/// `Datelike::num_days_from_ce`. Trusted: the result is what the name
/// `civil_day_number` stands for.
#[verifier::external_body]
fn chrono_day_number(year: i32, month: u32, day: u32) -> (number: Option<i32>)
    ensures
        number == civil_day_number(year, month, day),
{
    match NaiveDate::from_ymd_opt(year, month, day) {
        Some(date) => Some(date.num_days_from_ce()),
        None => None,
    }
}

/// Calls chrono's `NaiveDate::from_num_days_from_ce_opt` and, on the date it
/// makes, `NaiveDate::format` with one of the two patterns of this module.
/// Trusted: every number between those of `NaiveDate::MIN` and
/// `NaiveDate::MAX` is a date, both patterns are well formed, and the result
/// is what the name `calendar_text` stands for.
#[verifier::external_body]
fn chrono_format_day(number: i32, pattern: &str) -> (text: String)
    requires
        DAY_MIN <= number <= DAY_MAX,
        pattern@ == ISO_DATE_PATTERN@ || pattern@ == DAY_MONTH_PATTERN@,
    ensures
        text@ == calendar_text(number, pattern@),
{
    let date = NaiveDate::from_num_days_from_ce_opt(number).expect("a day number of the calendar");
    date.format(pattern).to_string()
}

/// The number of the day of a year, month and day of the month, where the
/// calendar has that day.
pub open spec fn calendar_day_number(year: i32, month: u32, day: u32) -> Option<i32> {
    match civil_day_number(year, month, day) {
        Some(number) => if DAY_MIN <= number <= DAY_MAX {
            Some(number)
        } else {
            None
        },
        None => None,
    }
}

/// A calendar day.
#[derive(Clone, Copy, Debug, PartialEq, Eq, Structural)]
pub struct Day {
    number: i32,
}

impl View for Day {
    type V = i64;

    closed spec fn view(&self) -> i64 {
        self.number as i64
    }
}

impl Day {
    /// The invariant of the type: the day lies within chrono's calendar.
    pub open spec fn valid(&self) -> bool {
        DAY_MIN <= self@ <= DAY_MAX
    }

    /// A day is its number: days with the same number are the same day.
    pub proof fn lemma_same(self, other: Day)
        ensures
            self@ == other@ <==> self == other,
            i32::MIN <= self@ <= i32::MAX,
    {
    }

    /// The day with the given number; `None` outside the calendar.
    pub fn from_number(number: i32) -> (day: Option<Day>)
        ensures
            day is Some <==> DAY_MIN <= number <= DAY_MAX,
            day matches Some(d) ==> d@ == number,
    {
        if DAY_MIN <= number && number <= DAY_MAX {
            Some(Day { number })
        } else {
            None
        }
    }

    /// The day of a year, month and day of the month; `None` where the
    /// calendar has no such date.
    pub fn from_ymd(year: i32, month: u32, day: u32) -> (made: Option<Day>)
        ensures
            made is Some <==> calendar_day_number(year, month, day) is Some,
            made matches Some(d) ==> d.valid() && calendar_day_number(year, month, day) == Some(
                d@ as i32,
            ),
    {
        match chrono_day_number(year, month, day) {
            Some(number) => Day::from_number(number),
            None => None,
        }
    }

    /// The day's number.
    pub fn number(&self) -> (n: i32)
        ensures
            n == self@,
    {
        self.number
    }

    /// The date as year, month and day of the month, joined by hyphens.
    pub fn iso_text(&self) -> (text: String)
        requires
            self.valid(),
        ensures
            text@ == calendar_text(self@ as i32, ISO_DATE_PATTERN@),
    {
        chrono_format_day(self.number, ISO_DATE_PATTERN)
    }

    /// The day of the month and the month, each followed by a full stop.
    pub fn day_month_text(&self) -> (text: String)
        requires
            self.valid(),
        ensures
            text@ == calendar_text(self@ as i32, DAY_MONTH_PATTERN@),
    {
        chrono_format_day(self.number, DAY_MONTH_PATTERN)
    }

    /// The day `days` days earlier; `None` where that leaves the calendar.
    pub fn minus_days(&self, days: u32) -> (earlier: Option<Day>)
        requires
            self.valid(),
        ensures
            earlier is Some <==> DAY_MIN <= self@ - days,
            earlier matches Some(d) ==> d.valid() && d@ == self@ - days,
    {
        let target: i64 = self.number as i64 - days as i64;
        if target >= DAY_MIN as i64 {
            Some(Day { number: target as i32 })
        } else {
            None
        }
    }
}

} // verus!
