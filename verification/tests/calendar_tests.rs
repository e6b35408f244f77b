use chrono::{Datelike, NaiveDate};
use edit_days::calendar::{Day, DAY_MAX, DAY_MIN};
use edit_days::timestamp::{day_from_text, read_date_fields, Timestamp};

#[test]
fn calendar_bounds_are_those_of_chrono() {
    assert_eq!(NaiveDate::MIN.num_days_from_ce(), DAY_MIN);
    assert_eq!(NaiveDate::MAX.num_days_from_ce(), DAY_MAX);
    assert!(NaiveDate::from_num_days_from_ce_opt(DAY_MIN - 1).is_none());
    assert!(NaiveDate::from_num_days_from_ce_opt(DAY_MAX + 1).is_none());
}

#[test]
fn day_from_number_accepts_the_calendar_only() {
    assert_eq!(Day::from_number(DAY_MIN).map(|d| d.number()), Some(DAY_MIN));
    assert_eq!(Day::from_number(DAY_MAX).map(|d| d.number()), Some(DAY_MAX));
    assert_eq!(Day::from_number(DAY_MIN - 1), None);
    assert_eq!(Day::from_number(DAY_MAX + 1), None);
    assert_eq!(Day::from_number(i32::MAX), None);
    assert_eq!(Day::from_number(i32::MIN), None);
}

#[test]
fn day_from_ymd_numbers_days_from_year_one() {
    assert_eq!(Day::from_ymd(1, 1, 1).unwrap().number(), 1);
    assert_eq!(Day::from_ymd(0, 12, 31).unwrap().number(), 0);
    assert_eq!(Day::from_ymd(1970, 1, 1).unwrap().number(), 719_163);
    assert_eq!(Day::from_ymd(2020, 1, 1).unwrap().number(), 737_425);
    assert_eq!(Day::from_ymd(2020, 1, 2).unwrap().number(), 737_426);
}

#[test]
fn day_from_ymd_rejects_dates_that_do_not_exist() {
    assert_eq!(Day::from_ymd(2023, 4, 31), None);
    assert_eq!(Day::from_ymd(2015, 2, 29), None);
    assert_eq!(Day::from_ymd(2015, 0, 14), None);
    assert_eq!(Day::from_ymd(2015, 13, 1), None);
    assert_eq!(Day::from_ymd(400_000, 1, 1), None);
    assert!(Day::from_ymd(2016, 2, 29).is_some());
}

#[test]
fn iso_text_writes_year_month_day() {
    assert_eq!(Day::from_ymd(2020, 1, 2).unwrap().iso_text(), "2020-01-02");
    assert_eq!(Day::from_ymd(1999, 12, 31).unwrap().iso_text(), "1999-12-31");
    assert_eq!(Day::from_number(1).unwrap().iso_text(), "0001-01-01");
}

#[test]
fn day_month_text_writes_day_then_month() {
    assert_eq!(Day::from_ymd(2020, 1, 2).unwrap().day_month_text(), "02.01.");
    assert_eq!(Day::from_ymd(2021, 11, 30).unwrap().day_month_text(), "30.11.");
}

#[test]
fn texts_exist_at_both_ends_of_the_calendar() {
    let first = Day::from_number(DAY_MIN).unwrap();
    let last = Day::from_number(DAY_MAX).unwrap();
    assert_eq!(first.day_month_text(), "01.01.");
    assert_eq!(last.day_month_text(), "31.12.");
    assert_eq!(first.iso_text(), NaiveDate::MIN.format("%F").to_string());
    assert_eq!(last.iso_text(), NaiveDate::MAX.format("%F").to_string());
}

#[test]
fn minus_days_steps_back_and_stops_at_the_calendar() {
    let day = Day::from_ymd(2020, 1, 2).unwrap();
    assert_eq!(day.minus_days(0), Some(day));
    assert_eq!(day.minus_days(1), Day::from_ymd(2020, 1, 1));
    assert_eq!(day.minus_days(366), Day::from_ymd(2019, 1, 1));
    let first = Day::from_number(DAY_MIN).unwrap();
    assert_eq!(first.minus_days(0), Some(first));
    assert_eq!(first.minus_days(1), None);
    assert_eq!(day.minus_days(u32::MAX), None);
    let near = Day::from_number(DAY_MIN + 5).unwrap();
    assert_eq!(near.minus_days(5), Some(first));
    assert_eq!(near.minus_days(6), None);
}

#[test]
fn date_fields_are_read_by_position() {
    assert_eq!(read_date_fields(b"2020-01-02T03:04:05Z"), Some((2020, 1, 2)));
    assert_eq!(read_date_fields(b"2020-01-02"), Some((2020, 1, 2)));
    assert_eq!(read_date_fields(b"1999x12y31 and more"), Some((1999, 12, 31)));
    assert_eq!(read_date_fields(b"0000-00-00"), Some((0, 0, 0)));
    assert_eq!(read_date_fields(b"9999-99-99"), Some((9999, 99, 99)));
}

#[test]
fn date_fields_take_signs_as_number_parsing_does() {
    assert_eq!(read_date_fields(b"+123-01-02"), Some((123, 1, 2)));
    assert_eq!(read_date_fields(b"-123-01-02"), Some((-123, 1, 2)));
    assert_eq!(read_date_fields(b"-000-01-02"), Some((0, 1, 2)));
    assert_eq!(read_date_fields(b"2020-+1-+2"), Some((2020, 1, 2)));
    assert_eq!(read_date_fields(b"2020--1-02"), None);
    assert_eq!(read_date_fields(b"2020-01--2"), None);
    assert_eq!(read_date_fields(b"+-12-01-02"), None);
    assert_eq!(read_date_fields(b"2020-++-02"), None);
}

#[test]
fn date_fields_reject_what_is_no_number() {
    assert_eq!(read_date_fields(b""), None);
    assert_eq!(read_date_fields(b"2020-01-0"), None);
    assert_eq!(read_date_fields(b"20a0-01-02"), None);
    assert_eq!(read_date_fields(b"2020-0a-02"), None);
    assert_eq!(read_date_fields(b"2020-01-b2"), None);
    assert_eq!(read_date_fields(b" 020-01-02"), None);
    assert_eq!(read_date_fields(b"2020-1 -02"), None);
    assert_eq!(read_date_fields("20\u{e9}0-01-02".as_bytes()), None);
}

#[test]
fn day_from_text_reads_the_date_of_a_timestamp() {
    assert_eq!(day_from_text("2020-01-02T03:04:05Z"), Day::from_ymd(2020, 1, 2));
    assert_eq!(day_from_text("2020-01-02T23:59:59+02:00"), Day::from_ymd(2020, 1, 2));
    assert_eq!(day_from_text("2020-02-30T00:00:00Z"), None);
    assert_eq!(day_from_text("2020-00-10T00:00:00Z"), None);
    assert_eq!(day_from_text("yesterday"), None);
    assert_eq!(day_from_text(""), None);
}

#[test]
fn timestamp_in_seconds_has_text_and_day() {
    let time = Timestamp::Epoch(1_577_836_800);
    assert_eq!(time.epoch(), 1_577_836_800);
    assert_eq!(time.text(), "2020-01-01T00:00:00Z");
    assert_eq!(time.day(), Day::from_ymd(2020, 1, 1));
    let late = Timestamp::Epoch(1_577_836_800 + 86_399);
    assert_eq!(late.text(), "2020-01-01T23:59:59Z");
    assert_eq!(late.day(), Day::from_ymd(2020, 1, 1));
    assert_eq!(Timestamp::Epoch(0).day(), Day::from_ymd(1970, 1, 1));
}

#[test]
fn timestamp_as_text_has_seconds_and_day() {
    let time = Timestamp::Iso("2020-01-02T00:00:10Z".to_string());
    assert_eq!(time.text(), "2020-01-02T00:00:10Z");
    assert_eq!(time.epoch(), 1_577_923_210);
    assert_eq!(time.day(), Day::from_ymd(2020, 1, 2));
    let unreadable = Timestamp::Iso("soon".to_string());
    assert_eq!(unreadable.text(), "soon");
    assert_eq!(unreadable.epoch(), 0);
    assert_eq!(unreadable.day(), None);
}
