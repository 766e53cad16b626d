use journal::calendar::{
    date_with_weekday, days_in_month, iso_date_text, long_date_text, read_date, stamp_text,
    weekday_abbreviation_of, weekday_name_of, Date, DateTime, Time, MAX_YEAR, MIN_YEAR,
};
use journal::number::{
    decimal_int_text, decimal_text, padded_text, parse_i64, parse_u64,
};
use journal::repeater::{
    calculate_next_occurrence, format_repeater, next_occurrence_on, parse_repeater, shift,
    step_date, RepeaterInfo, RepeaterType, RepeaterUnit,
};

fn date(year: i32, month: u32, day: u32) -> Date {
    Date { year, month, day }
}

fn repeater(interval: i64, unit: RepeaterUnit, repeater_type: RepeaterType) -> RepeaterInfo {
    RepeaterInfo { interval, unit, repeater_type }
}

#[test]
fn months_and_leap_years() {
    assert_eq!(days_in_month(2024, 2), 29);
    assert_eq!(days_in_month(2023, 2), 28);
    assert_eq!(days_in_month(1900, 2), 28);
    assert_eq!(days_in_month(2000, 2), 29);
    assert_eq!(days_in_month(-4, 2), 29);
    assert_eq!(days_in_month(2024, 4), 30);
    assert_eq!(days_in_month(2024, 12), 31);
    assert_eq!(days_in_month(2024, 13), 30);
}

#[test]
fn dates_in_words() {
    let d = date(2025, 1, 5);
    assert_eq!(iso_date_text(d), "2025-01-05");
    assert_eq!(weekday_abbreviation_of(d), "Sun");
    assert_eq!(weekday_name_of(d), "Sunday");
    assert_eq!(date_with_weekday(d), "2025-01-05 Sunday");
    assert_eq!(long_date_text(d), "Sunday, January 05, 2025");
    assert_eq!(long_date_text(date(2024, 12, 31)), "Tuesday, December 31, 2024");
    assert_eq!(iso_date_text(date(7, 2, 3)), "0007-02-03");
    assert_eq!(iso_date_text(date(12345, 2, 3)), "+12345-02-03");
    assert_eq!(iso_date_text(date(-1, 2, 3)), "-0001-02-03");
    assert_eq!(iso_date_text(date(MIN_YEAR, 1, 1)), "-262143-01-01");
    let at = DateTime { date: d, time: Time { hour: 8, minute: 3, second: 9, nanosecond: 0 } };
    assert_eq!(stamp_text(at), "2025-01-05 Sun 08:03");
    let leap = DateTime {
        date: d,
        time: Time { hour: 23, minute: 59, second: 59, nanosecond: 1_500_000_000 },
    };
    assert_eq!(stamp_text(leap), "2025-01-05 Sun 23:59");
}

#[test]
fn every_weekday_and_month() {
    let days = ["Mon", "Tue", "Wed", "Thu", "Fri", "Sat", "Sun"];
    for (i, day) in days.iter().enumerate() {
        assert_eq!(weekday_abbreviation_of(date(2024, 1, 1 + i as u32)), *day);
    }
    let months = [
        "January", "February", "March", "April", "May", "June", "July", "August", "September",
        "October", "November", "December",
    ];
    for (i, month) in months.iter().enumerate() {
        assert!(long_date_text(date(2024, 1 + i as u32, 1)).contains(month));
    }
}

#[test]
fn dates_are_read_back() {
    for d in [date(2025, 1, 15), date(0, 2, 29), date(9999, 12, 31), date(2024, 2, 29)] {
        assert_eq!(read_date(&iso_date_text(d)), Some(d));
    }
    assert_eq!(read_date("2025-02-29"), None);
    assert_eq!(read_date("2025-13-01"), None);
    assert_eq!(read_date("2025-00-10"), None);
    assert_eq!(read_date("tomorrow"), None);
    assert_eq!(read_date("2025-01-15x"), None);
}

#[test]
fn day_numbers() {
    assert_eq!(date(1, 1, 1).day_number(), 1);
    assert_eq!(date(0, 12, 31).day_number(), 0);
    assert_eq!(date(1970, 1, 1).day_number(), 719163);
    assert_eq!(date(2025, 3, 1).days_since(date(2025, 2, 28)), 1);
    assert_eq!(date(2024, 3, 1).days_since(date(2024, 2, 28)), 2);
    assert!(date(2024, 12, 31).before(date(2025, 1, 1)));
    assert!(!date(2025, 1, 1).before(date(2025, 1, 1)));
    assert!(!date(2025, 2, 30).is_valid());
    assert!(date(2024, 2, 29).is_valid());
    assert!(!date(MAX_YEAR + 1, 1, 1).is_valid());
}

#[test]
fn shifting_days() {
    assert_eq!(shift(date(2024, 12, 31), 1), Some(date(2025, 1, 1)));
    assert_eq!(shift(date(2024, 3, 1), -1), Some(date(2024, 2, 29)));
    assert_eq!(shift(date(MAX_YEAR, 12, 31), 1), None);
    assert_eq!(shift(date(MIN_YEAR, 1, 1), -1), None);
    assert_eq!(shift(date(2024, 1, 1), i64::MAX), None);
    assert_eq!(shift(date(MIN_YEAR, 1, 1), 191_491_000 - 1).is_some(), true);
    assert_eq!(shift(shift(date(2024, 5, 6), 1000).unwrap(), -1000), Some(date(2024, 5, 6)));
}

#[test]
fn one_interval_later() {
    let d = date(2025, 1, 31);
    assert_eq!(step_date(d, 1, RepeaterUnit::Day), Some(date(2025, 2, 1)));
    assert_eq!(step_date(d, 2, RepeaterUnit::Week), Some(date(2025, 2, 14)));
    assert_eq!(step_date(d, 1, RepeaterUnit::Month), Some(date(2025, 2, 28)));
    assert_eq!(step_date(d, 13, RepeaterUnit::Month), Some(date(2026, 2, 28)));
    assert_eq!(step_date(d, -1, RepeaterUnit::Month), Some(date(2024, 12, 31)));
    assert_eq!(step_date(date(2024, 2, 29), 1, RepeaterUnit::Year), Some(date(2025, 2, 28)));
    assert_eq!(step_date(date(2024, 2, 29), 4, RepeaterUnit::Year), Some(date(2028, 2, 29)));
    assert_eq!(step_date(d, i64::MAX, RepeaterUnit::Week), None);
    assert_eq!(step_date(d, i64::MIN, RepeaterUnit::Year), None);
    assert_eq!(step_date(date(MAX_YEAR, 12, 1), 1, RepeaterUnit::Month), Some(date(MAX_YEAR, 12, 31)));
}

#[test]
fn coming_back() {
    let today = date(2025, 3, 10);
    let due = date(2025, 1, 15);
    let next = |r: RepeaterInfo| next_occurrence_on(due, &r, Some(today), today);
    assert_eq!(next(repeater(1, RepeaterUnit::Week, RepeaterType::Cumulative)), Some(date(2025, 1, 22)));
    assert_eq!(next(repeater(1, RepeaterUnit::Week, RepeaterType::CatchUp)), Some(date(2025, 3, 12)));
    assert_eq!(next(repeater(1, RepeaterUnit::Month, RepeaterType::CatchUp)), Some(date(2025, 3, 15)));
    assert_eq!(next(repeater(1, RepeaterUnit::Year, RepeaterType::CatchUp)), Some(date(2026, 1, 15)));
    assert_eq!(next(repeater(3, RepeaterUnit::Day, RepeaterType::Restart)), Some(date(2025, 3, 13)));
    assert_eq!(next(repeater(0, RepeaterUnit::Day, RepeaterType::CatchUp)), None);
    assert_eq!(next(repeater(-1, RepeaterUnit::Month, RepeaterType::CatchUp)), None);
    assert_eq!(next(repeater(0, RepeaterUnit::Day, RepeaterType::Cumulative)), Some(due));
    let later = date(2025, 6, 1);
    assert_eq!(
        next_occurrence_on(later, &repeater(1, RepeaterUnit::Day, RepeaterType::CatchUp), None, today),
        Some(date(2025, 6, 2))
    );
    assert_eq!(
        next_occurrence_on(later, &repeater(1, RepeaterUnit::Day, RepeaterType::Restart), None, today),
        Some(date(2025, 3, 11))
    );
    assert_eq!(
        calculate_next_occurrence(due, &repeater(1, RepeaterUnit::Month, RepeaterType::Cumulative), None),
        Some(date(2025, 2, 15))
    );
}

#[test]
fn repeaters_are_read_back() {
    for unit in [RepeaterUnit::Day, RepeaterUnit::Week, RepeaterUnit::Month, RepeaterUnit::Year] {
        for t in [RepeaterType::Cumulative, RepeaterType::CatchUp, RepeaterType::Restart] {
            let r = repeater(12, unit, t);
            let text = format_repeater(&r);
            let digits = text.find("12").unwrap();
            assert_eq!(
                parse_repeater(Some(&text[..digits]), Some("12"), Some(&text[digits + 2..])),
                Some(r)
            );
        }
    }
    assert_eq!(format_repeater(&repeater(1, RepeaterUnit::Week, RepeaterType::Restart)), ".+1w");
    assert_eq!(format_repeater(&repeater(-2, RepeaterUnit::Day, RepeaterType::CatchUp)), "++-2d");
    assert_eq!(parse_repeater(Some("+."), Some("1"), Some("d")), None);
    assert_eq!(parse_repeater(Some("+"), Some("99999999999999999999"), Some("d")), None);
    assert_eq!(parse_repeater(Some("+"), Some("1"), Some("h")), None);
    assert_eq!(parse_repeater(None, Some("1"), Some("d")), None);
}

#[test]
fn numbers_in_decimal() {
    assert_eq!(decimal_text(0), "0");
    assert_eq!(decimal_text(u128::MAX), u128::MAX.to_string());
    assert_eq!(decimal_int_text(i64::MIN), i64::MIN.to_string());
    assert_eq!(padded_text(7, 2), "07");
    assert_eq!(padded_text(123, 2), "123");
    assert_eq!(parse_i64("-9223372036854775808"), Some(i64::MIN));
    assert_eq!(parse_i64("9223372036854775808"), None);
    assert_eq!(parse_i64("+5"), Some(5));
    assert_eq!(parse_i64("-"), None);
    assert_eq!(parse_i64(""), None);
    assert_eq!(parse_u64("18446744073709551615"), Some(u64::MAX));
    assert_eq!(parse_u64("18446744073709551616"), None);
    assert_eq!(parse_u64("-1"), None);
    assert_eq!(parse_u64("1x"), None);
}
