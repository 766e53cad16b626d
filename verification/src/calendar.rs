//! Dates, times of day, and how they are written.
use crate::number::{all_digits, lemma_decimal_len, lemma_padded, padded, value};
use chrono::{Datelike, Timelike};
use vstd::prelude::*;
use vstd::string::*;

verus! {

/// The first year of the calendar.
pub const MIN_YEAR: i32 = -262143;

/// The last year of the calendar.
pub const MAX_YEAR: i32 = 262142;

/// A day of the Gregorian calendar, extended to all years.
#[derive(Clone, Copy, Debug, PartialEq, Eq, Structural)]
pub struct Date {
    pub year: i32,
    pub month: u32,
    pub day: u32,
}

/// A time of day. During a leap second the nanoseconds go on past the second.
#[derive(Clone, Copy, Debug, PartialEq, Eq, Structural)]
pub struct Time {
    pub hour: u32,
    pub minute: u32,
    pub second: u32,
    pub nanosecond: u32,
}

/// A time on a day.
#[derive(Clone, Copy, Debug, PartialEq, Eq, Structural)]
pub struct DateTime {
    pub date: Date,
    pub time: Time,
}

/// The year has a 29th of February.
pub open spec fn is_leap_year(year: int) -> bool {
    year % 4 == 0 && (year % 100 != 0 || year % 400 == 0)
}

/// The number of days in a month; thirty for a number that is no month.
pub open spec fn month_days(year: int, month: int) -> int {
    if month == 1 || month == 3 || month == 5 || month == 7 || month == 8 || month == 10 || month
        == 12 {
        31
    } else if month == 2 {
        if is_leap_year(year) {
            29
        } else {
            28
        }
    } else {
        30
    }
}

/// The number of days in the year before the month.
pub open spec fn days_before_month(year: int, month: int) -> int
    decreases month,
{
    if month <= 1 {
        0
    } else {
        days_before_month(year, month - 1) + month_days(year, month - 1)
    }
}

/// The number of days between the start of the year 1 and the start of the year.
pub open spec fn days_before_year(year: int) -> int {
    let y = year - 1;
    365 * y + y / 4 - y / 100 + y / 400
}

/// The year, month and day make a date of the calendar.
pub open spec fn is_date(year: int, month: int, day: int) -> bool {
    &&& MIN_YEAR <= year <= MAX_YEAR
    &&& 1 <= month <= 12
    &&& 1 <= day <= month_days(year, month)
}

/// The number of the day, counted from the first day of the year 1, which is 1.
pub open spec fn day_number(year: int, month: int, day: int) -> int {
    days_before_year(year) + days_before_month(year, month) + day
}

/// The number is that of a day of the calendar.
pub open spec fn in_calendar(n: int) -> bool {
    day_number(MIN_YEAR as int, 1, 1) <= n <= day_number(MAX_YEAR as int, 12, 31)
}

impl Date {
    /// The fields make a date of the calendar.
    pub open spec fn valid(self) -> bool {
        is_date(self.year as int, self.month as int, self.day as int)
    }

    /// The number of the day, counted from the first day of the year 1, which is 1.
    pub open spec fn number(self) -> int {
        day_number(self.year as int, self.month as int, self.day as int)
    }

    /// The day of the week: 0 is Sunday.
    pub open spec fn weekday(self) -> int {
        self.number() % 7
    }

    /// The number of days from `other` to this date.
    pub fn days_since(&self, other: Date) -> (r: i64)
        requires
            self.valid(),
            other.valid(),
        ensures
            r == self.number() - other.number(),
    {
        self.day_number() - other.day_number()
    }

    /// The number of the day, counted from the first day of the year 1, which is 1.
    pub fn day_number(&self) -> (r: i64)
        requires
            self.valid(),
        ensures
            r == self.number(),
            -100_000_000 <= r <= 100_000_000,
    {
        let mut days: i64 = year_start(self.year) + self.day as i64;
        let mut month: u32 = 1;
        let ghost start = days;
        while month < self.month
            invariant
                self.valid(),
                1 <= month <= self.month,
                days == start + days_before_month(self.year as int, month as int),
                -99_000_000 <= start <= 99_000_000,
                0 <= days_before_month(self.year as int, month as int) <= 31 * (month - 1),
            decreases self.month - month,
        {
            days = days + days_in_month(self.year, month) as i64;
            month = month + 1;
        }
        days
    }

    /// Whether this date comes before the other.
    pub fn before(&self, other: Date) -> (r: bool)
        requires
            self.valid(),
            other.valid(),
        ensures
            r == (self.number() < other.number()),
    {
        self.day_number() < other.day_number()
    }

    /// Whether the fields make a date of the calendar.
    pub fn is_valid(&self) -> (r: bool)
        ensures
            r == self.valid(),
    {
        MIN_YEAR <= self.year && self.year <= MAX_YEAR && 1 <= self.month && self.month <= 12 && 1
            <= self.day && self.day <= days_in_month(self.year, self.month)
    }
}

/// Dates with the same number are the same.
pub proof fn lemma_number_injective(a: Date, b: Date)
    requires
        a.valid(),
        b.valid(),
        a.number() == b.number(),
    ensures
        a == b,
{
    if a.year < b.year {
        lemma_year_order(a, b);
    } else if b.year < a.year {
        lemma_year_order(b, a);
    } else if a.month < b.month {
        lemma_month_order(a, b);
    } else if b.month < a.month {
        lemma_month_order(b, a);
    }
}

/// Dates are ordered by year, then month, then day.
pub proof fn lemma_number_order(a: Date, b: Date)
    requires
        a.valid(),
        b.valid(),
    ensures
        a.number() < b.number() <==> {
            ||| a.year < b.year
            ||| a.year == b.year && a.month < b.month
            ||| a.year == b.year && a.month == b.month && a.day < b.day
        },
{
    if a.year < b.year {
        lemma_year_order(a, b);
    } else if b.year < a.year {
        lemma_year_order(b, a);
    } else if a.month < b.month {
        lemma_month_order(a, b);
    } else if b.month < a.month {
        lemma_month_order(b, a);
    }
}

proof fn lemma_days_before_month(year: int, month: int)
    requires
        1 <= month <= 13,
    ensures
        0 <= days_before_month(year, month),
        month == 13 ==> days_before_month(year, month) == (if is_leap_year(year) {
            366int
        } else {
            365
        }),
{
    reveal_with_fuel(days_before_month, 13);
}

proof fn lemma_month_monotone(year: int, m1: int, m2: int)
    requires
        1 <= m1 <= m2 <= 13,
    ensures
        days_before_month(year, m1) <= days_before_month(year, m2),
    decreases m2 - m1,
{
    if m1 < m2 {
        lemma_month_monotone(year, m1, m2 - 1);
    }
}

proof fn lemma_month_order(a: Date, b: Date)
    requires
        a.valid(),
        b.valid(),
        a.year == b.year,
        a.month < b.month,
    ensures
        a.number() < b.number(),
{
    lemma_month_monotone(a.year as int, a.month + 1, b.month as int);
}

/// A year starts when the year before it is over.
pub proof fn lemma_next_year(year: int)
    ensures
        days_before_year(year + 1) == days_before_year(year) + days_before_month(year, 13),
{
    lemma_days_before_month(year, 13);
    let y = year - 1;
    assert(year / 4 == y / 4 + (if year % 4 == 0 { 1int } else { 0 }));
    assert(year / 100 == y / 100 + (if year % 100 == 0 { 1int } else { 0 }));
    assert(year / 400 == y / 400 + (if year % 400 == 0 { 1int } else { 0 }));
    assert(year % 100 == 0 ==> year % 4 == 0);
    assert(year % 400 == 0 ==> year % 100 == 0);
}

proof fn lemma_year_monotone(y1: int, y2: int)
    requires
        y1 <= y2,
    ensures
        days_before_year(y1) + 365 * (y2 - y1) <= days_before_year(y2),
    decreases y2 - y1,
{
    if y1 < y2 {
        lemma_year_monotone(y1, y2 - 1);
        lemma_next_year(y2 - 1);
        lemma_days_before_month(y2 - 1, 13);
    }
}

proof fn lemma_in_year(a: Date)
    requires
        a.valid(),
    ensures
        days_before_year(a.year as int) < a.number() <= days_before_year(a.year + 1),
{
    lemma_days_before_month(a.year as int, a.month as int);
    lemma_month_monotone(a.year as int, a.month + 1, 13);
    lemma_next_year(a.year as int);
}

proof fn lemma_year_order(a: Date, b: Date)
    requires
        a.valid(),
        b.valid(),
        a.year < b.year,
    ensures
        a.number() < b.number(),
{
    lemma_in_year(a);
    lemma_in_year(b);
    lemma_year_monotone(a.year + 1, b.year as int);
}

/// The number of a date is that of a day of the calendar.
pub proof fn lemma_in_calendar(a: Date)
    requires
        a.valid(),
    ensures
        in_calendar(a.number()),
{
    lemma_in_year(a);
    lemma_year_monotone(MIN_YEAR as int, a.year as int);
    lemma_year_monotone(a.year + 1, MAX_YEAR + 1);
    lemma_next_year(MAX_YEAR as int);
    reveal_with_fuel(days_before_month, 13);
}

/// Every number in the calendar is that of a date.
pub proof fn lemma_date_exists(n: int)
    requires
        in_calendar(n),
    ensures
        exists|d: Date| d.valid() && d.number() == n,
    decreases n - day_number(MIN_YEAR as int, 1, 1),
{
    if n == day_number(MIN_YEAR as int, 1, 1) {
        let first = Date { year: MIN_YEAR, month: 1, day: 1 };
        assert(first.valid() && first.number() == n);
    } else {
        lemma_date_exists(n - 1);
        let d = choose|d: Date| d.valid() && d.number() == n - 1;
        let next = if d.day < month_days(d.year as int, d.month as int) {
            Date { day: (d.day + 1) as u32, ..d }
        } else if d.month < 12 {
            Date { year: d.year, month: (d.month + 1) as u32, day: 1 }
        } else {
            Date { year: (d.year + 1) as i32, month: 1, day: 1 }
        };
        reveal_with_fuel(days_before_month, 2);
        if d.month == 12 && d.day == month_days(d.year as int, 12) {
            lemma_next_year(d.year as int);
            assert(days_before_month(d.year as int, 13) == days_before_month(d.year as int, 12) + 31);
            if d.year == MAX_YEAR {
                assert(d.number() == day_number(MAX_YEAR as int, 12, 31));
            }
        }
        assert(next.valid() && next.number() == n);
    }
}

/// The number of days between the start of the year 1 and the start of the year.
fn year_start(year: i32) -> (r: i64)
    requires
        MIN_YEAR <= year <= MAX_YEAR,
    ensures
        r == days_before_year(year as int),
        -98_000_000 <= r <= 98_000_000,
{
    let y: i64 = year as i64 - 1 + 400_000;
    proof {
        let z = year - 1;
        assert(y / 4 == z / 4 + 100_000);
        assert(y / 100 == z / 100 + 4_000);
        assert(y / 400 == z / 400 + 1_000);
    }
    365 * y + y / 4 - y / 100 + y / 400 - 146_097_000
}

/// The number of days in a month; thirty for a number that is no month.
pub fn days_in_month(year: i32, month: u32) -> (r: u32)
    ensures
        r == month_days(year as int, month as int),
{
    match month {
        1 | 3 | 5 | 7 | 8 | 10 | 12 => 31,
        4 | 6 | 9 | 11 => 30,
        2 => {
            let y: i64 = year as i64 + 2_400_000_000;
            proof {
                let z = year as int;
                assert(y as int % 4 == z % 4) by (nonlinear_arith)
                    requires
                        y == z + 4 * 600_000_000,
                ;
                assert(y as int % 100 == z % 100) by (nonlinear_arith)
                    requires
                        y == z + 100 * 24_000_000,
                ;
                assert(y as int % 400 == z % 400) by (nonlinear_arith)
                    requires
                        y == z + 400 * 6_000_000,
                ;
            }
            if y % 4 == 0 && (y % 100 != 0 || y % 400 == 0) {
                29
            } else {
                28
            }
        },
        _ => 30,
    }
}

/// The date a number of days later, through `NaiveDate::checked_add_signed`: the date whose
/// number is that many greater, unless it lies outside the calendar.
#[verifier::external_body]
pub(crate) fn add_days(date: Date, days: i64) -> (r: Option<Date>)
    requires
        date.valid(),
    ensures
        match r {
            Some(d) => d.valid() && d.number() == date.number() + days,
            None => !in_calendar(date.number() + days),
        },
{
    let start = chrono::NaiveDate::from_ymd_opt(date.year, date.month, date.day)?;
    let end = start.checked_add_signed(chrono::TimeDelta::try_days(days)?)?;
    Some(Date { year: end.year(), month: end.month(), day: end.day() })
}

impl Time {
    /// The fields make a time of day.
    pub open spec fn valid(self) -> bool {
        &&& self.hour < 24 && self.minute < 60 && self.second < 60
        &&& self.nanosecond < 1_000_000_000 || self.second == 59 && self.nanosecond < 2_000_000_000
    }
}

impl DateTime {
    /// The fields make a time on a day of the calendar.
    pub open spec fn valid(self) -> bool {
        self.date.valid() && self.time.valid()
    }
}

/// The time shown by the clock of the machine, through `chrono::Local::now`. Nothing is claimed of
/// it but that it is a time.
#[verifier::external_body]
pub(crate) fn local_now() -> (r: DateTime)
    ensures
        r.valid(),
{
    let now = chrono::Local::now().naive_local();
    DateTime {
        date: Date { year: now.year(), month: now.month(), day: now.day() },
        time: Time {
            hour: now.hour(),
            minute: now.minute(),
            second: now.second(),
            nanosecond: now.nanosecond(),
        },
    }
}

/// A year as dates show it: four digits, or a sign and at least four digits.
pub open spec fn year_text(year: int) -> Seq<char> {
    if 0 <= year <= 9999 {
        padded(year as nat, 4)
    } else if year < 0 {
        seq!['-'] + padded((-year) as nat, 4)
    } else {
        seq!['+'] + padded(year as nat, 4)
    }
}

/// The English name of a day of the week: 0 is Sunday.
pub open spec fn weekday_name(weekday: int) -> Seq<char> {
    if weekday == 0 {
        "Sunday"@
    } else if weekday == 1 {
        "Monday"@
    } else if weekday == 2 {
        "Tuesday"@
    } else if weekday == 3 {
        "Wednesday"@
    } else if weekday == 4 {
        "Thursday"@
    } else if weekday == 5 {
        "Friday"@
    } else {
        "Saturday"@
    }
}

/// The three letters that stand for a day of the week: 0 is Sunday.
pub open spec fn weekday_abbreviation(weekday: int) -> Seq<char> {
    if weekday == 0 {
        "Sun"@
    } else if weekday == 1 {
        "Mon"@
    } else if weekday == 2 {
        "Tue"@
    } else if weekday == 3 {
        "Wed"@
    } else if weekday == 4 {
        "Thu"@
    } else if weekday == 5 {
        "Fri"@
    } else {
        "Sat"@
    }
}

/// The English name of a month.
pub open spec fn month_name(month: int) -> Seq<char> {
    if month == 1 {
        "January"@
    } else if month == 2 {
        "February"@
    } else if month == 3 {
        "March"@
    } else if month == 4 {
        "April"@
    } else if month == 5 {
        "May"@
    } else if month == 6 {
        "June"@
    } else if month == 7 {
        "July"@
    } else if month == 8 {
        "August"@
    } else if month == 9 {
        "September"@
    } else if month == 10 {
        "October"@
    } else if month == 11 {
        "November"@
    } else {
        "December"@
    }
}

/// What the letter after a percent sign stands for in a format, if it is one of those in use.
pub open spec fn format_field(letter: char, at: DateTime) -> Option<Seq<char>> {
    if letter == 'Y' {
        Some(year_text(at.date.year as int))
    } else if letter == 'm' {
        Some(padded(at.date.month as nat, 2))
    } else if letter == 'd' {
        Some(padded(at.date.day as nat, 2))
    } else if letter == 'a' {
        Some(weekday_abbreviation(at.date.weekday()))
    } else if letter == 'A' {
        Some(weekday_name(at.date.weekday()))
    } else if letter == 'B' {
        Some(month_name(at.date.month as int))
    } else if letter == 'H' {
        Some(padded(at.time.hour as nat, 2))
    } else if letter == 'M' {
        Some(padded(at.time.minute as nat, 2))
    } else {
        None
    }
}

/// A time in a format: each percent sign and the letter after it are replaced by what they stand
/// for, and every other character stays. `None` where a letter is not one of those in use.
pub open spec fn formatted(at: DateTime, format: Seq<char>) -> Option<Seq<char>>
    decreases format.len(),
{
    if format.len() == 0 {
        Some(Seq::empty())
    } else if format[0] != '%' {
        match formatted(at, format.skip(1)) {
            Some(rest) => Some(seq![format[0]] + rest),
            None => None,
        }
    } else if format.len() < 2 {
        None
    } else {
        match (format_field(format[1], at), formatted(at, format.skip(2))) {
            (Some(field), Some(rest)) => Some(field + rest),
            _ => None,
        }
    }
}

/// A time in a format, through `NaiveDateTime::format`: its fields are written as two digits, as a
/// year, or by their English names, and what is no field is copied.
#[verifier::external_body]
fn format_time(at: DateTime, format: &str) -> (r: String)
    requires
        at.valid(),
        formatted(at, format@) is Some,
    ensures
        Some(r@) == formatted(at, format@),
{
    let date = chrono::NaiveDate::from_ymd_opt(at.date.year, at.date.month, at.date.day).unwrap();
    let time = chrono::NaiveTime::from_hms_nano_opt(
        at.time.hour,
        at.time.minute,
        at.time.second,
        at.time.nanosecond,
    );
    date.and_time(time.unwrap()).format(format).to_string()
}

/// The rest of a format from a place on, in terms of what follows that place.
proof fn lemma_format_step(at: DateTime, s: Seq<char>, i: int)
    requires
        0 <= i < s.len(),
    ensures
        s[i] != '%' ==> (formatted(at, s.skip(i + 1)) matches Some(rest) ==> formatted(at, s.skip(i))
            == Some(seq![s[i]] + rest)),
        s[i] == '%' && i + 1 < s.len() ==> (format_field(s[i + 1], at) matches Some(field) ==> (
        formatted(at, s.skip(i + 2)) matches Some(rest) ==> formatted(at, s.skip(i)) == Some(
            field + rest,
        ))),
{
    let t = s.skip(i);
    assert(t.skip(1) == s.skip(i + 1));
    if i + 1 < s.len() {
        assert(t.skip(2) == s.skip(i + 2));
        assert(t[1] == s[i + 1]);
    }
    assert(t[0] == s[i]);
}

/// A date as `year-month-day`.
pub open spec fn iso_date(date: Date) -> Seq<char> {
    year_text(date.year as int) + "-"@ + padded(date.month as nat, 2) + "-"@ + padded(
        date.day as nat,
        2,
    )
}

/// The start of a date.
fn midnight(date: Date) -> (r: DateTime)
    ensures
        r.date == date,
        r.time.valid(),
{
    DateTime { date, time: Time { hour: 0, minute: 0, second: 0, nanosecond: 0 } }
}

/// A date as `year-month-day`.
pub fn iso_date_text(date: Date) -> (r: String)
    requires
        date.valid(),
    ensures
        r@ == iso_date(date),
{
    let at = midnight(date);
    proof {
        reveal_strlit("%Y-%m-%d");
        reveal_strlit("-");
        let f = "%Y-%m-%d"@;
        assert(f.subrange(0, 8) == f);
        lemma_iso_format(at, f, 0);
        assert(f.skip(0) == f);
        assert(f.skip(8) == Seq::<char>::empty());
        assert(iso_date(date) + Seq::<char>::empty() == iso_date(date));
    }
    format_time(at, "%Y-%m-%d")
}

/// A format that goes on with `%Y-%m-%d` writes the date and goes on.
proof fn lemma_iso_format(at: DateTime, f: Seq<char>, i: int)
    requires
        0 <= i,
        i + 8 <= f.len(),
        f.subrange(i, i + 8) == "%Y-%m-%d"@,
        formatted(at, f.skip(i + 8)) is Some,
    ensures
        formatted(at, f.skip(i)) == Some(iso_date(at.date) + formatted(at, f.skip(i + 8))->0),
{
    reveal_strlit("%Y-%m-%d");
    reveal_strlit("-");
    let g = f.subrange(i, i + 8);
    assert(g[0] == f[i] && g[1] == f[i + 1] && g[2] == f[i + 2] && g[3] == f[i + 3]);
    assert(g[4] == f[i + 4] && g[5] == f[i + 5] && g[6] == f[i + 6] && g[7] == f[i + 7]);
    lemma_format_step(at, f, i + 6);
    lemma_format_step(at, f, i + 5);
    lemma_format_step(at, f, i + 3);
    lemma_format_step(at, f, i + 2);
    lemma_format_step(at, f, i);
    assert(formatted(at, f.skip(i))->0 == iso_date(at.date) + formatted(at, f.skip(i + 8))->0);
}

/// The three letters that stand for the day of the week of a date.
pub fn weekday_abbreviation_of(date: Date) -> (r: String)
    requires
        date.valid(),
    ensures
        r@ == weekday_abbreviation(date.weekday()),
{
    let at = midnight(date);
    proof {
        reveal_strlit("%a");
        let f = "%a"@;
        lemma_format_step(at, f, 0);
        assert(f.skip(0) == f);
        assert(f.skip(2) == Seq::<char>::empty());
        let field = weekday_abbreviation(date.weekday());
        assert(field + Seq::<char>::empty() == field);
    }
    format_time(at, "%a")
}

/// The name of the day of the week of a date.
pub fn weekday_name_of(date: Date) -> (r: String)
    requires
        date.valid(),
    ensures
        r@ == weekday_name(date.weekday()),
{
    let at = midnight(date);
    proof {
        reveal_strlit("%A");
        let f = "%A"@;
        lemma_format_step(at, f, 0);
        assert(f.skip(0) == f);
        assert(f.skip(2) == Seq::<char>::empty());
        let field = weekday_name(date.weekday());
        assert(field + Seq::<char>::empty() == field);
    }
    format_time(at, "%A")
}

/// A date as `year-month-day weekday`, with the weekday's name.
pub fn date_with_weekday(date: Date) -> (r: String)
    requires
        date.valid(),
    ensures
        r@ == iso_date(date) + " "@ + weekday_name(date.weekday()),
{
    let at = midnight(date);
    proof {
        reveal_strlit("%Y-%m-%d %A");
        reveal_strlit("%Y-%m-%d");
        reveal_strlit(" ");
        let f = "%Y-%m-%d %A"@;
        assert(f.skip(11) == Seq::<char>::empty());
        lemma_format_step(at, f, 9);
        lemma_format_step(at, f, 8);
        assert(f.subrange(0, 8) == "%Y-%m-%d"@);
        lemma_iso_format(at, f, 0);
        assert(f.skip(0) == f);
        assert(formatted(at, f)->0 == iso_date(date) + " "@ + weekday_name(date.weekday()));
    }
    format_time(at, "%Y-%m-%d %A")
}

/// A date as `weekday, month day, year`, with the names of the weekday and the month.
pub open spec fn long_date(date: Date) -> Seq<char> {
    weekday_name(date.weekday()) + ", "@ + month_name(date.month as int) + " "@ + padded(
        date.day as nat,
        2,
    ) + ", "@ + year_text(date.year as int)
}

/// A date as `weekday, month day, year`, with the names of the weekday and the month.
pub fn long_date_text(date: Date) -> (r: String)
    requires
        date.valid(),
    ensures
        r@ == long_date(date),
{
    let at = midnight(date);
    proof {
        reveal_strlit("%A, %B %d, %Y");
        reveal_strlit(", ");
        reveal_strlit(" ");
        let f = "%A, %B %d, %Y"@;
        assert(f.skip(13) == Seq::<char>::empty());
        lemma_format_step(at, f, 11);
        lemma_format_step(at, f, 10);
        lemma_format_step(at, f, 9);
        lemma_format_step(at, f, 7);
        lemma_format_step(at, f, 6);
        lemma_format_step(at, f, 4);
        lemma_format_step(at, f, 3);
        lemma_format_step(at, f, 2);
        lemma_format_step(at, f, 0);
        assert(f.skip(0) == f);
        assert(formatted(at, f)->0 == long_date(date));
    }
    format_time(at, "%A, %B %d, %Y")
}

/// A time as `year-month-day weekday hour:minute`.
pub open spec fn stamp(at: DateTime) -> Seq<char> {
    iso_date(at.date) + " "@ + weekday_abbreviation(at.date.weekday()) + " "@ + padded(
        at.time.hour as nat,
        2,
    ) + ":"@ + padded(at.time.minute as nat, 2)
}

/// A time as `year-month-day weekday hour:minute`.
pub fn stamp_text(at: DateTime) -> (r: String)
    requires
        at.valid(),
    ensures
        r@ == stamp(at),
{
    proof {
        reveal_strlit("%Y-%m-%d %a %H:%M");
        reveal_strlit("%Y-%m-%d");
        reveal_strlit(" ");
        reveal_strlit(":");
        let f = "%Y-%m-%d %a %H:%M"@;
        assert(f.skip(17) == Seq::<char>::empty());
        lemma_format_step(at, f, 15);
        lemma_format_step(at, f, 14);
        lemma_format_step(at, f, 12);
        lemma_format_step(at, f, 11);
        lemma_format_step(at, f, 9);
        lemma_format_step(at, f, 8);
        assert(f.subrange(0, 8) == "%Y-%m-%d"@);
        lemma_iso_format(at, f, 0);
        assert(f.skip(0) == f);
        assert(formatted(at, f)->0 == stamp(at));
    }
    format_time(at, "%Y-%m-%d %a %H:%M")
}

/// The text is four digits, two digits and two digits, with hyphens between them.
pub open spec fn is_iso_shape(s: Seq<char>) -> bool {
    &&& s.len() == 10
    &&& s[4] == '-' && s[7] == '-'
    &&& all_digits(s.subrange(0, 4)) && all_digits(s.subrange(5, 7)) && all_digits(
        s.subrange(8, 10),
    )
}

/// The year, month and day that `NaiveDate::parse_from_str` reads from a text with the format
/// `%Y-%m-%d`.
pub uninterp spec fn parsed_date(s: Seq<char>) -> Option<Date>;

/// The date in a text, through `NaiveDate::parse_from_str` with the format `%Y-%m-%d`. What it
/// reads is a date of the calendar. From four, two and two digits with hyphens between them it
/// reads the date with these numbers, if there is one. What it reads from a text of another shape
/// (shorter numbers, signs, spaces) is left to its name.
#[verifier::external_body]
pub(crate) fn parse_date(s: &str) -> (r: Option<Date>)
    ensures
        r == parsed_date(s@),
        r is Some ==> r->0.valid(),
        is_iso_shape(s@) ==> {
            let year = value(s@.subrange(0, 4)) as int;
            let month = value(s@.subrange(5, 7)) as int;
            let day = value(s@.subrange(8, 10)) as int;
            match r {
                Some(d) => d.year == year && d.month == month && d.day == day,
                None => !is_date(year, month, day),
            }
        },
{
    let date = chrono::NaiveDate::parse_from_str(s, "%Y-%m-%d").ok()?;
    Some(Date { year: date.year(), month: date.month(), day: date.day() })
}

/// A date of the years 0 to 9999 is written as four, two and two digits, which are its numbers.
pub proof fn lemma_iso_date_shape(date: Date)
    requires
        date.valid(),
        0 <= date.year <= 9999,
    ensures
        is_iso_shape(iso_date(date)),
        value(iso_date(date).subrange(0, 4)) == date.year,
        value(iso_date(date).subrange(5, 7)) == date.month,
        value(iso_date(date).subrange(8, 10)) == date.day,
{
    reveal_strlit("-");
    let s = iso_date(date);
    lemma_padded(date.year as nat, 4);
    lemma_padded(date.month as nat, 2);
    lemma_padded(date.day as nat, 2);
    lemma_decimal_len(date.year as nat);
    lemma_decimal_len(date.month as nat);
    lemma_decimal_len(date.day as nat);
    assert(s.subrange(0, 4) == padded(date.year as nat, 4));
    assert(s.subrange(5, 7) == padded(date.month as nat, 2));
    assert(s.subrange(8, 10) == padded(date.day as nat, 2));
}

/// The date in a text. A date of the years 0 to 9999 is read back from its text.
pub fn read_date(s: &str) -> (r: Option<Date>)
    ensures
        r == parsed_date(s@),
        r is Some ==> r->0.valid(),
        forall|d: Date| d.valid() && 0 <= d.year <= 9999 && s@ == #[trigger] iso_date(d) ==> r == Some(d),
{
    let r = parse_date(s);
    proof {
        assert forall|d: Date|
            d.valid() && 0 <= d.year <= 9999 && s@ == #[trigger] iso_date(d) implies r == Some(d) by {
            lemma_iso_date_shape(d);
        }
    }
    r
}

} // verus!
