//! Tasks that come back: how a repeater is written, and the date it leads to.
use crate::calendar::{
    add_days, days_before_month, days_in_month, in_calendar, is_date, lemma_date_exists,
    lemma_in_calendar, lemma_number_injective, lemma_number_order, local_now, month_days, Date,
    DateTime,
};
use crate::number::{decimal_int, decimal_int_text, lemma_parse_decimal_int, parse_i64, parse_int};
use crate::text::same_text;
use vstd::prelude::*;
use vstd::string::*;

verus! {

/// The unit of a repeater.
#[derive(Clone, Copy, Debug, PartialEq, Eq, Structural)]
pub enum RepeaterUnit {
    Day,
    Week,
    Month,
    Year,
}

/// The date that a repeater counts from.
#[derive(Clone, Copy, Debug, PartialEq, Eq, Structural)]
pub enum RepeaterType {
    /// `+`: shift from the date of the task.
    Cumulative,
    /// `++`: shift from the date of the task until it lies in the future.
    CatchUp,
    /// `.+`: shift from the day of completion.
    Restart,
}

/// How often a task comes back.
#[derive(Clone, Copy, Debug, PartialEq, Eq, Structural)]
pub struct RepeaterInfo {
    pub interval: i64,
    pub unit: RepeaterUnit,
    pub repeater_type: RepeaterType,
}

/// The sign of a repeater.
pub open spec fn repeater_prefix(t: RepeaterType) -> Seq<char> {
    match t {
        RepeaterType::Cumulative => "+"@,
        RepeaterType::CatchUp => "++"@,
        RepeaterType::Restart => ".+"@,
    }
}

/// The letter of a unit.
pub open spec fn unit_letter(u: RepeaterUnit) -> Seq<char> {
    match u {
        RepeaterUnit::Day => "d"@,
        RepeaterUnit::Week => "w"@,
        RepeaterUnit::Month => "m"@,
        RepeaterUnit::Year => "y"@,
    }
}

/// A repeater as a timestamp holds it.
pub open spec fn repeater_text(r: RepeaterInfo) -> Seq<char> {
    repeater_prefix(r.repeater_type) + decimal_int(r.interval as int) + unit_letter(r.unit)
}

/// The repeater that a sign, a number and a letter stand for.
pub open spec fn repeater_of(
    prefix: Seq<char>,
    interval: Seq<char>,
    unit: Seq<char>,
) -> Option<RepeaterInfo> {
    match (type_of(prefix), parse_int(interval, i64::MIN as int, i64::MAX as int), unit_of(unit)) {
        (Some(t), Some(n), Some(u)) => Some(
            RepeaterInfo { interval: n as i64, unit: u, repeater_type: t },
        ),
        _ => None,
    }
}

/// The kind of repeater that a sign stands for.
pub open spec fn type_of(prefix: Seq<char>) -> Option<RepeaterType> {
    if prefix == "+"@ {
        Some(RepeaterType::Cumulative)
    } else if prefix == "++"@ {
        Some(RepeaterType::CatchUp)
    } else if prefix == ".+"@ {
        Some(RepeaterType::Restart)
    } else {
        None
    }
}

/// The unit that a letter stands for.
pub open spec fn unit_of(unit: Seq<char>) -> Option<RepeaterUnit> {
    if unit == "d"@ {
        Some(RepeaterUnit::Day)
    } else if unit == "w"@ {
        Some(RepeaterUnit::Week)
    } else if unit == "m"@ {
        Some(RepeaterUnit::Month)
    } else if unit == "y"@ {
        Some(RepeaterUnit::Year)
    } else {
        None
    }
}

/// The signs of repeaters and the letters of units tell them apart.
pub proof fn lemma_signs_distinct()
    ensures
        forall|t: RepeaterType| type_of(#[trigger] repeater_prefix(t)) == Some(t),
        forall|u: RepeaterUnit| unit_of(#[trigger] unit_letter(u)) == Some(u),
{
    reveal_strlit("+");
    reveal_strlit("++");
    reveal_strlit(".+");
    reveal_strlit("d");
    reveal_strlit("w");
    reveal_strlit("m");
    reveal_strlit("y");
    assert("+"@.len() == 1 && "++"@.len() == 2 && ".+"@.len() == 2);
    assert("++"@[0] == '+' && ".+"@[0] == '.');
    assert("d"@[0] == 'd' && "w"@[0] == 'w' && "m"@[0] == 'm' && "y"@[0] == 'y');
}

/// The parts of a written repeater stand for the repeater.
pub proof fn lemma_repeater_round_trip(r: RepeaterInfo)
    ensures
        repeater_of(
            repeater_prefix(r.repeater_type),
            decimal_int(r.interval as int),
            unit_letter(r.unit),
        ) == Some(r),
{
    lemma_signs_distinct();
    lemma_parse_decimal_int(r.interval as int, i64::MIN as int, i64::MAX as int);
}

/// A repeater as a timestamp holds it.
pub fn format_repeater(r: &RepeaterInfo) -> (s: String)
    ensures
        s@ == repeater_text(*r),
{
    let prefix = match r.repeater_type {
        RepeaterType::Cumulative => "+",
        RepeaterType::CatchUp => "++",
        RepeaterType::Restart => ".+",
    };
    let unit = match r.unit {
        RepeaterUnit::Day => "d",
        RepeaterUnit::Week => "w",
        RepeaterUnit::Month => "m",
        RepeaterUnit::Year => "y",
    };
    let mut s = prefix.to_owned();
    let interval = decimal_int_text(r.interval);
    s.append(interval.as_str());
    s.append(unit);
    s
}

/// The text of an optional string slice.
pub open spec fn option_str(s: Option<&str>) -> Option<Seq<char>> {
    match s {
        Some(s) => Some(s@),
        None => None,
    }
}

/// The repeater that a sign, a number and a letter stand for, where all are there.
pub open spec fn optional_repeater(
    prefix: Option<Seq<char>>,
    interval: Option<Seq<char>>,
    unit: Option<Seq<char>>,
) -> Option<RepeaterInfo> {
    match (prefix, interval, unit) {
        (Some(p), Some(n), Some(u)) => repeater_of(p, n, u),
        _ => None,
    }
}

/// The repeater that a sign, a number and a letter stand for, where all are there.
pub fn parse_repeater(
    repeater_type_str: Option<&str>,
    interval_str: Option<&str>,
    unit_str: Option<&str>,
) -> (r: Option<RepeaterInfo>)
    ensures
        r == optional_repeater(
            option_str(repeater_type_str),
            option_str(interval_str),
            option_str(unit_str),
        ),
{
    let prefix = repeater_type_str?;
    let interval = parse_i64(interval_str?)?;
    let unit = unit_str?;
    let repeater_type = if same_text(prefix, "+") {
        RepeaterType::Cumulative
    } else if same_text(prefix, "++") {
        RepeaterType::CatchUp
    } else if same_text(prefix, ".+") {
        RepeaterType::Restart
    } else {
        return None;
    };
    let unit = if same_text(unit, "d") {
        RepeaterUnit::Day
    } else if same_text(unit, "w") {
        RepeaterUnit::Week
    } else if same_text(unit, "m") {
        RepeaterUnit::Month
    } else if same_text(unit, "y") {
        RepeaterUnit::Year
    } else {
        return None;
    };
    Some(RepeaterInfo { interval, unit, repeater_type })
}

/// The date with a number.
pub open spec fn date_of(n: int) -> Date {
    choose|d: Date| d.valid() && d.number() == n
}

/// The date a number of days later, unless it lies outside the calendar.
pub open spec fn shifted(date: Date, days: int) -> Option<Date> {
    if in_calendar(date.number() + days) {
        Some(date_of(date.number() + days))
    } else {
        None
    }
}

/// A date with the number is the date of that number.
pub proof fn lemma_date_of(d: Date)
    requires
        d.valid(),
    ensures
        date_of(d.number()) == d,
{
    lemma_number_injective(date_of(d.number()), d);
}

/// The date a number of days later, unless it lies outside the calendar.
pub fn shift(date: Date, days: i64) -> (r: Option<Date>)
    requires
        date.valid(),
    ensures
        r == shifted(date, days as int),
        r is Some ==> r->0.valid() && r->0.number() == date.number() + days,
{
    let r = add_days(date, days);
    proof {
        if r is Some {
            lemma_date_of(r->0);
            lemma_in_calendar(r->0);
        }
    }
    r
}

/// The date in a month, on the given day or on the last day of a month that has no such day;
/// unless the month lies outside the calendar.
pub open spec fn clamped(year: int, month: int, day: int) -> Option<Date> {
    let d = if day <= month_days(year, month) {
        day
    } else {
        month_days(year, month)
    };
    if is_date(year, month, d) {
        Some(Date { year: year as i32, month: month as u32, day: d as u32 })
    } else {
        None
    }
}

/// The date one interval later. A month later is the same day of the month, or the last day of
/// that month. Where the calendar ends before that month or year, a month counts as 30 days and a
/// year as 365. There is no such date where that number of days leads out of the calendar.
pub open spec fn step(date: Date, interval: int, unit: RepeaterUnit) -> Option<Date> {
    match unit {
        RepeaterUnit::Day => shifted(date, interval),
        RepeaterUnit::Week => shifted(date, 7 * interval),
        RepeaterUnit::Month => {
            let months = 12 * date.year + date.month - 1 + interval;
            match (shifted(date, 30 * interval), clamped(months / 12, months % 12 + 1, date.day as int)) {
                (Some(_), Some(d)) => Some(d),
                (fallback, _) => fallback,
            }
        },
        RepeaterUnit::Year => {
            match (
                shifted(date, 365 * interval),
                clamped(date.year + interval, date.month as int, date.day as int),
            ) {
                (Some(_), Some(d)) => Some(d),
                (fallback, _) => fallback,
            }
        },
    }
}

/// The number of days from a date to the day after today, if there are any.
pub open spec fn days_left(date: Date, today: Date) -> int {
    if date.number() <= today.number() {
        today.number() - date.number() + 1
    } else {
        0
    }
}

/// The first date after today that is reached from a date in steps, if the steps lead forward and
/// stay inside the calendar.
pub open spec fn caught_up(
    date: Date,
    interval: int,
    unit: RepeaterUnit,
    today: Date,
) -> Option<Date>
    decreases days_left(date, today),
{
    if date.number() > today.number() {
        Some(date)
    } else {
        match step(date, interval, unit) {
            Some(next) => if next.number() > date.number() {
                caught_up(next, interval, unit, today)
            } else {
                None
            },
            None => None,
        }
    }
}

/// The date on which a task comes back. There is none where the steps lead out of the calendar,
/// or where a repeater that catches up does not lead forward.
pub open spec fn next_occurrence(
    current_date: Date,
    repeater: RepeaterInfo,
    completion_date: Option<Date>,
    today: Date,
) -> Option<Date> {
    let interval = repeater.interval as int;
    match repeater.repeater_type {
        RepeaterType::Cumulative => step(current_date, interval, repeater.unit),
        RepeaterType::CatchUp => match step(current_date, interval, repeater.unit) {
            Some(first) => caught_up(first, interval, repeater.unit, today),
            None => None,
        },
        RepeaterType::Restart => step(
            match completion_date {
                Some(date) => date,
                None => today,
            },
            interval,
            repeater.unit,
        ),
    }
}

/// Many steps of a week or more lead out of the calendar.
proof fn lemma_out_of_calendar(date: Date, days: int)
    requires
        date.valid(),
        days > 200_000_000 || days < -200_000_000,
    ensures
        !in_calendar(date.number() + days),
{
    lemma_in_calendar(date);
    reveal_with_fuel(days_before_month, 13);
}

/// The date in a month, on the given day or on the last day of a month that has no such day;
/// unless the month lies outside the calendar.
fn clamp(year: i32, month: u32, day: u32) -> (r: Option<Date>)
    ensures
        r == clamped(year as int, month as int, day as int),
        r is Some ==> r->0.valid(),
{
    let last = days_in_month(year, month);
    let date = Date {
        year,
        month,
        day: if day <= last {
            day
        } else {
            last
        },
    };
    if date.is_valid() {
        Some(date)
    } else {
        None
    }
}

/// The date one interval later.
pub fn step_date(date: Date, interval: i64, unit: RepeaterUnit) -> (r: Option<Date>)
    requires
        date.valid(),
    ensures
        r == step(date, interval as int, unit),
        r is Some ==> r->0.valid(),
{
    if interval < -30_000_000 || interval > 30_000_000 {
        match unit {
            RepeaterUnit::Day => shift(date, interval),
            _ => {
                proof {
                    lemma_out_of_calendar(date, 7 * interval);
                    lemma_out_of_calendar(date, 30 * interval);
                    lemma_out_of_calendar(date, 365 * interval);
                }
                None
            },
        }
    } else {
        match unit {
            RepeaterUnit::Day => shift(date, interval),
            RepeaterUnit::Week => shift(date, 7 * interval),
            RepeaterUnit::Month => {
                let fallback = shift(date, 30 * interval)?;
                let months: i64 = 12 * (date.year as i64) + date.month as i64 - 1 + interval;
                let (year, month) = year_and_month(months);
                match clamp(year, month, date.day) {
                    Some(d) => Some(d),
                    None => Some(fallback),
                }
            },
            RepeaterUnit::Year => {
                let fallback = shift(date, 365 * interval)?;
                match clamp(date.year + interval as i32, date.month, date.day) {
                    Some(d) => Some(d),
                    None => Some(fallback),
                }
            },
        }
    }
}

/// The year and the month of the year in which a month lies that is counted from January of the
/// year 0.
fn year_and_month(months: i64) -> (r: (i32, u32))
    requires
        -100_000_000 <= months <= 100_000_000,
    ensures
        r.0 == months as int / 12,
        r.1 == months as int % 12 + 1,
{
    let m: i64 = months + 120_000_000;
    proof {
        assert(m as int / 12 == months as int / 12 + 10_000_000);
        assert(m as int % 12 == months as int % 12);
    }
    ((m / 12 - 10_000_000) as i32, (m % 12 + 1) as u32)
}

/// The first date after today that is reached from a date in steps.
fn catch_up(date: Date, interval: i64, unit: RepeaterUnit, today: Date) -> (r: Option<Date>)
    requires
        date.valid(),
        today.valid(),
    ensures
        r == caught_up(date, interval as int, unit, today),
        r is Some ==> r->0.valid(),
{
    let mut next = date;
    while !today.before(next)
        invariant
            next.valid(),
            today.valid(),
            caught_up(next, interval as int, unit, today) == caught_up(
                date,
                interval as int,
                unit,
                today,
            ),
        decreases days_left(next, today),
    {
        let later = step_date(next, interval, unit)?;
        if !next.before(later) {
            return None;
        }
        next = later;
    }
    Some(next)
}

/// The date on which a task comes back that is done on a day.
pub fn next_occurrence_on(
    current_date: Date,
    repeater: &RepeaterInfo,
    completion_date: Option<Date>,
    today: Date,
) -> (r: Option<Date>)
    requires
        current_date.valid(),
        completion_date matches Some(date) ==> date.valid(),
        today.valid(),
    ensures
        r == next_occurrence(current_date, *repeater, completion_date, today),
        r is Some ==> r->0.valid(),
{
    match repeater.repeater_type {
        RepeaterType::Cumulative => step_date(current_date, repeater.interval, repeater.unit),
        RepeaterType::CatchUp => {
            let first = step_date(current_date, repeater.interval, repeater.unit)?;
            catch_up(first, repeater.interval, repeater.unit, today)
        },
        RepeaterType::Restart => {
            let base = match completion_date {
                Some(date) => date,
                None => today,
            };
            step_date(base, repeater.interval, repeater.unit)
        },
    }
}

/// The date on which a task comes back, by the clock of the machine. A repeater that counts from
/// the date of the task does not look at the clock.
pub fn calculate_next_occurrence(
    current_date: Date,
    repeater: &RepeaterInfo,
    completion_date: Option<Date>,
) -> (r: Option<Date>)
    requires
        current_date.valid(),
        completion_date matches Some(date) ==> date.valid(),
    ensures
        exists|now: DateTime|
            now.valid() && r == #[trigger] next_occurrence(
                current_date,
                *repeater,
                completion_date,
                now.date,
            ),
        r is Some ==> r->0.valid(),
        repeater.repeater_type == RepeaterType::Cumulative ==> r == step(
            current_date,
            repeater.interval as int,
            repeater.unit,
        ),
{
    let now = local_now();
    next_occurrence_on(current_date, repeater, completion_date, now.date)
}

/// A shifted date is a date, that number of days later.
pub proof fn lemma_shifted(date: Date, days: int)
    ensures
        shifted(date, days) matches Some(d) ==> d.valid() && d.number() == date.number() + days,
{
    if in_calendar(date.number() + days) {
        lemma_date_exists(date.number() + days);
    }
}

/// The date one interval later is a date, and with a positive interval a later one.
pub proof fn lemma_step_forward(date: Date, interval: int, unit: RepeaterUnit)
    requires
        date.valid(),
    ensures
        step(date, interval, unit) matches Some(next) ==> next.valid() && (interval > 0
            ==> next.number() > date.number()),
{
    lemma_shifted(date, interval);
    lemma_shifted(date, 7 * interval);
    lemma_shifted(date, 30 * interval);
    lemma_shifted(date, 365 * interval);
    if interval > 0 && step(date, interval, unit) is Some {
        let next = step(date, interval, unit)->0;
        let months = 12 * date.year + date.month - 1 + interval;
        match unit {
            RepeaterUnit::Month => {
                if clamped(months / 12, months % 12 + 1, date.day as int) is Some {
                    assert(months / 12 > date.year || months / 12 == date.year && months % 12 + 1
                        > date.month);
                    lemma_number_order(date, next);
                }
            },
            RepeaterUnit::Year => {
                if clamped(date.year + interval, date.month as int, date.day as int) is Some {
                    lemma_number_order(date, next);
                }
            },
            _ => {},
        }
    }
}

/// The date a number of intervals later.
pub open spec fn after_steps(date: Date, interval: int, unit: RepeaterUnit, count: nat) -> Option<
    Date,
>
    decreases count,
{
    if count == 0 {
        Some(date)
    } else {
        match step(date, interval, unit) {
            Some(next) => after_steps(next, interval, unit, (count - 1) as nat),
            None => None,
        }
    }
}

/// A date is reached in a number of steps, and none of the dates before it in the series comes
/// after today.
pub open spec fn first_after(
    date: Date,
    interval: int,
    unit: RepeaterUnit,
    today: Date,
    count: nat,
    reached: Date,
) -> bool {
    &&& after_steps(date, interval, unit, count) == Some(reached)
    &&& reached.number() > today.number()
    &&& forall|k: nat|
        k < count ==> (#[trigger] after_steps(date, interval, unit, k) matches Some(d) && d.number()
            <= today.number())
}

/// Catching up leads to the first date of the series that comes after today.
pub proof fn lemma_caught_up(date: Date, interval: int, unit: RepeaterUnit, today: Date)
    requires
        date.valid(),
        caught_up(date, interval, unit, today) is Some,
    ensures
        exists|count: nat|
            #[trigger] first_after(
                date,
                interval,
                unit,
                today,
                count,
                caught_up(date, interval, unit, today)->0,
            ),
    decreases days_left(date, today),
{
    let reached = caught_up(date, interval, unit, today)->0;
    if date.number() > today.number() {
        assert(first_after(date, interval, unit, today, 0, reached));
    } else {
        lemma_step_forward(date, interval, unit);
        let next = step(date, interval, unit)->0;
        lemma_caught_up(next, interval, unit, today);
        let n = choose|count: nat| first_after(next, interval, unit, today, count, reached);
        assert forall|k: nat| k < n + 1 implies (#[trigger] after_steps(date, interval, unit, k) matches Some(d)
            && d.number() <= today.number()) by {
            if k > 0 {
                assert(after_steps(date, interval, unit, k) == after_steps(
                    next,
                    interval,
                    unit,
                    (k - 1) as nat,
                ));
            }
        }
        assert(after_steps(date, interval, unit, n + 1) == after_steps(next, interval, unit, n));
        assert(first_after(date, interval, unit, today, n + 1, reached));
    }
}

/// With a positive interval catching up fails only where the series leaves the calendar.
pub proof fn lemma_caught_up_none(date: Date, interval: int, unit: RepeaterUnit, today: Date)
    requires
        date.valid(),
        interval > 0,
        caught_up(date, interval, unit, today) is None,
    ensures
        exists|count: nat| (#[trigger] after_steps(date, interval, unit, count)) is None,
    decreases days_left(date, today),
{
    lemma_step_forward(date, interval, unit);
    match step(date, interval, unit) {
        Some(next) => {
            lemma_caught_up_none(next, interval, unit, today);
            let n = choose|count: nat| (#[trigger] after_steps(next, interval, unit, count)) is None;
            assert(after_steps(date, interval, unit, n + 1) == after_steps(next, interval, unit, n));
        },
        None => {
            assert(after_steps(date, interval, unit, 1) is None);
        },
    }
}

/// With a positive interval a task comes back after the date that its repeater counts from: its
/// own date, or the day of completion. A repeater that catches up also leads past today.
pub proof fn lemma_comes_back_later(
    current_date: Date,
    repeater: RepeaterInfo,
    completion_date: Option<Date>,
    today: Date,
)
    requires
        current_date.valid(),
        completion_date matches Some(date) ==> date.valid(),
        today.valid(),
        repeater.interval > 0,
    ensures
        next_occurrence(current_date, repeater, completion_date, today) matches Some(next) ==> {
            &&& next.valid()
            &&& repeater.repeater_type != RepeaterType::Restart ==> next.number()
                > current_date.number()
            &&& repeater.repeater_type == RepeaterType::CatchUp ==> next.number() > today.number()
            &&& repeater.repeater_type == RepeaterType::Restart ==> next.number() > (
            match completion_date {
                Some(date) => date,
                None => today,
            }).number()
        },
{
    let interval = repeater.interval as int;
    lemma_step_forward(current_date, interval, repeater.unit);
    lemma_step_forward(today, interval, repeater.unit);
    if completion_date is Some {
        lemma_step_forward(completion_date->0, interval, repeater.unit);
    }
    if repeater.repeater_type == RepeaterType::CatchUp && step(current_date, interval, repeater.unit)
        is Some {
        lemma_caught_up_later(step(current_date, interval, repeater.unit)->0, interval, repeater.unit, today);
    }
}

proof fn lemma_caught_up_later(date: Date, interval: int, unit: RepeaterUnit, today: Date)
    requires
        date.valid(),
    ensures
        caught_up(date, interval, unit, today) matches Some(next) ==> next.valid() && next.number()
            > today.number() && next.number() >= date.number(),
    decreases days_left(date, today),
{
    if date.number() <= today.number() {
        lemma_step_forward(date, interval, unit);
        if step(date, interval, unit) is Some {
            let next = step(date, interval, unit)->0;
            if next.number() > date.number() {
                lemma_caught_up_later(next, interval, unit, today);
            }
        }
    }
}

} // verus!
