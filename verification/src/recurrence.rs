//! What the dates on which a task comes back have to do with each other, and with its repeater.
use crate::calendar::{
    days_before_month, lemma_in_calendar, lemma_next_year, month_days, Date, MAX_YEAR, MIN_YEAR,
};
use crate::repeater::{
    caught_up, days_left, lemma_shifted, lemma_step_forward, next_occurrence, shifted, step,
    RepeaterInfo, RepeaterType, RepeaterUnit,
};
use vstd::prelude::*;

verus! {

/// A date lies a number of days after another one, or there is no date that does.
pub open spec fn lies_after(next: Option<Date>, date: Date, days: int) -> bool {
    match next {
        Some(next) => next.valid() && next.number() - date.number() == days,
        None => forall|d: Date| d.valid() ==> #[trigger] d.number() - date.number() != days,
    }
}

/// A date lies a number of months after another one: on the same day of the month, or on the last
/// day of a month that is too short for that.
pub open spec fn lies_months_after(next: Date, date: Date, months: int) -> bool {
    &&& next.valid()
    &&& (12 * next.year + next.month) - (12 * date.year + date.month) == months
    &&& next.day <= date.day
    &&& next.day < date.day ==> next.day == month_days(next.year as int, next.month as int)
}

/// The calendar has the month that lies a number of months after that of a date.
pub open spec fn has_month_after(date: Date, months: int) -> bool {
    12 * MIN_YEAR + 1 <= 12 * date.year + date.month + months <= 12 * MAX_YEAR + 12
}

/// The days of a repeater's interval, a month counted as 30 and a year as 365.
pub open spec fn step_days(repeater: RepeaterInfo) -> int {
    repeater.interval * (match repeater.unit {
        RepeaterUnit::Day => 1int,
        RepeaterUnit::Week => 7,
        RepeaterUnit::Month => 30,
        RepeaterUnit::Year => 365,
    })
}

/// The months of an interval of months or years.
pub open spec fn step_months(repeater: RepeaterInfo) -> int {
    repeater.interval * (if repeater.unit == RepeaterUnit::Year {
        12int
    } else {
        1
    })
}

proof fn lemma_shifted_lies_after(date: Date, days: int)
    ensures
        lies_after(shifted(date, days), date, days),
{
    lemma_shifted(date, days);
    if shifted(date, days) is None {
        assert forall|d: Date| d.valid() implies #[trigger] d.number() - date.number() != days by {
            lemma_in_calendar(d);
        }
    }
}

/// A repeater of days or weeks counts days: the next date lies the interval, or seven times the
/// interval, after the date counted from. That is the date of the task for `+`; for `.+` it is the
/// day of completion, or today where no such day is known.
pub proof fn lemma_days_count(
    current_date: Date,
    repeater: RepeaterInfo,
    completion_date: Option<Date>,
    today: Date,
)
    requires
        current_date.valid(),
        completion_date matches Some(date) ==> date.valid(),
        today.valid(),
    ensures
        ({
            let next = next_occurrence(current_date, repeater, completion_date, today);
            let days = step_days(repeater);
            repeater.unit == RepeaterUnit::Day || repeater.unit == RepeaterUnit::Week ==> {
                &&& repeater.repeater_type == RepeaterType::Cumulative ==> lies_after(
                    next,
                    current_date,
                    days,
                )
                &&& repeater.repeater_type == RepeaterType::Restart && completion_date is Some
                    ==> lies_after(next, completion_date->0, days)
                &&& repeater.repeater_type == RepeaterType::Restart && completion_date is None
                    ==> lies_after(next, today, days)
            }
        }),
{
    let days = step_days(repeater);
    lemma_shifted_lies_after(current_date, days);
    lemma_shifted_lies_after(today, days);
    if completion_date is Some {
        lemma_shifted_lies_after(completion_date->0, days);
    }
}

/// A repeater of months or years counts months, twelve to the year, from the date of the task for
/// `+` and from the day of completion for `.+`. Where the calendar ends before that month, a month
/// counts as 30 days and a year as 365; and there is no next date where the calendar ends before
/// that many days.
pub proof fn lemma_months_count(
    current_date: Date,
    repeater: RepeaterInfo,
    completion_date: Option<Date>,
    today: Date,
    from: Date,
)
    requires
        from.valid(),
        repeater.repeater_type == RepeaterType::Cumulative && from == current_date
            || repeater.repeater_type == RepeaterType::Restart && completion_date == Some(from)
            || repeater.repeater_type == RepeaterType::Restart && completion_date is None && from
            == today,
        repeater.unit == RepeaterUnit::Month || repeater.unit == RepeaterUnit::Year,
    ensures
        ({
            let next = next_occurrence(current_date, repeater, completion_date, today);
            let months = step_months(repeater);
            let days = step_days(repeater);
            &&& next is None ==> lies_after(next, from, days)
            &&& (exists|d: Date| d.valid() && #[trigger] d.number() - from.number() == days) ==> next
                is Some
            &&& next is Some && has_month_after(from, months) ==> lies_months_after(
                next->0,
                from,
                months,
            )
            &&& next is Some && !has_month_after(from, months) ==> lies_after(next, from, days)
        }),
{
    let next = next_occurrence(current_date, repeater, completion_date, today);
    let interval = repeater.interval as int;
    assert(next == step(from, interval, repeater.unit));
    if repeater.unit == RepeaterUnit::Month {
        lemma_shifted_lies_after(from, 30 * interval);
        let months = 12 * from.year + from.month - 1 + interval;
        assert(months == 12 * (months / 12) + months % 12);
    } else {
        lemma_shifted_lies_after(from, 365 * interval);
    }
}

/// A repeater that counts from the day of completion does not look at the date of the task, and
/// without such a day it counts from today.
pub proof fn lemma_restart_forgets(
    a: Date,
    b: Date,
    repeater: RepeaterInfo,
    completion_date: Option<Date>,
    today: Date,
    other_day: Date,
)
    requires
        repeater.repeater_type == RepeaterType::Restart,
    ensures
        next_occurrence(a, repeater, completion_date, today) == next_occurrence(
            b,
            repeater,
            completion_date,
            today,
        ),
        next_occurrence(a, repeater, None, today) == next_occurrence(a, repeater, Some(today), today),
        completion_date is Some ==> next_occurrence(a, repeater, completion_date, today)
            == next_occurrence(a, repeater, completion_date, other_day),
{
}

/// A repeater that counts from the date of the task does not look at the day of completion, and
/// without catching up it does not look at today either.
pub proof fn lemma_completion_forgotten(
    current_date: Date,
    repeater: RepeaterInfo,
    one: Option<Date>,
    other: Option<Date>,
    today: Date,
    other_day: Date,
)
    requires
        repeater.repeater_type != RepeaterType::Restart,
    ensures
        next_occurrence(current_date, repeater, one, today) == next_occurrence(
            current_date,
            repeater,
            other,
            today,
        ),
        repeater.repeater_type == RepeaterType::Cumulative ==> next_occurrence(
            current_date,
            repeater,
            one,
            today,
        ) == next_occurrence(current_date, repeater, one, other_day),
{
}

/// The three kinds of repeaters take the same steps: one from the day of completion is one from a
/// task with that date. A repeater that catches up takes one such step, and from there on another
/// as long as it has not passed today and the steps lead forward.
pub proof fn lemma_same_steps(
    current_date: Date,
    repeater: RepeaterInfo,
    completion_date: Date,
    today: Date,
)
    ensures
        ({
            let plus = RepeaterInfo { repeater_type: RepeaterType::Cumulative, ..repeater };
            let catch_up = RepeaterInfo { repeater_type: RepeaterType::CatchUp, ..repeater };
            let restart = RepeaterInfo { repeater_type: RepeaterType::Restart, ..repeater };
            let once = next_occurrence(current_date, plus, None, today);
            &&& next_occurrence(current_date, restart, Some(completion_date), today)
                == next_occurrence(completion_date, plus, None, today)
            &&& next_occurrence(current_date, catch_up, None, today) == match once {
                None => None,
                Some(next) => if next.number() > today.number() {
                    Some(next)
                } else {
                    match next_occurrence(next, plus, None, today) {
                        Some(later) if later.number() > next.number() => next_occurrence(
                            next,
                            catch_up,
                            None,
                            today,
                        ),
                        _ => None,
                    }
                },
            }
        }),
{
}

/// A number is so many times another one.
pub open spec fn is_times(n: int, times: int, unit: int) -> bool {
    n == times * unit
}

/// Catching up by days or weeks leads past today and not a whole step further, by a whole number
/// of steps.
pub proof fn lemma_catches_up_in_days(
    current_date: Date,
    repeater: RepeaterInfo,
    completion_date: Option<Date>,
    today: Date,
)
    requires
        current_date.valid(),
        today.valid(),
        repeater.interval > 0,
        repeater.repeater_type == RepeaterType::CatchUp,
        repeater.unit == RepeaterUnit::Day || repeater.unit == RepeaterUnit::Week,
    ensures
        ({
            let next = next_occurrence(current_date, repeater, completion_date, today);
            let days = step_days(repeater);
            next matches Some(next) ==> {
                &&& next.valid()
                &&& exists|steps: int|
                    1 <= steps && #[trigger] is_times(next.number() - current_date.number(), steps, days)
                &&& next.number() > today.number()
                &&& next.number() - days <= today.number() || next.number() - days
                    == current_date.number()
            }
        }),
{
    let interval = repeater.interval as int;
    let days = step_days(repeater);
    lemma_shifted(current_date, days);
    assert(step(current_date, interval, repeater.unit) == shifted(current_date, days));
    if shifted(current_date, days) is Some {
        let first = shifted(current_date, days)->0;
        lemma_steps_past(first, interval, repeater.unit, days, today);
        if caught_up(first, interval, repeater.unit, today) is Some {
            let next = caught_up(first, interval, repeater.unit, today)->0;
            let k = choose|k: int|
                0 <= k && #[trigger] is_times(next.number() - first.number(), k, days);
            assert((k + 1) * days == k * days + days) by (nonlinear_arith);
            assert(is_times(next.number() - current_date.number(), k + 1, days));
            assert(next_occurrence(current_date, repeater, completion_date, today) == Some(next));
        }
    }
}

proof fn lemma_steps_past(first: Date, interval: int, unit: RepeaterUnit, days: int, today: Date)
    requires
        first.valid(),
        interval > 0,
        unit == RepeaterUnit::Day && days == interval || unit == RepeaterUnit::Week && days == 7
            * interval,
    ensures
        caught_up(first, interval, unit, today) matches Some(next) ==> {
            &&& next.valid()
            &&& exists|k: int| 0 <= k && #[trigger] is_times(next.number() - first.number(), k, days)
            &&& next.number() > today.number()
            &&& next.number() - days <= today.number() || next == first
        },
    decreases days_left(first, today),
{
    if first.number() > today.number() {
        assert(0 * days == 0) by (nonlinear_arith);
        assert(is_times(first.number() - first.number(), 0, days));
    } else {
        lemma_shifted(first, days);
        lemma_step_forward(first, interval, unit);
        if step(first, interval, unit) is Some {
            let second = step(first, interval, unit)->0;
            lemma_steps_past(second, interval, unit, days, today);
            if caught_up(second, interval, unit, today) is Some {
                let next = caught_up(second, interval, unit, today)->0;
                let k = choose|k: int|
                    0 <= k && #[trigger] is_times(next.number() - second.number(), k, days);
                assert((k + 1) * days == k * days + days) by (nonlinear_arith);
                assert(is_times(next.number() - first.number(), k + 1, days));
            }
        }
    }
}

/// Each month has 30 or 31 days, but the second, which has 29 in every fourth year and 28 in the
/// others; a year that ends a century is like the others unless it ends four of them.
pub proof fn lemma_month_lengths(year: int, month: int)
    requires
        1 <= month <= 12,
    ensures
        month != 2 ==> month_days(year, month) == 30 + (month + month / 8) % 2,
        month == 2 ==> month_days(year, month) == 28 + (if year % 4 == 0 && (year % 100 != 0 || year
            % 400 == 0) {
            1int
        } else {
            0
        }),
{
}

/// The days of the calendar follow each other: within a month, from the last day of a month to
/// the first of the next, and from the last of a year to the first of the next. So do the days of
/// the week.
pub proof fn lemma_days_follow(date: Date, next: Date)
    requires
        date.valid(),
        next.valid(),
        if date.day < month_days(date.year as int, date.month as int) {
            next.year == date.year && next.month == date.month && next.day == date.day + 1
        } else if date.month < 12 {
            next.year == date.year && next.month == date.month + 1 && next.day == 1
        } else {
            next.year == date.year + 1 && next.month == 1 && next.day == 1
        },
    ensures
        next.number() == date.number() + 1,
        next.weekday() == (date.weekday() + 1) % 7,
{
    let year = date.year as int;
    let month = date.month as int;
    assert(days_before_month(year, month + 1) == days_before_month(year, month) + month_days(
        year,
        month,
    ));
    lemma_next_year(year);
    assert(days_before_month(year + 1, 1) == 0);
}

/// The days of the week come in sevens, and the first day of the year 2000 was a Saturday.
pub proof fn lemma_weeks(date: Date, days: int)
    ensures
        (Date { year: 2000, month: 1, day: 1 }).weekday() == 6,
        shifted(date, 7 * days) matches Some(later) ==> later.weekday() == date.weekday(),
        0 <= date.weekday() < 7,
{
    lemma_shifted(date, 7 * days);
    let first = Date { year: 2000, month: 1, day: 1 };
    assert(days_before_month(2000, 1) == 0);
    assert(first.number() == 730120);
}

} // verus!
