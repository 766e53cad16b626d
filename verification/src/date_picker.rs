//! Picking a date, a reminder and a repeater for a task.
use crate::calendar::{
    in_calendar, iso_date, iso_date_text, lemma_in_calendar, weekday_name, weekday_name_of, Date,
};
use crate::label::{shown, Color, Label, LabelSize, Shown};
use crate::number::{decimal, decimal_int, decimal_int_text, decimal_text};
use crate::repeater::{
    lemma_date_of, lemma_shifted, repeater_prefix, shift, shifted, RepeaterInfo, RepeaterType,
    RepeaterUnit,
};
use vstd::prelude::*;
use vstd::string::*;

verus! {

/// What was picked: the date, how many seconds before it to remind of it, and when it comes back.
pub type Picked = (Date, Option<u128>, Option<RepeaterInfo>);

/// The state of a date picker.
#[derive(Debug)]
pub struct DatePickerModal {
    pub selected_date: Date,
    pub selected_reminder: Option<u128>,
    pub selected_repeater: Option<RepeaterInfo>,
    pub confirmed: bool,
}

/// The reminder after another one: none, ten minutes, an hour, a day, a week.
pub open spec fn next_reminder(reminder: Option<u128>) -> Option<u128> {
    match reminder {
        None => Some(600),
        Some(s) => if s == 600 {
            Some(3600)
        } else if s == 3600 {
            Some(86400)
        } else if s == 86400 {
            Some(604800)
        } else {
            None
        },
    }
}

/// A repeater by its parts.
pub open spec fn repeater(interval: i64, unit: RepeaterUnit, t: RepeaterType) -> RepeaterInfo {
    RepeaterInfo { interval, unit, repeater_type: t }
}

/// The repeater after another one: none, `+1d`, `+1w`, `+2w`, `+1m`, `+3m`, `+1y`, `++1d`, `++1w`,
/// `.+1d`, `.+1w`. After a repeater that is none of these comes the first of the next sign.
pub open spec fn next_repeater(current: Option<RepeaterInfo>) -> Option<RepeaterInfo> {
    match current {
        None => Some(repeater(1, RepeaterUnit::Day, RepeaterType::Cumulative)),
        Some(r) => match r.repeater_type {
            RepeaterType::Cumulative => if r.unit == RepeaterUnit::Day && r.interval == 1 {
                Some(repeater(1, RepeaterUnit::Week, RepeaterType::Cumulative))
            } else if r.unit == RepeaterUnit::Week && r.interval == 1 {
                Some(repeater(2, RepeaterUnit::Week, RepeaterType::Cumulative))
            } else if r.unit == RepeaterUnit::Week && r.interval == 2 {
                Some(repeater(1, RepeaterUnit::Month, RepeaterType::Cumulative))
            } else if r.unit == RepeaterUnit::Month && r.interval == 1 {
                Some(repeater(3, RepeaterUnit::Month, RepeaterType::Cumulative))
            } else if r.unit == RepeaterUnit::Month && r.interval == 3 {
                Some(repeater(1, RepeaterUnit::Year, RepeaterType::Cumulative))
            } else {
                Some(repeater(1, RepeaterUnit::Day, RepeaterType::CatchUp))
            },
            RepeaterType::CatchUp => if r.unit == RepeaterUnit::Day && r.interval == 1 {
                Some(repeater(1, RepeaterUnit::Week, RepeaterType::CatchUp))
            } else {
                Some(repeater(1, RepeaterUnit::Day, RepeaterType::Restart))
            },
            RepeaterType::Restart => if r.unit == RepeaterUnit::Day && r.interval == 1 {
                Some(repeater(1, RepeaterUnit::Week, RepeaterType::Restart))
            } else {
                None
            },
        },
    }
}

/// A reminder in words.
pub open spec fn reminder_words(reminder: Option<u128>) -> Seq<char> {
    match reminder {
        None => "None"@,
        Some(s) => if s == 600 {
            "10 minutes"@
        } else if s == 3600 {
            "1 hour"@
        } else if s == 86400 {
            "1 day"@
        } else if s == 604800 {
            "1 week"@
        } else {
            decimal(s as nat) + "s"@
        },
    }
}

/// The name of a unit, for one of it or for several.
pub open spec fn unit_name(unit: RepeaterUnit, one: bool) -> Seq<char> {
    match unit {
        RepeaterUnit::Day => if one {
            "day"@
        } else {
            "days"@
        },
        RepeaterUnit::Week => if one {
            "week"@
        } else {
            "weeks"@
        },
        RepeaterUnit::Month => if one {
            "month"@
        } else {
            "months"@
        },
        RepeaterUnit::Year => if one {
            "year"@
        } else {
            "years"@
        },
    }
}

/// What a repeater counts from, in words.
pub open spec fn type_words(t: RepeaterType) -> Seq<char> {
    match t {
        RepeaterType::Cumulative => "from date"@,
        RepeaterType::CatchUp => "catch up"@,
        RepeaterType::Restart => "from completion"@,
    }
}

/// A repeater in words.
pub open spec fn repeater_words(repeater: Option<RepeaterInfo>) -> Seq<char> {
    match repeater {
        None => "None"@,
        Some(r) => repeater_prefix(r.repeater_type) + decimal_int(r.interval as int) + " "@
            + unit_name(r.unit, r.interval == 1) + " ("@ + type_words(r.repeater_type) + ")"@,
    }
}

/// A reminder in words.
pub fn describe_reminder(reminder: Option<u128>) -> (r: String)
    ensures
        r@ == reminder_words(reminder),
{
    match reminder {
        None => "None".to_owned(),
        Some(s) => if s == 10 * 60 {
            "10 minutes".to_owned()
        } else if s == 3600 {
            "1 hour".to_owned()
        } else if s == 86400 {
            "1 day".to_owned()
        } else if s == 7 * 86400 {
            "1 week".to_owned()
        } else {
            let mut r = decimal_text(s);
            r.append("s");
            r
        },
    }
}

/// A repeater in words.
pub fn describe_repeater(repeater: &Option<RepeaterInfo>) -> (r: String)
    ensures
        r@ == repeater_words(*repeater),
{
    match repeater {
        None => "None".to_owned(),
        Some(info) => {
            let prefix = match info.repeater_type {
                RepeaterType::Cumulative => "+",
                RepeaterType::CatchUp => "++",
                RepeaterType::Restart => ".+",
            };
            let one = info.interval == 1;
            let unit = match info.unit {
                RepeaterUnit::Day => if one {
                    "day"
                } else {
                    "days"
                },
                RepeaterUnit::Week => if one {
                    "week"
                } else {
                    "weeks"
                },
                RepeaterUnit::Month => if one {
                    "month"
                } else {
                    "months"
                },
                RepeaterUnit::Year => if one {
                    "year"
                } else {
                    "years"
                },
            };
            let from = match info.repeater_type {
                RepeaterType::Cumulative => "from date",
                RepeaterType::CatchUp => "catch up",
                RepeaterType::Restart => "from completion",
            };
            let mut r = prefix.to_owned();
            let interval = decimal_int_text(info.interval);
            r.append(interval.as_str());
            r.append(" ");
            r.append(unit);
            r.append(" (");
            r.append(from);
            r.append(")");
            r
        },
    }
}

/// The color of a choice: it stands out where something is chosen.
pub open spec fn choice_color(chosen: bool) -> Color {
    if chosen {
        Color::Accent
    } else {
        Color::Muted
    }
}

impl DatePickerModal {
    /// The selected date is one of the calendar.
    pub open spec fn valid(self) -> bool {
        self.selected_date.valid()
    }

    /// A picker that begins with a date.
    pub fn new(initial_date: Date) -> (r: DatePickerModal)
        requires
            initial_date.valid(),
        ensures
            r.valid(),
            r == (DatePickerModal {
                selected_date: initial_date,
                selected_reminder: None,
                selected_repeater: None,
                confirmed: false,
            }),
    {
        Self::new_with_repeater(initial_date, None)
    }

    /// A picker that begins with a date and a repeater.
    pub fn new_with_repeater(initial_date: Date, initial_repeater: Option<RepeaterInfo>) -> (r:
        DatePickerModal)
        requires
            initial_date.valid(),
        ensures
            r.valid(),
            r == (DatePickerModal {
                selected_date: initial_date,
                selected_reminder: None,
                selected_repeater: initial_repeater,
                confirmed: false,
            }),
    {
        DatePickerModal {
            selected_date: initial_date,
            selected_reminder: None,
            selected_repeater: initial_repeater,
            confirmed: false,
        }
    }

    /// Goes on to the next reminder.
    pub fn cycle_reminder(&mut self)
        ensures
            *final(self) == (DatePickerModal {
                selected_reminder: next_reminder(old(self).selected_reminder),
                ..*old(self)
            }),
    {
        self.selected_reminder = match self.selected_reminder {
            None => Some(10 * 60),
            Some(s) => if s == 10 * 60 {
                Some(3600)
            } else if s == 3600 {
                Some(86400)
            } else if s == 86400 {
                Some(7 * 86400)
            } else {
                None
            },
        };
    }

    /// Goes on to the next repeater.
    pub fn cycle_repeater(&mut self)
        ensures
            *final(self) == (DatePickerModal {
                selected_repeater: next_repeater(old(self).selected_repeater),
                ..*old(self)
            }),
    {
        let (interval, unit, repeater_type) = match self.selected_repeater {
            None => (1i64, RepeaterUnit::Day, RepeaterType::Cumulative),
            Some(r) => match (r.repeater_type, r.unit, r.interval) {
                (RepeaterType::Cumulative, RepeaterUnit::Day, 1) => (
                    1i64,
                    RepeaterUnit::Week,
                    RepeaterType::Cumulative,
                ),
                (RepeaterType::Cumulative, RepeaterUnit::Week, 1) => (
                    2i64,
                    RepeaterUnit::Week,
                    RepeaterType::Cumulative,
                ),
                (RepeaterType::Cumulative, RepeaterUnit::Week, 2) => (
                    1i64,
                    RepeaterUnit::Month,
                    RepeaterType::Cumulative,
                ),
                (RepeaterType::Cumulative, RepeaterUnit::Month, 1) => (
                    3i64,
                    RepeaterUnit::Month,
                    RepeaterType::Cumulative,
                ),
                (RepeaterType::Cumulative, RepeaterUnit::Month, 3) => (
                    1i64,
                    RepeaterUnit::Year,
                    RepeaterType::Cumulative,
                ),
                (RepeaterType::Cumulative, _, _) => (1i64, RepeaterUnit::Day, RepeaterType::CatchUp),
                (RepeaterType::CatchUp, RepeaterUnit::Day, 1) => (
                    1i64,
                    RepeaterUnit::Week,
                    RepeaterType::CatchUp,
                ),
                (RepeaterType::CatchUp, _, _) => (1i64, RepeaterUnit::Day, RepeaterType::Restart),
                (RepeaterType::Restart, RepeaterUnit::Day, 1) => (
                    1i64,
                    RepeaterUnit::Week,
                    RepeaterType::Restart,
                ),
                (RepeaterType::Restart, _, _) => {
                    self.selected_repeater = None;
                    return ;
                },
            },
        };
        self.selected_repeater = Some(RepeaterInfo { interval, unit, repeater_type });
    }

    /// Moves the selected date by a number of days, unless that leads out of the calendar.
    pub fn adjust_date(&mut self, days: i64)
        requires
            old(self).valid(),
        ensures
            final(self).valid(),
            *final(self) == old(self).adjusted(days as int),
    {
        if let Some(new_date) = shift(self.selected_date, days) {
            self.selected_date = new_date;
        }
    }

    /// The picker with the selected date moved by a number of days, unless that leads out of the
    /// calendar.
    pub open spec fn adjusted(self, days: int) -> DatePickerModal {
        match shifted(self.selected_date, days) {
            Some(date) => DatePickerModal { selected_date: date, ..self },
            None => self,
        }
    }

    /// Moves on by a day.
    pub fn next_day(&mut self)
        requires
            old(self).valid(),
        ensures
            final(self).valid(),
            *final(self) == old(self).adjusted(1),
    {
        self.adjust_date(1);
    }

    /// Moves back by a day.
    pub fn prev_day(&mut self)
        requires
            old(self).valid(),
        ensures
            final(self).valid(),
            *final(self) == old(self).adjusted(-1),
    {
        self.adjust_date(-1);
    }

    /// Moves on by a week.
    pub fn next_week(&mut self)
        requires
            old(self).valid(),
        ensures
            final(self).valid(),
            *final(self) == old(self).adjusted(7),
    {
        self.adjust_date(7);
    }

    /// Moves back by a week.
    pub fn prev_week(&mut self)
        requires
            old(self).valid(),
        ensures
            final(self).valid(),
            *final(self) == old(self).adjusted(-7),
    {
        self.adjust_date(-7);
    }

    /// Hands out what was picked, once. The picker is done when it has.
    pub fn confirm(&mut self) -> (r: Option<Picked>)
        ensures
            *final(self) == (DatePickerModal { confirmed: true, ..*old(self) }),
            r == if old(self).confirmed {
                None
            } else {
                Some(
                    (
                        old(self).selected_date,
                        old(self).selected_reminder,
                        old(self).selected_repeater,
                    ),
                )
            },
    {
        if self.confirmed {
            None
        } else {
            self.confirmed = true;
            Some((self.selected_date, self.selected_reminder, self.selected_repeater))
        }
    }

    /// What the picker shows, from top to bottom.
    pub open spec fn labels(self) -> Seq<Shown> {
        seq![
            ("Select Date"@, LabelSize::Large, Color::Default),
            (weekday_name(self.selected_date.weekday()), LabelSize::Default, Color::Default),
            (iso_date(self.selected_date), LabelSize::Large, Color::Default),
            ("Reminder:"@, LabelSize::Small, Color::Default),
            (
                reminder_words(self.selected_reminder),
                LabelSize::Small,
                choice_color(self.selected_reminder is Some),
            ),
            ("Press 'r' to cycle reminder options"@, LabelSize::XSmall, Color::Muted),
            ("Recurring:"@, LabelSize::Small, Color::Default),
            (
                repeater_words(self.selected_repeater),
                LabelSize::Small,
                choice_color(self.selected_repeater is Some),
            ),
            ("Press 'p' to cycle repeater options"@, LabelSize::XSmall, Color::Muted),
            ("Use ↑/↓ for ±1 day, ←/→ for ±7 days"@, LabelSize::XSmall, Color::Muted),
            ("Press Enter to confirm, Esc to cancel"@, LabelSize::XSmall, Color::Muted),
        ]
    }

    /// What the picker shows, from top to bottom.
    pub fn render(&self) -> (r: Vec<Label>)
        requires
            self.valid(),
        ensures
            shown(r@) == self.labels(),
    {
        let weekday = weekday_name_of(self.selected_date);
        let date = iso_date_text(self.selected_date);
        let reminder = describe_reminder(self.selected_reminder);
        let repeater = describe_repeater(&self.selected_repeater);
        let reminder_color = if self.selected_reminder.is_some() {
            Color::Accent
        } else {
            Color::Muted
        };
        let repeater_color = if self.selected_repeater.is_some() {
            Color::Accent
        } else {
            Color::Muted
        };
        let r = vec![
            Label::new("Select Date", LabelSize::Large, Color::Default),
            Label::new(weekday.as_str(), LabelSize::Default, Color::Default),
            Label::new(date.as_str(), LabelSize::Large, Color::Default),
            Label::new("Reminder:", LabelSize::Small, Color::Default),
            Label::new(reminder.as_str(), LabelSize::Small, reminder_color),
            Label::new("Press 'r' to cycle reminder options", LabelSize::XSmall, Color::Muted),
            Label::new("Recurring:", LabelSize::Small, Color::Default),
            Label::new(repeater.as_str(), LabelSize::Small, repeater_color),
            Label::new("Press 'p' to cycle repeater options", LabelSize::XSmall, Color::Muted),
            Label::new("Use ↑/↓ for ±1 day, ←/→ for ±7 days", LabelSize::XSmall, Color::Muted),
            Label::new("Press Enter to confirm, Esc to cancel", LabelSize::XSmall, Color::Muted),
        ];
        assert(shown(r@) == self.labels());
        r
    }
}

/// Going on through the reminders five times leads back, from any of them.
pub proof fn lemma_reminder_cycle(reminder: Option<u128>)
    requires
        reminder is None || reminder->0 == 600 || reminder->0 == 3600 || reminder->0 == 86400
            || reminder->0 == 604800,
    ensures
        next_reminder(next_reminder(next_reminder(next_reminder(next_reminder(reminder)))))
            == reminder,
{
}

/// The repeater after a number of steps from another one.
pub open spec fn repeater_after(current: Option<RepeaterInfo>, steps: nat) -> Option<RepeaterInfo>
    decreases steps,
{
    if steps == 0 {
        current
    } else {
        repeater_after(next_repeater(current), (steps - 1) as nat)
    }
}

/// How many steps lead from a repeater to none.
pub open spec fn steps_to_none(current: Option<RepeaterInfo>) -> nat {
    match current {
        None => 0,
        Some(r) => match (r.repeater_type, r.unit) {
            (RepeaterType::Restart, unit) => if unit == RepeaterUnit::Day && r.interval == 1 {
                2
            } else {
                1
            },
            (RepeaterType::CatchUp, unit) => if unit == RepeaterUnit::Day && r.interval == 1 {
                4
            } else {
                3
            },
            (RepeaterType::Cumulative, RepeaterUnit::Day) if r.interval == 1 => 10,
            (RepeaterType::Cumulative, RepeaterUnit::Week) if r.interval == 1 => 9,
            (RepeaterType::Cumulative, RepeaterUnit::Week) if r.interval == 2 => 8,
            (RepeaterType::Cumulative, RepeaterUnit::Month) if r.interval == 1 => 7,
            (RepeaterType::Cumulative, RepeaterUnit::Month) if r.interval == 3 => 6,
            (RepeaterType::Cumulative, _) => 5,
        },
    }
}

/// Going on through the repeaters leads to none, from whatever repeater it begins with, in at most
/// ten steps and not before the last of them.
pub proof fn lemma_repeater_ends(current: Option<RepeaterInfo>)
    ensures
        steps_to_none(current) <= 10,
        repeater_after(current, steps_to_none(current)) is None,
        forall|steps: nat|
            steps < steps_to_none(current) ==> (#[trigger] repeater_after(current, steps)) is Some,
    decreases steps_to_none(current),
{
    if current is Some {
        let next = next_repeater(current);
        assert(steps_to_none(current) == steps_to_none(next) + 1);
        lemma_repeater_ends(next);
        assert forall|steps: nat| steps < steps_to_none(current) implies (#[trigger] repeater_after(
            current,
            steps,
        )) is Some by {
            if steps > 0 {
                assert(repeater_after(current, steps) == repeater_after(next, (steps - 1) as nat));
            }
        }
    }
}

/// From none, going on through the repeaters passes ten of them and leads back at the eleventh
/// step.
pub proof fn lemma_repeater_cycle()
    ensures
        repeater_after(None, 11) is None,
        forall|steps: nat| 0 < steps < 11 ==> (#[trigger] repeater_after(None, steps)) is Some,
{
    let first = next_repeater(None);
    lemma_repeater_ends(first);
    assert(repeater_after(None, 11) == repeater_after(first, 10));
    assert forall|steps: nat| 0 < steps < 11 implies (#[trigger] repeater_after(None, steps)) is Some by {
        assert(repeater_after(None, steps) == repeater_after(first, (steps - 1) as nat));
    }
}

/// Moving the date by some days and then back by as many leads back, if the first move stays in
/// the calendar.
pub proof fn lemma_adjust_back(picker: DatePickerModal, days: int)
    requires
        picker.valid(),
        in_calendar(picker.selected_date.number() + days),
    ensures
        picker.adjusted(days).adjusted(-days) == picker,
{
    lemma_shifted(picker.selected_date, days);
    lemma_in_calendar(picker.selected_date);
    lemma_date_of(picker.selected_date);
}

} // verus!
