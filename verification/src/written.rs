//! How plans, reminders, dates and tags are written and read.
use crate::agenda::{
    between_colons, colon_tags, file_items, files_items, is_tag_name, is_tag_name_char,
    warning_days, ItemView,
};
use crate::agenda_view::{empty_agenda, keyword_color, next_file, next_tags};
use crate::calendar::{
    iso_date, long_date, month_name, weekday_abbreviation, weekday_name, year_text, Date,
};
use crate::date_picker::Picked;
use crate::headlines::is_state_word;
use crate::label::Color;
use crate::number::{
    all_digits, decimal, decimal_int, lemma_decimal, lemma_decimal_len, lemma_padded,
    lemma_parse_decimal_int, padded, parse_int, value,
};
use crate::order::{lemma_with_text, position, text_le};
use crate::patterns::lacks;
use crate::planning::{
    duration_of, plain_date_of, plain_match_at, planned, recurrence_at, recurring_info,
    reminder_text, unit_seconds, AgendaEntryType,
};
use crate::repeater::{repeater_of, repeater_text, RepeaterInfo, RepeaterType, RepeaterUnit};
use crate::scheduling::{picker_at, planning_text};
use crate::text::{
    lemma_index_of, lemma_index_of_none, lemma_split_at, lemma_split_one, lines, occurs_at, split,
    trim_end_matches,
};
use vstd::prelude::*;
use vstd::string::*;

verus! {

/// A reminder reads as a number and a unit whose product is its duration: as many minutes, hours,
/// days or weeks as the number says.
pub proof fn lemma_durations(n: nat)
    requires
        n <= u64::MAX,
    ensures
        duration_of(Some(decimal(n)), Some("m"@)) == Some(60 * n),
        duration_of(Some(decimal(n)), Some("h"@)) == Some(3600 * n),
        duration_of(Some(decimal(n)), Some("d"@)) == Some(86400 * n),
        duration_of(Some(decimal(n)), Some("w"@)) == Some(604800 * n),
{
    reveal_strlit("m");
    reveal_strlit("h");
    reveal_strlit("d");
    reveal_strlit("w");
    assert("m"@[0] == 'm' && "h"@[0] == 'h' && "d"@[0] == 'd' && "w"@[0] == 'w');
    lemma_parse_decimal_int(n as int, 0, u64::MAX as int);
    assert(parse_int(decimal(n), 0, u64::MAX as int) == Some(n as int));
    assert(unit_seconds("m"@) == Some(60nat));
    assert(unit_seconds("h"@) == Some(3600nat));
    assert(unit_seconds("d"@) == Some(86400nat));
    assert(unit_seconds("w"@) == Some(604800nat));
}

/// The text of a duration of whole minutes reads back as that duration: its digits and its unit,
/// which is the longest of which it is a whole number.
pub proof fn lemma_reminder_reads_back(seconds: nat)
    requires
        seconds % 60 == 0,
        seconds / 60 <= u64::MAX,
    ensures
        ({
            let text = reminder_text(seconds);
            let n = text.len() - 1;
            &&& n > 0
            &&& duration_of(Some(text.take(n)), Some(text.skip(n))) == Some(seconds)
            &&& text.last() == 'w' <==> seconds % 604800 == 0
            &&& text.last() == 'd' <==> seconds % 604800 != 0 && seconds % 86400 == 0
            &&& text.last() == 'h' <==> seconds % 604800 != 0 && seconds % 86400 != 0 && seconds
                % 3600 == 0
            &&& text.last() == 'm' <==> seconds % 604800 != 0 && seconds % 86400 != 0 && seconds
                % 3600 != 0
        }),
{
    reveal_strlit("m");
    reveal_strlit("h");
    reveal_strlit("d");
    reveal_strlit("w");
    reveal_strlit("s");
    let text = reminder_text(seconds);
    let n = text.len() - 1;
    let (count, unit) = if seconds % 604800 == 0 {
        (seconds / 604800, "w"@)
    } else if seconds % 86400 == 0 {
        (seconds / 86400, "d"@)
    } else if seconds % 3600 == 0 {
        (seconds / 3600, "h"@)
    } else {
        (seconds / 60, "m"@)
    };
    assert(text =~= decimal(count) + unit);
    lemma_decimal(count);
    assert(text.take(n) =~= decimal(count));
    assert(text.skip(n) =~= unit);
    assert(count <= u64::MAX);
    lemma_durations(count);
    assert(text.last() == unit[0]);
}

/// What plans a task is its plan, on one line, and its reminder, on the next, if it has one.
pub proof fn lemma_plan_is_written(picked: Picked)
    ensures
        ({
            let date = "<"@ + iso_date(picked.0) + " "@ + weekday_abbreviation(picked.0.weekday());
            let stamp = match picked.2 {
                Some(repeater) => date + " "@ + repeater_text(repeater) + ">"@,
                None => date + ">"@,
            };
            let end = match picked.1 {
                Some(seconds) => "\nREMIND: "@ + reminder_text(seconds as nat),
                None => ""@,
            };
            &&& planning_text("SCHEDULED:"@, picked) == "SCHEDULED:"@ + " "@ + stamp + end
            &&& planning_text("DEADLINE:"@, picked) == "DEADLINE:"@ + " "@ + stamp + end
        }),
{
    reveal_strlit("");
    let date = "<"@ + iso_date(picked.0) + " "@ + weekday_abbreviation(picked.0.weekday());
    let stamp = match picked.2 {
        Some(repeater) => date + " "@ + repeater_text(repeater) + ">"@,
        None => date + ">"@,
    };
    let end = match picked.1 {
        Some(seconds) => "\nREMIND: "@ + reminder_text(seconds as nat),
        None => ""@,
    };
    assert(planning_text("SCHEDULED:"@, picked) =~= "SCHEDULED:"@ + " "@ + stamp + end);
    assert(planning_text("DEADLINE:"@, picked) =~= "DEADLINE:"@ + " "@ + stamp + end);
}

/// A picker for a task that comes back begins at its date and with its repeater.
pub proof fn lemma_picker_at(date: Date, repeater: Option<RepeaterInfo>)
    ensures
        picker_at(date, repeater).selected_date == date,
        picker_at(date, repeater).selected_repeater == repeater,
        picker_at(date, repeater).selected_reminder is None,
        !picker_at(date, repeater).confirmed,
{
}

/// A warning period says so many days, with a sign before it or without.
pub proof fn lemma_warning_days(days: nat)
    requires
        days <= i64::MAX,
    ensures
        warning_days(decimal(days)) == Some(days as i64),
        warning_days("-"@ + decimal(days)) == Some(days as i64),
{
    reveal_strlit("-");
    let low = -(i64::MAX as int);
    let high = i64::MAX as int;
    lemma_parse_decimal_int(days as int, low, high);
    lemma_decimal(days);
    let period = "-"@ + decimal(days);
    assert(period.skip(1) =~= decimal(days));
    assert(period[0] == '-');
    assert(parse_int(period, low, high) == Some(-(days as int)));
}

/// The year of a date is written with four digits or more, after a sign where it has more than four
/// or is negative.
pub proof fn lemma_year_is_written(year: int)
    ensures
        ({
            let text = year_text(year);
            &&& 0 <= year <= 9999 ==> all_digits(text) && text.len() == 4 && value(text) == year
            &&& year < 0 ==> text[0] == '-' && all_digits(text.skip(1)) && value(text.skip(1)) == -year
            &&& year > 9999 ==> text[0] == '+' && all_digits(text.skip(1)) && value(text.skip(1))
                == year
        }),
{
    let size = (if year < 0 {
        -year
    } else {
        year
    }) as nat;
    let digits = padded(size, 4);
    lemma_padded(size, 4);
    lemma_decimal_len(size);
    assert((seq!['-'] + digits).skip(1) =~= digits);
    assert((seq!['+'] + digits).skip(1) =~= digits);
}

/// A date in full is the day of the week, the month by its name, the day in two digits, and the year.
pub proof fn lemma_date_in_full(date: Date)
    ensures
        long_date(date) == weekday_name(date.weekday()) + ", "@ + month_name(date.month as int) + " "@
            + padded(date.day as nat, 2) + ", "@ + year_text(date.year as int),
{
}

/// The months of a year have their names, from the first to the last.
pub proof fn lemma_months_named()
    ensures
        month_name(1) == "January"@,
        month_name(2) == "February"@,
        month_name(3) == "March"@,
        month_name(4) == "April"@,
        month_name(5) == "May"@,
        month_name(6) == "June"@,
        month_name(7) == "July"@,
        month_name(8) == "August"@,
        month_name(9) == "September"@,
        month_name(10) == "October"@,
        month_name(11) == "November"@,
        month_name(12) == "December"@,
{
}

/// A tag between colons is found wherever it stands in a text, and what is found stands between
/// colons.
pub proof fn lemma_colon_tag_found(before: Seq<char>, tag: Seq<char>, after: Seq<char>)
    requires
        is_tag_name(tag),
    ensures
        colon_tags(before + ":"@ + tag + ":"@ + after).contains(tag),
{
    reveal_strlit(":");
    assert(":"@ =~= seq![':']);
    let text = before + ":"@ + tag + ":"@ + after;
    assert forall|i: int| 0 <= i < tag.len() implies tag[i] != ':' by {
        assert(is_tag_name_char(tag[i]));
    }
    lemma_split_one(tag, ':');
    lemma_split_at(before, tag, ':');
    lemma_split_at(before + ":"@ + tag, after, ':');
    let a = split(before, ':');
    let b = split(after, ':');
    let pieces = split(text, ':');
    assert(pieces =~= a + seq![tag] + b);
    assert(a.len() > 0 && b.len() > 0);
    let inner = between_colons(text);
    let k = a.len() - 1;
    assert(inner[k] == tag);
    inner.lemma_filter_contains(|piece: Seq<char>| is_tag_name(piece), k);
}

/// The entries of two lists of files are those of the first and then those of the second, and those
/// of one file are its own.
pub proof fn lemma_files_join(
    first: Seq<(String, String)>,
    second: Seq<(String, String)>,
    file: (String, String),
)
    ensures
        files_items(first + second) == files_items(first) + files_items(second),
        files_items(seq![file]) == file_items(file.0@, file.1@),
    decreases second.len(),
{
    let one = seq![file];
    assert(one.drop_last() =~= Seq::<(String, String)>::empty());
    assert(one.last() == file);
    assert(files_items(one.drop_last()) =~= Seq::<ItemView>::empty());
    assert(files_items(one) =~= file_items(file.0@, file.1@));
    if second.len() == 0 {
        assert(first + second =~= first);
        assert(files_items(first) + files_items(second) =~= files_items(first));
    } else {
        let both = first + second;
        assert(both.drop_last() =~= first + second.drop_last());
        assert(both.last() == second.last());
        lemma_files_join(first, second.drop_last(), file);
        assert(files_items(both) =~= files_items(first) + files_items(second));
    }
}

/// The tag after the last one asked for is asked for too, and all that were still are; after the
/// last of those there are, or one that there is none of, no tag is asked for.
pub proof fn lemma_tag_is_added(asked: Seq<Seq<char>>, available: Seq<Seq<char>>, i: int)
    requires
        available.no_duplicates(),
        asked.no_duplicates(),
        asked.len() > 0,
        0 <= i < available.len(),
    ensures
        available[i] == asked.last() && i + 1 < available.len() ==> next_tags(asked, available).to_set()
            == asked.to_set().insert(available[i + 1]),
        available[i] == asked.last() && i + 1 == available.len() ==> next_tags(
            asked,
            available,
        ).len() == 0,
        !available.contains(asked.last()) ==> next_tags(asked, available).len() == 0,
{
    if available[i] == asked.last() {
        available.index_of_first_ensures(available[i]);
        assert(available.contains(available[i]));
        assert(position(available, asked.last()) == Some(i));
        if i + 1 < available.len() {
            lemma_with_text(asked, available[i + 1]);
        }
    }
}

/// A file that there is none of is followed by none.
pub proof fn lemma_file_gone(file: Seq<char>, available: Seq<Seq<char>>)
    requires
        !available.contains(file),
    ensures
        next_file(Some(file), available) is None,
{
}

/// An agenda begins with no entries, hides what is done, asks for nothing in particular, and shows
/// thirty days.
pub proof fn lemma_agenda_begins()
    ensures
        empty_agenda().items.len() == 0,
        empty_agenda().all_items.len() == 0,
        empty_agenda().selected_index == 0,
        !empty_agenda().show_done,
        empty_agenda().filter_tags.len() == 0,
        empty_agenda().filter_file is None,
        empty_agenda().days_range == 30,
        empty_agenda().shown_reminders.len() == 0,
{
}

/// The color of a keyword tells what is to do, what is done, what waits and what was given up.
pub proof fn lemma_keyword_colors(word: Seq<char>)
    ensures
        !is_state_word(word) ==> keyword_color(word) == Color::Default,
        keyword_color("TODO"@) == Color::Warning,
        keyword_color("DOING"@) == Color::Warning,
        keyword_color("NEXT"@) == Color::Warning,
        keyword_color("STARTED"@) == Color::Warning,
        keyword_color("DONE"@) == Color::Success,
        keyword_color("WAITING"@) == Color::Muted,
        keyword_color("DEFERRED"@) == Color::Muted,
        keyword_color("CANCELLED"@) == Color::Error,
        keyword_color("CANCELED"@) == Color::Error,
{
    reveal_strlit("TODO");
    reveal_strlit("DOING");
    reveal_strlit("NEXT");
    reveal_strlit("STARTED");
    reveal_strlit("DONE");
    reveal_strlit("WAITING");
    reveal_strlit("DEFERRED");
    reveal_strlit("CANCELLED");
    reveal_strlit("CANCELED");
    assert("DONE"@[0] == 'D' && "DONE"@[2] == 'N' && "DOING"@[2] == 'I');
    assert("TODO"@.len() == 4 && "DOING"@.len() == 5 && "NEXT"@.len() == 4 && "STARTED"@.len() == 7);
    assert("DONE"@.len() == 4 && "WAITING"@.len() == 7 && "DEFERRED"@.len() == 8);
    assert("CANCELLED"@.len() == 9 && "CANCELED"@.len() == 8);
    assert("TODO"@[0] == 'T' && "NEXT"@[0] == 'N' && "WAITING"@[0] == 'W' && "STARTED"@[0] == 'S');
    assert("DEFERRED"@[0] == 'D' && "CANCELED"@[0] == 'C');
}

/// Of two texts that begin alike, the one comes first whose next character is less, or which is
/// over.
pub proof fn lemma_text_order(start: Seq<char>, a: Seq<char>, b: Seq<char>)
    ensures
        text_le(start, start + a),
        a.len() > 0 ==> !text_le(start + a, start),
        a.len() > 0 && b.len() > 0 && a[0] < b[0] ==> text_le(start + a, start + b) && !text_le(
            start + b,
            start + a,
        ),
    decreases start.len(),
{
    let x = start + a;
    let y = start + b;
    if start.len() == 0 {
        assert(x =~= a);
        assert(y =~= b);
    } else {
        let rest = start.skip(1);
        lemma_text_order(rest, a, b);
        assert(x[0] == start[0] && y[0] == start[0]);
        assert(x.skip(1) =~= rest + a);
        assert(y.skip(1) =~= rest + b);
    }
}

/// A line ends at a line feed, or at a carriage return and a line feed, which are no part of it;
/// what follows is taken by itself, and what no line feed ends is a line, if it is anything.
pub proof fn lemma_lines_are_read(line: Seq<char>, rest: Seq<char>)
    requires
        lacks(line, '\n'),
        line.len() > 0 ==> line.last() != '\r',
    ensures
        lines(line + seq!['\n'] + rest) == seq![line] + lines(rest),
        lines(line + seq!['\r', '\n'] + rest) == seq![line] + lines(rest),
        line.len() > 0 ==> lines(line) == seq![line],
        lines(Seq::empty()).len() == 0,
{
    let a = line + seq!['\n'] + rest;
    let n = line.len() as int;
    assert(a[n] == '\n');
    assert forall|j: int| 0 <= j < n implies a[j] != '\n' by {
        assert(a[j] == line[j]);
    }
    lemma_index_of(a, '\n', n);
    assert(a.take(n) =~= line);
    assert(a.skip(n + 1) =~= rest);
    let b = line + seq!['\r', '\n'] + rest;
    assert(b[n + 1] == '\n');
    assert forall|j: int| 0 <= j < n + 1 implies b[j] != '\n' by {
        if j < n {
            assert(b[j] == line[j]);
        }
    }
    lemma_index_of(b, '\n', n + 1);
    assert(b.take(n + 1).last() == '\r');
    assert(b.take(n + 1).drop_last() =~= line);
    assert(b.skip(n + 2) =~= rest);
    if line.len() > 0 {
        lemma_index_of_none(line, '\n');
    }
}

/// Every repetition of an ending is taken off a text, and nothing else is.
pub proof fn lemma_endings_taken_off(text: Seq<char>, ending: Seq<char>)
    requires
        ending.len() > 0,
    ensures
        trim_end_matches(text + ending, ending) == trim_end_matches(text, ending),
        !occurs_at(text, ending, text.len() - ending.len()) ==> trim_end_matches(text, ending) == text,
{
    let s = text + ending;
    assert(s.subrange(s.len() - ending.len(), s.len() as int) =~= ending);
    assert(s.take(s.len() - ending.len()) =~= text);
}

/// A repeater is written as a sign, a number and a letter: `+` for one that counts from the date,
/// `++` for one that catches up and `.+` for one that counts from the day of completion; `d`, `w`,
/// `m` or `y` for its unit.
pub proof fn lemma_repeater_is_written(r: RepeaterInfo)
    ensures
        repeater_text(r) == (match r.repeater_type {
            RepeaterType::Cumulative => "+"@,
            RepeaterType::CatchUp => "++"@,
            RepeaterType::Restart => ".+"@,
        }) + decimal_int(r.interval as int) + (match r.unit {
            RepeaterUnit::Day => "d"@,
            RepeaterUnit::Week => "w"@,
            RepeaterUnit::Month => "m"@,
            RepeaterUnit::Year => "y"@,
        }),
{
}

/// The days of the week have their names, from Sunday on.
pub proof fn lemma_weekdays_named()
    ensures
        weekday_name(0) == "Sunday"@,
        weekday_name(1) == "Monday"@,
        weekday_name(2) == "Tuesday"@,
        weekday_name(3) == "Wednesday"@,
        weekday_name(4) == "Thursday"@,
        weekday_name(5) == "Friday"@,
        weekday_name(6) == "Saturday"@,
        weekday_abbreviation(0) == "Sun"@,
        weekday_abbreviation(1) == "Mon"@,
        weekday_abbreviation(2) == "Tue"@,
        weekday_abbreviation(3) == "Wed"@,
        weekday_abbreviation(4) == "Thu"@,
        weekday_abbreviation(5) == "Fri"@,
        weekday_abbreviation(6) == "Sat"@,
{
}

/// A plan that comes back counts before one that does not, and of two of a kind the scheduled date
/// counts before the deadline.
pub proof fn lemma_plan_that_counts(section: Seq<char>)
    ensures
        ({
            let scheduled = recurrence_at(section, "SCHEDULED:"@);
            let deadline = recurrence_at(section, "DEADLINE:"@);
            let day = plain_match_at(section, "SCHEDULED:"@);
            let due = plain_match_at(section, "DEADLINE:"@);
            &&& scheduled matches Some((date, repeater)) ==> recurring_info(section) == Some(
                (AgendaEntryType::Scheduled, date, repeater),
            ) && planned(section) == Some((date, AgendaEntryType::Scheduled, Some(repeater)))
            &&& scheduled is None ==> (deadline matches Some((date, repeater)) ==> recurring_info(
                section,
            ) == Some((AgendaEntryType::Deadline, date, repeater)) && planned(section) == Some(
                (date, AgendaEntryType::Deadline, Some(repeater)),
            ))
            &&& scheduled is None && deadline is None ==> {
                &&& recurring_info(section) is None
                &&& day is Some ==> planned(section) == match plain_date_of(day) {
                    Some(date) => Some((date, AgendaEntryType::Scheduled, None::<RepeaterInfo>)),
                    None => None,
                }
                &&& day is None ==> planned(section) == match plain_date_of(due) {
                    Some(date) => Some((date, AgendaEntryType::Deadline, None::<RepeaterInfo>)),
                    None => None,
                }
            }
        }),
{
}

/// A sign, a number and a letter make a repeater if they are among those there are, and no other
/// does.
pub proof fn lemma_repeater_is_read(prefix: Seq<char>, n: i64, unit: Seq<char>)
    ensures
        repeater_of(prefix, decimal_int(n as int), unit) matches Some(r) ==> {
            &&& r.interval == n
            &&& prefix + decimal_int(n as int) + unit == repeater_text(r)
        },
        repeater_of(prefix, decimal_int(n as int), unit) is None ==> (prefix != "+"@ && prefix != "++"@
            && prefix != ".+"@) || (unit != "d"@ && unit != "w"@ && unit != "m"@ && unit != "y"@),
{
    lemma_parse_decimal_int(n as int, i64::MIN as int, i64::MAX as int);
}

/// A duration that is no whole number of minutes is written in seconds.
pub proof fn lemma_seconds_are_written(seconds: nat)
    requires
        seconds % 60 != 0,
    ensures
        reminder_text(seconds) == decimal(seconds) + "s"@,
{
    assert(seconds % 3600 != 0) by {
        if seconds % 3600 == 0 {
            assert(seconds == 3600 * (seconds / 3600));
            assert(seconds == 60 * (60 * (seconds / 3600)));
        }
    }
    assert(seconds % 86400 != 0) by {
        if seconds % 86400 == 0 {
            assert(seconds == 86400 * (seconds / 86400));
            assert(seconds == 60 * (1440 * (seconds / 86400)));
        }
    }
    assert(seconds % 604800 != 0) by {
        if seconds % 604800 == 0 {
            assert(seconds == 604800 * (seconds / 604800));
            assert(seconds == 60 * (10080 * (seconds / 604800)));
        }
    }
}

} // verus!
