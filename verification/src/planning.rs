//! Planning lines under a headline: when a task is scheduled, due, or to be reminded of.
use crate::buffer::{
    byte_len, cut, head, is_boundary, lemma_byte_len_concat, lemma_byte_len_take, tail, text_from,
    TextEdit,
};
use crate::calendar::{
    iso_date, iso_date_text, lemma_iso_date_shape, parsed_date, read_date, weekday_abbreviation,
    weekday_abbreviation_of, year_text, Date,
};
use crate::number::{
    decimal, decimal_int, decimal_text, lemma_decimal, lemma_padded, lemma_parse_decimal_int,
    padded, parse_int, parse_u64,
};
use crate::patterns::{
    captures, finds_reminders, first_match, found_texts, group, group_at, has_reminder,
    has_repeating_timestamp, has_timestamp, is_word, lacks, option_text, Groups, REMIND_PATTERN,
    REPEATING_TIMESTAMP_PATTERN, TIMESTAMP_PATTERN,
};
use crate::repeater::{
    format_repeater, lemma_repeater_round_trip, option_str, optional_repeater, parse_repeater,
    repeater_prefix, repeater_text, unit_letter, RepeaterInfo,
};
use crate::text::{
    contains, find, find_text, lemma_find, lemma_index_of, lemma_index_of_none, lines, lines_of,
    rfind, rfind_text, same_text, texts, utf8_len,
};
use vstd::prelude::*;
use vstd::string::*;

verus! {

/// What a planning line says of a task.
#[derive(Clone, Copy, Debug, PartialEq, Eq, Structural)]
pub enum AgendaEntryType {
    Scheduled,
    Deadline,
    Closed,
}

/// The keyword that a planning line for a date to come begins with.
pub open spec fn planning_keyword(t: AgendaEntryType) -> Seq<char> {
    match t {
        AgendaEntryType::Deadline => "DEADLINE:"@,
        _ => "SCHEDULED:"@,
    }
}

/// The keyword that a planning line for a date to come begins with.
pub fn keyword_of(t: AgendaEntryType) -> (r: &'static str)
    ensures
        r@ == planning_keyword(t),
{
    match t {
        AgendaEntryType::Deadline => "DEADLINE:",
        _ => "SCHEDULED:",
    }
}

/// A date between angle brackets, with its weekday and perhaps a repeater.
pub open spec fn timestamp(date: Date, repeater: Option<RepeaterInfo>) -> Seq<char> {
    let start = "<"@ + iso_date(date) + " "@ + weekday_abbreviation(date.weekday());
    match repeater {
        Some(r) => start + " "@ + repeater_text(r) + ">"@,
        None => start + ">"@,
    }
}

/// A planning line: a keyword and a timestamp.
pub open spec fn planning_line(
    keyword: Seq<char>,
    date: Date,
    repeater: Option<RepeaterInfo>,
) -> Seq<char> {
    keyword + " "@ + timestamp(date, repeater)
}

/// A date between angle brackets, with its weekday and perhaps a repeater.
fn format_timestamp(date: Date, repeater: &Option<RepeaterInfo>) -> (r: String)
    requires
        date.valid(),
    ensures
        r@ == timestamp(date, *repeater),
{
    let mut r = "<".to_owned();
    let day = iso_date_text(date);
    let weekday = weekday_abbreviation_of(date);
    r.append(day.as_str());
    r.append(" ");
    r.append(weekday.as_str());
    if let Some(repeater) = repeater {
        let repeater = format_repeater(repeater);
        r.append(" ");
        r.append(repeater.as_str());
    }
    r.append(">");
    r
}

/// A planning line: a keyword and a timestamp.
pub fn format_planning_line(keyword: &str, date: Date, repeater: &Option<RepeaterInfo>) -> (r: String)
    requires
        date.valid(),
    ensures
        r@ == planning_line(keyword@, date, *repeater),
{
    let mut r = keyword.to_owned();
    r.append(" ");
    let stamp = format_timestamp(date, repeater);
    r.append(stamp.as_str());
    r
}

/// A number of seconds in the greatest unit that it is a whole number of.
pub open spec fn reminder_text(seconds: nat) -> Seq<char> {
    if seconds % 604800 == 0 {
        decimal(seconds / 604800) + "w"@
    } else if seconds % 86400 == 0 {
        decimal(seconds / 86400) + "d"@
    } else if seconds % 3600 == 0 {
        decimal(seconds / 3600) + "h"@
    } else if seconds % 60 == 0 {
        decimal(seconds / 60) + "m"@
    } else {
        decimal(seconds) + "s"@
    }
}

/// A duration, in seconds, in the greatest unit that it is a whole number of.
pub fn format_reminder_duration(seconds: u128) -> (r: String)
    ensures
        r@ == reminder_text(seconds as nat),
{
    let week: u128 = 7 * 86400;
    if seconds % week == 0 {
        let mut r = decimal_text(seconds / week);
        r.append("w");
        r
    } else if seconds % 86400 == 0 {
        let mut r = decimal_text(seconds / 86400);
        r.append("d");
        r
    } else if seconds % 3600 == 0 {
        let mut r = decimal_text(seconds / 3600);
        r.append("h");
        r
    } else if seconds % 60 == 0 {
        let mut r = decimal_text(seconds / 60);
        r.append("m");
        r
    } else {
        let mut r = decimal_text(seconds);
        r.append("s");
        r
    }
}

/// The number of seconds in a unit of time.
pub open spec fn unit_seconds(unit: Seq<char>) -> Option<nat> {
    if unit == "m"@ {
        Some(60)
    } else if unit == "h"@ {
        Some(3600)
    } else if unit == "d"@ {
        Some(86400)
    } else if unit == "w"@ {
        Some(604800)
    } else {
        None
    }
}

/// The duration, in seconds, that a number and a unit stand for.
pub open spec fn duration_of(value: Option<Seq<char>>, unit: Option<Seq<char>>) -> Option<nat> {
    match (value, unit) {
        (Some(v), Some(u)) => match (parse_int(v, 0, u64::MAX as int), unit_seconds(u)) {
            (Some(n), Some(s)) => Some((n * s) as nat),
            _ => None,
        },
        _ => None,
    }
}

/// The number, if there is one.
pub open spec fn option_nat(n: Option<u128>) -> Option<nat> {
    match n {
        Some(n) => Some(n as nat),
        None => None,
    }
}

/// The duration, in seconds, that a number and a unit stand for.
pub fn duration_from_parts(value: Option<&str>, unit: Option<&str>) -> (r: Option<u128>)
    ensures
        option_nat(r) == duration_of(option_str(value), option_str(unit)),
{
    let n = parse_u64(value?)?;
    let unit = unit?;
    let seconds: u128 = if same_text(unit, "m") {
        60
    } else if same_text(unit, "h") {
        3600
    } else if same_text(unit, "d") {
        86400
    } else if same_text(unit, "w") {
        604800
    } else {
        return None;
    };
    assert((n as nat) * (seconds as nat) <= u64::MAX * 604800) by (nonlinear_arith)
        requires
            0 <= n <= u64::MAX,
            0 <= seconds <= 604800,
    ;
    Some(n as u128 * seconds)
}

/// The text of an optional string.
pub fn as_option_str(s: &Option<String>) -> (r: Option<&str>)
    ensures
        option_str(r) == option_text(*s),
{
    match s {
        Some(s) => Some(s.as_str()),
        None => None,
    }
}

/// The duration of the reminder that a search for one found.
pub open spec fn reminder_of(found: Option<Seq<Option<Seq<char>>>>) -> Option<nat> {
    match found {
        Some(groups) => duration_of(group_at(groups, 1), group_at(groups, 2)),
        None => None,
    }
}

/// The line holds a reminder of whole minutes, with no colon before it.
pub open spec fn holds_reminder(
    line: Seq<char>,
    before: Seq<char>,
    seconds: nat,
    after: Seq<char>,
) -> bool {
    &&& line == before + "REMIND: "@ + reminder_text(seconds) + after
    &&& seconds % 60 == 0 && seconds <= u64::MAX
    &&& lacks(before, ':')
}

/// The duration of the reminder on a line, in seconds. A reminder of whole minutes is read back
/// from its text.
pub fn parse_reminder_duration(line: &str) -> (r: Option<u128>)
    ensures
        option_nat(r) == reminder_of(first_match(REMIND_PATTERN@, line@)),
        !contains(line@, "REMIND:"@) ==> r is None,
        forall|before: Seq<char>, seconds: nat, after: Seq<char>| #[trigger]
            holds_reminder(line@, before, seconds, after) ==> r == Some(seconds as u128),
{
    let found = captures(REMIND_PATTERN, line);
    let r = match &found {
        Some(groups) => {
            let value = group(groups, 1);
            let unit = group(groups, 2);
            duration_from_parts(as_option_str(&value), as_option_str(&unit))
        },
        None => None,
    };
    proof {
        assert forall|before: Seq<char>, seconds: nat, after: Seq<char>| #[trigger]
            holds_reminder(line@, before, seconds, after) implies r == Some(seconds as u128) by {
            lemma_reminder_parts(line@, before, seconds, after, found_texts(found));
        }
    }
    r
}

/// The parts of a reminder of whole minutes stand for its duration.
proof fn lemma_reminder_parts(
    line: Seq<char>,
    before: Seq<char>,
    seconds: nat,
    after: Seq<char>,
    found: Option<Seq<Option<Seq<char>>>>,
)
    requires
        seconds % 60 == 0,
        seconds <= u64::MAX,
        lacks(before, ':'),
        line == before + "REMIND: "@ + reminder_text(seconds) + after,
        finds_reminders(line, found),
    ensures
        reminder_of(found) == Some(seconds),
{
    reveal_strlit("w");
    reveal_strlit("d");
    reveal_strlit("h");
    reveal_strlit("m");
    assert("w"@[0] == 'w' && "d"@[0] == 'd' && "h"@[0] == 'h' && "m"@[0] == 'm');
    let (size, unit) = if seconds % 604800 == 0 {
        (604800nat, "w"@)
    } else if seconds % 86400 == 0 {
        (86400nat, "d"@)
    } else if seconds % 3600 == 0 {
        (3600nat, "h"@)
    } else {
        (60nat, "m"@)
    };
    let n = seconds / size;
    assert(reminder_text(seconds) == decimal(n) + unit);
    lemma_decimal(n);
    assert(line == before + "REMIND: "@ + decimal(n) + unit + after);
    assert(has_reminder(line, before, decimal(n), unit, after));
    lemma_parse_decimal_int(n as int, 0, u64::MAX as int);
    assert(decimal_int(n as int) == decimal(n));
    assert(unit_seconds(unit) == Some(size));
    assert(n * size == seconds) by (nonlinear_arith)
        requires
            n == seconds / size,
            seconds % size == 0,
            size > 0,
    ;
}

/// The date and the repeater of the timestamp that a search for one found.
pub open spec fn recurrence_of(found: Option<Seq<Option<Seq<char>>>>) -> Option<
    (Date, RepeaterInfo),
> {
    match found {
        Some(groups) => match (
            date_of_group(group_at(groups, 1)),
            optional_repeater(group_at(groups, 2), group_at(groups, 3), group_at(groups, 4)),
        ) {
            (Some(date), Some(repeater)) => Some((date, repeater)),
            _ => None,
        },
        None => None,
    }
}

/// The date in a captured text, if there is one.
pub open spec fn date_of_group(group: Option<Seq<char>>) -> Option<Date> {
    match group {
        Some(s) => parsed_date(s),
        None => None,
    }
}

/// The date in a captured text, if there is one.
pub fn read_group_date(group: Option<&str>) -> (r: Option<Date>)
    ensures
        r == date_of_group(option_str(group)),
        r is Some ==> r->0.valid(),
        forall|d: Date|
            d.valid() && 0 <= d.year <= 9999 && option_str(group) == Some(#[trigger] iso_date(d))
                ==> r == Some(d),
{
    match group {
        Some(s) => read_date(s),
        None => None,
    }
}

/// The date and the repeater of the timestamp that a search for one found.
pub fn recurrence_from_groups(found: &Option<Groups>) -> (r: Option<(Date, RepeaterInfo)>)
    ensures
        r == recurrence_of(found_texts(*found)),
        r is Some ==> (r->0).0.valid(),
        forall|date: Date, repeater: RepeaterInfo|
            #![trigger iso_date(date), repeater_text(repeater)]
            date.valid() && 0 <= date.year <= 9999 && found is Some && group_at(
                found_texts(*found)->0,
                1,
            ) == Some(iso_date(date)) && group_at(found_texts(*found)->0, 2) == Some(
                repeater_prefix(repeater.repeater_type),
            ) && group_at(found_texts(*found)->0, 3) == Some(decimal_int(repeater.interval as int))
                && group_at(found_texts(*found)->0, 4) == Some(unit_letter(repeater.unit)) ==> r
                == Some((date, repeater)),
{
    proof {
        assert forall|repeater: RepeaterInfo| optional_repeater(
            Some(repeater_prefix(repeater.repeater_type)),
            Some(decimal_int(repeater.interval as int)),
            Some(unit_letter(repeater.unit)),
        ) == Some(repeater) by {
            lemma_repeater_round_trip(repeater);
        }
    }
    match found {
        Some(groups) => {
            let day = group(groups, 1);
            let prefix = group(groups, 2);
            let interval = group(groups, 3);
            let unit = group(groups, 4);
            let date = read_group_date(as_option_str(&day));
            let repeater = parse_repeater(
                as_option_str(&prefix),
                as_option_str(&interval),
                as_option_str(&unit),
            );
            match (date, repeater) {
                (Some(date), Some(repeater)) => Some((date, repeater)),
                _ => None,
            }
        },
        None => None,
    }
}

/// The abbreviation of a weekday is a word.
pub proof fn lemma_weekday_word(weekday: int)
    ensures
        is_word(weekday_abbreviation(weekday)),
{
    reveal_strlit("Sun");
    reveal_strlit("Mon");
    reveal_strlit("Tue");
    reveal_strlit("Wed");
    reveal_strlit("Thu");
    reveal_strlit("Fri");
    reveal_strlit("Sat");
}

/// A timestamp with a repeater that does not count backwards is one that is written in the usual
/// way.
pub proof fn lemma_has_repeating_timestamp(
    line: Seq<char>,
    before: Seq<char>,
    date: Date,
    repeater: RepeaterInfo,
    after: Seq<char>,
)
    requires
        date.valid(),
        0 <= date.year <= 9999,
        repeater.interval >= 0,
        lacks(before, '<'),
        line == before + timestamp(date, Some(repeater)) + after,
    ensures
        has_repeating_timestamp(
            line,
            before,
            iso_date(date),
            weekday_abbreviation(date.weekday()),
            repeater_prefix(repeater.repeater_type),
            decimal_int(repeater.interval as int),
            unit_letter(repeater.unit),
            after,
        ),
{
    lemma_iso_date_shape(date);
    lemma_weekday_word(date.weekday());
    lemma_decimal(repeater.interval as nat);
    assert(line == before + "<"@ + iso_date(date) + " "@ + weekday_abbreviation(date.weekday())
        + " "@ + repeater_prefix(repeater.repeater_type) + decimal_int(repeater.interval as int)
        + unit_letter(repeater.unit) + ">"@ + after);
}

/// A timestamp without a repeater is one that is written in the usual way.
pub proof fn lemma_has_timestamp(
    line: Seq<char>,
    before: Seq<char>,
    date: Date,
    after: Seq<char>,
)
    requires
        date.valid(),
        0 <= date.year <= 9999,
        lacks(before, '<'),
        line == before + timestamp(date, None) + after,
    ensures
        has_timestamp(line, before, iso_date(date), weekday_abbreviation(date.weekday()), after),
{
    lemma_iso_date_shape(date);
    lemma_weekday_word(date.weekday());
    assert(line == before + "<"@ + iso_date(date) + " "@ + weekday_abbreviation(date.weekday())
        + ">"@ + after);
}

/// The date and the repeater of the first timestamp with a repeater on a line. A timestamp of the
/// years 0 to 9999, with a repeater that does not count backwards, is read back from its text.
/// Nothing is read where the only timestamp has no repeater.
pub fn parse_timestamp_with_repeater(line: &str) -> (r: Option<(Date, RepeaterInfo)>)
    ensures
        r == recurrence_of(first_match(REPEATING_TIMESTAMP_PATTERN@, line@)),
        r is Some ==> (r->0).0.valid(),
        forall|before: Seq<char>, date: Date, repeater: RepeaterInfo, after: Seq<char>|
            date.valid() && 0 <= date.year <= 9999 && repeater.interval >= 0 && lacks(before, '<')
                && line@ == #[trigger] (before + timestamp(date, Some(repeater)) + after) ==> r
                == Some((date, repeater)),
        forall|before: Seq<char>, date: Date, after: Seq<char>|
            date.valid() && 0 <= date.year <= 9999 && lacks(before, '<') && lacks(after, '<')
                && line@ == #[trigger] (before + timestamp(date, None) + after) ==> r is None,
{
    let found = captures(REPEATING_TIMESTAMP_PATTERN, line);
    let r = recurrence_from_groups(&found);
    proof {
        assert forall|before: Seq<char>, date: Date, after: Seq<char>|
            date.valid() && 0 <= date.year <= 9999 && lacks(before, '<') && lacks(after, '<')
                && line@ == #[trigger] (before + timestamp(date, None) + after) implies r is None by {
            lemma_has_timestamp(line@, before, date, after);
        }
        assert forall|before: Seq<char>, date: Date, repeater: RepeaterInfo, after: Seq<char>|
            date.valid() && 0 <= date.year <= 9999 && repeater.interval >= 0 && lacks(before, '<')
                && line@ == #[trigger] (before + timestamp(date, Some(repeater)) + after) implies r
            == Some((date, repeater)) by {
            lemma_has_repeating_timestamp(line@, before, date, repeater, after);
            assert(repeater_text(repeater) == repeater_text(repeater));
        }
    }
    r
}

/// The first line of a text that is not empty.
fn first_line(s: &str) -> (r: String)
    requires
        s@.len() > 0,
    ensures
        r@ == lines(s@)[0],
        lines(s@).len() > 0,
{
    let all = lines_of(s);
    assert(texts(all@).len() == all@.len());
    all[0].clone()
}

/// The rest of the line on which a keyword first stands.
pub open spec fn line_at(section: Seq<char>, keyword: Seq<char>) -> Option<Seq<char>> {
    match find(section, keyword) {
        Some(i) => Some(lines(section.skip(i))[0]),
        None => None,
    }
}

/// The rest of the line on which a keyword first stands.
pub fn find_line(section: &str, keyword: &str) -> (r: Option<String>)
    requires
        keyword@.len() > 0,
    ensures
        option_text(r) == line_at(section@, keyword@),
{
    match find_text(section, keyword) {
        Some(i) => Some(first_line(tail(section, i))),
        None => None,
    }
}

/// Joined texts lack a character that each of them lacks.
pub proof fn lemma_lacks_join(a: Seq<char>, b: Seq<char>, c: char)
    requires
        lacks(a, c),
        lacks(b, c),
    ensures
        lacks(a + b, c),
{
    assert forall|i: int| 0 <= i < (a + b).len() implies (a + b)[i] != c by {
        if i >= a.len() {
            assert((a + b)[i] == b[i - a.len()]);
        }
    }
}

/// A date that is written holds digits and signs only.
proof fn lemma_iso_date_lacks(date: Date, c: char)
    requires
        c == '\n' || c == '$' || c == ':',
    ensures
        lacks(iso_date(date), c),
{
    reveal_strlit("-");
    let year = year_text(date.year as int);
    let abs = (if date.year < 0 {
        -(date.year as int)
    } else {
        date.year as int
    }) as nat;
    let digits = padded(abs, 4);
    let month = padded(date.month as nat, 2);
    let day = padded(date.day as nat, 2);
    lemma_padded(abs, 4);
    lemma_padded(date.month as nat, 2);
    lemma_padded(date.day as nat, 2);
    assert(lacks(digits, c));
    lemma_lacks_join(seq!['-'], digits, c);
    lemma_lacks_join(seq!['+'], digits, c);
    assert(lacks(year, c));
    lemma_lacks_join(year, "-"@, c);
    lemma_lacks_join(year + "-"@, month, c);
    lemma_lacks_join(year + "-"@ + month, "-"@, c);
    lemma_lacks_join(year + "-"@ + month + "-"@, day, c);
}

/// A repeater that is written holds signs, digits and a letter only.
proof fn lemma_repeater_lacks(r: RepeaterInfo, c: char)
    requires
        c == '\n' || c == '$' || c == ':',
    ensures
        lacks(repeater_text(r), c),
{
    reveal_strlit("+");
    reveal_strlit("++");
    reveal_strlit(".+");
    reveal_strlit("d");
    reveal_strlit("w");
    reveal_strlit("m");
    reveal_strlit("y");
    let abs = (if r.interval < 0 {
        -(r.interval as int)
    } else {
        r.interval as int
    }) as nat;
    lemma_decimal(abs);
    assert(lacks(decimal(abs), c));
    lemma_lacks_join(seq!['-'], decimal(abs), c);
    let prefix = repeater_prefix(r.repeater_type);
    let n = decimal_int(r.interval as int);
    lemma_lacks_join(prefix, n, c);
    lemma_lacks_join(prefix + n, unit_letter(r.unit), c);
}

/// A timestamp holds no line feed, no dollar sign and no colon.
pub proof fn lemma_timestamp_lacks(date: Date, repeater: Option<RepeaterInfo>, c: char)
    requires
        c == '\n' || c == '$' || c == ':',
    ensures
        lacks(timestamp(date, repeater), c),
{
    reveal_strlit(" ");
    reveal_strlit("<");
    reveal_strlit(">");
    let iso = iso_date(date);
    let day = weekday_abbreviation(date.weekday());
    let start = "<"@ + iso + " "@ + day;
    lemma_iso_date_lacks(date, c);
    lemma_weekday_word(date.weekday());
    lemma_lacks_join("<"@, iso, c);
    lemma_lacks_join("<"@ + iso, " "@, c);
    lemma_lacks_join("<"@ + iso + " "@, day, c);
    match repeater {
        Some(r) => {
            lemma_repeater_lacks(r, c);
            lemma_lacks_join(start, " "@, c);
            lemma_lacks_join(start + " "@, repeater_text(r), c);
            lemma_lacks_join(start + " "@ + repeater_text(r), ">"@, c);
        },
        None => {
            lemma_lacks_join(start, ">"@, c);
        },
    }
}

/// A planning line holds no line feed and no dollar sign, if its keyword does not.
pub proof fn lemma_planning_line_lacks(
    keyword: Seq<char>,
    date: Date,
    repeater: Option<RepeaterInfo>,
    c: char,
)
    requires
        c == '\n' || c == '$',
        lacks(keyword, c),
    ensures
        lacks(planning_line(keyword, date, repeater), c),
{
    reveal_strlit(" ");
    lemma_timestamp_lacks(date, repeater, c);
    lemma_lacks_join(keyword, " "@, c);
    lemma_lacks_join(keyword + " "@, timestamp(date, repeater), c);
}

/// A planning line is one line, and ends with its bracket.
pub proof fn lemma_planning_line_plain(
    keyword: Seq<char>,
    date: Date,
    repeater: Option<RepeaterInfo>,
)
    requires
        lacks(keyword, '\n'),
    ensures
        lacks(planning_line(keyword, date, repeater), '\n'),
        planning_line(keyword, date, repeater).len() > 0,
        planning_line(keyword, date, repeater).last() == '>',
{
    reveal_strlit(">");
    lemma_planning_line_lacks(keyword, date, repeater, '\n');
}

/// The keyword first stands in the section where this line begins, which ends with its line or with
/// the section.
pub open spec fn has_line(
    section: Seq<char>,
    keyword: Seq<char>,
    before: Seq<char>,
    line: Seq<char>,
    after: Seq<char>,
) -> bool {
    &&& section == before + line + after
    &&& after.len() > 0 ==> after[0] == '\n'
    &&& find(section, keyword) == Some(before.len() as int)
}

/// The line on which the keyword first stands is found.
pub proof fn lemma_line_at(
    section: Seq<char>,
    keyword: Seq<char>,
    before: Seq<char>,
    line: Seq<char>,
    after: Seq<char>,
)
    requires
        has_line(section, keyword, before, line, after),
        lacks(line, '\n'),
        line.len() > 0,
        line.last() != '\r',
    ensures
        line_at(section, keyword) == Some(line),
{
    let s = section.skip(before.len() as int);
    assert(s == line + after);
    assert forall|j: int| 0 <= j < line.len() implies s[j] != '\n' by {
        assert(s[j] == line[j]);
    }
    if after.len() > 0 {
        assert(s[line.len() as int] == '\n');
        lemma_index_of(s, '\n', line.len() as int);
        assert(s.take(line.len() as int) == line);
    } else {
        assert(s == line);
        lemma_index_of_none(s, '\n');
    }
}

/// The date and the repeater after a keyword, if there is a timestamp with a repeater.
pub open spec fn recurrence_at(section: Seq<char>, keyword: Seq<char>) -> Option<
    (Date, RepeaterInfo),
> {
    match line_at(section, keyword) {
        Some(line) => recurrence_of(first_match(REPEATING_TIMESTAMP_PATTERN@, line)),
        None => None,
    }
}

/// What a section says of when its task comes back: the scheduled date if it has a repeater, else
/// the deadline if it has one.
pub open spec fn recurring_info(section: Seq<char>) -> Option<
    (AgendaEntryType, Date, RepeaterInfo),
> {
    match recurrence_at(section, "SCHEDULED:"@) {
        Some((date, repeater)) => Some((AgendaEntryType::Scheduled, date, repeater)),
        None => match recurrence_at(section, "DEADLINE:"@) {
            Some((date, repeater)) => Some((AgendaEntryType::Deadline, date, repeater)),
            None => None,
        },
    }
}

/// The keyword first stands in a planning line of the section, with a timestamp of the years 0 to
/// 9999 and a repeater, if any, that does not count backwards.
pub open spec fn has_dated_line(
    section: Seq<char>,
    keyword: Seq<char>,
    before: Seq<char>,
    date: Date,
    repeater: Option<RepeaterInfo>,
    after: Seq<char>,
) -> bool {
    &&& date.valid() && 0 <= date.year <= 9999
    &&& repeater matches Some(r) ==> r.interval >= 0
    &&& has_line(section, keyword, before, planning_line(keyword, date, repeater), after)
}

/// The keyword does not stand in the section, or first stands in a planning line without a
/// repeater.
pub open spec fn does_not_repeat(section: Seq<char>, keyword: Seq<char>) -> bool {
    ||| find(section, keyword) is None
    ||| exists|before: Seq<char>, date: Date, after: Seq<char>|
        #[trigger] has_dated_line(section, keyword, before, date, None, after)
}

/// The planning line that counts in a section: the scheduling line if it has a repeater, else the
/// deadline if it has one, else the scheduling line, else the deadline.
pub open spec fn has_planning_line(
    section: Seq<char>,
    entry_type: AgendaEntryType,
    before: Seq<char>,
    date: Date,
    repeater: Option<RepeaterInfo>,
    after: Seq<char>,
) -> bool {
    &&& has_dated_line(section, planning_keyword(entry_type), before, date, repeater, after)
    &&& match entry_type {
        AgendaEntryType::Scheduled => repeater is None ==> does_not_repeat(section, "DEADLINE:"@),
        AgendaEntryType::Deadline => if repeater is Some {
            does_not_repeat(section, "SCHEDULED:"@)
        } else {
            find(section, "SCHEDULED:"@) is None
        },
        AgendaEntryType::Closed => false,
    }
}

/// The date and the repeater after a keyword, if there is a timestamp with a repeater.
fn find_recurrence(section: &str, keyword: &str) -> (r: Option<(Date, RepeaterInfo)>)
    requires
        keyword@.len() > 0,
        lacks(keyword@, '\n'),
        lacks(keyword@, '<'),
    ensures
        r == recurrence_at(section@, keyword@),
        r is Some ==> (r->0).0.valid(),
        forall|before: Seq<char>, date: Date, repeater: RepeaterInfo, after: Seq<char>|
            #[trigger] has_dated_line(section@, keyword@, before, date, Some(repeater), after) ==> r == Some((date, repeater)),
        forall|before: Seq<char>, date: Date, after: Seq<char>|
            #[trigger] has_dated_line(section@, keyword@, before, date, None, after) ==> r is None,
        find(section@, keyword@) is None ==> r is None,
{
    let line = find_line(section, keyword);
    let r = match &line {
        Some(line) => parse_timestamp_with_repeater(line.as_str()),
        None => None,
    };
    proof {
        reveal_strlit(" ");
        let start = keyword@ + " "@;
        lemma_lacks_join(keyword@, " "@, '<');
        let none = Seq::<char>::empty();
        assert forall|before: Seq<char>, date: Date, repeater: RepeaterInfo, after: Seq<char>|
            #[trigger] has_dated_line(section@, keyword@, before, date, Some(repeater), after) implies r == Some((date, repeater)) by {
            let text = planning_line(keyword@, date, Some(repeater));
            lemma_planning_line_plain(keyword@, date, Some(repeater));
            lemma_line_at(section@, keyword@, before, text, after);
            assert(text == start + timestamp(date, Some(repeater)) + none);
        }
        assert forall|before: Seq<char>, date: Date, after: Seq<char>|
            #[trigger] has_dated_line(section@, keyword@, before, date, None, after) implies r is None by {
            let text = planning_line(keyword@, date, None);
            lemma_planning_line_plain(keyword@, date, None);
            lemma_line_at(section@, keyword@, before, text, after);
            assert(text == start + timestamp(date, None) + none);
        }
    }
    r
}

/// What a section says of when its task comes back: the scheduled date if it has a repeater, else
/// the deadline if it has one. The planning line that counts is read back if it has a repeater, and
/// nothing is read if it has none.
pub fn extract_recurring_info(section_text: &str) -> (r: Option<
    (AgendaEntryType, Date, RepeaterInfo),
>)
    ensures
        r == recurring_info(section_text@),
        r is Some ==> (r->0).1.valid(),
        forall|
            entry_type: AgendaEntryType,
            before: Seq<char>,
            date: Date,
            repeater: RepeaterInfo,
            after: Seq<char>,
        |
            #[trigger] has_planning_line(
                section_text@,
                entry_type,
                before,
                date,
                Some(repeater),
                after,
            ) ==> r == Some((entry_type, date, repeater)),
        does_not_repeat(section_text@, "SCHEDULED:"@) && does_not_repeat(
            section_text@,
            "DEADLINE:"@,
        ) ==> r is None,
{
    proof {
        reveal_strlit("SCHEDULED:");
        reveal_strlit("DEADLINE:");
    }
    if let Some((date, repeater)) = find_recurrence(section_text, "SCHEDULED:") {
        return Some((AgendaEntryType::Scheduled, date, repeater));
    }
    if let Some((date, repeater)) = find_recurrence(section_text, "DEADLINE:") {
        return Some((AgendaEntryType::Deadline, date, repeater));
    }
    None
}

/// A task's planned date: the date, what it is, and when it comes back.
pub type Planned = (Date, AgendaEntryType, Option<RepeaterInfo>);

/// The date of the timestamp that a search for one found.
pub open spec fn plain_date_of(found: Option<Seq<Option<Seq<char>>>>) -> Option<Date> {
    match found {
        Some(groups) => date_of_group(group_at(groups, 1)),
        None => None,
    }
}

/// The date of the timestamp that a search for one found.
pub fn plain_date_from_groups(found: &Option<Groups>) -> (r: Option<Date>)
    ensures
        r == plain_date_of(found_texts(*found)),
        r is Some ==> r->0.valid(),
        forall|d: Date|
            d.valid() && 0 <= d.year <= 9999 && found is Some && group_at(found_texts(*found)->0, 1)
                == Some(#[trigger] iso_date(d)) ==> r == Some(d),
{
    match found {
        Some(groups) => {
            let day = group(groups, 1);
            read_group_date(as_option_str(&day))
        },
        None => None,
    }
}

/// The planned date of a section: one that comes back if there is one, else the scheduled date,
/// else the deadline. A scheduled timestamp whose date is none of the calendar hides the deadline.
pub open spec fn planned(section: Seq<char>) -> Option<Planned> {
    match recurring_info(section) {
        Some((entry_type, date, repeater)) => Some((date, entry_type, Some(repeater))),
        None => match plain_match_at(section, "SCHEDULED:"@) {
            Some(groups) => match plain_date_of(Some(groups)) {
                Some(date) => Some((date, AgendaEntryType::Scheduled, None)),
                None => None,
            },
            None => match plain_date_of(plain_match_at(section, "DEADLINE:"@)) {
                Some(date) => Some((date, AgendaEntryType::Deadline, None)),
                None => None,
            },
        },
    }
}

/// What the first timestamp without a repeater captures, on the line on which a keyword first
/// stands.
pub open spec fn plain_match_at(section: Seq<char>, keyword: Seq<char>) -> Option<
    Seq<Option<Seq<char>>>,
> {
    match line_at(section, keyword) {
        Some(line) => first_match(TIMESTAMP_PATTERN@, line),
        None => None,
    }
}

/// What the first timestamp without a repeater captures, on the line on which a keyword first
/// stands.
fn match_plain(section: &str, keyword: &str) -> (r: Option<Groups>)
    requires
        keyword@.len() > 0,
        lacks(keyword@, '\n'),
        lacks(keyword@, '<'),
    ensures
        found_texts(r) == plain_match_at(section@, keyword@),
        forall|before: Seq<char>, date: Date, after: Seq<char>|
            #[trigger] has_dated_line(section@, keyword@, before, date, None, after) ==> r is Some && group_at(found_texts(r)->0, 1) == Some(iso_date(date)),
{
    let line = find_line(section, keyword);
    let r = match &line {
        Some(line) => captures(TIMESTAMP_PATTERN, line.as_str()),
        None => None,
    };
    proof {
        reveal_strlit(" ");
        let start = keyword@ + " "@;
        lemma_lacks_join(keyword@, " "@, '<');
        let none = Seq::<char>::empty();
        assert forall|before: Seq<char>, date: Date, after: Seq<char>|
            #[trigger] has_dated_line(section@, keyword@, before, date, None, after) implies r is Some && group_at(found_texts(r)->0, 1) == Some(iso_date(date)) by {
            let text = planning_line(keyword@, date, None);
            lemma_planning_line_plain(keyword@, date, None);
            lemma_line_at(section@, keyword@, before, text, after);
            assert(text == start + timestamp(date, None) + none);
            lemma_has_timestamp(text, start, date, none);
        }
    }
    r
}

/// The planned date of a section. The planning line that counts is read back.
pub fn find_planned(section_text: &str) -> (r: Option<Planned>)
    ensures
        r == planned(section_text@),
        r is Some ==> (r->0).0.valid(),
        forall|
            entry_type: AgendaEntryType,
            before: Seq<char>,
            date: Date,
            repeater: Option<RepeaterInfo>,
            after: Seq<char>,
        |
            #[trigger] has_planning_line(
                section_text@,
                entry_type,
                before,
                date,
                repeater,
                after,
            ) ==> r == Some((date, entry_type, repeater)),
        find(section_text@, "SCHEDULED:"@) is None && find(section_text@, "DEADLINE:"@) is None
            ==> r is None,
{
    proof {
        reveal_strlit("SCHEDULED:");
        reveal_strlit("DEADLINE:");
    }
    if let Some((date, repeater)) = find_recurrence(section_text, "SCHEDULED:") {
        return Some((date, AgendaEntryType::Scheduled, Some(repeater)));
    }
    if let Some((date, repeater)) = find_recurrence(section_text, "DEADLINE:") {
        return Some((date, AgendaEntryType::Deadline, Some(repeater)));
    }
    let scheduled = match_plain(section_text, "SCHEDULED:");
    if scheduled.is_some() {
        let date = plain_date_from_groups(&scheduled)?;
        return Some((date, AgendaEntryType::Scheduled, None));
    }
    let deadline = match_plain(section_text, "DEADLINE:");
    let date = plain_date_from_groups(&deadline)?;
    Some((date, AgendaEntryType::Deadline, None))
}

/// What belongs to a headline, of the text after it: all up to the next line that begins with a
/// star. That is nothing where the text itself begins with one.
pub open spec fn section_of(after: Seq<char>) -> Seq<char> {
    if after.len() > 0 && after[0] == '*' {
        Seq::empty()
    } else {
        match find(after, "\n*"@) {
            Some(i) => after.take(i),
            None => after,
        }
    }
}

/// What belongs to a headline comes first in the text after it.
pub proof fn lemma_section_begins(after: Seq<char>)
    ensures
        section_of(after).len() <= after.len(),
        section_of(after) == after.take(section_of(after).len() as int),
{
    lemma_find(after, "\n*"@);
    assert(after == after.take(after.len() as int));
    assert(after.take(0) == Seq::<char>::empty());
}

/// What belongs to a headline, of the text after it.
pub fn section(after: &str) -> (r: &str)
    ensures
        r@ == section_of(after@),
        exists|rest: Seq<char>| after@ == r@ + rest,
{
    proof {
        assert(after@ == after@ + Seq::<char>::empty());
    }
    if after.unicode_len() > 0 && after.get_char(0) == '*' {
        assert(after@.take(0) == Seq::<char>::empty());
        assert(after@ == after@.take(0) + after@);
        return head(after, 0);
    }
    match find_text(after, "\n*") {
        Some(i) => {
            assert(after@ == after@.take(i as int) + after@.skip(i as int));
            head(after, i)
        },
        None => after,
    }
}

/// Where the line begins and ends on which a keyword first stands, with the line feed that ends
/// it.
pub open spec fn line_range(section: Seq<char>, keyword: Seq<char>) -> Option<(int, int)> {
    match find(section, keyword) {
        Some(at) => {
            let start = match rfind(section.take(at), "\n"@) {
                Some(i) => i + 1,
                None => 0,
            };
            let end = match find(section.skip(at), "\n"@) {
                Some(i) => at + i + 1,
                None => section.len() as int,
            };
            Some((start, end))
        },
        None => None,
    }
}

/// A place, if there is one.
pub open spec fn option_range(range: Option<(usize, usize)>) -> Option<(int, int)> {
    match range {
        Some((start, end)) => Some((start as int, end as int)),
        None => None,
    }
}

/// Where the line begins and ends on which a keyword first stands, with the line feed that ends
/// it.
pub fn find_line_range(section: &str, keyword: &str) -> (r: Option<(usize, usize)>)
    ensures
        option_range(r) == line_range(section@, keyword@),
        r matches Some((start, end)) ==> start <= end <= section@.len(),
{
    let at = find_text(section, keyword)?;
    let len = section.unicode_len();
    proof {
        reveal_strlit("\n");
    }
    let start: usize = match rfind_text(head(section, at), "\n") {
        Some(i) => i + 1,
        None => 0,
    };
    let end: usize = match find_text(tail(section, at), "\n") {
        Some(i) => at + i + 1,
        None => len,
    };
    Some((start, end))
}

/// An edit that puts a planning line where the keyword's line stands, given where the headline
/// ends.
pub open spec fn replaces_line(
    edit: TextEdit,
    headline_end: int,
    section: Seq<char>,
    range: (int, int),
    line: Seq<char>,
) -> bool {
    edit.is(
        headline_end + byte_len(section.take(range.0)),
        headline_end + byte_len(section.take(range.1)),
        line + "\n"@,
    )
}

/// The edit that sets a planning line: it replaces the line on which the keyword stands, or else
/// puts a new line after the headline.
pub open spec fn sets_line(
    edit: TextEdit,
    headline_end: int,
    section: Seq<char>,
    keyword: Seq<char>,
    line: Seq<char>,
) -> bool {
    match line_range(section, keyword) {
        Some(range) => replaces_line(edit, headline_end, section, range, line),
        None => edit.is(headline_end, headline_end, "\n"@ + line + "\n"@),
    }
}

/// The edit that puts a planning line where the keyword's line stands, if it stands anywhere.
pub fn replace_line(headline_end: usize, section: &str, keyword: &str, line: &str) -> (r: Option<
    TextEdit,
>)
    requires
        headline_end + byte_len(section@) <= usize::MAX,
    ensures
        match line_range(section@, keyword@) {
            Some(range) => r matches Some(edit) && replaces_line(
                edit,
                headline_end as int,
                section@,
                range,
                line@,
            ),
            None => r is None,
        },
{
    let (start, end) = find_line_range(section, keyword)?;
    proof {
        lemma_byte_len_take(section@, start as int);
        lemma_byte_len_take(section@, end as int);
    }
    let start = headline_end + utf8_len(head(section, start));
    let end = headline_end + utf8_len(head(section, end));
    let mut text = line.to_owned();
    text.append("\n");
    Some(TextEdit { start, end, text })
}

/// The edit that sets a planning line.
pub fn set_line(headline_end: usize, section: &str, keyword: &str, line: &str) -> (r: TextEdit)
    requires
        headline_end + byte_len(section@) <= usize::MAX,
    ensures
        sets_line(r, headline_end as int, section@, keyword@, line@),
{
    match replace_line(headline_end, section, keyword, line) {
        Some(edit) => edit,
        None => {
            let mut text = "\n".to_owned();
            text.append(line);
            text.append("\n");
            TextEdit { start: headline_end, end: headline_end, text }
        },
    }
}

/// The section of a headline, given where in the buffer the headline ends.
pub open spec fn section_at(buffer_text: Seq<char>, headline_end: int) -> Seq<char> {
    section_of(text_from(buffer_text, headline_end))
}

/// The section of a headline, given where in the buffer the headline ends.
pub fn find_section(buffer_text: &str, headline_end: usize) -> (r: &str)
    requires
        is_boundary(buffer_text@, headline_end as int),
    ensures
        r@ == section_at(buffer_text@, headline_end as int),
        headline_end + byte_len(r@) <= byte_len(buffer_text@) <= usize::MAX,
{
    let (before, after) = cut(buffer_text, headline_end);
    let total = utf8_len(buffer_text);
    let r = section(after);
    proof {
        let rest = choose|rest: Seq<char>| after@ == r@ + rest;
        lemma_byte_len_concat(before@, after@);
        lemma_byte_len_concat(r@, rest);
    }
    r
}

} // verus!
