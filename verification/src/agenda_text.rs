//! What the text of an org file says of the entries that are read from it.
use crate::agenda::{
    after_line, closed_of, deadline_of, entry_of, entry_reminder, file_items, holds_planning_line,
    is_headline, items_from, line_items, nothing_known, reminder_ahead, HeadlineView, ItemView,
};
use crate::calendar::{iso_date, weekday_abbreviation, Date};
use crate::number::decimal;
use crate::patterns::{
    first_match, lacks, CLOSED_PATTERN, DEADLINE_PATTERN, REMIND_PATTERN, SCHEDULED_PATTERN,
};
use crate::planning::{holds_reminder, planning_keyword, reminder_of, AgendaEntryType};
use crate::repeater::RepeaterInfo;
use crate::text::{
    contains, index_of, lemma_find, lemma_index_of, lemma_occurs_char, lines, without_cr,
};
use vstd::prelude::*;
use vstd::string::*;

verus! {

/// The keyword on the line of an entry of a kind.
pub open spec fn entry_keyword(entry_type: AgendaEntryType) -> Seq<char> {
    match entry_type {
        AgendaEntryType::Scheduled => "SCHEDULED:"@,
        AgendaEntryType::Deadline => "DEADLINE:"@,
        AgendaEntryType::Closed => "CLOSED:"@,
    }
}

/// A deadline with a warning period, up to its end.
pub open spec fn warned_line(date: Date, days: nat) -> Seq<char> {
    "DEADLINE:"@ + " "@ + "<"@ + iso_date(date) + " "@ + weekday_abbreviation(date.weekday()) + " "@
        + "-"@ + decimal(days) + "d"@
}

/// The line holds a deadline of the years 0 to 9999 with a warning period, with no angle bracket
/// before it.
pub open spec fn holds_warned_line(
    line: Seq<char>,
    indent: Seq<char>,
    date: Date,
    days: i64,
    after: Seq<char>,
) -> bool {
    &&& line == indent + warned_line(date, days as nat) + after
    &&& date.valid() && 0 <= date.year <= 9999
    &&& days >= 0
    &&& lacks(indent, '<')
}

/// The line holds a closing time of the years 0 to 9999, with no square bracket before it.
pub open spec fn holds_closing(
    line: Seq<char>,
    before: Seq<char>,
    date: Date,
    after: Seq<char>,
) -> bool {
    &&& line == before + "CLOSED: ["@ + iso_date(date) + after
    &&& date.valid() && 0 <= date.year <= 9999
    &&& lacks(before, '[')
}

/// What is read of a line as a scheduling line, a deadline and a closing line: nothing where it
/// lacks the keyword, and what is written in the usual way.
pub open spec fn reads_entries(line: Seq<char>) -> bool {
    let scheduled = entry_of(first_match(SCHEDULED_PATTERN@, line));
    let deadline = deadline_of(first_match(DEADLINE_PATTERN@, line));
    let closed = closed_of(first_match(CLOSED_PATTERN@, line));
    &&& !contains(line, "SCHEDULED:"@) ==> scheduled is None
    &&& !contains(line, "DEADLINE:"@) ==> deadline is None
    &&& !contains(line, "CLOSED:"@) ==> closed is None
    &&& forall|indent: Seq<char>, date: Date, repeater: Option<RepeaterInfo>, after: Seq<char>|
        #[trigger] holds_planning_line(line, "SCHEDULED:"@, indent, date, repeater, after)
            ==> scheduled == Some((date, repeater))
    &&& forall|indent: Seq<char>, date: Date, repeater: Option<RepeaterInfo>, after: Seq<char>|
        #[trigger] holds_planning_line(line, "DEADLINE:"@, indent, date, repeater, after)
            ==> deadline == Some((date, repeater, None::<i64>))
    &&& forall|indent: Seq<char>, date: Date, days: i64, after: Seq<char>|
        #[trigger] holds_warned_line(line, indent, date, days, after) ==> deadline == Some(
            (date, None::<RepeaterInfo>, Some(days)),
        )
    &&& forall|before: Seq<char>, date: Date, after: Seq<char>| #[trigger]
        holds_closing(line, before, date, after) ==> closed == Some(date)
}

/// What is read of a line as a reminder: nothing where it lacks the keyword, and what is written in
/// the usual way.
pub open spec fn reads_reminder(line: Seq<char>) -> bool {
    let reminder = reminder_of(first_match(REMIND_PATTERN@, line));
    &&& !contains(line, "REMIND:"@) ==> reminder is None
    &&& forall|before: Seq<char>, seconds: nat, after: Seq<char>| #[trigger]
        holds_reminder(line, before, seconds, after) ==> reminder == Some(seconds)
}

/// Every line is read so.
pub open spec fn reads_lines(all: Seq<Seq<char>>) -> bool {
    forall|i: int|
        0 <= i < all.len() ==> reads_entries(#[trigger] all[i]) && reads_reminder(all[i])
}

/// A reminder is written on one of the four lines after a line, before the next headline, and no
/// other before it.
pub open spec fn reminder_at(all: Seq<Seq<char>>, line: int, at: int, seconds: nat) -> bool {
    &&& line < at < line + 5 && at < all.len()
    &&& exists|before: Seq<char>, after: Seq<char>|
        #[trigger] holds_reminder(all[at], before, seconds, after)
    &&& !is_headline(all[at])
    &&& forall|k: int|
        line < k < at ==> !is_headline(#[trigger] all[k]) && !contains(all[k], "REMIND:"@)
}

/// A reminder is written on one of the four lines after a line.
pub open spec fn reminder_below(all: Seq<Seq<char>>, line: int, seconds: nat) -> bool {
    exists|at: int| #[trigger] reminder_at(all, line, at, seconds)
}

/// Among the entries is one of a line, with a date and perhaps a repeater and a warning, and with
/// the reminder that is written after the line, unless the task was closed.
pub open spec fn lists_entry(
    items: Seq<ItemView>,
    all: Seq<Seq<char>>,
    line: int,
    entry_type: AgendaEntryType,
    date: Date,
    repeater: Option<RepeaterInfo>,
    warning_days: Option<i64>,
) -> bool {
    exists|k: int| #[trigger]
        is_entry(items, k, all, line, entry_type, date, repeater, warning_days)
}

/// The entry is one of a line, with a date and perhaps a repeater and a warning, and with the
/// reminder that is written after the line, unless the task was closed.
pub open spec fn is_entry(
    items: Seq<ItemView>,
    k: int,
    all: Seq<Seq<char>>,
    line: int,
    entry_type: AgendaEntryType,
    date: Date,
    repeater: Option<RepeaterInfo>,
    warning_days: Option<i64>,
) -> bool {
    &&& 0 <= k < items.len()
    &&& items[k].line_number == line as u32
    &&& items[k].entry_type == entry_type
    &&& items[k].date == date
    &&& items[k].repeater == repeater
    &&& items[k].warning_days == warning_days
    &&& entry_type != AgendaEntryType::Closed ==> forall|seconds: nat| #[trigger]
        reminder_below(all, line, seconds) ==> items[k].reminder_duration == Some(seconds)
}

/// What a line holds is among the entries: its planning lines, its deadline with a warning, and its
/// closing time.
pub open spec fn lists_line(items: Seq<ItemView>, all: Seq<Seq<char>>, line: int) -> bool {
    &&& forall|
        entry_type: AgendaEntryType,
        indent: Seq<char>,
        date: Date,
        repeater: Option<RepeaterInfo>,
        after: Seq<char>,
    |
        entry_type != AgendaEntryType::Closed && #[trigger] holds_planning_line(
            all[line],
            planning_keyword(entry_type),
            indent,
            date,
            repeater,
            after,
        ) ==> lists_entry(items, all, line, entry_type, date, repeater, None)
    &&& forall|indent: Seq<char>, date: Date, days: i64, after: Seq<char>| #[trigger]
        holds_warned_line(all[line], indent, date, days, after) ==> lists_entry(
            items,
            all,
            line,
            AgendaEntryType::Deadline,
            date,
            None,
            Some(days),
        )
    &&& forall|before: Seq<char>, date: Date, after: Seq<char>| #[trigger]
        holds_closing(all[line], before, date, after) ==> lists_entry(
            items,
            all,
            line,
            AgendaEntryType::Closed,
            date,
            None,
            None,
        )
}

/// The entry stands on a line with its keyword.
pub open spec fn stands_on(item: ItemView, all: Seq<Seq<char>>, line: int) -> bool {
    &&& 0 <= line < all.len()
    &&& item.line_number == line as u32
    &&& contains(all[line], entry_keyword(item.entry_type))
}

/// The entry stands on some line with its keyword.
pub open spec fn stands(item: ItemView, all: Seq<Seq<char>>) -> bool {
    exists|line: int| #[trigger] stands_on(item, all, line)
}

/// Every entry stands on a line with its keyword.
pub open spec fn all_stand(items: Seq<ItemView>, all: Seq<Seq<char>>) -> bool {
    forall|k: int| 0 <= k < items.len() ==> stands(#[trigger] items[k], all)
}

/// How many of the keywords for entries a line holds.
pub open spec fn keyword_count(line: Seq<char>) -> nat {
    (if contains(line, "SCHEDULED:"@) {
        1nat
    } else {
        0
    }) + (if contains(line, "DEADLINE:"@) {
        1nat
    } else {
        0
    }) + (if contains(line, "CLOSED:"@) {
        1nat
    } else {
        0
    })
}

/// How many of the keywords for entries the lines from one on hold, each line taken by itself.
pub open spec fn keyword_total(all: Seq<Seq<char>>, line: int) -> nat
    decreases all.len() - line,
{
    if line < 0 || line >= all.len() {
        0
    } else {
        keyword_count(all[line]) + keyword_total(all, line + 1)
    }
}

/// Each keyword that a line holds is written in the usual way.
pub open spec fn is_usual(line: Seq<char>) -> bool {
    &&& contains(line, "SCHEDULED:"@) ==> exists|
        indent: Seq<char>,
        date: Date,
        repeater: Option<RepeaterInfo>,
        after: Seq<char>,
    |
        #[trigger] holds_planning_line(line, "SCHEDULED:"@, indent, date, repeater, after)
    &&& contains(line, "DEADLINE:"@) ==> {
        ||| exists|
            indent: Seq<char>,
            date: Date,
            repeater: Option<RepeaterInfo>,
            after: Seq<char>,
        |
            #[trigger] holds_planning_line(line, "DEADLINE:"@, indent, date, repeater, after)
        ||| exists|indent: Seq<char>, date: Date, days: i64, after: Seq<char>|
            #[trigger] holds_warned_line(line, indent, date, days, after)
    }
    &&& contains(line, "CLOSED:"@) ==> exists|before: Seq<char>, date: Date, after: Seq<char>|
        #[trigger] holds_closing(line, before, date, after)
}

/// Each keyword on each line is written in the usual way.
pub open spec fn all_usual(all: Seq<Seq<char>>) -> bool {
    forall|i: int| 0 <= i < all.len() ==> is_usual(#[trigger] all[i])
}

/// The entries of some lines: what the lines hold is among them, every entry stands on a line with
/// its keyword, and there are as many as there are keywords, or fewer where one of these is not
/// written in the usual way.
pub open spec fn are_entries(items: Seq<ItemView>, all: Seq<Seq<char>>) -> bool {
    &&& forall|line: int| 0 <= line < all.len() ==> #[trigger] lists_line(items, all, line)
    &&& all_stand(items, all)
    &&& items.len() <= keyword_total(all, 0)
    &&& all_usual(all) ==> items.len() == keyword_total(all, 0)
}

/// A written reminder is the one that is looked for.
proof fn lemma_reminder_ahead(all: Seq<Seq<char>>, line: int, at: int, seconds: nat, from: int)
    requires
        reads_lines(all),
        0 <= line,
        line < from <= at,
        reminder_at(all, line, at, seconds),
    ensures
        reminder_ahead(all, from, line + 5) == Some(seconds),
    decreases at - from,
{
    assert(reads_reminder(all[from]));
    if from < at {
        lemma_reminder_ahead(all, line, at, seconds, from + 1);
    }
}

/// The entries of a line are among those of the lines from one on.
proof fn lemma_items_at(
    path: Seq<char>,
    known: HeadlineView,
    all: Seq<Seq<char>>,
    from: int,
    line: int,
) -> (r: (int, HeadlineView))
    requires
        0 <= from <= line < all.len(),
    ensures
        ({
            let items = items_from(path, known, all, from);
            let own = line_items(path, r.1, all, line);
            &&& 0 <= r.0 && r.0 + own.len() <= items.len()
            &&& forall|i: int| 0 <= i < own.len() ==> items[r.0 + i] == #[trigger] own[i]
        }),
    decreases line - from,
{
    let current = after_line(known, all[from]);
    let first = line_items(path, current, all, from);
    let items = items_from(path, known, all, from);
    let rest = items_from(path, current, all, from + 1);
    assert(items == first + rest);
    if from == line {
        (0, current)
    } else {
        let (at, later) = lemma_items_at(path, current, all, from + 1, line);
        let own = line_items(path, later, all, line);
        assert forall|i: int| 0 <= i < own.len() implies items[first.len() + at + i]
            == #[trigger] own[i] by {
            assert(items[first.len() + at + i] == rest[at + i]);
        }
        (first.len() + at, later)
    }
}

/// What a line holds is among the entries of the file.
proof fn lemma_lists_line(path: Seq<char>, known: HeadlineView, all: Seq<Seq<char>>, line: int)
    requires
        reads_lines(all),
        0 <= line < all.len(),
    ensures
        lists_line(items_from(path, known, all, 0), all, line),
{
    let items = items_from(path, known, all, 0);
    let (at, current) = lemma_items_at(path, known, all, 0, line);
    let own = line_items(path, current, all, line);
    assert(reads_entries(all[line]));
    let reminder = entry_reminder(current.reminder_duration, all, line);
    assert forall|seconds: nat| #[trigger] reminder_below(all, line, seconds) implies reminder
        == Some(seconds) by {
        let j = choose|j: int| #[trigger] reminder_at(all, line, j, seconds);
        lemma_reminder_ahead(all, line, j, seconds, line + 1);
    }
    let scheduled = entry_of(first_match(SCHEDULED_PATTERN@, all[line]));
    let deadline = deadline_of(first_match(DEADLINE_PATTERN@, all[line]));
    let second: int = if scheduled is Some {
        1
    } else {
        0
    };
    let third: int = if deadline is Some {
        second + 1
    } else {
        second
    };
    if let Some((date, repeater)) = scheduled {
        assert(items[at + 0] == own[0]);
        assert(is_entry(
            items,
            at,
            all,
            line,
            AgendaEntryType::Scheduled,
            date,
            repeater,
            None,
        ));
    }
    if let Some((date, repeater, warning_days)) = deadline {
        assert(items[at + second] == own[second]);
        assert(is_entry(
            items,
            at + second,
            all,
            line,
            AgendaEntryType::Deadline,
            date,
            repeater,
            warning_days,
        ));
    }
    if let Some(date) = closed_of(first_match(CLOSED_PATTERN@, all[line])) {
        assert(items[at + third] == own[third]);
        assert(is_entry(items, at + third, all, line, AgendaEntryType::Closed, date, None, None));
    }
}

/// The entries of a line stand on it, and there are as many as it holds keywords, or fewer where one
/// of these is not written in the usual way.
proof fn lemma_line_counts(path: Seq<char>, known: HeadlineView, all: Seq<Seq<char>>, line: int)
    requires
        reads_lines(all),
        0 <= line < all.len(),
    ensures
        ({
            let own = line_items(path, known, all, line);
            &&& own.len() <= keyword_count(all[line])
            &&& is_usual(all[line]) ==> own.len() == keyword_count(all[line])
            &&& forall|k: int| 0 <= k < own.len() ==> stands_on(#[trigger] own[k], all, line)
        }),
{
    assert(reads_entries(all[line]));
}

/// The entries of the lines from one on stand on lines with their keywords, and there are as many as
/// these hold keywords, or fewer where one of these is not written in the usual way.
proof fn lemma_counts(path: Seq<char>, known: HeadlineView, all: Seq<Seq<char>>, from: int)
    requires
        reads_lines(all),
        0 <= from <= all.len(),
    ensures
        ({
            let items = items_from(path, known, all, from);
            &&& items.len() <= keyword_total(all, from)
            &&& all_usual(all) ==> items.len() == keyword_total(all, from)
            &&& all_stand(items, all)
        }),
    decreases all.len() - from,
{
    if from < all.len() {
        let current = after_line(known, all[from]);
        let own = line_items(path, current, all, from);
        let rest = items_from(path, current, all, from + 1);
        let items = items_from(path, known, all, from);
        lemma_line_counts(path, current, all, from);
        lemma_counts(path, current, all, from + 1);
        assert(items == own + rest);
        assert forall|k: int| 0 <= k < items.len() implies stands(#[trigger] items[k], all) by {
            if k < own.len() {
                assert(items[k] == own[k]);
                assert(stands_on(items[k], all, from));
            } else {
                assert(items[k] == rest[k - own.len()]);
            }
        }
    }
}

/// The entries of a file whose lines are read so are those of its lines.
pub(crate) proof fn lemma_file_entries(path: Seq<char>, content: Seq<char>)
    requires
        reads_lines(lines(content)),
    ensures
        are_entries(file_items(path, content), lines(content)),
{
    let all = lines(content);
    lemma_counts(path, nothing_known(), all, 0);
    assert forall|line: int| 0 <= line < all.len() implies #[trigger] lists_line(
        file_items(path, content),
        all,
        line,
    ) by {
        lemma_lists_line(path, nothing_known(), all, line);
    }
}

/// The lines of two texts, the first of which is empty or ends its last line, are those of each.
proof fn lemma_lines_join(a: Seq<char>, b: Seq<char>)
    requires
        a.len() > 0 ==> a.last() == '\n',
    ensures
        lines(a + b) == lines(a) + lines(b),
    decreases a.len(),
{
    if a.len() == 0 {
        assert(a + b == b);
        assert(lines(a) + lines(b) == lines(b));
    } else {
        let t = a + b;
        lemma_find(a, seq!['\n']);
        lemma_occurs_char(a, '\n', a.len() - 1);
        let i = index_of(a, '\n')->0;
        lemma_occurs_char(a, '\n', i);
        assert forall|j: int| 0 <= j < i implies t[j] != '\n' by {
            lemma_occurs_char(a, '\n', j);
            assert(t[j] == a[j]);
        }
        assert(t[i] == '\n');
        lemma_index_of(t, '\n', i);
        let rest = a.skip(i + 1);
        assert(t.take(i) == a.take(i));
        assert(t.skip(i + 1) == rest + b);
        lemma_lines_join(rest, b);
        let first = seq![without_cr(a.take(i))];
        assert(first + (lines(rest) + lines(b)) == first + lines(rest) + lines(b));
    }
}

/// Looking ahead for a reminder ends where a headline follows.
proof fn lemma_reminder_stops(
    first: Seq<Seq<char>>,
    second: Seq<Seq<char>>,
    from: int,
    to: int,
)
    requires
        0 <= from <= first.len(),
        second.len() > 0 ==> is_headline(second[0]),
    ensures
        reminder_ahead(first + second, from, to) == reminder_ahead(first, from, to),
    decreases first.len() - from,
{
    let all = first + second;
    if from < first.len() {
        assert(all[from] == first[from]);
        lemma_reminder_stops(first, second, from + 1, to);
    } else if second.len() > 0 {
        assert(all[from] == second[0]);
    }
}

/// Looking ahead for a reminder does not look back.
proof fn lemma_reminder_moves(
    first: Seq<Seq<char>>,
    second: Seq<Seq<char>>,
    from: int,
    to: int,
)
    requires
        0 <= from,
    ensures
        reminder_ahead(first + second, first.len() + from, first.len() + to) == reminder_ahead(
            second,
            from,
            to,
        ),
    decreases to - from,
{
    let all = first + second;
    if from < to && from < second.len() {
        assert(all[first.len() + from] == second[from]);
        lemma_reminder_moves(first, second, from + 1, to);
    }
}

/// The entries of the lines of two texts, the second of which begins with a headline: those of the
/// first, and then those of the second.
proof fn lemma_items_before(
    path: Seq<char>,
    known: HeadlineView,
    first: Seq<Seq<char>>,
    second: Seq<Seq<char>>,
    line: int,
) -> (later: HeadlineView)
    requires
        0 <= line <= first.len(),
        second.len() > 0 ==> is_headline(second[0]),
    ensures
        items_from(path, known, first + second, line) == items_from(path, known, first, line)
            + items_from(path, later, first + second, first.len() as int),
    decreases first.len() - line,
{
    let all = first + second;
    if line < first.len() {
        let current = after_line(known, first[line]);
        assert(all[line] == first[line]);
        let later = lemma_items_before(path, current, first, second, line + 1);
        lemma_reminder_stops(first, second, line + 1, line + 5);
        let own = line_items(path, current, first, line);
        assert(line_items(path, current, all, line) == own);
        let rest = items_from(path, current, first, line + 1);
        let others = items_from(path, later, all, first.len() as int);
        assert(own + (rest + others) == own + rest + others);
        later
    } else {
        assert(Seq::<ItemView>::empty() + items_from(path, known, all, line) == items_from(
            path,
            known,
            all,
            line,
        ));
        known
    }
}

/// Entries that stand so many lines further down.
pub open spec fn moved_down(items: Seq<ItemView>, count: int) -> Seq<ItemView> {
    items.map_values(
        |item: ItemView|
            ItemView { line_number: (item.line_number + count) as u32, ..item },
    )
}

/// The entries of a line after other lines.
proof fn lemma_line_moves(
    path: Seq<char>,
    known: HeadlineView,
    first: Seq<Seq<char>>,
    second: Seq<Seq<char>>,
    line: int,
)
    requires
        0 <= line < second.len(),
        first.len() + second.len() <= u32::MAX,
    ensures
        line_items(path, known, first + second, first.len() + line) == moved_down(
            line_items(path, known, second, line),
            first.len() as int,
        ),
{
    let all = first + second;
    assert(all[first.len() + line] == second[line]);
    lemma_reminder_moves(first, second, line + 1, line + 5);
    let moved = line_items(path, known, all, first.len() + line);
    let own = line_items(path, known, second, line);
    assert(moved.len() == own.len());
    assert forall|k: int| 0 <= k < own.len() implies moved[k] == moved_down(
        own,
        first.len() as int,
    )[k] by {
        assert(own[k].line_number == line as u32);
        assert(moved[k].line_number == (first.len() + line) as u32);
    }
    assert(moved == moved_down(own, first.len() as int));
}

/// The entries of lines after other lines.
proof fn lemma_items_move(
    path: Seq<char>,
    known: HeadlineView,
    first: Seq<Seq<char>>,
    second: Seq<Seq<char>>,
    line: int,
)
    requires
        0 <= line <= second.len(),
        first.len() + second.len() <= u32::MAX,
    ensures
        items_from(path, known, first + second, first.len() + line) == moved_down(
            items_from(path, known, second, line),
            first.len() as int,
        ),
    decreases second.len() - line,
{
    let all = first + second;
    let count = first.len() as int;
    if line < second.len() {
        assert(all[count + line] == second[line]);
        let current = after_line(known, second[line]);
        lemma_line_moves(path, current, first, second, line);
        lemma_items_move(path, current, first, second, line + 1);
        let own = line_items(path, current, second, line);
        let rest = items_from(path, current, second, line + 1);
        assert(moved_down(own + rest, count) == moved_down(own, count) + moved_down(rest, count));
    } else {
        assert(moved_down(Seq::empty(), count) == Seq::<ItemView>::empty());
    }
}

/// The entries of a text that is put after another, which is empty or ends its last line, are those
/// of the other and then its own, that many lines further down, if it is empty or begins with a
/// headline.
pub proof fn lemma_texts_join(path: Seq<char>, first: Seq<char>, second: Seq<char>)
    requires
        first.len() > 0 ==> first.last() == '\n',
        lines(second).len() > 0 ==> is_headline(lines(second)[0]),
        lines(first).len() + lines(second).len() <= u32::MAX,
    ensures
        file_items(path, first + second) == file_items(path, first) + moved_down(
            file_items(path, second),
            lines(first).len() as int,
        ),
{
    let a = lines(first);
    let b = lines(second);
    let count = a.len() as int;
    lemma_lines_join(first, second);
    let later = lemma_items_before(path, nothing_known(), a, b, 0);
    if b.len() > 0 {
        assert((a + b)[count] == b[0]);
        let current = after_line(later, b[0]);
        assert(current == after_line(nothing_known(), b[0]));
        lemma_line_moves(path, current, a, b, 0);
        lemma_items_move(path, current, a, b, 1);
        let own = line_items(path, current, b, 0);
        let rest = items_from(path, current, b, 1);
        assert(items_from(path, nothing_known(), b, 0) == own + rest);
        assert(items_from(path, later, a + b, count) == line_items(path, current, a + b, count)
            + items_from(path, current, a + b, count + 1));
        assert(moved_down(own + rest, count) == moved_down(own, count) + moved_down(rest, count));
    } else {
        lemma_items_move(path, nothing_known(), a, b, 0);
        assert(items_from(path, later, a + b, count) == Seq::<ItemView>::empty());
        assert(moved_down(Seq::empty(), count) == Seq::<ItemView>::empty());
    }
}

/// A text that begins with a star begins with a headline.
pub proof fn lemma_star_is_headline(s: Seq<char>)
    requires
        s.len() > 0,
        s[0] == '*',
    ensures
        lines(s).len() > 0,
        is_headline(lines(s)[0]),
{
    lemma_find(s, seq!['\n']);
    let line = lines(s)[0];
    if let Some(i) = index_of(s, '\n') {
        lemma_occurs_char(s, '\n', i);
        assert(s.take(i)[0] == s[0]);
    }
    assert(line.len() > 0 && line[0] == '*');
}

} // verus!
