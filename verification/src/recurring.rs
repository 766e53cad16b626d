//! What becomes of a task that comes back, once it is done.
use crate::buffer::{head, tail};
use crate::calendar::{local_now, Date, DateTime};
use crate::patterns::{
    all_replaced, captures, first_match, first_replaced, lacks, option_text, replace_all,
    replace_first, CLOSED_LINE_PATTERN, DONE_PATTERN, REPEATING_LINE_PATTERN,
};
use crate::planning::{
    format_planning_line, has_planning_line, keyword_of, lemma_lacks_join,
    lemma_planning_line_lacks, lemma_planning_line_plain, lemma_timestamp_lacks, planning_keyword,
    planning_line, timestamp, AgendaEntryType,
};
use crate::repeater::{next_occurrence, next_occurrence_on, RepeaterInfo};
use crate::text::{
    char_is_space, chars_of, contains, contains_text, find, find_text, join, join_texts,
    lemma_contains_across, lemma_contains_part, lemma_find, lemma_find_after, lemma_index_of,
    lemma_occurs_char, lemma_space_len, lines, lines_of, occurs_at, space_len, starts_with, texts,
};
use vstd::prelude::*;
use vstd::string::*;

verus! {

/// The first place at which a character stands that is no star and no space.
pub open spec fn stars_len(s: Seq<char>) -> int
    decreases s.len(),
{
    if s.len() > 0 && (s[0] == '*' || s[0] == ' ') {
        1 + stars_len(s.skip(1))
    } else {
        0
    }
}

/// Where in a headline a keyword belongs: after the first stars and the spaces around them, if
/// anything follows these.
pub open spec fn keyword_place(headline: Seq<char>) -> Option<int> {
    match find(headline, "*"@) {
        Some(start) => {
            let end = start + stars_len(headline.skip(start));
            if end < headline.len() {
                Some(end)
            } else {
                None
            }
        },
        None => None,
    }
}

/// A headline with a keyword: the headline itself if the keyword stands in it, or if it has no
/// place for one.
pub open spec fn with_keyword(headline: Seq<char>, keyword: Seq<char>) -> Seq<char> {
    if contains(headline, keyword) {
        headline
    } else {
        match keyword_place(headline) {
            Some(i) => headline.take(i) + keyword + " "@ + headline.skip(i),
            None => headline,
        }
    }
}

/// The number of stars and spaces at the beginning of a text, counted from a place.
fn count_stars(s: &str) -> (r: usize)
    ensures
        r == stars_len(s@),
        r <= s@.len(),
{
    let cs = chars_of(s);
    let mut i: usize = 0;
    assert(s@.skip(0) == s@);
    while i < cs.len() && (cs[i] == '*' || cs[i] == ' ')
        invariant
            cs@ == s@,
            i <= cs@.len(),
            stars_len(s@) == i + stars_len(s@.skip(i as int)),
        decreases cs@.len() - i,
    {
        assert(s@.skip(i as int).skip(1) == s@.skip(i + 1));
        i += 1;
    }
    i
}

/// Puts a keyword into a headline, unless it stands there.
pub fn add_keyword(headline: &str, keyword: &str) -> (r: String)
    ensures
        r@ == with_keyword(headline@, keyword@),
{
    if contains_text(headline, keyword) {
        return headline.to_owned();
    }
    let len = headline.unicode_len();
    match find_text(headline, "*") {
        Some(start) => {
            let end = start + count_stars(tail(headline, start));
            if end < len {
                let mut r = head(headline, end).to_owned();
                r.append(keyword);
                r.append(" ");
                r.append(tail(headline, end));
                r
            } else {
                headline.to_owned()
            }
        },
        None => headline.to_owned(),
    }
}

/// A headline, or the text under it, without the keyword of a task that is done and without the
/// line that says when it was closed.
pub open spec fn reopened(headline: Seq<char>) -> Seq<char> {
    all_replaced(CLOSED_LINE_PATTERN@, all_replaced(DONE_PATTERN@, headline, ""@), ""@)
}

/// A headline with its planning line replaced, or else added after it.
pub open spec fn with_planning(headline: Seq<char>, line: Seq<char>) -> Seq<char> {
    if first_match(REPEATING_LINE_PATTERN@, headline) is Some {
        first_replaced(REPEATING_LINE_PATTERN@, headline, line)
    } else {
        headline + "\n"@ + line
    }
}

/// The text of a task that comes back.
pub open spec fn recurring_task(
    original_headline: Seq<char>,
    todo_keyword: Seq<char>,
    next_date: Date,
    repeater: RepeaterInfo,
    entry_type: AgendaEntryType,
) -> Seq<char> {
    "\n"@ + with_planning(
        with_keyword(reopened(original_headline), todo_keyword),
        planning_line(planning_keyword(entry_type), next_date, Some(repeater)),
    ) + "\n"@
}

/// The text says nothing of when its task is planned or was closed, and has no keyword of a task
/// that is done.
pub open spec fn is_unplanned(s: Seq<char>) -> bool {
    &&& !contains(s, "SCHEDULED:"@)
    &&& !contains(s, "DEADLINE:"@)
    &&& !contains(s, "CLOSED:"@)
    &&& !contains(s, "DONE"@)
    &&& !contains(s, "CANCELLED"@)
}

/// A keyword put into a headline brings in no word that neither of them has.
proof fn lemma_with_keyword_lacks(headline: Seq<char>, keyword: Seq<char>, word: Seq<char>)
    requires
        word.len() > 0,
        lacks(word, '*'),
        lacks(word, ' '),
        !contains(headline, word),
        !contains(keyword, word),
    ensures
        !contains(with_keyword(headline, keyword), word),
{
    reveal_strlit("*");
    reveal_strlit(" ");
    assert("*"@ == seq!['*']);
    lemma_find(headline, "*"@);
    if let Some(i) = keyword_place(headline) {
        let start = find(headline, "*"@)->0;
        lemma_occurs_char(headline, '*', start);
        lemma_stars_len(headline.skip(start));
        assert(i > start);
        let c = headline[i - 1];
        assert(c == headline.skip(start)[i - 1 - start]);
        let first = headline.take(i - 1);
        let rest = headline.skip(i);
        assert(first == headline.subrange(0, i - 1));
        assert(rest == headline.subrange(i, headline.len() as int));
        lemma_contains_part(headline, 0, i - 1, word);
        lemma_contains_part(headline, i, headline.len() as int, word);
        lemma_contains_across(keyword, ' ', rest, word);
        lemma_contains_across(first, c, keyword + seq![' '] + rest, word);
        assert(headline.take(i) + keyword + " "@ + rest == first + seq![c] + (keyword + seq![' ']
            + rest));
    }
}

/// The stars and spaces at the beginning of a text are stars and spaces.
proof fn lemma_stars_len(s: Seq<char>)
    ensures
        0 <= stars_len(s) <= s.len(),
        s.len() > 0 && s[0] == '*' ==> stars_len(s) > 0,
        forall|i: int| 0 <= i < stars_len(s) ==> #[trigger] s[i] == '*' || s[i] == ' ',
    decreases s.len(),
{
    if s.len() > 0 && (s[0] == '*' || s[0] == ' ') {
        lemma_stars_len(s.skip(1));
        assert forall|i: int| 0 <= i < stars_len(s) implies #[trigger] s[i] == '*' || s[i] == ' ' by {
            if i > 0 {
                assert(s[i] == s.skip(1)[i - 1]);
            }
        }
    }
}

/// A task with nothing planned before its planning line has that line, which counts.
proof fn lemma_task_is_planned(
    headline: Seq<char>,
    next_date: Date,
    repeater: RepeaterInfo,
    entry_type: AgendaEntryType,
)
    requires
        entry_type != AgendaEntryType::Closed,
        next_date.valid(),
        0 <= next_date.year <= 9999,
        repeater.interval >= 0,
        !contains(headline, "SCHEDULED:"@),
        !contains(headline, "DEADLINE:"@),
    ensures
        ({
            let line = planning_line(planning_keyword(entry_type), next_date, Some(repeater));
            has_planning_line(
                "\n"@ + (headline + "\n"@ + line) + "\n"@,
                entry_type,
                "\n"@ + headline + "\n"@,
                next_date,
                Some(repeater),
                "\n"@,
            )
        }),
{
    reveal_strlit("\n");
    reveal_strlit(" ");
    reveal_strlit("SCHEDULED:");
    reveal_strlit("DEADLINE:");
    let feed = seq!['\n'];
    assert("\n"@ == feed);
    let none = Seq::<char>::empty();
    let keyword = planning_keyword(entry_type);
    let stamp = timestamp(next_date, Some(repeater));
    let line = planning_line(keyword, next_date, Some(repeater));
    let task = "\n"@ + (headline + "\n"@ + line) + "\n"@;
    let stem = feed + headline;
    lemma_nothing_in_nothing(keyword);
    lemma_contains_across(none, '\n', headline, keyword);
    assert(none + feed + headline == stem);
    assert((line + feed).subrange(0, keyword.len() as int) == keyword);
    assert(starts_with(line + feed, keyword));
    lemma_find_after(stem, '\n', line + feed, keyword);
    assert(task == stem + feed + (line + feed));
    assert(task == "\n"@ + headline + "\n"@ + line + "\n"@);
    if entry_type == AgendaEntryType::Deadline {
        let other = "SCHEDULED:"@;
        lemma_nothing_in_nothing(other);
        lemma_contains_across(none, '\n', headline, other);
        lemma_timestamp_lacks(next_date, Some(repeater), ':');
        assert(!contains(line, other)) by {
            if contains(line, other) {
                let i = choose|i: int| occurs_at(line, other, i);
                assert(line.subrange(i, i + 10)[9] == line[i + 9]);
                assert(line[i + 9] == ':');
                if i + 9 >= keyword.len() + 1 {
                    assert(line[i + 9] == stamp[i + 9 - keyword.len() - 1]);
                }
            }
        }
        lemma_contains_across(line, '\n', none, other);
        assert(line + feed + none == line + feed);
        lemma_contains_across(stem, '\n', line + feed, other);
        lemma_find(task, other);
    }
}

/// Nothing stands in an empty text.
proof fn lemma_nothing_in_nothing(word: Seq<char>)
    requires
        word.len() > 0,
    ensures
        !contains(Seq::<char>::empty(), word),
{
}

/// The text of a task that comes back: its headline with the keyword of a task to do, planned for
/// the next date. The planning line for that date stands in it, and counts where the headline and
/// the keyword say nothing else of when the task is planned: the date, its kind and the repeater
/// are then read back.
pub fn create_recurring_task(
    original_headline: &str,
    todo_keyword: &str,
    next_date: Date,
    repeater: &RepeaterInfo,
    entry_type: AgendaEntryType,
) -> (r: String)
    requires
        next_date.valid(),
    ensures
        r@ == recurring_task(
            original_headline@,
            todo_keyword@,
            next_date,
            *repeater,
            entry_type,
        ),
        contains(r@, planning_line(planning_keyword(entry_type), next_date, Some(*repeater))),
        is_unplanned(original_headline@) && is_unplanned(todo_keyword@) && entry_type
            != AgendaEntryType::Closed && 0 <= next_date.year <= 9999 && repeater.interval >= 0
            ==> exists|before: Seq<char>, after: Seq<char>|
            #[trigger] has_planning_line(
                r@,
                entry_type,
                before,
                next_date,
                Some(*repeater),
                after,
            ),
{
    let headline = replace_all(DONE_PATTERN, original_headline, "");
    let headline = replace_all(CLOSED_LINE_PATTERN, headline.as_str(), "");
    let headline = add_keyword(headline.as_str(), todo_keyword);
    let line = format_planning_line(keyword_of(entry_type), next_date, &Some(*repeater));
    let mut r = "\n".to_owned();
    let ghost unplanned = is_unplanned(original_headline@) && is_unplanned(todo_keyword@);
    proof {
        reveal_strlit("SCHEDULED:");
        reveal_strlit("DEADLINE:");
        if unplanned {
            lemma_with_keyword_lacks(original_headline@, todo_keyword@, "SCHEDULED:"@);
            lemma_with_keyword_lacks(original_headline@, todo_keyword@, "DEADLINE:"@);
        }
    }
    if captures(REPEATING_LINE_PATTERN, headline.as_str()).is_some() {
        let replaced = replace_first(REPEATING_LINE_PATTERN, headline.as_str(), line.as_str());
        r.append(replaced.as_str());
        proof {
            reveal_strlit("SCHEDULED:");
            reveal_strlit("DEADLINE:");
            lemma_planning_line_lacks(
                planning_keyword(entry_type),
                next_date,
                Some(*repeater),
                '$',
            );
            let (before, matched, after) = choose|
                before: Seq<char>,
                matched: Seq<char>,
                after: Seq<char>,
            |
                headline@ == #[trigger] (before + matched + after) && replaced@ == before + line@
                    + after;
            lemma_contains_join("\n"@ + before, line@, after + "\n"@);
            assert("\n"@ + (before + line@ + after) + "\n"@ == "\n"@ + before + line@ + (after
                + "\n"@));
        }
    } else {
        let mut added = headline.clone();
        added.append("\n");
        added.append(line.as_str());
        r.append(added.as_str());
        proof {
            if unplanned && entry_type != AgendaEntryType::Closed && 0 <= next_date.year <= 9999
                && repeater.interval >= 0 {
                lemma_task_is_planned(headline@, next_date, *repeater, entry_type);
            }
            lemma_contains_join("\n"@ + (headline@ + "\n"@), line@, "\n"@);
            assert("\n"@ + (headline@ + "\n"@ + line@) + "\n"@ == "\n"@ + (headline@ + "\n"@)
                + line@ + "\n"@);
        }
    }
    r.append("\n");
    r
}

/// A text stands in one that it is a part of.
proof fn lemma_contains_join(a: Seq<char>, b: Seq<char>, c: Seq<char>)
    ensures
        contains(a + b + c, b),
{
    assert((a + b + c).subrange(a.len() as int, a.len() as int + b.len()) == b);
    assert(occurs_at(a + b + c, b, a.len() as int));
}

/// The white space at the beginning of a line.
pub open spec fn indent(line: Seq<char>) -> Seq<char> {
    line.take(space_len(line))
}

/// The white space at the beginning of a line.
fn indent_of(line: &str) -> (r: &str)
    ensures
        r@ == indent(line@),
{
    let cs = chars_of(line);
    let mut i: usize = 0;
    assert(line@.skip(0) == line@);
    while i < cs.len() && char_is_space(cs[i])
        invariant
            cs@ == line@,
            i <= cs@.len(),
            space_len(line@) == i + space_len(line@.skip(i as int)),
        decreases cs@.len() - i,
    {
        assert(line@.skip(i as int).skip(1) == line@.skip(i + 1));
        i += 1;
    }
    head(line, i)
}

/// The first of the lines from one place up to another that holds a keyword.
pub open spec fn line_with(lines: Seq<Seq<char>>, from: int, to: int, keyword: Seq<char>) -> Option<
    int,
>
    decreases to - from,
{
    if from < 0 || from >= to || from >= lines.len() {
        None
    } else if contains(lines[from], keyword) {
        Some(from)
    } else {
        line_with(lines, from + 1, to, keyword)
    }
}

/// A file in which the planning line of a task is moved to its next date: the first of five lines,
/// from the given one on, that holds the keyword. There is nothing to move where there is no such
/// line, or where the entry is not one for a date to come.
pub open spec fn moved(
    content: Seq<char>,
    line_number: int,
    entry_type: AgendaEntryType,
    next_date: Date,
    repeater: RepeaterInfo,
) -> Option<Seq<char>> {
    let all = lines(content);
    let keyword = planning_keyword(entry_type);
    match line_with(all, line_number, line_number + 5, keyword) {
        Some(i) if entry_type != AgendaEntryType::Closed => Some(
            join(
                all.update(i, indent(all[i]) + planning_line(keyword, next_date, Some(repeater))),
                "\n"@,
            ) + "\n"@,
        ),
        _ => None,
    }
}

/// What a file holds after the planning line of a task was moved to its next date.
pub fn move_planning_line(
    content: &str,
    line_number: u32,
    entry_type: AgendaEntryType,
    next_date: Date,
    repeater: &RepeaterInfo,
) -> (r: Option<String>)
    requires
        next_date.valid(),
    ensures
        option_text(r) == moved(
            content@,
            line_number as int,
            entry_type,
            next_date,
            *repeater,
        ),
{
    if let AgendaEntryType::Closed = entry_type {
        return None;
    }
    let mut all = lines_of(content);
    let keyword = keyword_of(entry_type);
    let start = line_number as usize;
    if start >= all.len() {
        return None;
    }
    let end: usize = if all.len() - start < 5 {
        all.len()
    } else {
        start + 5
    };
    let mut i = start;
    let ghost ls = lines(content@);
    assert(ls.len() == all@.len());
    while i < end
        invariant
            texts(all@) == ls,
            ls.len() == all@.len(),
            line_number <= i <= end <= all@.len(),
            end == line_number + 5 || end == all@.len() && end < line_number + 5,
            entry_type != AgendaEntryType::Closed,
            keyword@ == planning_keyword(entry_type),
            ls == lines(content@),
            next_date.valid(),
            line_with(ls, line_number as int, line_number + 5, keyword@) == line_with(
                ls,
                i as int,
                line_number + 5,
                keyword@,
            ),
        decreases end - i,
    {
        assert(ls[i as int] == all@[i as int]@);
        if contains_text(all[i].as_str(), keyword) {
            let line = format_planning_line(keyword, next_date, &Some(*repeater));
            let mut new_line = indent_of(all[i].as_str()).to_owned();
            new_line.append(line.as_str());
            let ghost text = new_line@;
            all.set(i, new_line);
            assert(texts(all@) == ls.update(i as int, text));
            let mut r = join_texts(&all, "\n");
            r.append("\n");
            return Some(r);
        }
        i += 1;
    }
    None
}

/// What a file holds after a task that comes back was moved on, when it is done on a day. There is
/// nothing to do where the next date lies outside the calendar.
pub open spec fn rescheduled(
    content: Seq<char>,
    line_number: int,
    current_date: Date,
    repeater: RepeaterInfo,
    entry_type: AgendaEntryType,
    today: Date,
) -> Option<Seq<char>> {
    match next_occurrence(current_date, repeater, Some(today), today) {
        Some(next_date) => moved(content, line_number, entry_type, next_date, repeater),
        None => None,
    }
}

/// What a file holds after a task that comes back was moved on, when it is done on a day.
pub fn reschedule_on(
    content: &str,
    line_number: u32,
    current_date: Date,
    repeater: &RepeaterInfo,
    entry_type: AgendaEntryType,
    today: Date,
) -> (r: Option<String>)
    requires
        current_date.valid(),
        today.valid(),
    ensures
        option_text(r) == rescheduled(
            content@,
            line_number as int,
            current_date,
            *repeater,
            entry_type,
            today,
        ),
{
    let next_date = next_occurrence_on(current_date, repeater, Some(today), today)?;
    move_planning_line(content, line_number, entry_type, next_date, repeater)
}

/// What a file holds after a task that comes back was moved on, when it is done now.
pub fn reschedule_recurring_task(
    content: &str,
    line_number: u32,
    current_date: Date,
    repeater: &RepeaterInfo,
    entry_type: AgendaEntryType,
) -> (r: Option<String>)
    requires
        current_date.valid(),
    ensures
        exists|now: DateTime|
            now.valid() && option_text(r) == #[trigger] rescheduled(
                content@,
                line_number as int,
                current_date,
                *repeater,
                entry_type,
                now.date,
            ),
{
    let now = local_now();
    reschedule_on(content, line_number, current_date, repeater, entry_type, now.date)
}

/// Joined pieces begin with the first of them.
proof fn lemma_join_front(parts: Seq<Seq<char>>, sep: Seq<char>)
    requires
        parts.len() >= 2,
    ensures
        join(parts, sep) == parts[0] + sep + join(parts.skip(1), sep),
    decreases parts.len(),
{
    let init = parts.drop_last();
    if parts.len() == 2 {
        reveal_with_fuel(join, 2);
        assert(init[0] == parts[0]);
        assert(parts.skip(1)[0] == parts.last());
    } else {
        lemma_join_front(init, sep);
        assert(init.skip(1) == parts.skip(1).drop_last());
        assert(parts.skip(1).last() == parts.last());
        assert(join(parts, sep) == parts[0] + sep + join(parts.skip(1), sep));
    }
}

/// The text is one line: it has no line feed, and no carriage return ends it.
pub open spec fn is_line(s: Seq<char>) -> bool {
    lacks(s, '\n') && (s.len() > 0 ==> s.last() != '\r')
}

/// Joining lines and ending the last of them gives a text with these lines.
pub proof fn lemma_lines_join(parts: Seq<Seq<char>>)
    requires
        parts.len() > 0,
        forall|i: int| 0 <= i < parts.len() ==> is_line(#[trigger] parts[i]),
    ensures
        lines(join(parts, "\n"@) + "\n"@) == parts,
    decreases parts.len(),
{
    reveal_strlit("\n");
    let t = join(parts, "\n"@) + "\n"@;
    let first = parts[0];
    let rest = parts.skip(1);
    let tail = if parts.len() == 1 {
        Seq::<char>::empty()
    } else {
        join(rest, "\n"@) + "\n"@
    };
    if parts.len() > 1 {
        lemma_join_front(parts, "\n"@);
        assert forall|i: int| 0 <= i < rest.len() implies is_line(#[trigger] rest[i]) by {
            assert(rest[i] == parts[i + 1]);
        }
        lemma_lines_join(rest);
    }
    assert(t == first + "\n"@ + tail);
    assert(is_line(first));
    assert forall|j: int| 0 <= j < first.len() implies t[j] != '\n' by {
        assert(t[j] == first[j]);
    }
    assert(t[first.len() as int] == '\n');
    lemma_index_of(t, '\n', first.len() as int);
    assert(t.take(first.len() as int) == first);
    assert(t.skip(first.len() as int + 1) == tail);
    assert(lines(tail) == rest) by {
        reveal_with_fuel(lines, 1);
    }
    assert(lines(t) == seq![first] + lines(tail));
    assert(parts == seq![first] + rest);
}

/// Moving a task on leaves every line of the file but its planning line as it was, and puts the
/// next date there, if no line holds a carriage return at its end.
pub proof fn lemma_moved_lines(
    content: Seq<char>,
    line_number: int,
    entry_type: AgendaEntryType,
    next_date: Date,
    repeater: RepeaterInfo,
)
    requires
        moved(content, line_number, entry_type, next_date, repeater) is Some,
        forall|i: int| 0 <= i < lines(content).len() ==> is_line(#[trigger] lines(content)[i]),
    ensures
        ({
            let keyword = planning_keyword(entry_type);
            let i = line_with(lines(content), line_number, line_number + 5, keyword)->0;
            lines(moved(content, line_number, entry_type, next_date, repeater)->0) == lines(
                content,
            ).update(
                i,
                indent(lines(content)[i]) + planning_line(keyword, next_date, Some(repeater)),
            )
        }),
{
    let keyword = planning_keyword(entry_type);
    let all = lines(content);
    let i = line_with(all, line_number, line_number + 5, keyword)->0;
    lemma_line_with(all, line_number, line_number + 5, keyword);
    reveal_strlit("SCHEDULED:");
    reveal_strlit("DEADLINE:");
    lemma_planning_line_plain(keyword, next_date, Some(repeater));
    let line = planning_line(keyword, next_date, Some(repeater));
    lemma_space_len(all[i]);
    assert(is_line(all[i]));
    assert(lacks(indent(all[i]), '\n'));
    lemma_lacks_join(indent(all[i]), line, '\n');
    assert((indent(all[i]) + line).last() == line.last());
    let new = all.update(i, indent(all[i]) + line);
    assert forall|k: int| 0 <= k < new.len() implies is_line(#[trigger] new[k]) by {
        if k != i {
            assert(is_line(all[k]));
        }
    }
    lemma_lines_join(new);
}

/// The line found lies within the lines searched.
proof fn lemma_line_with(all: Seq<Seq<char>>, from: int, to: int, keyword: Seq<char>)
    ensures
        line_with(all, from, to, keyword) matches Some(i) ==> from <= i < to && 0 <= i < all.len(),
    decreases to - from,
{
    if 0 <= from < to && from < all.len() && !contains(all[from], keyword) {
        lemma_line_with(all, from + 1, to, keyword);
    }
}

} // verus!
