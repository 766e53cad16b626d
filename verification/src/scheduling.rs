//! Scheduling a task, setting its deadline, and making it come back.
use crate::buffer::{byte_len, edited, is_boundary, lemma_byte_len_concat, lemma_edited, TextEdit};
use crate::calendar::{local_now, Date, DateTime};
use crate::date_picker::{DatePickerModal, Picked};
use crate::number::lemma_decimal;
use crate::patterns::lacks;
use crate::planning::{
    find_planned, find_section, format_planning_line, format_reminder_duration, has_line,
    has_planning_line, keyword_of, lemma_planning_line_plain, lemma_section_begins, line_range,
    planned, planning_keyword, planning_line, reminder_text, replace_line, replaces_line,
    section_at, section_of, set_line, sets_line, AgendaEntryType,
};
use crate::repeater::{shift, shifted, RepeaterInfo};
use crate::syntax::{find_first, first_of_kind, SyntaxNode};
use crate::text::{
    find, lemma_find, lemma_find_is, lemma_occurs_char, lemma_rfind, lemma_split_at,
    lemma_split_one, occurs_at, rfind, split, starts_with,
};
use vstd::prelude::*;
use vstd::string::*;

verus! {

/// A picker that begins at a date and a repeater, without a reminder.
pub open spec fn picker_at(date: Date, repeater: Option<RepeaterInfo>) -> DatePickerModal {
    DatePickerModal {
        selected_date: date,
        selected_reminder: None,
        selected_repeater: repeater,
        confirmed: false,
    }
}

/// A picker that begins a number of days after today. There is none where that leads out of the
/// calendar.
pub open spec fn picker_from(today: Date, days: int) -> Option<DatePickerModal> {
    match shifted(today, days) {
        Some(date) => Some(picker_at(date, None)),
        None => None,
    }
}

/// A picker that begins a number of days after today.
pub fn open_picker(today: Date, days: i64) -> (r: Option<DatePickerModal>)
    requires
        today.valid(),
    ensures
        r == picker_from(today, days as int),
        r is Some ==> r->0.valid(),
{
    let date = shift(today, days)?;
    Some(DatePickerModal::new(date))
}

/// Begins to schedule the task under the cursor: opens a picker at tomorrow, if there is an editor.
pub fn schedule_task(has_editor: bool) -> (r: Option<DatePickerModal>)
    ensures
        !has_editor ==> r is None,
        has_editor ==> exists|now: DateTime| now.valid() && r == #[trigger] picker_from(now.date, 1),
        r is Some ==> r->0.valid(),
{
    if !has_editor {
        return None;
    }
    let now = local_now();
    open_picker(now.date, 1)
}

/// Begins to set a deadline for the task under the cursor: opens a picker at a week from now, if
/// there is an editor.
pub fn set_deadline(has_editor: bool) -> (r: Option<DatePickerModal>)
    ensures
        !has_editor ==> r is None,
        has_editor ==> exists|now: DateTime| now.valid() && r == #[trigger] picker_from(now.date, 7),
        r is Some ==> r->0.valid(),
{
    if !has_editor {
        return None;
    }
    let now = local_now();
    open_picker(now.date, 7)
}

/// A planning line, and a line with the reminder if there is one.
pub open spec fn planning_text(keyword: Seq<char>, picked: Picked) -> Seq<char> {
    let line = planning_line(keyword, picked.0, picked.2);
    match picked.1 {
        Some(seconds) => line + "\nREMIND: "@ + reminder_text(seconds as nat),
        None => line,
    }
}

/// A planning line, and a line with the reminder if there is one.
pub fn format_planning_text(keyword: &str, picked: Picked) -> (r: String)
    requires
        picked.0.valid(),
    ensures
        r@ == planning_text(keyword@, picked),
{
    let mut r = format_planning_line(keyword, picked.0, &picked.2);
    if let Some(seconds) = picked.1 {
        let reminder = format_reminder_duration(seconds);
        r.append("\nREMIND: ");
        r.append(reminder.as_str());
    }
    r
}

/// The nearest headline around a place ends between two characters of the buffer.
pub open spec fn headline_fits(buffer_text: Seq<char>, ancestors: Seq<SyntaxNode>) -> bool {
    first_of_kind(ancestors, "headline"@) matches Some(headline) ==> is_boundary(
        buffer_text,
        headline.end_byte as int,
    )
}

/// Plans the task of the nearest headline around the cursor: the edit that sets its planning line.
fn plan(
    buffer_text: &str,
    ancestors: &Vec<SyntaxNode>,
    keyword: &str,
    picked: Picked,
) -> (r: Option<TextEdit>)
    requires
        picked.0.valid(),
        headline_fits(buffer_text@, ancestors@),
    ensures
        match first_of_kind(ancestors@, "headline"@) {
            Some(headline) => r matches Some(edit) && sets_line(
                edit,
                headline.end_byte as int,
                section_at(buffer_text@, headline.end_byte as int),
                keyword@,
                planning_text(keyword@, picked),
            ),
            None => r is None,
        },
{
    let headline = find_first(ancestors, "headline")?;
    let section = find_section(buffer_text, headline.end_byte);
    let text = format_planning_text(keyword, picked);
    Some(set_line(headline.end_byte, section, keyword, text.as_str()))
}

/// Schedules the task of the nearest headline around the cursor. The nodes around the cursor are
/// given from the innermost outwards.
pub fn schedule_picked(buffer_text: &str, ancestors: &Vec<SyntaxNode>, picked: Picked) -> (r: Option<
    TextEdit,
>)
    requires
        picked.0.valid(),
        headline_fits(buffer_text@, ancestors@),
    ensures
        match first_of_kind(ancestors@, "headline"@) {
            Some(headline) => r matches Some(edit) && sets_line(
                edit,
                headline.end_byte as int,
                section_at(buffer_text@, headline.end_byte as int),
                "SCHEDULED:"@,
                planning_text("SCHEDULED:"@, picked),
            ),
            None => r is None,
        },
{
    plan(buffer_text, ancestors, "SCHEDULED:", picked)
}

/// Sets the deadline of the task of the nearest headline around the cursor.
pub fn set_deadline_picked(buffer_text: &str, ancestors: &Vec<SyntaxNode>, picked: Picked) -> (r:
    Option<TextEdit>)
    requires
        picked.0.valid(),
        headline_fits(buffer_text@, ancestors@),
    ensures
        match first_of_kind(ancestors@, "headline"@) {
            Some(headline) => r matches Some(edit) && sets_line(
                edit,
                headline.end_byte as int,
                section_at(buffer_text@, headline.end_byte as int),
                "DEADLINE:"@,
                planning_text("DEADLINE:"@, picked),
            ),
            None => r is None,
        },
{
    plan(buffer_text, ancestors, "DEADLINE:", picked)
}

/// Begins to make the task under the cursor come back: opens a picker at the date and the repeater
/// that it has, and tells which of its planned dates that is. There is nothing to do where there
/// is no headline or no planned date. The planning line that counts is read back.
pub fn set_recurring(buffer_text: &str, ancestors: &Vec<SyntaxNode>) -> (r: Option<
    (DatePickerModal, AgendaEntryType),
>)
    requires
        headline_fits(buffer_text@, ancestors@),
    ensures
        r is Some ==> (r->0).0.valid(),
        r == recurring_picker(buffer_text@, ancestors@),
        forall|
            headline: SyntaxNode,
            entry_type: AgendaEntryType,
            before: Seq<char>,
            date: Date,
            repeater: Option<RepeaterInfo>,
            after: Seq<char>,
        |
            first_of_kind(ancestors@, "headline"@) == Some(headline) && #[trigger] has_planning_line(
                section_at(buffer_text@, headline.end_byte as int),
                entry_type,
                before,
                date,
                repeater,
                after,
            ) ==> r == Some((picker_at(date, repeater), entry_type)),
{
    let headline = find_first(ancestors, "headline")?;
    let section = find_section(buffer_text, headline.end_byte);
    let (date, entry_type, repeater) = find_planned(section)?;
    Some((DatePickerModal::new_with_repeater(date, repeater), entry_type))
}

/// A picker at the planned date of the nearest headline, and which of its planned dates that is.
pub open spec fn recurring_picker(buffer_text: Seq<char>, ancestors: Seq<SyntaxNode>) -> Option<
    (DatePickerModal, AgendaEntryType),
> {
    match first_of_kind(ancestors, "headline"@) {
        Some(headline) => match planned(section_at(buffer_text, headline.end_byte as int)) {
            Some((date, entry_type, repeater)) => Some((picker_at(date, repeater), entry_type)),
            None => None,
        },
        None => None,
    }
}

/// Makes the task of the nearest headline come back: puts the picked date and repeater where its
/// planning line stands. The reminder is left alone.
pub fn set_recurring_picked(
    buffer_text: &str,
    ancestors: &Vec<SyntaxNode>,
    entry_type: AgendaEntryType,
    picked: Picked,
) -> (r: Option<TextEdit>)
    requires
        picked.0.valid(),
        headline_fits(buffer_text@, ancestors@),
    ensures
        match first_of_kind(ancestors@, "headline"@) {
            Some(headline) => {
                let section = section_at(buffer_text@, headline.end_byte as int);
                let keyword = planning_keyword(entry_type);
                match line_range(section, keyword) {
                    Some(range) => r matches Some(edit) && replaces_line(
                        edit,
                        headline.end_byte as int,
                        section,
                        range,
                        planning_line(keyword, picked.0, picked.2),
                    ),
                    None => r is None,
                }
            },
            None => r is None,
        },
{
    let headline = find_first(ancestors, "headline")?;
    let section = find_section(buffer_text, headline.end_byte);
    let keyword = keyword_of(entry_type);
    let line = format_planning_line(keyword, picked.0, &picked.2);
    replace_line(headline.end_byte, section, keyword, line.as_str())
}

/// A section after its planning line was set.
pub open spec fn section_with(section: Seq<char>, keyword: Seq<char>, text: Seq<char>) -> Seq<char> {
    match line_range(section, keyword) {
        Some(range) => section.take(range.0) + text + "\n"@ + section.skip(range.1),
        None => "\n"@ + text + "\n"@ + section,
    }
}

/// The text after a headline once its planning line was set.
pub open spec fn set_in(after: Seq<char>, keyword: Seq<char>, text: Seq<char>) -> Seq<char> {
    let section = section_of(after);
    section_with(section, keyword, text) + after.skip(section.len() as int)
}

/// The section of a headline once its planning line was set, given the text after it before. Where
/// that began with the next headline, the line feed that ends the planning line comes before it.
pub open spec fn section_once_set(
    after: Seq<char>,
    keyword: Seq<char>,
    text: Seq<char>,
) -> Seq<char> {
    if begins_with_star(after) {
        "\n"@ + text
    } else {
        section_with(section_of(after), keyword, text)
    }
}

/// The text begins with a star.
pub open spec fn begins_with_star(s: Seq<char>) -> bool {
    s.len() > 0 && s[0] == '*'
}

/// The part of a section before its planning line, once that was set.
pub open spec fn part_before(section: Seq<char>, keyword: Seq<char>) -> Seq<char> {
    match line_range(section, keyword) {
        Some(range) => section.take(range.0),
        None => "\n"@,
    }
}

/// The part of a section after its planning line, once that was set.
pub open spec fn part_after(section: Seq<char>, keyword: Seq<char>) -> Seq<char> {
    match line_range(section, keyword) {
        Some(range) => section.skip(range.1),
        None => section,
    }
}

/// Setting a planning line changes the section of the headline and nothing else.
pub proof fn lemma_set_line(
    before: Seq<char>,
    after: Seq<char>,
    keyword: Seq<char>,
    text: Seq<char>,
    edit: TextEdit,
)
    requires
        sets_line(edit, byte_len(before), section_of(after), keyword, text),
    ensures
        edited(before + after, edit.start as int, edit.end as int, edit.text@) == before + set_in(
            after,
            keyword,
            text,
        ),
{
    let s = section_of(after);
    lemma_section_begins(after);
    let rest = after.skip(s.len() as int);
    assert(after == s + rest);
    match line_range(s, keyword) {
        Some(range) => {
            lemma_line_range(s, keyword);
            let p = s.take(range.0);
            let m = s.subrange(range.0, range.1);
            let q = s.skip(range.1);
            assert(s.take(range.1) == p + m);
            assert(before + after == (before + p) + m + (q + rest));
            lemma_edited(before + p, m, q + rest, text + "\n"@);
            lemma_byte_len_concat(before, p);
            lemma_byte_len_concat(before, p + m);
            assert(before + (p + m) == before + p + m);
            assert(before + p + (text + "\n"@) + (q + rest) == before + (p + text + "\n"@ + q
                + rest));
        },
        None => {
            let e = Seq::<char>::empty();
            assert(before + after == before + e + after);
            assert(before + e == before);
            lemma_edited(before, e, after, "\n"@ + text + "\n"@);
            assert(before + ("\n"@ + text + "\n"@) + after == before + ("\n"@ + text + "\n"@ + s
                + rest));
        },
    }
}

/// The line on which a keyword first stands begins after a line feed or with the section, at or
/// before the keyword, and ends after a line feed or with the section.
pub proof fn lemma_line_range(s: Seq<char>, keyword: Seq<char>)
    ensures
        line_range(s, keyword) matches Some((start, end)) ==> {
            &&& find(s, keyword) matches Some(at) && 0 <= start <= at <= end <= s.len()
            &&& start > 0 ==> s[start - 1] == '\n'
            &&& end < s.len() ==> s[end - 1] == '\n' && end > 0
        },
{
    reveal_strlit("\n");
    assert("\n"@ == seq!['\n']);
    lemma_find(s, keyword);
    if find(s, keyword) is Some {
        let at = find(s, keyword)->0;
        lemma_rfind(s.take(at), "\n"@);
        lemma_find(s.skip(at), "\n"@);
        if rfind(s.take(at), "\n"@) is Some {
            lemma_occurs_char(s.take(at), '\n', rfind(s.take(at), "\n"@)->0);
        }
        if find(s.skip(at), "\n"@) is Some {
            lemma_occurs_char(s.skip(at), '\n', find(s.skip(at), "\n"@)->0);
        }
    }
}

/// A line that begins with a star follows a line feed and a star.
pub proof fn lemma_star_line(s: Seq<char>, i: int)
    ensures
        occurs_at(s, "\n*"@, i) <==> 0 <= i && i + 1 < s.len() && s[i] == '\n' && s[i + 1] == '*',
{
    reveal_strlit("\n*");
    if 0 <= i && i + 2 <= s.len() {
        let t = s.subrange(i, i + 2);
        assert(t[0] == s[i] && t[1] == s[i + 1]);
        if s[i] == '\n' && s[i + 1] == '*' {
            assert(t == "\n*"@);
        }
    }
}

/// The text begins with the keyword, which is more than a star and is no more than a line, and no
/// line of the text after the first begins with a star.
pub open spec fn is_planning_text(keyword: Seq<char>, text: Seq<char>) -> bool {
    &&& keyword.len() > 0 && keyword[0] != '*' && lacks(keyword, '\n')
    &&& starts_with(text, keyword)
    &&& no_star_lines(text)
}

/// No line of the text after the first begins with a star.
pub open spec fn no_star_lines(s: Seq<char>) -> bool {
    forall|i: int| !occurs_at(s, "\n*"@, i)
}

/// Parts without lines that begin with a star, joined where none comes to begin with one, make up
/// a text without such lines.
proof fn lemma_no_star_join(p: Seq<char>, text: Seq<char>, q: Seq<char>)
    requires
        no_star_lines(p),
        no_star_lines(text),
        no_star_lines(q),
        text.len() > 0 ==> text[0] != '*',
        q.len() > 0 ==> q[0] != '*',
        text.len() > 0,
    ensures
        no_star_lines(p + text + "\n"@ + q),
{
    reveal_strlit("\n");
    let n = p + text + "\n"@ + q;
    assert forall|i: int| !occurs_at(n, "\n*"@, i) by {
        lemma_star_line(n, i);
        lemma_star_line(p, i);
        lemma_star_line(text, i - p.len());
        lemma_star_line(q, i - p.len() - text.len() - 1);
        if 0 <= i && i + 1 < n.len() {
            if i + 1 < p.len() {
                assert(n[i] == p[i] && n[i + 1] == p[i + 1]);
            } else if i < p.len() {
                assert(n[i + 1] == text[0]);
            } else if i - p.len() + 1 < text.len() {
                assert(n[i] == text[i - p.len()] && n[i + 1] == text[i - p.len() + 1]);
            } else if i - p.len() < text.len() {
                assert(n[i + 1] == '\n');
            } else if i - p.len() == text.len() {
                assert(n[i + 1] == q[0]);
            } else {
                let k = i - p.len() - text.len() - 1;
                assert(n[i] == q[k] && n[i + 1] == q[k + 1]);
            }
        }
    }
}

/// Where the lines that begin with a star begin, the section ends.
proof fn lemma_section_is(n: Seq<char>, rest: Seq<char>)
    requires
        no_star_lines(n),
        !begins_with_star(n),
        rest.len() > 0 ==> starts_with(rest, "\n*"@),
    ensures
        section_of(n + rest) == n,
{
    let t = n + rest;
    if rest.len() > 0 {
        lemma_star_line(rest, 0);
    }
    assert(!begins_with_star(t)) by {
        if n.len() > 0 {
            assert(t[0] == n[0]);
        } else if rest.len() > 0 {
            assert(t[0] == rest[0]);
        }
    }
    if rest.len() > 0 {
        lemma_star_line(rest, 0);
        lemma_star_line(t, n.len() as int);
        assert(t[n.len() as int] == rest[0] && t[n.len() as int + 1] == rest[1]);
        assert forall|i: int| 0 <= i < n.len() implies !occurs_at(t, "\n*"@, i) by {
            lemma_star_line(t, i);
            lemma_star_line(n, i);
            if i + 1 < n.len() {
                assert(t[i] == n[i] && t[i + 1] == n[i + 1]);
            } else {
                assert(t[i + 1] == rest[0]);
            }
        }
        lemma_find_is(t, "\n*"@, n.len() as int);
        assert(t.take(n.len() as int) == n);
    } else {
        assert(t == n);
        lemma_find(n, "\n*"@);
    }
}

/// No line of a section begins with a star, and what follows the section begins with such a line.
pub proof fn lemma_section(after: Seq<char>)
    requires
        !begins_with_star(after),
    ensures
        !begins_with_star(section_of(after)),
        no_star_lines(section_of(after)),
        section_of(after).len() <= after.len(),
        after == section_of(after) + after.skip(section_of(after).len() as int),
        after.skip(section_of(after).len() as int).len() > 0 ==> starts_with(
            after.skip(section_of(after).len() as int),
            "\n*"@,
        ),
{
    let s = section_of(after);
    let rest = after.skip(s.len() as int);
    lemma_find(after, "\n*"@);
    assert(after == s + rest);
    if s.len() > 0 {
        assert(s[0] == after[0]);
    }
    assert forall|i: int| !occurs_at(s, "\n*"@, i) by {
        lemma_star_line(s, i);
        lemma_star_line(after, i);
        if 0 <= i && i + 1 < s.len() {
            assert(s[i] == after[i] && s[i + 1] == after[i + 1]);
        }
    }
    if rest.len() > 0 {
        lemma_star_line(after, s.len() as int);
        lemma_star_line(rest, 0);
        assert(rest[0] == after[s.len() as int] && rest[1] == after[s.len() as int + 1]);
    }
}

/// The keyword of a planning line that was set stands in it for the first time.
proof fn lemma_keyword_first(s: Seq<char>, keyword: Seq<char>, text: Seq<char>)
    requires
        is_planning_text(keyword, text),
    ensures
        find(section_with(s, keyword, text), keyword) == Some(part_before(s, keyword).len() as int),
{
    reveal_strlit("\n");
    let p = part_before(s, keyword);
    let n = section_with(s, keyword, text);
    lemma_find(s, keyword);
    lemma_line_range(s, keyword);
    assert(n == p + text + "\n"@ + part_after(s, keyword));
    assert(p.len() > 0 ==> p[p.len() - 1] == '\n');
    assert(n.subrange(p.len() as int, p.len() as int + keyword.len()) == text.subrange(
        0,
        keyword.len() as int,
    ));
    assert forall|j: int| 0 <= j < p.len() implies !occurs_at(n, keyword, j) by {
        if occurs_at(n, keyword, j) {
            let w = n.subrange(j, j + keyword.len());
            if j + keyword.len() > p.len() {
                assert(w[p.len() - 1 - j] == n[p.len() - 1]);
                assert(n[p.len() - 1] == p[p.len() - 1]);
            } else if line_range(s, keyword) is Some {
                assert(s.subrange(j, j + keyword.len()) == w);
                assert(occurs_at(s, keyword, j));
            }
        }
    }
    lemma_find_is(n, keyword, p.len() as int);
}

/// Once a planning line was set, the section of the headline is the one with that line, and the
/// line is the first with the keyword.
pub proof fn lemma_line_is_set(after: Seq<char>, keyword: Seq<char>, text: Seq<char>)
    requires
        is_planning_text(keyword, text),
    ensures
        section_of(set_in(after, keyword, text)) == section_once_set(after, keyword, text),
        find(section_once_set(after, keyword, text), keyword) == Some(
            part_before(section_of(after), keyword).len() as int,
        ),
{
    if begins_with_star(after) {
        lemma_set_before_star(after, keyword, text);
    } else {
        lemma_set_in_section(after, keyword, text);
    }
}

/// A planning line that is set in a section that begins with no star keeps the section together.
proof fn lemma_set_in_section(after: Seq<char>, keyword: Seq<char>, text: Seq<char>)
    requires
        is_planning_text(keyword, text),
        !begins_with_star(after),
    ensures
        section_of(set_in(after, keyword, text)) == section_with(section_of(after), keyword, text),
        find(section_with(section_of(after), keyword, text), keyword) == Some(
            part_before(section_of(after), keyword).len() as int,
        ),
{
    reveal_strlit("\n");
    let s = section_of(after);
    let p = part_before(s, keyword);
    let q = part_after(s, keyword);
    assert(text[0] == keyword[0]) by {
        assert(text.subrange(0, keyword.len() as int)[0] == text[0]);
    }
    lemma_section(after);
    lemma_line_range(s, keyword);
    lemma_keyword_first(s, keyword, text);
    match line_range(s, keyword) {
        Some(range) => {
            assert forall|i: int| !occurs_at(p, "\n*"@, i) by {
                lemma_star_line(p, i);
                lemma_star_line(s, i);
            }
            assert forall|i: int| !occurs_at(q, "\n*"@, i) by {
                lemma_star_line(q, i);
                lemma_star_line(s, range.1 + i);
                if 0 <= i && i + 1 < q.len() {
                    assert(q[i] == s[range.1 + i] && q[i + 1] == s[range.1 + i + 1]);
                }
            }
            lemma_star_line(s, range.1 - 1);
        },
        None => {
            assert forall|i: int| !occurs_at(p, "\n*"@, i) by {
                lemma_star_line(p, i);
            }
        },
    }
    lemma_no_star_join(p, text, q);
    let n = section_with(s, keyword, text);
    assert(n == p + text + "\n"@ + q);
    assert(!begins_with_star(n)) by {
        if p.len() > 0 {
            assert(n[0] == p[0]);
        } else {
            assert(n[0] == text[0]);
        }
    }
    lemma_section_is(n, after.skip(s.len() as int));
}

/// A planning line that is set before a headline ends the section.
proof fn lemma_set_before_star(after: Seq<char>, keyword: Seq<char>, text: Seq<char>)
    requires
        is_planning_text(keyword, text),
        begins_with_star(after),
    ensures
        set_in(after, keyword, text) == "\n"@ + text + "\n"@ + after,
        section_of(set_in(after, keyword, text)) == "\n"@ + text,
        find("\n"@ + text, keyword) == Some(1int),
        part_before(section_of(after), keyword).len() == 1,
{
    reveal_strlit("\n");
    let none = Seq::<char>::empty();
    lemma_find(none, keyword);
    assert(find(none, keyword) is None) by {
        if find(none, keyword) is Some {
            assert(occurs_at(none, keyword, find(none, keyword)->0));
        }
    }
    let n = "\n"@ + text;
    let rest = "\n"@ + after;
    assert(after.skip(0) == after);
    assert("\n"@ + text + "\n"@ + none + after == n + rest);
    assert("\n"@ + text + "\n"@ + after == n + rest);
    assert(text.subrange(0, keyword.len() as int)[0] == text[0]);
    assert forall|i: int| !occurs_at(n, "\n*"@, i) by {
        lemma_star_line(n, i);
        lemma_star_line(text, i - 1);
        if 0 < i && i + 1 < n.len() {
            assert(n[i] == text[i - 1] && n[i + 1] == text[i]);
        } else if i == 0 && n.len() > 1 {
            assert(n[1] == text[0]);
        }
    }
    lemma_star_line(rest, 0);
    assert(rest[1] == after[0]);
    lemma_section_is(n, rest);
    assert(n.subrange(1, 1int + keyword.len()) == text.subrange(0, keyword.len() as int));
    assert(!occurs_at(n, keyword, 0)) by {
        if occurs_at(n, keyword, 0) {
            assert(n.subrange(0, keyword.len() as int)[0] == n[0]);
        }
    }
    lemma_find_is(n, keyword, 1);
}

/// The lines of a text that hold something.
pub open spec fn full_lines(s: Seq<char>) -> Seq<Seq<char>> {
    split(s, '\n').filter(|line: Seq<char>| line.len() > 0)
}

/// Setting a planning line of one line twice leaves the lines that hold something as they are when
/// it is set once, to the second text. The text after the headline is then the same but where it
/// began with the next headline: there it has an empty line more.
pub proof fn lemma_set_twice(
    after: Seq<char>,
    keyword: Seq<char>,
    first: Seq<char>,
    second: Seq<char>,
)
    requires
        is_planning_text(keyword, first),
        lacks(first, '\n'),
    ensures
        full_lines(set_in(set_in(after, keyword, first), keyword, second)) == full_lines(
            set_in(after, keyword, second),
        ),
        !begins_with_star(after) ==> set_in(set_in(after, keyword, first), keyword, second)
            == set_in(after, keyword, second),
{
    reveal_strlit("\n");
    assert("\n"@ == seq!['\n']);
    let s = section_of(after);
    let p = part_before(s, keyword);
    let once = set_in(after, keyword, first);
    let n = section_once_set(after, keyword, first);
    lemma_line_is_set(after, keyword, first);
    lemma_line_range(s, keyword);
    let q = if begins_with_star(after) {
        Seq::<char>::empty()
    } else {
        "\n"@ + part_after(s, keyword)
    };
    if begins_with_star(after) {
        lemma_set_before_star(after, keyword, first);
        assert(p == "\n"@);
    }
    assert(n == p + first + q);
    let at = p.len() as int;
    assert(n.take(at) == p);
    lemma_rfind(p, "\n"@);
    if p.len() > 0 {
        lemma_occurs_char(p, '\n', p.len() - 1);
        assert(occurs_at(p, "\n"@, p.len() - 1));
        lemma_occurs_char(p, '\n', rfind(p, "\n"@)->0);
    } else if rfind(p, "\n"@) is Some {
        lemma_occurs_char(p, '\n', rfind(p, "\n"@)->0);
    }
    let t = n.skip(at);
    assert(t == first + q);
    assert forall|j: int| 0 <= j < first.len() implies !occurs_at(t, "\n"@, j) by {
        lemma_occurs_char(t, '\n', j);
        assert(t[j] == first[j]);
    }
    if begins_with_star(after) {
        lemma_find(t, "\n"@);
        if find(t, "\n"@) is Some {
            lemma_occurs_char(t, '\n', find(t, "\n"@)->0);
        }
        assert(line_range(n, keyword) == Some((1int, n.len() as int)));
        let stem = "\n"@ + second;
        let feed = seq!['\n'];
        let none = Seq::<char>::empty();
        assert(n.take(1) == "\n"@);
        assert(n.skip(n.len() as int) == none);
        assert(once.skip(n.len() as int) == "\n"@ + after);
        let twice = set_in(once, keyword, second);
        assert(twice == stem + feed + none + feed + after);
        assert(set_in(after, keyword, second) == stem + feed + after) by {
            assert(line_range(s, keyword) is None);
            assert(after.skip(0) == after);
        }
        lemma_split_one(none, '\n');
        lemma_split_at(stem, none, '\n');
        lemma_split_at(stem + feed + none, after, '\n');
        lemma_split_at(stem, after, '\n');
        let full = |line: Seq<char>| line.len() > 0;
        let a = split(stem, '\n');
        let b = split(after, '\n');
        Seq::filter_distributes_over_add(a + seq![none], b, full);
        Seq::filter_distributes_over_add(a, seq![none], full);
        Seq::filter_distributes_over_add(a, b, full);
        assert(seq![none].filter(full) == Seq::<Seq<char>>::empty()) by {
            reveal_with_fuel(Seq::filter, 2);
            assert(seq![none].drop_last() == Seq::<Seq<char>>::empty());
        }
        assert(a.filter(full) + Seq::<Seq<char>>::empty() == a.filter(full));
    } else {
        lemma_occurs_char(t, '\n', first.len() as int);
        lemma_find_is(t, "\n"@, first.len() as int);
        assert(n.skip(at + first.len() + 1) == part_after(s, keyword));
        assert(once.skip(n.len() as int) == after.skip(s.len() as int));
    }
}

/// A reminder holds no line feed and no colon.
pub proof fn lemma_reminder_lacks(seconds: nat, c: char)
    requires
        c == '\n' || c == ':',
    ensures
        lacks(reminder_text(seconds), c),
{
    reveal_strlit("w");
    reveal_strlit("d");
    reveal_strlit("h");
    reveal_strlit("m");
    reveal_strlit("s");
    lemma_decimal(seconds / 604800);
    lemma_decimal(seconds / 86400);
    lemma_decimal(seconds / 3600);
    lemma_decimal(seconds / 60);
    lemma_decimal(seconds);
}

/// What sets the planning line of a task begins with its keyword and is made of a planning line
/// and what follows it.
proof fn lemma_planning_text(keyword: Seq<char>, picked: Picked)
    requires
        keyword == "SCHEDULED:"@ || keyword == "DEADLINE:"@,
    ensures
        is_planning_text(keyword, planning_text(keyword, picked)),
{
    reveal_strlit("SCHEDULED:");
    reveal_strlit("DEADLINE:");
    reveal_strlit("\nREMIND: ");
    let line = planning_line(keyword, picked.0, picked.2);
    let text = planning_text(keyword, picked);
    lemma_planning_line_plain(keyword, picked.0, picked.2);
    assert(text.subrange(0, keyword.len() as int) == keyword);
    if picked.1 is Some {
        lemma_reminder_lacks(picked.1->0 as nat, '\n');
    }
    assert forall|i: int| !occurs_at(text, "\n*"@, i) by {
        lemma_star_line(text, i);
        if 0 <= i && i + 1 < text.len() && text[i] == '\n' {
            if i < line.len() {
                assert(text[i] == line[i]);
            } else if i == line.len() {
                assert(text[i + 1] == "\nREMIND: "@[1]);
            } else if i < line.len() + 9 {
                assert(text[i] == "\nREMIND: "@[i - line.len()]);
            } else {
                assert(text[i] == reminder_text(picked.1->0 as nat)[i - line.len() - 9]);
            }
        }
    }
}

/// Once a task was scheduled or given a deadline, the first line of its section with the keyword is
/// the planning line for what was picked.
pub proof fn lemma_planned_is_written(
    before: Seq<char>,
    after: Seq<char>,
    keyword: Seq<char>,
    picked: Picked,
    edit: TextEdit,
)
    requires
        keyword == "SCHEDULED:"@ || keyword == "DEADLINE:"@,
        sets_line(
            edit,
            byte_len(before),
            section_of(after),
            keyword,
            planning_text(keyword, picked),
        ),
    ensures
        exists|p: Seq<char>, q: Seq<char>|
            #[trigger] has_line(
                section_at(
                    edited(before + after, edit.start as int, edit.end as int, edit.text@),
                    byte_len(before),
                ),
                keyword,
                p,
                planning_line(keyword, picked.0, picked.2),
                q,
            ),
{
    let text = planning_text(keyword, picked);
    let line = planning_line(keyword, picked.0, picked.2);
    let s = section_of(after);
    let n = section_once_set(after, keyword, text);
    let new = edited(before + after, edit.start as int, edit.end as int, edit.text@);
    lemma_planning_text(keyword, picked);
    lemma_set_line(before, after, keyword, text, edit);
    lemma_line_is_set(after, keyword, text);
    lemma_byte_len_concat(before, set_in(after, keyword, text));
    assert(section_at(new, byte_len(before)) == n);
    reveal_strlit("\n");
    reveal_strlit("\nREMIND: ");
    let p = part_before(s, keyword);
    let reminder = match picked.1 {
        Some(seconds) => "\nREMIND: "@ + reminder_text(seconds as nat),
        None => Seq::empty(),
    };
    assert(text == line + reminder);
    let q = if begins_with_star(after) {
        lemma_set_before_star(after, keyword, text);
        assert(n == p + line + reminder);
        reminder
    } else {
        assert(n == p + text + "\n"@ + part_after(s, keyword));
        reminder + ("\n"@ + part_after(s, keyword))
    };
    assert(n == p + line + q);
    assert(has_line(n, keyword, p, line, q));
}

} // verus!
