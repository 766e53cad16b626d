//! Going through the states of a task.
use crate::buffer::{
    byte_len, cut, edit_views, edited_by, head, is_boundary, lemma_byte_len_bound,
    lemma_byte_len_concat, lemma_byte_len_take, lemma_edited, lemma_edited_by, slice, tail,
    text_between, text_from, text_to, TextEdit,
};
use crate::calendar::{
    iso_date, local_now, stamp, stamp_text, weekday_abbreviation, year_text, Date, DateTime,
};
use crate::follow_up::{done_task_follows, follows, last_text, lemma_plan};
use crate::number::{lemma_decimal_len, lemma_padded, padded};
use crate::order::{holds_text, position, position_of};
use crate::patterns::{lacks, option_text};
use crate::planning::{
    extract_recurring_info, find_section, has_planning_line, lemma_section_begins, option_range,
    recurring_info, section, section_at, section_of, AgendaEntryType,
};
use crate::recurring::{create_recurring_task, recurring_task};
use crate::repeater::{next_occurrence, next_occurrence_on, option_str, RepeaterInfo};
use crate::syntax::{find_first, find_last, first_of_kind, last_of_kind, SyntaxNode};
use crate::text::{
    contains, find, find_text, lemma_find, lemma_find_is, lemma_occurs_char, lemma_rfind,
    lemma_split_at, lemma_split_one, occurs_at, rfind, rfind_text, split, texts, utf8_len,
};
use vstd::prelude::*;
use vstd::string::*;

verus! {

/// The keyword after another one, and whether a closing time is due: the keywords for what is to
/// do come first, then those for what is done, then none. A closing time is due where the first
/// keyword for what is done follows one for what is to do, if it is asked for. There is no next
/// state where there is no keyword now and none to begin with.
pub open spec fn next_state(
    current: Option<Seq<char>>,
    todo: Seq<Seq<char>>,
    done: Seq<Seq<char>>,
    timestamp_on_done: bool,
) -> Option<(Option<Seq<char>>, bool)> {
    match current {
        Some(keyword) => if done.contains(keyword) {
            let i = position(done, keyword)->0;
            if i + 1 < done.len() {
                Some((Some(done[i + 1]), false))
            } else {
                Some((None, false))
            }
        } else {
            let i = position(todo, keyword)->0;
            if i + 1 < todo.len() {
                Some((Some(todo[i + 1]), false))
            } else if done.len() > 0 {
                Some((Some(done[0]), timestamp_on_done))
            } else {
                Some((None, false))
            }
        },
        None => if todo.len() > 0 {
            Some((Some(todo[0]), false))
        } else {
            None
        },
    }
}

/// The text of a next state.
pub open spec fn state_text(state: Option<(Option<String>, bool)>) -> Option<
    (Option<Seq<char>>, bool),
> {
    match state {
        Some((Some(keyword), stamp)) => Some((Some(keyword@), stamp)),
        Some((None, stamp)) => Some((None, stamp)),
        None => None,
    }
}

/// The keyword after another one, and whether a closing time is due.
pub fn next_keyword(
    current: Option<&str>,
    todo_keywords: &Vec<String>,
    done_keywords: &Vec<String>,
    timestamp_on_done: bool,
) -> (r: Option<(Option<String>, bool)>)
    requires
        current matches Some(keyword) ==> texts(todo_keywords@).contains(keyword@) || texts(
            done_keywords@,
        ).contains(keyword@),
    ensures
        state_text(r) == next_state(
            option_str(current),
            texts(todo_keywords@),
            texts(done_keywords@),
            timestamp_on_done,
        ),
{
    let keyword = match current {
        Some(keyword) => keyword,
        None => {
            if todo_keywords.len() > 0 {
                return Some((Some(todo_keywords[0].clone()), false));
            }
            return None;
        },
    };
    let todo_count = todo_keywords.len();
    let done_count = done_keywords.len();
    if let Some(i) = position_of(done_keywords, keyword) {
        if i + 1 < done_count {
            return Some((Some(done_keywords[i + 1].clone()), false));
        }
        return Some((None, false));
    }
    if let Some(i) = position_of(todo_keywords, keyword) {
        if i + 1 < todo_count {
            return Some((Some(todo_keywords[i + 1].clone()), false));
        }
    }
    if done_count > 0 {
        Some((Some(done_keywords[0].clone()), timestamp_on_done))
    } else {
        Some((None, false))
    }
}

/// The line that says when a task was closed.
pub open spec fn closed_line(now: DateTime) -> Seq<char> {
    "CLOSED: ["@ + stamp(now) + "]"@
}

/// The text ends with a line feed.
pub open spec fn ends_line(s: Seq<char>) -> bool {
    s.len() > 0 && s.last() == '\n'
}

/// What is put after a headline to say when its task was closed, given the buffer up to the
/// headline's end: a line of its own, with a line feed after it where the headline has its own,
/// and before it where it has not.
pub open spec fn closed_text(before: Seq<char>, now: DateTime) -> Seq<char> {
    if ends_line(before) {
        closed_line(now) + "\n"@
    } else {
        "\n"@ + closed_line(now)
    }
}

/// Whether the text ends with a line feed.
fn has_line_end(s: &str) -> (r: bool)
    ensures
        r == ends_line(s@),
{
    let len = s.unicode_len();
    len > 0 && s.get_char(len - 1) == '\n'
}

/// What is put after a headline to say when its task was closed.
fn format_closed(before: &str, now: DateTime) -> (r: String)
    requires
        now.valid(),
    ensures
        r@ == closed_text(before@, now),
{
    let mut line = "CLOSED: [".to_owned();
    let time = stamp_text(now);
    line.append(time.as_str());
    line.append("]");
    if has_line_end(before) {
        line.append("\n");
        return line;
    }
    let mut r = "\n".to_owned();
    r.append(line.as_str());
    r
}

/// What is put after a headline to say when its task was closed is short.
proof fn lemma_closed_short(before: Seq<char>, now: DateTime)
    requires
        now.valid(),
    ensures
        byte_len(closed_text(before, now)) <= 200,
{
    reveal_strlit("\n");
    reveal_strlit("CLOSED: [");
    reveal_strlit("]");
    reveal_strlit("-");
    reveal_strlit(" ");
    reveal_strlit(":");
    let year = now.date.year as int;
    let abs = (if year < 0 { -year } else { year }) as nat;
    lemma_decimal_len(abs);
    lemma_decimal_len(now.date.month as nat);
    lemma_decimal_len(now.date.day as nat);
    lemma_decimal_len(now.time.hour as nat);
    lemma_decimal_len(now.time.minute as nat);
    assert(padded(abs, 4).len() <= 6);
    assert(year_text(year).len() <= 7);
    assert(padded(now.date.month as nat, 2).len() <= 2);
    assert(padded(now.date.day as nat, 2).len() <= 2);
    assert(padded(now.time.hour as nat, 2).len() <= 2);
    assert(padded(now.time.minute as nat, 2).len() <= 2);
    reveal_strlit("Sun");
    reveal_strlit("Mon");
    reveal_strlit("Tue");
    reveal_strlit("Wed");
    reveal_strlit("Thu");
    reveal_strlit("Fri");
    reveal_strlit("Sat");
    assert(weekday_abbreviation(now.date.weekday()).len() == 3);
    assert(iso_date(now.date).len() <= 13);
    assert(stamp(now).len() <= 23);
    assert(closed_text(before, now).len() <= 34);
    lemma_byte_len_bound(closed_text(before, now));
}

/// The node stands between characters of the buffer.
pub open spec fn node_fits(buffer_text: Seq<char>, node: SyntaxNode) -> bool {
    &&& node.start_byte <= node.end_byte
    &&& is_boundary(buffer_text, node.end_byte as int)
    &&& is_boundary(text_to(buffer_text, node.end_byte as int), node.start_byte as int)
}

/// The text of a node.
pub open spec fn node_text(buffer_text: Seq<char>, node: SyntaxNode) -> Seq<char> {
    text_between(buffer_text, node.start_byte as int, node.end_byte as int)
}

/// The node of the keyword of a headline: the first expression of its item, if that is one of the
/// keywords.
pub open spec fn keyword_node(
    buffer_text: Seq<char>,
    item: SyntaxNode,
    todo: Seq<Seq<char>>,
    done: Seq<Seq<char>>,
) -> Option<SyntaxNode> {
    match first_of_kind(item.children@, "expr"@) {
        Some(node) => {
            let text = node_text(buffer_text, node);
            if todo.contains(text) || done.contains(text) {
                Some(node)
            } else {
                None
            }
        },
        None => None,
    }
}

/// The edit that changes the keyword of a headline, or puts one after its stars.
pub open spec fn keyword_edit(
    keyword: Option<SyntaxNode>,
    stars: SyntaxNode,
    new_keyword: Seq<char>,
) -> (int, int, Seq<char>) {
    match keyword {
        Some(node) => (node.start_byte as int, node.end_byte as int, new_keyword),
        None => (stars.end_byte as int, stars.end_byte as int, " "@ + new_keyword),
    }
}

/// By how much an edit moves what stands after it.
pub open spec fn shift_of(edit: (int, int, Seq<char>)) -> int {
    byte_len(edit.2) - (edit.1 - edit.0)
}

/// What of the text after a headline goes with the line that says when its task was closed, if
/// there is such a line in its section: the line and the line feed that ends it. Where no line feed
/// ends it, the one before it goes, and where the line is the headline's own the one that ends it
/// stays.
pub open spec fn closing_range(headline_ended: bool, after: Seq<char>) -> Option<(int, int)> {
    match find(section_of(after), "CLOSED:"@) {
        Some(at) => {
            let start = match rfind(after.take(at), "\n"@) {
                Some(i) => i + 1,
                None => 0,
            };
            match find(after.skip(at), "\n"@) {
                Some(i) => if start == 0 && !headline_ended {
                    Some((start, at + i))
                } else {
                    Some((start, at + i + 1))
                },
                None => if start > 0 {
                    Some((start - 1, after.len() as int))
                } else {
                    Some((start, after.len() as int))
                },
            }
        },
        None => None,
    }
}

/// The edit that takes out the line that says when a task was closed, if there is such a line,
/// given where the headline ends and the text after it.
pub open spec fn unclosing_edit(
    headline_end: int,
    headline_ended: bool,
    after: Seq<char>,
) -> Seq<(int, int, Seq<char>)> {
    match closing_range(headline_ended, after) {
        Some((start, end)) => seq![
            (
                headline_end + byte_len(after.take(start)),
                headline_end + byte_len(after.take(end)),
                ""@,
            ),
        ],
        None => Seq::empty(),
    }
}

/// The task that follows one that comes back and is done. There is none where the next date lies
/// outside the calendar or there is no keyword for a task to do.
pub open spec fn following_task(
    headline: Seq<char>,
    recurring: (AgendaEntryType, Date, RepeaterInfo),
    todo: Seq<Seq<char>>,
    today: Date,
) -> Option<Seq<char>> {
    match next_occurrence(recurring.1, recurring.2, Some(today), today) {
        Some(next_date) => if todo.len() > 0 {
            Some(recurring_task(headline, todo[0], next_date, recurring.2, recurring.0))
        } else {
            None
        },
        None => None,
    }
}

/// The edits that change the keyword of a headline, with the edit that changes it: a closing time
/// is added where one is due, and where a task that comes back is done, the task that follows it is
/// added after its section. They cannot be made where the task that follows is owed and there is
/// none.
pub open spec fn edits_with_change(
    buffer_text: Seq<char>,
    headline: SyntaxNode,
    change: (int, int, Seq<char>),
    stamped: bool,
    is_done: bool,
    todo: Seq<Seq<char>>,
    now: DateTime,
) -> Option<Seq<(int, int, Seq<char>)>> {
    let end = headline.end_byte as int;
    let section = section_at(buffer_text, end);
    let new_end = end + shift_of(change);
    let closed = closed_part(text_to(buffer_text, end), stamped, now);
    let edits = if stamped {
        seq![change, (new_end, new_end, closed)]
    } else {
        seq![change]
    };
    match recurring_info(section) {
        Some(recurring) if is_done => match following_task(
            node_text(buffer_text, headline),
            recurring,
            todo,
            now.date,
        ) {
            Some(task) => {
                let place = new_end + byte_len(closed) + byte_len(section);
                Some(edits.push((place, place, task)))
            },
            None => None,
        },
        _ => Some(edits),
    }
}

/// The edits that take a headline to its next state: its keyword changes; a closing time is added
/// where one is due, and taken out where the keyword goes; and where a task that comes back is
/// done, the task that follows it is added after its section. Each edit is one to the buffer that
/// those before it left. They cannot be made where the task that follows is owed and there is
/// none.
pub open spec fn headline_edits(
    buffer_text: Seq<char>,
    headline: SyntaxNode,
    stars: SyntaxNode,
    item: SyntaxNode,
    todo: Seq<Seq<char>>,
    done: Seq<Seq<char>>,
    timestamp_on_done: bool,
    now: DateTime,
) -> Option<Seq<(int, int, Seq<char>)>> {
    let end = headline.end_byte as int;
    let node = keyword_node(buffer_text, item, todo, done);
    let current = match node {
        Some(n) => Some(node_text(buffer_text, n)),
        None => None,
    };
    match next_state(current, todo, done, timestamp_on_done) {
        Some((Some(new_keyword), stamped)) => {
            edits_with_change(
                buffer_text,
                headline,
                keyword_edit(node, stars, new_keyword),
                stamped,
                done.contains(new_keyword),
                todo,
                now,
            )
        },
        Some((None, _)) => match node {
            Some(n) => {
                let change = (n.start_byte as int, n.end_byte as int, ""@);
                Some(
                    seq![change] + unclosing_edit(
                        end + shift_of(change),
                        ends_line(text_to(buffer_text, end)),
                        text_from(buffer_text, end),
                    ),
                )
            },
            None => Some(Seq::empty()),
        },
        None => Some(Seq::empty()),
    }
}

/// What is put after a headline to say when its task was closed, if that is due.
pub open spec fn closed_part(before: Seq<char>, stamped: bool, now: DateTime) -> Seq<char> {
    if stamped {
        closed_text(before, now)
    } else {
        Seq::empty()
    }
}

/// The edits that take the nearest headline around the cursor to its next state. There are none
/// where there is no headline, or where it lacks its stars or its item.
pub open spec fn cycle_edits(
    buffer_text: Seq<char>,
    ancestors: Seq<SyntaxNode>,
    todo: Seq<Seq<char>>,
    done: Seq<Seq<char>>,
    timestamp_on_done: bool,
    now: DateTime,
) -> Option<Seq<(int, int, Seq<char>)>> {
    match first_of_kind(ancestors, "headline"@) {
        Some(headline) => match (
            last_of_kind(headline.children@, "stars"@),
            last_of_kind(headline.children@, "item"@),
        ) {
            (Some(stars), Some(item)) => headline_edits(
                buffer_text,
                headline,
                stars,
                item,
                todo,
                done,
                timestamp_on_done,
                now,
            ),
            _ => Some(Seq::empty()),
        },
        None => Some(Seq::empty()),
    }
}

/// The nearest headline stands between characters of the buffer, and so does the first expression
/// of its item, within it.
pub open spec fn tree_fits(buffer_text: Seq<char>, ancestors: Seq<SyntaxNode>) -> bool {
    first_of_kind(ancestors, "headline"@) matches Some(headline) ==> {
        &&& node_fits(buffer_text, headline)
        &&& last_of_kind(headline.children@, "item"@) matches Some(item) ==> (first_of_kind(
            item.children@,
            "expr"@,
        ) matches Some(node) ==> {
            &&& node_fits(buffer_text, node)
            &&& headline.start_byte <= node.start_byte
            &&& node.end_byte <= headline.end_byte
        })
    }
}

/// The places in the buffer can be counted after any of the keywords and a closing time are added.
pub open spec fn has_room(
    buffer_text: Seq<char>,
    todo: Seq<Seq<char>>,
    done: Seq<Seq<char>>,
) -> bool {
    &&& forall|i: int|
        0 <= i < todo.len() ==> byte_len(buffer_text) + byte_len(#[trigger] todo[i]) + 300
            <= usize::MAX
    &&& forall|i: int|
        0 <= i < done.len() ==> byte_len(buffer_text) + byte_len(#[trigger] done[i]) + 300
            <= usize::MAX
}

/// The edits of a list, if there is one.
pub open spec fn option_edits(edits: Option<Vec<TextEdit>>) -> Option<Seq<(int, int, Seq<char>)>> {
    match edits {
        Some(edits) => Some(edit_views(edits@)),
        None => None,
    }
}

/// What of the text after a headline goes with the line that says when its task was closed.
fn find_closing_range(headline_ended: bool, after: &str) -> (r: Option<(usize, usize)>)
    ensures
        option_range(r) == closing_range(headline_ended, after@),
        r matches Some((start, end)) ==> start <= end <= after@.len(),
{
    let own = section(after);
    let len = after.unicode_len();
    let at = find_text(own, "CLOSED:")?;
    proof {
        reveal_strlit("\n");
    }
    let start: usize = match rfind_text(head(after, at), "\n") {
        Some(i) => i + 1,
        None => 0,
    };
    match find_text(tail(after, at), "\n") {
        Some(i) => if start == 0 && !headline_ended {
            Some((start, at + i))
        } else {
            Some((start, at + i + 1))
        },
        None => if start > 0 {
            Some((start - 1, len))
        } else {
            Some((start, len))
        },
    }
}

/// The edit that takes out the line that says when a task was closed.
fn unclose(headline_end: usize, headline_ended: bool, after: &str) -> (r: Option<TextEdit>)
    requires
        headline_end + byte_len(after@) <= usize::MAX,
    ensures
        unclosing_edit(headline_end as int, headline_ended, after@) == match r {
            Some(edit) => seq![edit@],
            None => Seq::empty(),
        },
{
    let (start, end) = find_closing_range(headline_ended, after)?;
    proof {
        lemma_byte_len_take(after@, start as int);
        lemma_byte_len_take(after@, end as int);
        reveal_strlit("");
    }
    let start = headline_end + utf8_len(head(after, start));
    let end = headline_end + utf8_len(head(after, end));
    let text = "".to_owned();
    Some(TextEdit { start, end, text })
}

/// A next keyword is one of the keywords.
proof fn lemma_next_is_listed(
    current: Option<Seq<char>>,
    todo: Seq<Seq<char>>,
    done: Seq<Seq<char>>,
    timestamp_on_done: bool,
)
    requires
        current matches Some(keyword) ==> todo.contains(keyword) || done.contains(keyword),
    ensures
        next_state(current, todo, done, timestamp_on_done) matches Some((Some(keyword), _)) ==> {
            ||| exists|i: int| 0 <= i < todo.len() && keyword == #[trigger] todo[i]
            ||| exists|i: int| 0 <= i < done.len() && keyword == #[trigger] done[i]
        },
{
    if let Some(keyword) = current {
        if done.contains(keyword) {
            done.index_of_first_ensures(keyword);
        } else {
            todo.index_of_first_ensures(keyword);
        }
    }
}

/// The edit that changes the keyword of a headline, or puts one after its stars.
fn change_keyword(node: Option<&SyntaxNode>, stars: &SyntaxNode, keyword: String) -> (r: TextEdit)
    ensures
        r@ == keyword_edit(
            match node {
                Some(n) => Some(*n),
                None => None,
            },
            *stars,
            keyword@,
        ),
        byte_len(r.text@) <= byte_len(keyword@) + 4,
{
    match node {
        Some(node) => TextEdit { start: node.start_byte, end: node.end_byte, text: keyword },
        None => {
            proof {
                reveal_strlit(" ");
                lemma_byte_len_concat(" "@, keyword@);
                lemma_byte_len_bound(" "@);
            }
            let mut text = " ".to_owned();
            text.append(keyword.as_str());
            TextEdit { start: stars.end_byte, end: stars.end_byte, text }
        },
    }
}

/// The task that follows that of a headline with its section, if it comes back. There is no answer
/// where such a task is owed and there is none. It has the kind, the repeater and the next date of
/// the plan that counts in the section.
fn follow(
    buffer_text: &str,
    headline: &SyntaxNode,
    section: &str,
    todo_keywords: &Vec<String>,
    today: Date,
) -> (r: Option<Option<String>>)
    requires
        today.valid(),
        node_fits(buffer_text@, *headline),
    ensures
        match recurring_info(section@) {
            Some(recurring) => match following_task(
                node_text(buffer_text@, *headline),
                recurring,
                texts(todo_keywords@),
                today,
            ) {
                Some(task) => r matches Some(Some(t)) && t@ == task,
                None => r is None,
            },
            None => r matches Some(None),
        },
        follows(
            match r {
                Some(task) => Some(option_text(task)),
                None => None,
            },
            node_text(buffer_text@, *headline),
            section@,
            texts(todo_keywords@),
            today,
        ),
{
    let (entry_type, date, repeater) = match extract_recurring_info(section) {
        Some(recurring) => recurring,
        None => {
            return Some(None);
        },
    };
    let next_date = next_occurrence_on(date, &repeater, Some(today), today)?;
    if todo_keywords.len() == 0 {
        return None;
    }
    let text = slice(buffer_text, headline.start_byte, headline.end_byte);
    let task = create_recurring_task(
        text,
        todo_keywords[0].as_str(),
        next_date,
        &repeater,
        entry_type,
    );
    proof {
        assert forall|
            t: AgendaEntryType,
            before: Seq<char>,
            d: Date,
            r: RepeaterInfo,
            after: Seq<char>,
        | #[trigger]
            has_planning_line(section@, t, before, d, Some(r), after) implies t == entry_type && d
            == date && r == repeater && r.interval >= 0 && t != AgendaEntryType::Closed by {
        }
        if entry_type != AgendaEntryType::Closed {
            lemma_plan(entry_type, next_date, repeater);
        }
        assert(texts(todo_keywords@)[0] == todo_keywords@[0]@);
    }
    Some(Some(task))
}

/// The edits that change the keyword of a headline, with the edit that changes it. Where the task is
/// done, the last of them puts in the task that follows it, if its plan has a repeater.
#[verifier::rlimit(40)]
fn make_edits(
    buffer_text: &str,
    headline: &SyntaxNode,
    change: TextEdit,
    stamped: bool,
    is_done: bool,
    todo_keywords: &Vec<String>,
    now: DateTime,
) -> (r: Option<Vec<TextEdit>>)
    requires
        now.valid(),
        node_fits(buffer_text@, *headline),
        change.start <= change.end,
        change.end - change.start <= headline.end_byte,
        byte_len(buffer_text@) + byte_len(change.text@) + 200 <= usize::MAX,
    ensures
        option_edits(r) == edits_with_change(
            buffer_text@,
            *headline,
            change@,
            stamped,
            is_done,
            texts(todo_keywords@),
            now,
        ),
        is_done ==> follows(
            last_text(option_edits(r)),
            node_text(buffer_text@, *headline),
            section_at(buffer_text@, headline.end_byte as int),
            texts(todo_keywords@),
            now.date,
        ),
{
    let mut edits: Vec<TextEdit> = Vec::new();
    let (before, after) = cut(buffer_text, headline.end_byte);
    let section = find_section(buffer_text, headline.end_byte);
    let ghost first = change@;
    let new_end = headline.end_byte - (change.end - change.start) + utf8_len(change.text.as_str());
    let mut place = new_end + utf8_len(section);
    edits.push(change);
    assert(edit_views(edits@) == seq![first]);
    if stamped {
        let text = format_closed(before, now);
        proof {
            lemma_closed_short(before@, now);
        }
        place = place + utf8_len(text.as_str());
        let ghost second = (new_end as int, new_end as int, text@);
        edits.push(TextEdit { start: new_end, end: new_end, text });
        assert(edit_views(edits@) == seq![first, second]);
    } else {
        assert(byte_len(Seq::<char>::empty()) == 0);
    }
    if is_done {
        if let Some(task) = follow(buffer_text, headline, section, todo_keywords, now.date)? {
            let ghost earlier = edit_views(edits@);
            let ghost last = (place as int, place as int, task@);
            edits.push(TextEdit { start: place, end: place, text: task });
            assert(edit_views(edits@) == earlier.push(last));
        }
    }
    Some(edits)
}

/// The edits that take out the keyword of a headline, and the line that says when its task was
/// closed.
fn clear_keyword(buffer_text: &str, headline: &SyntaxNode, node: &SyntaxNode) -> (r: Vec<TextEdit>)
    requires
        node_fits(buffer_text@, *headline),
        node.start_byte <= node.end_byte <= headline.end_byte,
    ensures
        edit_views(r@) == ({
            let end = headline.end_byte as int;
            let change = (node.start_byte as int, node.end_byte as int, ""@);
            seq![change] + unclosing_edit(
                end + shift_of(change),
                ends_line(text_to(buffer_text@, end)),
                text_from(buffer_text@, end),
            )
        }),
{
    let mut edits: Vec<TextEdit> = Vec::new();
    let (before, after) = cut(buffer_text, headline.end_byte);
    let total = utf8_len(buffer_text);
    let text = "".to_owned();
    let new_end = headline.end_byte - (node.end_byte - node.start_byte);
    let ghost change = (node.start_byte as int, node.end_byte as int, ""@);
    proof {
        reveal_strlit("");
        assert(""@ == Seq::<char>::empty());
        assert(byte_len(""@) == 0);
        lemma_byte_len_concat(before@, after@);
    }
    edits.push(TextEdit { start: node.start_byte, end: node.end_byte, text });
    assert(edit_views(edits@) == seq![change]);
    if let Some(edit) = unclose(new_end, has_line_end(before), after) {
        let ghost last = edit@;
        edits.push(edit);
        assert(edit_views(edits@) == seq![change] + seq![last]);
    } else {
        assert(seq![change] + Seq::<(int, int, Seq<char>)>::empty() == seq![change]);
    }
    edits
}

/// The edits that take the nearest headline around the cursor to its next state, at a time. Where
/// its task becomes done, the last of them puts in the task that follows it, if its plan has a
/// repeater: one of the same kind, with the same repeater, for the next date.
#[verifier::rlimit(40)]
pub fn cycle_todo_state_at(
    buffer_text: &str,
    ancestors: &Vec<SyntaxNode>,
    todo_keywords: &Vec<String>,
    done_keywords: &Vec<String>,
    timestamp_on_done: bool,
    now: DateTime,
) -> (r: Option<Vec<TextEdit>>)
    requires
        now.valid(),
        tree_fits(buffer_text@, ancestors@),
        has_room(buffer_text@, texts(todo_keywords@), texts(done_keywords@)),
    ensures
        option_edits(r) == cycle_edits(
            buffer_text@,
            ancestors@,
            texts(todo_keywords@),
            texts(done_keywords@),
            timestamp_on_done,
            now,
        ),
        done_task_follows(
            option_edits(r),
            buffer_text@,
            ancestors@,
            texts(todo_keywords@),
            texts(done_keywords@),
            now.date,
        ),
{
    let mut edits: Vec<TextEdit> = Vec::new();
    assert(edit_views(edits@) == Seq::<(int, int, Seq<char>)>::empty());
    let headline = match find_first(ancestors, "headline") {
        Some(headline) => headline,
        None => {
            return Some(edits);
        },
    };
    let (stars, item) = match (
        find_last(&headline.children, "stars"),
        find_last(&headline.children, "item"),
    ) {
        (Some(stars), Some(item)) => (stars, item),
        _ => {
            return Some(edits);
        },
    };
    let mut node: Option<&SyntaxNode> = None;
    let mut current: Option<&str> = None;
    if let Some(expr) = find_first(&item.children, "expr") {
        let text = slice(buffer_text, expr.start_byte, expr.end_byte);
        if holds_text(todo_keywords, text) || holds_text(done_keywords, text) {
            node = Some(expr);
            current = Some(text);
        }
    }
    let (new_keyword, stamped) = match next_keyword(
        current,
        todo_keywords,
        done_keywords,
        timestamp_on_done,
    ) {
        Some(state) => state,
        None => {
            return Some(edits);
        },
    };
    match new_keyword {
        Some(keyword) => {
            let is_done = holds_text(done_keywords, keyword.as_str());
            proof {
                lemma_next_is_listed(
                    option_str(current),
                    texts(todo_keywords@),
                    texts(done_keywords@),
                    timestamp_on_done,
                );
            }
            let change = change_keyword(node, stars, keyword);
            make_edits(buffer_text, headline, change, stamped, is_done, todo_keywords, now)
        },
        None => {
            if let Some(node) = node {
                edits = clear_keyword(buffer_text, headline, node);
            }
            Some(edits)
        },
    }
}

/// The edits that take the nearest headline around the cursor to its next state, now. The nodes
/// around the cursor are given from the innermost outwards.
pub fn cycle_todo_state(
    buffer_text: &str,
    ancestors: &Vec<SyntaxNode>,
    todo_keywords: &Vec<String>,
    done_keywords: &Vec<String>,
    timestamp_on_done: bool,
) -> (r: Option<Vec<TextEdit>>)
    requires
        tree_fits(buffer_text@, ancestors@),
        has_room(buffer_text@, texts(todo_keywords@), texts(done_keywords@)),
    ensures
        exists|now: DateTime|
            now.valid() && option_edits(r) == #[trigger] cycle_edits(
                buffer_text@,
                ancestors@,
                texts(todo_keywords@),
                texts(done_keywords@),
                timestamp_on_done,
                now,
            ) && done_task_follows(
                option_edits(r),
                buffer_text@,
                ancestors@,
                texts(todo_keywords@),
                texts(done_keywords@),
                now.date,
            ),
{
    let now = local_now();
    cycle_todo_state_at(
        buffer_text,
        ancestors,
        todo_keywords,
        done_keywords,
        timestamp_on_done,
        now,
    )
}

/// A keyword is where it stands in a list of distinct ones.
proof fn lemma_position(s: Seq<Seq<char>>, i: int)
    requires
        s.no_duplicates(),
        0 <= i < s.len(),
    ensures
        s.contains(s[i]),
        position(s, s[i]) == Some(i),
{
    s.index_of_first_ensures(s[i]);
}

/// With distinct keywords, a task goes through those for what is to do in their order, then
/// through those for what is done in theirs, then to none, and from there back to the first.
pub proof fn lemma_state_cycle(
    todo: Seq<Seq<char>>,
    done: Seq<Seq<char>>,
    timestamp_on_done: bool,
    i: int,
)
    requires
        (todo + done).no_duplicates(),
        0 <= i < (todo + done).len(),
    ensures
        ({
            let all = todo + done;
            let next = next_state(Some(all[i]), todo, done, timestamp_on_done);
            &&& next is Some
            &&& (next->0).0 == if i + 1 < all.len() {
                Some(all[i + 1])
            } else {
                None
            }
            &&& (next->0).1 == (timestamp_on_done && i + 1 == todo.len() && done.len() > 0)
        }),
        todo.len() > 0 ==> next_state(None, todo, done, timestamp_on_done) == Some(
            (Some((todo + done)[0]), false),
        ),
{
    let all = todo + done;
    assert(todo.no_duplicates()) by {
        assert forall|a: int, b: int| 0 <= a < b < todo.len() implies todo[a] != todo[b] by {
            assert(all[a] != all[b]);
        }
    }
    assert(done.no_duplicates()) by {
        assert forall|a: int, b: int| 0 <= a < b < done.len() implies done[a] != done[b] by {
            assert(all[todo.len() + a] != all[todo.len() + b]);
        }
    }
    if i < todo.len() {
        lemma_position(todo, i);
        if done.contains(todo[i]) {
            let k = choose|k: int| 0 <= k < done.len() && done[k] == todo[i];
            assert(all[todo.len() + k] == all[i]);
        }
    } else {
        lemma_position(done, i - todo.len());
        assert(all[i] == done[i - todo.len()]);
        if i + 1 < all.len() {
            assert(all[i + 1] == done[i + 1 - todo.len()]);
        }
    }
}

/// An edit replaces the keyword of a headline, and one after it puts a text right after the
/// headline.
proof fn lemma_first_edits(
    before: Seq<char>,
    old_keyword: Seq<char>,
    rest: Seq<char>,
    after: Seq<char>,
    change: (int, int, Seq<char>),
    text: Seq<char>,
)
    requires
        change.0 == byte_len(before),
        change.1 == byte_len(before + old_keyword),
    ensures
        ({
            let buffer = before + old_keyword + rest + after;
            let new_headline = before + change.2 + rest;
            let new_end = byte_len(before + old_keyword + rest) + shift_of(change);
            &&& new_end == byte_len(new_headline)
            &&& edited_by(buffer, seq![change]) == new_headline + after
            &&& edited_by(buffer, seq![change, (new_end, new_end, text)]) == new_headline + text
                + after
        }),
{
    let buffer = before + old_keyword + rest + after;
    let none = Seq::<(int, int, Seq<char>)>::empty();
    lemma_byte_len_concat(before, old_keyword);
    lemma_byte_len_concat(before + old_keyword, rest);
    assert(buffer == before + old_keyword + (rest + after));
    lemma_edited(before, old_keyword, rest + after, change.2);
    lemma_edited_by(buffer, none, change);
    assert(none.push(change) == seq![change]);
    let new_headline = before + change.2 + rest;
    lemma_byte_len_concat(before, change.2);
    lemma_byte_len_concat(before + change.2, rest);
    let new_end = byte_len(before + old_keyword + rest) + shift_of(change);
    assert(before + change.2 + (rest + after) == new_headline + after);
    let empty = Seq::<char>::empty();
    lemma_edited_by(buffer, seq![change], (new_end, new_end, text));
    assert(seq![change].push((new_end, new_end, text)) == seq![change, (new_end, new_end, text)]);
    lemma_edited(new_headline, empty, after, text);
    assert(new_headline + empty + after == new_headline + after);
    assert(new_headline + empty == new_headline);
}

/// The keyword of a headline changes, and nothing else of the buffer does but that a closing time
/// due is put right after the headline and a task that follows right after its section. Here the
/// buffer is what stands before the keyword, the keyword (nothing where the headline has none), the
/// rest of the headline and the text after it.
#[verifier::rlimit(40)]
pub proof fn lemma_keyword_changes(
    before: Seq<char>,
    old_keyword: Seq<char>,
    rest: Seq<char>,
    after: Seq<char>,
    headline: SyntaxNode,
    stars: SyntaxNode,
    item: SyntaxNode,
    todo: Seq<Seq<char>>,
    done: Seq<Seq<char>>,
    timestamp_on_done: bool,
    now: DateTime,
)
    requires
        headline.end_byte == byte_len(before + old_keyword + rest),
    ensures
        ({
            let buffer = before + old_keyword + rest + after;
            let node = keyword_node(buffer, item, todo, done);
            let current = match node {
                Some(n) => Some(node_text(buffer, n)),
                None => None,
            };
            let section = section_of(after);
            next_state(current, todo, done, timestamp_on_done) matches Some((Some(keyword), stamped))
                ==> ({
                let change = keyword_edit(node, stars, keyword);
                change.0 == byte_len(before) && change.1 == byte_len(before + old_keyword) ==> ({
                    let closed = closed_part(before + old_keyword + rest, stamped, now);
                    let edits = headline_edits(
                        buffer,
                        headline,
                        stars,
                        item,
                        todo,
                        done,
                        timestamp_on_done,
                        now,
                    );
                    match recurring_info(section) {
                        Some(recurring) if done.contains(keyword) => match following_task(
                            node_text(buffer, headline),
                            recurring,
                            todo,
                            now.date,
                        ) {
                            Some(task) => edits is Some && edited_by(buffer, edits->0) == before
                                + change.2 + rest + closed + section + task + after.skip(
                                section.len() as int,
                            ),
                            None => edits is None,
                        },
                        _ => edits is Some && edited_by(buffer, edits->0) == before + change.2
                            + rest + closed + after,
                    }
                })
            })
        }),
{
    let buffer = before + old_keyword + rest + after;
    let headline_text = before + old_keyword + rest;
    let end = headline.end_byte as int;
    lemma_byte_len_concat(headline_text, after);
    let node = keyword_node(buffer, item, todo, done);
    let current = match node {
        Some(n) => Some(node_text(buffer, n)),
        None => None,
    };
    let section = section_of(after);
    lemma_section_begins(after);
    let others = after.skip(section.len() as int);
    assert(after == section + others);
    if let Some((Some(keyword), stamped)) = next_state(current, todo, done, timestamp_on_done) {
        let change = keyword_edit(node, stars, keyword);
        if change.0 == byte_len(before) && change.1 == byte_len(before + old_keyword) {
            let new_headline = before + change.2 + rest;
            let new_end = end + shift_of(change);
            let closed = closed_part(headline_text, stamped, now);
            let edits = if stamped {
                seq![change, (new_end, new_end, closed)]
            } else {
                seq![change]
            };
            let second = new_headline + closed + after;
            let empty = Seq::<char>::empty();
            lemma_first_edits(before, old_keyword, rest, after, change, closed);
            assert(new_headline + empty + after == new_headline + after);
            assert(edited_by(buffer, edits) == second);
            if let Some(recurring) = recurring_info(section) {
                if done.contains(keyword) {
                    if let Some(task) = following_task(
                        node_text(buffer, headline),
                        recurring,
                        todo,
                        now.date,
                    ) {
                        let stem = new_headline + closed + section;
                        let place = new_end + byte_len(closed) + byte_len(section);
                        lemma_byte_len_concat(new_headline, closed);
                        lemma_byte_len_concat(new_headline + closed, section);
                        lemma_edited_by(buffer, edits, (place, place, task));
                        lemma_edited(stem, empty, others, task);
                        assert(stem + empty + others == second);
                        assert(stem + empty == stem);
                    }
                }
            }
        }
    }
}

/// How many lines there are up to the end of a headline, given the buffer up to there.
pub open spec fn lines_to(before: Seq<char>) -> int {
    if ends_line(before) {
        split(before, '\n').len() - 1
    } else {
        split(before, '\n').len() as int
    }
}

/// The line that says when a task was closed has no line feed in it.
proof fn lemma_closed_is_line(now: DateTime)
    requires
        now.valid(),
    ensures
        lacks(closed_line(now), '\n'),
{
    reveal_strlit("CLOSED: [");
    reveal_strlit("]");
    reveal_strlit("-");
    reveal_strlit(" ");
    reveal_strlit(":");
    reveal_strlit("Sun");
    reveal_strlit("Mon");
    reveal_strlit("Tue");
    reveal_strlit("Wed");
    reveal_strlit("Thu");
    reveal_strlit("Fri");
    reveal_strlit("Sat");
    let year = now.date.year as int;
    lemma_padded((if year < 0 { -year } else { year }) as nat, 4);
    lemma_padded(now.date.month as nat, 2);
    lemma_padded(now.date.day as nat, 2);
    lemma_padded(now.time.hour as nat, 2);
    lemma_padded(now.time.minute as nat, 2);
    assert(lacks(year_text(year), '\n'));
    assert(lacks(iso_date(now.date), '\n'));
    assert(lacks(weekday_abbreviation(now.date.weekday()), '\n'));
    assert(lacks(stamp(now), '\n'));
}

/// A closing time put after a headline that ends its line is a line of its own, right after those
/// of the headline, and every other line stays as it is.
pub proof fn lemma_closed_on_its_line(
    old_headline: Seq<char>,
    new_headline: Seq<char>,
    after: Seq<char>,
    now: DateTime,
)
    requires
        now.valid(),
        ends_line(old_headline) == ends_line(new_headline),
        ends_line(old_headline) || after.len() == 0 || after[0] == '\n',
    ensures
        split(new_headline + closed_text(old_headline, now) + after, '\n') == split(
            new_headline + after,
            '\n',
        ).insert(lines_to(new_headline), closed_line(now)),
{
    let line = closed_line(now);
    let feed = seq!['\n'];
    let result = new_headline + closed_text(old_headline, now) + after;
    lemma_closed_is_line(now);
    lemma_split_one(line, '\n');
    reveal_strlit("\n");
    assert("\n"@ == feed);
    let none = Seq::<char>::empty();
    lemma_split_one(none, '\n');
    if ends_line(new_headline) {
        let stem = new_headline.drop_last();
        assert(new_headline == stem + feed + none);
        lemma_split_at(stem, none, '\n');
        assert(new_headline + after == stem + feed + after);
        lemma_split_at(stem, after, '\n');
        lemma_split_at(stem, line, '\n');
        lemma_split_at(stem + feed + line, after, '\n');
        assert(result == stem + feed + line + feed + after);
        assert(split(result, '\n') == split(new_headline + after, '\n').insert(
            lines_to(new_headline),
            line,
        ));
    } else if after.len() == 0 {
        assert(new_headline + after == new_headline);
        assert(result == new_headline + feed + line);
        lemma_split_at(new_headline, line, '\n');
    } else {
        let rest = after.skip(1);
        assert(after == feed + rest);
        assert(new_headline + after == new_headline + feed + rest);
        lemma_split_at(new_headline, rest, '\n');
        assert(result == new_headline + feed + line + feed + rest);
        lemma_split_at(new_headline, line, '\n');
        lemma_split_at(new_headline + feed + line, rest, '\n');
    }
}

/// Where a closing time is due, it stands on a line of its own right after the headline once its
/// keyword and it are edited in, and every other line is as it is with the new keyword alone. The
/// task that follows one that comes back is edited in after that.
pub proof fn lemma_task_is_closed(
    before: Seq<char>,
    old_keyword: Seq<char>,
    rest: Seq<char>,
    after: Seq<char>,
    new_keyword: Seq<char>,
    headline: SyntaxNode,
    stars: SyntaxNode,
    item: SyntaxNode,
    todo: Seq<Seq<char>>,
    done: Seq<Seq<char>>,
    now: DateTime,
)
    requires
        now.valid(),
        headline.end_byte == byte_len(before + old_keyword + rest),
        keyword_node(before + old_keyword + rest + after, item, todo, done) matches Some(node)
            && node.start_byte == byte_len(before) && node.end_byte == byte_len(
            before + old_keyword,
        ),
        old_keyword.len() > 0 && lacks(old_keyword, '\n'),
        new_keyword.len() > 0 && lacks(new_keyword, '\n'),
        next_state(Some(old_keyword), todo, done, true) == Some((Some(new_keyword), true)),
        ends_line(before + old_keyword + rest) || after.len() == 0 || after[0] == '\n',
    ensures
        headline_edits(
            before + old_keyword + rest + after,
            headline,
            stars,
            item,
            todo,
            done,
            true,
            now,
        ) matches Some(edits) ==> {
            &&& edits.len() >= 2
            &&& split(
                edited_by(before + old_keyword + rest + after, edits.take(2)),
                '\n',
            ) == split(before + new_keyword + rest + after, '\n').insert(
                lines_to(before + new_keyword + rest),
                closed_line(now),
            )
        },
{
    let old_headline = before + old_keyword + rest;
    let new_headline = before + new_keyword + rest;
    let buffer = old_headline + after;
    let node = keyword_node(buffer, item, todo, done)->0;
    lemma_byte_len_concat(old_headline, after);
    lemma_byte_len_concat(before + old_keyword, rest + after);
    lemma_byte_len_concat(before, old_keyword);
    assert(buffer == before + old_keyword + (rest + after));
    assert(node_text(buffer, node) == old_keyword);
    let change = keyword_edit(Some(node), stars, new_keyword);
    let new_end = headline.end_byte + shift_of(change);
    let closed = closed_text(old_headline, now);
    lemma_first_edits(before, old_keyword, rest, after, change, closed);
    assert(ends_line(old_headline) == ends_line(new_headline)) by {
        if rest.len() > 0 {
            assert(old_headline.last() == rest.last() && new_headline.last() == rest.last());
        } else {
            assert(old_headline.last() == old_keyword.last());
            assert(new_headline.last() == new_keyword.last());
        }
    }
    lemma_closed_on_its_line(old_headline, new_headline, after, now);
    if let Some(edits) = headline_edits(buffer, headline, stars, item, todo, done, true, now) {
        assert(edits.take(2) == seq![change, (new_end, new_end, closed)]);
    }
}

/// Where a task loses its keyword, the keyword goes and what goes with its closing line, and
/// nothing else of the buffer does.
pub proof fn lemma_keyword_goes(
    before: Seq<char>,
    old_keyword: Seq<char>,
    rest: Seq<char>,
    after: Seq<char>,
    headline: SyntaxNode,
    stars: SyntaxNode,
    item: SyntaxNode,
    todo: Seq<Seq<char>>,
    done: Seq<Seq<char>>,
    timestamp_on_done: bool,
    now: DateTime,
)
    requires
        headline.end_byte == byte_len(before + old_keyword + rest),
        keyword_node(before + old_keyword + rest + after, item, todo, done) matches Some(node)
            && node.start_byte == byte_len(before) && node.end_byte == byte_len(
            before + old_keyword,
        ),
        next_state(Some(old_keyword), todo, done, timestamp_on_done) matches Some((None, _)),
    ensures
        ({
            let headline_text = before + old_keyword + rest;
            let buffer = headline_text + after;
            let edits = headline_edits(
                buffer,
                headline,
                stars,
                item,
                todo,
                done,
                timestamp_on_done,
                now,
            );
            &&& edits is Some
            &&& edited_by(buffer, edits->0) == before + rest + match closing_range(
                ends_line(headline_text),
                after,
            ) {
                Some((start, end)) => after.take(start) + after.skip(end),
                None => after,
            }
        }),
{
    let headline_text = before + old_keyword + rest;
    let buffer = headline_text + after;
    let end = headline.end_byte as int;
    let none = Seq::<(int, int, Seq<char>)>::empty();
    let empty = Seq::<char>::empty();
    reveal_strlit("");
    assert(""@ == empty);
    lemma_byte_len_concat(headline_text, after);
    lemma_byte_len_concat(before, old_keyword);
    lemma_byte_len_concat(before + old_keyword, rest);
    lemma_byte_len_concat(before, rest);
    lemma_byte_len_concat(before + old_keyword, rest + after);
    assert(buffer == before + old_keyword + (rest + after));
    let node = keyword_node(buffer, item, todo, done)->0;
    assert(node_text(buffer, node) == old_keyword);
    let change = (node.start_byte as int, node.end_byte as int, ""@);
    lemma_edited(before, old_keyword, rest + after, empty);
    lemma_edited_by(buffer, none, change);
    assert(none.push(change) == seq![change]);
    let stem = before + rest;
    assert(before + empty + (rest + after) == stem + after);
    assert(byte_len(empty) == 0);
    let new_end = end + shift_of(change);
    assert(new_end == byte_len(stem));
    match closing_range(ends_line(headline_text), after) {
        Some((start, stop)) => {
            lemma_closing_range(ends_line(headline_text), after);
            let first = after.take(start);
            let gone = after.subrange(start, stop);
            let others = after.skip(stop);
            assert(after == first + gone + others);
            assert(after.take(stop) == first + gone);
            lemma_byte_len_concat(stem, first);
            lemma_byte_len_concat(stem, first + gone);
            lemma_edited(stem + first, gone, others, empty);
            assert(stem + first + gone == stem + (first + gone));
            assert(stem + first + gone + others == stem + after);
            let edit = (
                new_end + byte_len(after.take(start)),
                new_end + byte_len(after.take(stop)),
                ""@,
            );
            lemma_edited_by(buffer, seq![change], edit);
            assert(seq![change] + seq![edit] == seq![change].push(edit));
            assert(stem + first + empty + others == stem + (first + others));
        },
        None => {
            assert(seq![change] + none == seq![change]);
        },
    }
}

/// The closing line lies within the text after its headline.
proof fn lemma_closing_range(headline_ended: bool, after: Seq<char>)
    ensures
        closing_range(headline_ended, after) matches Some((start, end)) ==> 0 <= start <= end
            <= after.len(),
{
    reveal_strlit("\n");
    let own = section_of(after);
    lemma_section_begins(after);
    lemma_find(own, "CLOSED:"@);
    if let Some(at) = find(own, "CLOSED:"@) {
        lemma_rfind(after.take(at), "\n"@);
        lemma_find(after.skip(at), "\n"@);
    }
}

/// Where the line that says when a task was closed begins in the text after the headline, and where
/// its last character stands before.
proof fn lemma_closing_line(after: Seq<char>) -> (r: (int, int))
    requires
        find(section_of(after), "CLOSED:"@) is Some,
    ensures
        0 <= r.0 < r.1 <= after.len(),
        lacks(after.subrange(r.0, r.1), '\n'),
        contains(after.subrange(r.0, r.1), "CLOSED:"@),
        r.0 > 0 ==> after[r.0 - 1] == '\n',
        r.1 < after.len() ==> after[r.1] == '\n',
        r.0 == 0 ==> after[0] != '\n',
        closing_range(true, after) == Some(
            if r.1 < after.len() {
                (r.0, r.1 + 1)
            } else if r.0 > 0 {
                (r.0 - 1, r.1)
            } else {
                r
            },
        ),
        r.0 > 0 ==> closing_range(false, after) == closing_range(true, after),
{
    let feed = seq!['\n'];
    reveal_strlit("\n");
    assert("\n"@ == feed);
    reveal_strlit("CLOSED:");
    let word = "CLOSED:"@;
    let own = section_of(after);
    lemma_section_begins(after);
    lemma_find(own, word);
    let at = find(own, word)->0;
    assert(occurs_at(own, word, at));
    assert forall|j: int| 0 <= j < word.len() implies after[at + j] == word[j] by {
        assert(own.subrange(at, at + word.len())[j] == after[at + j]);
    }
    lemma_rfind(after.take(at), feed);
    lemma_find(after.skip(at), feed);
    let start = match rfind(after.take(at), feed) {
        Some(i) => i + 1,
        None => 0,
    };
    let stop = match find(after.skip(at), feed) {
        Some(i) => at + i,
        None => after.len() as int,
    };
    if start > 0 {
        lemma_occurs_char(after.take(at), '\n', start - 1);
    }
    if stop < after.len() {
        lemma_occurs_char(after.skip(at), '\n', stop - at);
    }
    assert forall|j: int| start <= j < at implies after[j] != '\n' by {
        lemma_occurs_char(after.take(at), '\n', j);
        assert(after.take(at)[j] == after[j]);
    }
    assert forall|j: int| at <= j < stop implies after[j] != '\n' by {
        lemma_occurs_char(after.skip(at), '\n', j - at);
        assert(after.skip(at)[j - at] == after[j]);
    }
    assert(stop >= at + word.len()) by {
        if stop < at + word.len() {
            assert(after[at + (stop - at)] == word[stop - at]);
        }
    }
    let line = after.subrange(start, stop);
    assert(line.subrange(at - start, at - start + word.len()) == word);
    assert(occurs_at(line, word, at - start));
    lemma_find(line, word);
    if start == 0 {
        assert(after[0] != '\n') by {
            if at == 0 {
                assert(after[at + 0] == word[0]);
            }
        }
    }
    (start, stop)
}

/// With its keyword a task loses the line that says when it was closed, if its section has one,
/// and every other line stays a line of its own. Where that line ends the buffer and follows the
/// line feed of the headline, the line feed stays.
#[verifier::rlimit(40)]
pub proof fn lemma_closed_line_goes(
    old_headline: Seq<char>,
    new_headline: Seq<char>,
    after: Seq<char>,
)
    requires
        ends_line(old_headline) == ends_line(new_headline),
        ends_line(old_headline) || after.len() == 0 || after[0] == '\n',
        closing_range(ends_line(old_headline), after) is Some,
    ensures
        ({
            let (start, end) = closing_range(ends_line(old_headline), after)->0;
            let all = split(new_headline + after, '\n');
            let left = split(new_headline + (after.take(start) + after.skip(end)), '\n');
            exists|n: int|
                0 <= n < all.len() && contains(#[trigger] all[n], "CLOSED:"@) && (left
                    == all.remove(n) || n == all.len() - 1 && left == all.update(n, Seq::empty()))
        }),
{
    let (start, stop) = lemma_closing_line(after);
    let line = after.subrange(start, stop);
    assert(start > 0 || ends_line(new_headline));
    let stem = text_above(new_headline, after, start);
    let all = split(new_headline + after, '\n');
    let n = split(stem, '\n').len() as int;
    lemma_lines_without(stem, line, after.skip(stop + 1));
    if stop < after.len() {
        lemma_text_around(new_headline, after, start, stop);
    } else {
        lemma_text_before(new_headline, after, start);
    }
    assert(all[n] == line);
}

/// What stands above a line of the text after a headline, without the line feed between.
spec fn text_above(headline: Seq<char>, after: Seq<char>, start: int) -> Seq<char> {
    if start > 0 {
        headline + after.take(start - 1)
    } else {
        headline.drop_last()
    }
}

/// A text with a line in it that a line feed ends, and the text without the line.
proof fn lemma_text_around(headline: Seq<char>, after: Seq<char>, start: int, stop: int)
    requires
        0 <= start <= stop < after.len(),
        start > 0 ==> after[start - 1] == '\n',
        start == 0 ==> ends_line(headline),
        after[stop] == '\n',
    ensures
        ({
            let feed = seq!['\n'];
            let stem = text_above(headline, after, start);
            let line = after.subrange(start, stop);
            let others = after.skip(stop + 1);
            &&& headline + after == stem + feed + line + feed + others
            &&& headline + (after.take(start) + others) == stem + feed + others
        }),
{
}

/// A text that ends with a line, and the text without the line.
proof fn lemma_text_before(headline: Seq<char>, after: Seq<char>, start: int)
    requires
        0 <= start <= after.len(),
        start > 0 ==> after[start - 1] == '\n',
        start == 0 ==> ends_line(headline),
    ensures
        ({
            let feed = seq!['\n'];
            let len = after.len() as int;
            let stem = text_above(headline, after, start);
            &&& headline + after == stem + feed + after.subrange(start, len)
            &&& start > 0 ==> headline + (after.take(start - 1) + after.skip(len)) == stem
            &&& start == 0 ==> headline + (after.take(start) + after.skip(len)) == stem + feed
        }),
{
}

/// The lines of a text with a line in it, and of the text without that line.
proof fn lemma_lines_without(stem: Seq<char>, line: Seq<char>, others: Seq<char>)
    requires
        lacks(line, '\n'),
    ensures
        ({
            let feed = seq!['\n'];
            let n = split(stem, '\n').len() as int;
            let inner = split(stem + feed + line + feed + others, '\n');
            let outer = split(stem + feed + line, '\n');
            &&& 0 <= n < inner.len()
            &&& inner[n] == line
            &&& split(stem + feed + others, '\n') == inner.remove(n)
            &&& outer.len() == n + 1
            &&& outer[n] == line
            &&& split(stem, '\n') == outer.remove(n)
            &&& split(stem + feed, '\n') == outer.update(n, Seq::empty())
        }),
{
    let feed = seq!['\n'];
    let none = Seq::<char>::empty();
    lemma_split_one(none, '\n');
    lemma_split_one(line, '\n');
    lemma_split_at(stem, line, '\n');
    lemma_split_at(stem + feed + line, others, '\n');
    lemma_split_at(stem, others, '\n');
    lemma_split_at(stem, none, '\n');
    assert(stem + feed + none == stem + feed);
}

/// A line put first after a headline belongs to its section.
proof fn lemma_first_line(text: Seq<char>, line: Seq<char>, start: int)
    requires
        0 <= start <= 1,
        start + line.len() <= text.len(),
        text.subrange(start, start + line.len()) == line,
        line.len() > 0,
        line[0] != '*',
        lacks(line, '\n'),
        start == 1 ==> text[0] == '\n',
    ensures
        section_of(text).len() >= start + line.len(),
{
    reveal_strlit("\n*");
    assert forall|j: int| 0 <= j < line.len() implies text[start + j] == line[j] by {
        assert(text.subrange(start, start + line.len())[j] == text[start + j]);
    }
    assert(text[start + 0] == line[0]);
    lemma_find(text, "\n*"@);
    if let Some(i) = find(text, "\n*"@) {
        let w = text.subrange(i, i + 2);
        assert(w[0] == text[i] && w[1] == text[i + 1]);
        if start <= i < start + line.len() {
            assert(text[start + (i - start)] == line[i - start]);
        }
    }
}

/// A line with a closing time that is put after a headline goes again with the keyword, and leaves
/// the text after the headline as it was.
pub proof fn lemma_closing_undone(headline: Seq<char>, after: Seq<char>, now: DateTime)
    requires
        now.valid(),
        ends_line(headline) || after.len() == 0 || after[0] == '\n',
    ensures
        ({
            let closed = closed_text(headline, now) + after;
            &&& closing_range(ends_line(headline), closed) is Some
            &&& ({
                let (start, end) = closing_range(ends_line(headline), closed)->0;
                closed.take(start) + closed.skip(end) == after
            })
        }),
{
    reveal_strlit("\n");
    reveal_strlit("CLOSED:");
    reveal_strlit("CLOSED: [");
    let feed = seq!['\n'];
    assert("\n"@ == feed);
    let word = "CLOSED:"@;
    let line = closed_line(now);
    let t = closed_text(headline, now) + after;
    let start: int = if ends_line(headline) {
        0
    } else {
        1
    };
    let stop = start + line.len();
    lemma_closed_is_line(now);
    assert(line.subrange(0, 7) == word);
    assert(t.subrange(start, stop) == line);
    lemma_first_line(t, line, start);
    let own = section_of(t);
    lemma_section_begins(t);
    assert forall|j: int| 0 <= j < line.len() implies t[start + j] == line[j] by {
        assert(t.subrange(start, stop)[j] == t[start + j]);
    }
    assert(own.subrange(start, start + 7) == line.subrange(0, 7));
    assert(occurs_at(own, word, start));
    if start == 1 {
        assert(!occurs_at(own, word, 0)) by {
            if occurs_at(own, word, 0) {
                assert(own.subrange(0, 7)[0] == t[0]);
            }
        }
    }
    lemma_find_is(own, word, start);
    lemma_rfind(t.take(start), feed);
    if start == 1 {
        lemma_occurs_char(t.take(start), '\n', 0);
        lemma_occurs_char(t.take(start), '\n', rfind(t.take(start), feed)->0);
    } else if rfind(t.take(start), feed) is Some {
        lemma_occurs_char(t.take(start), '\n', rfind(t.take(start), feed)->0);
    }
    let rest = t.skip(start);
    assert forall|j: int| 0 <= j < line.len() implies !occurs_at(rest, feed, j) by {
        lemma_occurs_char(rest, '\n', j);
        assert(rest[j] == line[j]);
    }
    if stop < t.len() {
        assert(t[stop] == '\n');
        lemma_occurs_char(rest, '\n', line.len() as int);
        lemma_find_is(rest, feed, line.len() as int);
        assert(closing_range(ends_line(headline), t) == Some((start, stop + 1)));
        if start == 1 {
            assert(after == feed + after.skip(1));
        }
        assert(t.take(start) + t.skip(stop + 1) == after);
    } else {
        lemma_find(rest, feed);
        if find(rest, feed) is Some {
            lemma_occurs_char(rest, '\n', find(rest, feed)->0);
        }
        assert(start == 1 && after.len() == 0);
        assert(t.take(0) + t.skip(t.len() as int) == after);
    }
}

} // verus!
