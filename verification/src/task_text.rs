//! What the text of a task becomes when its keyword or its plan changes.
use crate::agenda_text::holds_closing;
use crate::buffer::{byte_len, edited_by, lemma_byte_len_concat, text_between};
use crate::calendar::{iso_date, stamp, Date, DateTime};
use crate::follow_up::{lemma_plan, plan};
use crate::planning::{
    lemma_section_begins, planning_keyword, recurring_info, section_of, AgendaEntryType,
};
use crate::recurring::{indent, is_line, lemma_moved_lines, line_with, moved, rescheduled};
use crate::repeater::{next_occurrence, RepeaterInfo, RepeaterType};
use crate::scheduling::{begins_with_star, lemma_section, lemma_star_line};
use crate::syntax::{first_of_kind, last_of_kind, SyntaxNode};
use crate::text::{
    contains, find, is_space, lemma_find, lemma_occurs_char, lemma_rfind, lines, occurs_at, rfind,
    space_len,
};
use crate::todo::{
    closed_line, closing_range, cycle_edits, headline_edits, keyword_node, lemma_keyword_changes,
    lemma_state_cycle, next_state, node_text,
};
use vstd::prelude::*;
use vstd::string::*;

verus! {

/// The first node of a kind is the one before which there is none of the kind, and there is none
/// where no node is of the kind.
pub proof fn lemma_first_of_kind(nodes: Seq<SyntaxNode>, kind: Seq<char>, i: int)
    requires
        0 <= i <= nodes.len(),
        forall|k: int| 0 <= k < i ==> (#[trigger] nodes[k]).kind@ != kind,
        i < nodes.len() ==> nodes[i].kind@ == kind,
    ensures
        first_of_kind(nodes, kind) == if i < nodes.len() {
            Some(nodes[i])
        } else {
            None
        },
    decreases nodes.len(),
{
    if nodes.len() > 0 && i > 0 {
        let rest = nodes.skip(1);
        assert(nodes[0].kind@ != kind);
        assert forall|k: int| 0 <= k < i - 1 implies (#[trigger] rest[k]).kind@ != kind by {
            assert(rest[k] == nodes[k + 1]);
        }
        lemma_first_of_kind(rest, kind, i - 1);
    }
}

/// The last node of a kind is the one after which there is none of the kind.
pub proof fn lemma_last_of_kind(nodes: Seq<SyntaxNode>, kind: Seq<char>, i: int)
    requires
        -1 <= i < nodes.len(),
        forall|k: int| i < k < nodes.len() ==> (#[trigger] nodes[k]).kind@ != kind,
        i >= 0 ==> nodes[i].kind@ == kind,
    ensures
        last_of_kind(nodes, kind) == if i >= 0 {
            Some(nodes[i])
        } else {
            None
        },
    decreases nodes.len(),
{
    if nodes.len() > 0 && i < nodes.len() - 1 {
        let rest = nodes.drop_last();
        assert(nodes.last() == nodes[nodes.len() - 1]);
        assert forall|k: int| i < k < rest.len() implies (#[trigger] rest[k]).kind@ != kind by {
            assert(rest[k] == nodes[k]);
        }
        lemma_last_of_kind(rest, kind, i);
    }
}

/// The keyword of a headline is the first expression of its item, if that is one of the keywords,
/// and a later one does not count.
pub proof fn lemma_keyword_found(
    before: Seq<char>,
    word: Seq<char>,
    after: Seq<char>,
    item: SyntaxNode,
    i: int,
    todo: Seq<Seq<char>>,
    done: Seq<Seq<char>>,
)
    requires
        0 <= i < item.children@.len(),
        forall|k: int| 0 <= k < i ==> (#[trigger] item.children@[k]).kind@ != "expr"@,
        item.children@[i].kind@ == "expr"@,
        item.children@[i].start_byte == byte_len(before),
        item.children@[i].end_byte == byte_len(before + word),
    ensures
        keyword_node(before + word + after, item, todo, done) == if todo.contains(word)
            || done.contains(word) {
            Some(item.children@[i])
        } else {
            None
        },
{
    lemma_first_of_kind(item.children@, "expr"@, i);
    lemma_word_between(before, word, after);
}

/// What stands between two places of a text, given by their bytes, is the text between them.
pub proof fn lemma_word_between(before: Seq<char>, word: Seq<char>, after: Seq<char>)
    ensures
        text_between(before + word + after, byte_len(before), byte_len(before + word)) == word,
{
    lemma_byte_len_concat(before + word, after);
    lemma_byte_len_concat(before, word);
    assert(before + word + after == before + (word + after));
}

/// A task that has a keyword gets the one after it in its place, and nothing else of the buffer
/// changes, unless a closing time is due or a task follows. The keywords for what is to do come
/// first, then those for what is done.
pub proof fn lemma_next_keyword(
    before: Seq<char>,
    rest: Seq<char>,
    after: Seq<char>,
    i: int,
    headline: SyntaxNode,
    stars: SyntaxNode,
    item: SyntaxNode,
    todo: Seq<Seq<char>>,
    done: Seq<Seq<char>>,
    timestamp_on_done: bool,
    now: DateTime,
)
    requires
        (todo + done).no_duplicates(),
        0 <= i < (todo + done).len() - 1,
        headline.end_byte == byte_len(before + (todo + done)[i] + rest),
        keyword_node(before + (todo + done)[i] + rest + after, item, todo, done) matches Some(node)
            && node.start_byte == byte_len(before) && node.end_byte == byte_len(
            before + (todo + done)[i],
        ),
        !timestamp_on_done || i + 1 != todo.len(),
    ensures
        i + 1 < todo.len() || recurring_info(section_of(after)) is None ==> {
            let buffer = before + (todo + done)[i] + rest + after;
            headline_edits(
                buffer,
                headline,
                stars,
                item,
                todo,
                done,
                timestamp_on_done,
                now,
            ) matches Some(edits) && edited_by(buffer, edits) == before + (todo + done)[i + 1]
                + rest + after
        },
{
    let all = todo + done;
    let word = all[i];
    let buffer = before + word + rest + after;
    let node = keyword_node(buffer, item, todo, done)->0;
    assert(buffer == before + word + (rest + after));
    lemma_word_between(before, word, rest + after);
    assert(node_text(buffer, node) == word);
    lemma_state_cycle(todo, done, timestamp_on_done, i);
    if i + 1 < todo.len() && done.contains(all[i + 1]) {
        let k = choose|k: int| 0 <= k < done.len() && done[k] == all[i + 1];
        assert(all[todo.len() + k] == all[i + 1]);
    }
    lemma_keyword_changes(
        before,
        word,
        rest,
        after,
        headline,
        stars,
        item,
        todo,
        done,
        timestamp_on_done,
        now,
    );
    let empty = Seq::<char>::empty();
    assert(before + all[i + 1] + rest + empty + after == before + all[i + 1] + rest + after);
}

/// A task without a keyword gets the first of those for what is to do, after a space, right after
/// its stars, and nothing else of the buffer changes.
pub proof fn lemma_first_keyword(
    before: Seq<char>,
    rest: Seq<char>,
    after: Seq<char>,
    headline: SyntaxNode,
    stars: SyntaxNode,
    item: SyntaxNode,
    todo: Seq<Seq<char>>,
    done: Seq<Seq<char>>,
    timestamp_on_done: bool,
    now: DateTime,
)
    requires
        todo.len() > 0,
        !done.contains(todo[0]),
        stars.end_byte == byte_len(before),
        headline.end_byte == byte_len(before + rest),
        keyword_node(before + rest + after, item, todo, done) is None,
    ensures
        headline_edits(
            before + rest + after,
            headline,
            stars,
            item,
            todo,
            done,
            timestamp_on_done,
            now,
        ) matches Some(edits) && edited_by(before + rest + after, edits) == before + " "@ + todo[0]
            + rest + after,
{
    let empty = Seq::<char>::empty();
    assert(before + empty == before);
    lemma_keyword_changes(
        before,
        empty,
        rest,
        after,
        headline,
        stars,
        item,
        todo,
        done,
        timestamp_on_done,
        now,
    );
    assert(before + (" "@ + todo[0]) + rest + empty + after == before + " "@ + todo[0] + rest + after);
}

proof fn lemma_line_is(all: Seq<Seq<char>>, from: int, i: int, to: int, keyword: Seq<char>)
    requires
        0 <= from <= i <= to,
        i < to ==> i < all.len() && contains(all[i], keyword),
        forall|k: int| from <= k < i && k < all.len() ==> !contains(#[trigger] all[k], keyword),
    ensures
        line_with(all, from, to, keyword) == if i < to {
            Some(i)
        } else {
            None
        },
    decreases to - from,
{
    if from < i && from < all.len() {
        lemma_line_is(all, from + 1, i, to, keyword);
    }
}

proof fn lemma_indent_is(space: Seq<char>, rest: Seq<char>)
    requires
        forall|k: int| 0 <= k < space.len() ==> is_space(#[trigger] space[k]),
        rest.len() > 0 ==> !is_space(rest[0]),
    ensures
        indent(space + rest) == space,
    decreases space.len(),
{
    lemma_space_is(space, rest);
    assert((space + rest).take(space.len() as int) == space);
}

proof fn lemma_space_is(space: Seq<char>, rest: Seq<char>)
    requires
        forall|k: int| 0 <= k < space.len() ==> is_space(#[trigger] space[k]),
        rest.len() > 0 ==> !is_space(rest[0]),
    ensures
        space_len(space + rest) == space.len(),
    decreases space.len(),
{
    let s = space + rest;
    if space.len() > 0 {
        assert(is_space(space[0]));
        assert(s[0] == space[0]);
        let fewer = space.skip(1);
        assert forall|k: int| 0 <= k < fewer.len() implies is_space(#[trigger] fewer[k]) by {
            assert(fewer[k] == space[k + 1]);
        }
        assert(s.skip(1) == fewer + rest);
        lemma_space_is(fewer, rest);
    } else {
        assert(s == rest);
    }
}

/// Moving on a task that comes back puts the plan of the same kind and with the same repeater for
/// the next date in the place of the first of five lines that holds its keyword, indented as it
/// was, and leaves every other line as it was.
pub proof fn lemma_task_moves_on(
    content: Seq<char>,
    line_number: int,
    i: int,
    space: Seq<char>,
    rest: Seq<char>,
    entry_type: AgendaEntryType,
    date: Date,
    repeater: RepeaterInfo,
    today: Date,
)
    requires
        entry_type != AgendaEntryType::Closed,
        forall|k: int| 0 <= k < lines(content).len() ==> is_line(#[trigger] lines(content)[k]),
        0 <= line_number <= i < line_number + 5,
        i < lines(content).len(),
        lines(content)[i] == space + rest,
        forall|k: int| 0 <= k < space.len() ==> is_space(#[trigger] space[k]),
        rest.len() > 0 && !is_space(rest[0]),
        contains(
            lines(content)[i],
            if entry_type == AgendaEntryType::Deadline {
                "DEADLINE:"@
            } else {
                "SCHEDULED:"@
            },
        ),
        forall|k: int|
            line_number <= k < i ==> !contains(
                #[trigger] lines(content)[k],
                if entry_type == AgendaEntryType::Deadline {
                    "DEADLINE:"@
                } else {
                    "SCHEDULED:"@
                },
            ),
    ensures
        match next_occurrence(date, repeater, Some(today), today) {
            Some(next) => rescheduled(
                content,
                line_number,
                date,
                repeater,
                entry_type,
                today,
            ) matches Some(text) && lines(text) == lines(content).update(
                i,
                space + plan(entry_type, next, repeater),
            ),
            None => rescheduled(content, line_number, date, repeater, entry_type, today) is None,
        },
{
    let keyword = planning_keyword(entry_type);
    lemma_line_is(lines(content), line_number, i, line_number + 5, keyword);
    if let Some(next) = next_occurrence(date, repeater, Some(today), today) {
        lemma_plan(entry_type, next, repeater);
        lemma_indent_is(space, rest);
        assert(moved(content, line_number, entry_type, next, repeater) is Some);
        lemma_moved_lines(content, line_number, entry_type, next, repeater);
    }
}

/// Nothing is moved on where none of the five lines holds the keyword, or where the entry is closed.
pub proof fn lemma_nothing_moves_on(
    content: Seq<char>,
    line_number: int,
    entry_type: AgendaEntryType,
    date: Date,
    repeater: RepeaterInfo,
    today: Date,
)
    requires
        0 <= line_number,
        entry_type == AgendaEntryType::Closed || forall|k: int|
            line_number <= k < line_number + 5 && k < lines(content).len() ==> !contains(
                #[trigger] lines(content)[k],
                planning_keyword(entry_type),
            ),
    ensures
        rescheduled(content, line_number, date, repeater, entry_type, today) is None,
{
    if entry_type != AgendaEntryType::Closed {
        lemma_line_is(
            lines(content),
            line_number,
            line_number + 5,
            line_number + 5,
            planning_keyword(entry_type),
        );
    }
}

/// A task that counts from the day it is done is moved on alike whatever its own date was.
pub proof fn lemma_moves_on_from_today(
    content: Seq<char>,
    line_number: int,
    entry_type: AgendaEntryType,
    one: Date,
    other: Date,
    repeater: RepeaterInfo,
    today: Date,
)
    requires
        repeater.repeater_type == RepeaterType::Restart,
    ensures
        rescheduled(content, line_number, one, repeater, entry_type, today) == rescheduled(
            content,
            line_number,
            other,
            repeater,
            entry_type,
            today,
        ),
{
}

/// Going on with the state of a task acts on the nearest headline around the cursor, with its last
/// stars and its last item, and on nothing where there is no headline or it lacks one of these.
pub proof fn lemma_nearest_headline(
    buffer_text: Seq<char>,
    ancestors: Seq<SyntaxNode>,
    i: int,
    stars: int,
    item: int,
    todo: Seq<Seq<char>>,
    done: Seq<Seq<char>>,
    timestamp_on_done: bool,
    now: DateTime,
)
    requires
        0 <= i <= ancestors.len(),
        forall|k: int| 0 <= k < i ==> (#[trigger] ancestors[k]).kind@ != "headline"@,
        i < ancestors.len() ==> {
            let nodes = ancestors[i].children@;
            &&& ancestors[i].kind@ == "headline"@
            &&& -1 <= stars < nodes.len() && -1 <= item < nodes.len()
            &&& stars >= 0 ==> nodes[stars].kind@ == "stars"@
            &&& item >= 0 ==> nodes[item].kind@ == "item"@
            &&& forall|k: int| stars < k < nodes.len() ==> (#[trigger] nodes[k]).kind@ != "stars"@
            &&& forall|k: int| item < k < nodes.len() ==> (#[trigger] nodes[k]).kind@ != "item"@
        },
    ensures
        cycle_edits(buffer_text, ancestors, todo, done, timestamp_on_done, now) == if i
            < ancestors.len() && stars >= 0 && item >= 0 {
            headline_edits(
                buffer_text,
                ancestors[i],
                ancestors[i].children@[stars],
                ancestors[i].children@[item],
                todo,
                done,
                timestamp_on_done,
                now,
            )
        } else {
            Some(Seq::empty())
        },
{
    lemma_first_of_kind(ancestors, "headline"@, i);
    if i < ancestors.len() {
        lemma_last_of_kind(ancestors[i].children@, "stars"@, stars);
        lemma_last_of_kind(ancestors[i].children@, "item"@, item);
    }
}

/// A file in which a task was moved on ends its last line.
pub proof fn lemma_last_line_ends(
    content: Seq<char>,
    line_number: int,
    date: Date,
    repeater: RepeaterInfo,
    entry_type: AgendaEntryType,
    today: Date,
)
    ensures
        rescheduled(content, line_number, date, repeater, entry_type, today) matches Some(text)
            ==> text.len() > 0 && text.last() == '\n',
{
    reveal_strlit("\n");
}

/// The line that says when a task was closed reads as a closing time on that day.
pub proof fn lemma_closing_line_reads(now: DateTime)
    requires
        now.valid(),
        0 <= now.date.year <= 9999,
    ensures
        closed_line(now) == "CLOSED: ["@ + stamp(now) + "]"@,
        exists|after: Seq<char>| #[trigger]
            holds_closing(closed_line(now), Seq::empty(), now.date, after),
{
    let none = Seq::<char>::empty();
    let text = stamp(now);
    let n = iso_date(now.date).len() as int;
    let after = text.skip(n) + "]"@;
    assert(text.take(n) =~= iso_date(now.date));
    assert(closed_line(now) =~= none + "CLOSED: ["@ + iso_date(now.date) + after);
    assert(holds_closing(closed_line(now), none, now.date, after));
}

/// A task without a keyword does not change where there is no keyword to begin with.
pub proof fn lemma_no_keyword_to_begin_with(done: Seq<Seq<char>>, timestamp_on_done: bool)
    ensures
        next_state(None, Seq::empty(), done, timestamp_on_done) is None,
{
}

/// What goes when a task is opened again is the first closing line of its own section, and nothing
/// of the headlines after it: nothing goes where the section has no closing line, and what goes
/// holds one, has none before it, and ends with the section's last line at the latest.
pub proof fn lemma_closing_of_section(headline_ended: bool, after: Seq<char>)
    ensures
        !contains(section_of(after), "CLOSED:"@) ==> closing_range(headline_ended, after) is None,
        contains(section_of(after), "CLOSED:"@) ==> (closing_range(headline_ended, after) matches Some(
            (start, end),
        ) && {
            &&& 0 <= start <= end <= after.len()
            &&& end <= section_of(after).len() + 1
            &&& contains(after.subrange(start, end), "CLOSED:"@)
            &&& !contains(after.take(start), "CLOSED:"@)
        }),
{
    reveal_strlit("CLOSED:");
    reveal_strlit("\n");
    let word = "CLOSED:"@;
    let feed = "\n"@;
    assert(feed =~= seq!['\n']);
    let own = section_of(after);
    let n = own.len() as int;
    lemma_find(own, word);
    lemma_section_begins(after);
    if contains(own, word) {
        let at = find(own, word)->0;
        assert(own.subrange(at, at + 7) =~= word);
        assert(!begins_with_star(after));
        lemma_section(after);
        assert forall|j: int| at <= j < at + 7 implies after[j] != '\n' by {
            assert(own.subrange(at, at + 7)[j - at] == word[j - at]);
            assert(own[j] == after[j]);
        }
        if n < after.len() {
            lemma_star_line(after.skip(n), 0);
            assert(after.skip(n)[0] == after[n]);
        }
        lemma_line_bounds(after, at, n);
        let (start, end) = closing_range(headline_ended, after)->0;
        let part = after.subrange(start, end);
        assert(part.subrange(at - start, at - start + 7) =~= own.subrange(at, at + 7));
        assert(occurs_at(part, word, at - start));
        assert forall|j: int| !occurs_at(after.take(start), word, j) by {
            if occurs_at(after.take(start), word, j) {
                assert(own.subrange(j, j + 7) =~= after.take(start).subrange(j, j + 7));
                assert(occurs_at(own, word, j));
            }
        }
    }
}

/// The line around a place of a section, with no line feed within seven characters of it, begins at
/// or before that place and ends with the section at the latest.
proof fn lemma_line_bounds(after: Seq<char>, at: int, n: int)
    requires
        0 <= at,
        at + 7 <= n <= after.len(),
        n < after.len() ==> after[n] == '\n',
        forall|j: int| at <= j < at + 7 ==> after[j] != '\n',
    ensures
        rfind(after.take(at), "\n"@) matches Some(i) ==> 0 <= i < at,
        find(after.skip(at), "\n"@) matches Some(i) ==> 7 <= i && at + i <= n && at + i < after.len(),
        find(after.skip(at), "\n"@) is None ==> n == after.len(),
{
    reveal_strlit("\n");
    let feed = "\n"@;
    assert(feed =~= seq!['\n']);
    lemma_rfind(after.take(at), feed);
    if let Some(i) = rfind(after.take(at), feed) {
        lemma_occurs_char(after.take(at), '\n', i);
    }
    let rest = after.skip(at);
    lemma_find(rest, feed);
    if n < after.len() {
        lemma_occurs_char(rest, '\n', n - at);
        assert(rest[n - at] == after[n]);
    }
    if let Some(i) = find(rest, feed) {
        lemma_occurs_char(rest, '\n', i);
        assert(rest[i] == after[at + i]);
    }
}

} // verus!
