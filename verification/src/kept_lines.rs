//! What planning a task keeps of the text after its headline.
use crate::date_picker::Picked;
use crate::patterns::lacks;
use crate::planning::{
    lemma_planning_line_plain, lemma_section_begins, line_range, planning_line, reminder_text,
    section_of,
};
use crate::scheduling::{
    full_lines, lemma_line_range, lemma_reminder_lacks, lemma_section, lemma_star_line,
    planning_text, set_in,
};
use crate::text::{
    contains, find, index_of, lemma_find, lemma_occurs_char, lemma_rfind, lemma_split_at,
    lemma_split_one, occurs_at, split,
};
use vstd::prelude::*;
use vstd::string::*;

verus! {

/// The lines of a text that hold a keyword.
pub open spec fn lines_with(s: Seq<char>, keyword: Seq<char>) -> Seq<Seq<char>> {
    full_lines(s).filter(|line: Seq<char>| contains(line, keyword))
}

/// The lines of a text that hold something, but not a keyword.
pub open spec fn lines_without(s: Seq<char>, keyword: Seq<char>) -> Seq<Seq<char>> {
    full_lines(s).filter(|line: Seq<char>| !contains(line, keyword))
}

/// The lines that hold something above the first line with a keyword in a section, given the text
/// after the headline: none where there is no such line.
pub open spec fn lines_above(after: Seq<char>, keyword: Seq<char>) -> Seq<Seq<char>> {
    match line_range(section_of(after), keyword) {
        Some((start, _)) => full_lines(after.take(start)),
        None => Seq::empty(),
    }
}

/// The first line with a keyword in a section, if there is one, given the text after the headline.
pub open spec fn lines_replaced(after: Seq<char>, keyword: Seq<char>) -> Seq<Seq<char>> {
    match line_range(section_of(after), keyword) {
        Some((start, end)) => full_lines(after.subrange(start, end)),
        None => Seq::empty(),
    }
}

/// The lines that hold something below the first line with a keyword in a section, given the text
/// after the headline: all where there is no such line.
pub open spec fn lines_below(after: Seq<char>, keyword: Seq<char>) -> Seq<Seq<char>> {
    match line_range(section_of(after), keyword) {
        Some((_, end)) => full_lines(after.skip(end)),
        None => full_lines(after),
    }
}

/// Nothing passes where no element does.
proof fn lemma_filter_none(s: Seq<Seq<char>>, pred: spec_fn(Seq<char>) -> bool)
    requires
        forall|i: int| 0 <= i < s.len() ==> !pred(#[trigger] s[i]),
    ensures
        s.filter(pred) == Seq::<Seq<char>>::empty(),
    decreases s.len(),
{
    reveal(Seq::filter);
    if s.len() > 0 {
        lemma_filter_none(s.drop_last(), pred);
    }
}

/// Everything passes where each element does.
proof fn lemma_filter_each(s: Seq<Seq<char>>, pred: spec_fn(Seq<char>) -> bool)
    requires
        forall|i: int| 0 <= i < s.len() ==> pred(#[trigger] s[i]),
    ensures
        s.filter(pred) == s,
    decreases s.len(),
{
    reveal(Seq::filter);
    if s.len() > 0 {
        lemma_filter_each(s.drop_last(), pred);
        assert(s.drop_last().push(s.last()) == s);
    }
}

/// What passes is among the elements.
proof fn lemma_filter_keeps(
    s: Seq<Seq<char>>,
    pred: spec_fn(Seq<char>) -> bool,
    property: spec_fn(Seq<char>) -> bool,
)
    requires
        forall|i: int| 0 <= i < s.len() ==> property(#[trigger] s[i]),
    ensures
        forall|i: int| 0 <= i < s.filter(pred).len() ==> property(#[trigger] s.filter(pred)[i]),
    decreases s.len(),
{
    reveal(Seq::filter);
    if s.len() > 0 {
        let init = s.drop_last();
        lemma_filter_keeps(init, pred, property);
        assert(property(s[s.len() - 1]));
        assert forall|i: int| 0 <= i < s.filter(pred).len() implies property(
            #[trigger] s.filter(pred)[i],
        ) by {
            if i < init.filter(pred).len() {
                assert(s.filter(pred)[i] == init.filter(pred)[i]);
            }
        }
    }
}

/// What one element passes.
proof fn lemma_filter_single(x: Seq<char>, pred: spec_fn(Seq<char>) -> bool)
    ensures
        seq![x].filter(pred) == if pred(x) {
            seq![x]
        } else {
            Seq::<Seq<char>>::empty()
        },
{
    reveal_with_fuel(Seq::filter, 2);
    assert(seq![x].drop_last() == Seq::<Seq<char>>::empty());
    assert(Seq::<Seq<char>>::empty().push(x) == seq![x]);
}

/// A line of a text stands in it.
proof fn lemma_line_inside(s: Seq<char>, i: int) -> (at: int)
    requires
        0 <= i < split(s, '\n').len(),
    ensures
        0 <= at <= at + split(s, '\n')[i].len() <= s.len(),
        s.subrange(at, at + split(s, '\n')[i].len()) == split(s, '\n')[i],
    decreases s.len(),
{
    lemma_find(s, seq!['\n']);
    match index_of(s, '\n') {
        Some(k) => {
            lemma_occurs_char(s, '\n', k);
            if i == 0 {
                assert(s.subrange(0, k) == s.take(k));
                0
            } else {
                let t = s.skip(k + 1);
                let at = lemma_line_inside(t, i - 1);
                let piece = split(t, '\n')[i - 1];
                assert(split(s, '\n')[i] == piece);
                assert(s.subrange(k + 1 + at, k + 1 + at + piece.len()) == t.subrange(
                    at,
                    at + piece.len(),
                ));
                k + 1 + at
            }
        },
        None => {
            assert(s.subrange(0, s.len() as int) == s);
            0
        },
    }
}

/// No line of a text that lacks a keyword holds it.
proof fn lemma_no_line_holds(s: Seq<char>, keyword: Seq<char>)
    requires
        !contains(s, keyword),
    ensures
        forall|i: int|
            0 <= i < full_lines(s).len() ==> !contains(#[trigger] full_lines(s)[i], keyword),
{
    let unnamed = |line: Seq<char>| !contains(line, keyword);
    assert forall|i: int| 0 <= i < split(s, '\n').len() implies !contains(
        #[trigger] split(s, '\n')[i],
        keyword,
    ) by {
        let piece = split(s, '\n')[i];
        let at = lemma_line_inside(s, i);
        lemma_find(piece, keyword);
        lemma_find(s, keyword);
        if let Some(k) = find(piece, keyword) {
            assert(piece.subrange(k, k + keyword.len()) == s.subrange(
                at + k,
                at + k + keyword.len(),
            ));
            assert(occurs_at(s, keyword, at + k));
        }
    }    lemma_filter_keeps(split(s, '\n'), |line: Seq<char>| line.len() > 0, unnamed);
    assert forall|i: int| 0 <= i < full_lines(s).len() implies !contains(
        #[trigger] full_lines(s)[i],
        keyword,
    ) by {
        assert(unnamed(full_lines(s)[i]));
    }
}

/// The line on which a keyword first stands in a section, from where it begins to where its last
/// character stands before, holds the keyword, and no line before it does.
proof fn lemma_keyword_line(s: Seq<char>, keyword: Seq<char>) -> (stop: int)
    requires
        keyword.len() > 0,
        lacks(keyword, '\n'),
        line_range(s, keyword) is Some,
    ensures
        ({
            let (start, end) = line_range(s, keyword)->0;
            let first = s.take(start);
            let line = s.subrange(start, stop);
            &&& 0 <= start <= stop <= end <= s.len()
            &&& if stop < s.len() {
                end == stop + 1 && s[stop] == '\n'
            } else {
                end == stop
            }
            &&& lacks(line, '\n')
            &&& contains(line, keyword)
            &&& first.len() > 0 ==> first.last() == '\n'
            &&& forall|i: int|
                0 <= i < full_lines(first).len() ==> !contains(
                    #[trigger] full_lines(first)[i],
                    keyword,
                )
        }),
{
    reveal_strlit("\n");
    let feed = seq!['\n'];
    assert("\n"@ == feed);
    let (start, end) = line_range(s, keyword)->0;
    lemma_line_range(s, keyword);
    lemma_find(s, keyword);
    let at = find(s, keyword)->0;
    let tail = s.skip(at);
    lemma_find(tail, feed);
    let stop = match find(tail, feed) {
        Some(i) => at + i,
        None => s.len() as int,
    };
    if stop < s.len() {
        lemma_occurs_char(tail, '\n', stop - at);
        assert(s[stop] == '\n');
    }
    let first = s.take(start);
    let line = s.subrange(start, stop);
    assert forall|j: int| 0 <= j < keyword.len() implies s[at + j] == keyword[j] by {
        assert(s.subrange(at, at + keyword.len())[j] == s[at + j]);
    }
    assert forall|j: int| start <= j < at implies s[j] != '\n' by {
        lemma_rfind(s.take(at), feed);
        lemma_occurs_char(s.take(at), '\n', j);
        assert(s.take(at)[j] == s[j]);
    }
    assert forall|j: int| at <= j < stop implies s[j] != '\n' by {
        lemma_occurs_char(tail, '\n', j - at);
        assert(tail[j - at] == s[j]);
    }
    assert(stop >= at + keyword.len()) by {
        if stop < at + keyword.len() {
            assert(s[at + (stop - at)] == keyword[stop - at]);
        }
    }
    assert(line.subrange(at - start, at - start + keyword.len()) == keyword);
    assert(occurs_at(line, keyword, at - start));
    assert(lacks(line, '\n'));
    assert(!contains(first, keyword)) by {
        lemma_find(first, keyword);
        if let Some(k) = find(first, keyword) {
            assert(first.subrange(k, k + keyword.len()) == s.subrange(k, k + keyword.len()));
            assert(occurs_at(s, keyword, k));
        }
    }
    lemma_no_line_holds(first, keyword);
    stop
}

/// The lines that hold something of two texts with a line feed between them are those of each.
proof fn lemma_full_at(a: Seq<char>, b: Seq<char>)
    ensures
        full_lines(a + seq!['\n'] + b) == full_lines(a) + full_lines(b),
{
    lemma_split_at(a, b, '\n');
    Seq::filter_distributes_over_add(
        split(a, '\n'),
        split(b, '\n'),
        |line: Seq<char>| line.len() > 0,
    );
}

/// A text without a line feed is one line, if it holds something.
proof fn lemma_full_one(line: Seq<char>)
    requires
        lacks(line, '\n'),
    ensures
        full_lines(line) == if line.len() > 0 {
            seq![line]
        } else {
            Seq::<Seq<char>>::empty()
        },
{
    lemma_split_one(line, '\n');
    lemma_filter_single(line, |l: Seq<char>| l.len() > 0);
}

/// The lines that hold something of two texts that do not share a line are those of each.
proof fn lemma_full_join(a: Seq<char>, b: Seq<char>)
    requires
        a.len() == 0 || a.last() == '\n' || b.len() == 0 || b[0] == '\n',
    ensures
        full_lines(a + b) == full_lines(a) + full_lines(b),
{
    let feed = seq!['\n'];
    let none = Seq::<char>::empty();
    let empty = Seq::<Seq<char>>::empty();
    lemma_full_one(none);
    if a.len() == 0 {
        assert(a + b == b);
        assert(a == none);
        assert(empty + full_lines(b) == full_lines(b));
    } else if b.len() == 0 {
        assert(a + b == a);
        assert(b == none);
        assert(full_lines(a) + empty == full_lines(a));
    } else if a.last() == '\n' {
        let stem = a.drop_last();
        assert(a == stem + feed + none);
        assert(a + b == stem + feed + b);
        lemma_full_at(stem, none);
        lemma_full_at(stem, b);
        assert(full_lines(stem) + empty == full_lines(stem));
    } else {
        let rest = b.skip(1);
        assert(b == none + feed + rest);
        assert(a + b == a + feed + rest);
        lemma_full_at(none, rest);
        lemma_full_at(a, rest);
        assert(empty + full_lines(rest) == full_lines(rest));
    }
}

/// The text after a headline, and that text once the planning line was set over another.
proof fn lemma_set_over(after: Seq<char>, keyword: Seq<char>, text: Seq<char>)
    requires
        line_range(section_of(after), keyword) matches Some((start, end)) && 0 <= start <= end
            <= section_of(after).len(),
    ensures
        ({
            let (start, end) = line_range(section_of(after), keyword)->0;
            &&& end <= after.len()
            &&& after == after.take(start) + (after.subrange(start, end) + after.skip(end))
            &&& set_in(after, keyword, text) == after.take(start) + (text + seq!['\n']
                + after.skip(end))
            &&& after.take(start) == section_of(after).take(start)
        }),
{
    reveal_strlit("\n");
    assert("\n"@ == seq!['\n']);
    lemma_section_begins(after);
}

/// What follows a section that holds something begins with a line feed.
proof fn lemma_rest_begins(after: Seq<char>)
    requires
        section_of(after).len() > 0,
    ensures
        ({
            let rest = after.skip(section_of(after).len() as int);
            rest.len() > 0 ==> rest[0] == '\n'
        }),
{
    lemma_section(after);
    let rest = after.skip(section_of(after).len() as int);
    if rest.len() > 0 {
        lemma_star_line(rest, 0);
    }
}

/// Lines stay where the section has a line with the keyword.
#[verifier::spinoff_prover]
#[verifier::rlimit(40)]
proof fn lemma_lines_stay_around(after: Seq<char>, keyword: Seq<char>, text: Seq<char>)
    requires
        keyword.len() > 0,
        lacks(keyword, '\n'),
        line_range(section_of(after), keyword) is Some,
    ensures
        full_lines(after) == lines_above(after, keyword) + lines_replaced(after, keyword)
            + lines_below(after, keyword),
        full_lines(set_in(after, keyword, text)) == lines_above(after, keyword) + full_lines(text)
            + lines_below(after, keyword),
        forall|i: int|
            0 <= i < lines_above(after, keyword).len() ==> !contains(
                #[trigger] lines_above(after, keyword)[i],
                keyword,
            ),
        lines_replaced(after, keyword).len() == 1,
        contains(lines_replaced(after, keyword)[0], keyword),
{
    let feed = seq!['\n'];
    let none = Seq::<char>::empty();
    let s = section_of(after);
    let (start, end) = line_range(s, keyword)->0;
    let stop = lemma_keyword_line(s, keyword);
    let line = s.subrange(start, stop);
    lemma_set_over(after, keyword, text);
    lemma_section_begins(after);
    let first = after.take(start);
    let own = after.subrange(start, end);
    let rest = after.skip(end);
    assert(line.len() > 0) by {
        if line.len() == 0 {
            let i = choose|i: int| occurs_at(line, keyword, i);
        }
    }
    lemma_full_one(line);
    lemma_full_one(none);
    if stop < s.len() {
        assert(own == line + feed + none);
        lemma_full_at(line, none);
        assert(seq![line] + Seq::<Seq<char>>::empty() == seq![line]);
        assert(own.last() == '\n');
    } else {
        assert(own == line);
        lemma_rest_begins(after);
    }
    lemma_full_join(own, rest);
    lemma_full_join(first, own + rest);
    lemma_full_at(text, rest);
    lemma_full_join(first, text + feed + rest);
    let above = full_lines(first);
    let below = full_lines(rest);
    assert(above + (full_lines(own) + below) == above + full_lines(own) + below);
    assert(above + (full_lines(text) + below) == above + full_lines(text) + below);
}

/// Setting a planning line puts the lines of its text where the first line with the keyword stood
/// in the section, or else above all others, and every other line that holds something stays as it
/// is, in its order.
pub proof fn lemma_lines_stay(after: Seq<char>, keyword: Seq<char>, text: Seq<char>)
    requires
        keyword.len() > 0,
        lacks(keyword, '\n'),
    ensures
        full_lines(after) == lines_above(after, keyword) + lines_replaced(after, keyword)
            + lines_below(after, keyword),
        full_lines(set_in(after, keyword, text)) == lines_above(after, keyword) + full_lines(text)
            + lines_below(after, keyword),
        forall|i: int|
            0 <= i < lines_above(after, keyword).len() ==> !contains(
                #[trigger] lines_above(after, keyword)[i],
                keyword,
            ),
        match line_range(section_of(after), keyword) {
            Some(_) => lines_replaced(after, keyword).len() == 1 && contains(
                lines_replaced(after, keyword)[0],
                keyword,
            ),
            None => lines_replaced(after, keyword).len() == 0,
        },
{
    if line_range(section_of(after), keyword) is Some {
        lemma_lines_stay_around(after, keyword, text);
    } else {
        reveal_strlit("\n");
        let feed = seq!['\n'];
        assert("\n"@ == feed);
        let none = Seq::<char>::empty();
        let empty = Seq::<Seq<char>>::empty();
        let s = section_of(after);
        lemma_section_begins(after);
        assert(after == s + after.skip(s.len() as int));
        assert(set_in(after, keyword, text) == none + feed + (text + feed + after));
        lemma_full_one(none);
        lemma_full_at(none, text + feed + after);
        lemma_full_at(text, after);
        assert(empty + empty + full_lines(after) == full_lines(after));
        assert(empty + (full_lines(text) + full_lines(after)) == empty + full_lines(text)
            + full_lines(after));
    }
}

/// Lists of lines in which some lines are put for one with a keyword or for none.
proof fn lemma_lines_put(
    above: Seq<Seq<char>>,
    gone: Seq<Seq<char>>,
    line: Seq<char>,
    more: Seq<Seq<char>>,
    below: Seq<Seq<char>>,
    keyword: Seq<char>,
)
    requires
        forall|i: int| 0 <= i < above.len() ==> !contains(#[trigger] above[i], keyword),
        forall|i: int| 0 <= i < gone.len() ==> contains(#[trigger] gone[i], keyword),
        contains(line, keyword),
        forall|i: int| 0 <= i < more.len() ==> !contains(#[trigger] more[i], keyword),
    ensures
        ({
            let with = |l: Seq<char>| contains(l, keyword);
            let without = |l: Seq<char>| !contains(l, keyword);
            let old_lines = above + gone + below;
            let new_lines = above + (seq![line] + more) + below;
            &&& old_lines.filter(with) == gone + below.filter(with)
            &&& new_lines.filter(with) == seq![line] + below.filter(with)
            &&& old_lines.filter(without) == above + below.filter(without)
            &&& new_lines.filter(without) == above + more + below.filter(without)
        }),
{
    let empty = Seq::<Seq<char>>::empty();
    let with = |l: Seq<char>| contains(l, keyword);
    let without = |l: Seq<char>| !contains(l, keyword);
    lemma_filter_none(above, with);
    lemma_filter_each(above, without);
    lemma_filter_each(gone, with);
    lemma_filter_none(gone, without);
    lemma_filter_single(line, with);
    lemma_filter_single(line, without);
    lemma_filter_none(more, with);
    lemma_filter_each(more, without);
    let new = seq![line] + more;
    Seq::filter_distributes_over_add(seq![line], more, with);
    Seq::filter_distributes_over_add(seq![line], more, without);
    assert(seq![line] + empty == seq![line]);
    assert(empty + more == more);
    Seq::filter_distributes_over_add(above, gone, with);
    Seq::filter_distributes_over_add(above, gone, without);
    Seq::filter_distributes_over_add(above, new, with);
    Seq::filter_distributes_over_add(above, new, without);
    assert(empty + gone == gone);
    assert(empty + seq![line] == seq![line]);
    assert(above + empty == above);
    Seq::filter_distributes_over_add(above + gone, below, with);
    Seq::filter_distributes_over_add(above + gone, below, without);
    Seq::filter_distributes_over_add(above + new, below, with);
    Seq::filter_distributes_over_add(above + new, below, without);
}

/// The line with a reminder.
pub open spec fn reminder_line(seconds: nat) -> Seq<char> {
    "REMIND: "@ + reminder_text(seconds)
}

/// The lines of what sets a planning line: the planning line, and below it the reminder, if there is
/// one.
pub open spec fn planning_lines(keyword: Seq<char>, picked: Picked) -> Seq<Seq<char>> {
    seq![planning_line(keyword, picked.0, picked.2)] + reminder_lines(picked)
}

/// The line with the reminder, if there is one.
pub open spec fn reminder_lines(picked: Picked) -> Seq<Seq<char>> {
    match picked.1 {
        Some(seconds) => seq![reminder_line(seconds as nat)],
        None => Seq::empty(),
    }
}

/// What sets a planning line is made of its lines. The first holds the keyword, and the reminder does
/// not.
proof fn lemma_planning_lines(keyword: Seq<char>, picked: Picked)
    requires
        keyword == "SCHEDULED:"@ || keyword == "DEADLINE:"@,
    ensures
        full_lines(planning_text(keyword, picked)) == planning_lines(keyword, picked),
        contains(planning_line(keyword, picked.0, picked.2), keyword),
        picked.1 matches Some(seconds) ==> !contains(reminder_line(seconds as nat), keyword),
        keyword.len() > 0,
        lacks(keyword, '\n'),
{
    reveal_strlit("SCHEDULED:");
    reveal_strlit("DEADLINE:");
    reveal_strlit("\nREMIND: ");
    reveal_strlit("REMIND: ");
    let feed = seq!['\n'];
    let line = planning_line(keyword, picked.0, picked.2);
    lemma_planning_line_plain(keyword, picked.0, picked.2);
    assert(line.subrange(0, keyword.len() as int) == keyword);
    assert(occurs_at(line, keyword, 0));
    lemma_full_one(line);
    match picked.1 {
        Some(seconds) => {
            let text = reminder_text(seconds as nat);
            let reminder = reminder_line(seconds as nat);
            lemma_reminder_lacks(seconds as nat, '\n');
            lemma_reminder_lacks(seconds as nat, ':');
            assert forall|i: int| 0 <= i < reminder.len() implies reminder[i] != '\n' by {
                if i >= 8 {
                    assert(reminder[i] == text[i - 8]);
                }
            }
            lemma_full_one(reminder);
            assert("\nREMIND: "@ == feed + "REMIND: "@);
            assert(planning_text(keyword, picked) == line + feed + reminder);
            lemma_full_at(line, reminder);
            assert(!contains(reminder, keyword)) by {
                if contains(reminder, keyword) {
                    let i = choose|i: int| occurs_at(reminder, keyword, i);
                    let last = i + keyword.len() - 1;
                    assert(reminder.subrange(i, i + keyword.len())[keyword.len() - 1]
                        == reminder[last]);
                    assert(reminder[last] == ':');
                    if last >= 8 {
                        assert(reminder[last] == text[last - 8]);
                    }
                }
            }
        },
        None => {
            assert(seq![line] + Seq::<Seq<char>>::empty() == seq![line]);
        },
    }
}

/// What is put for some lines, as a change to the lists of those with and without a keyword.
proof fn lemma_lines_listed(
    above: Seq<Seq<char>>,
    gone: Seq<Seq<char>>,
    line: Seq<char>,
    more: Seq<Seq<char>>,
    named: Seq<Seq<char>>,
    unnamed: Seq<Seq<char>>,
)
    requires
        gone.len() <= 1,
        more.len() <= 1,
    ensures
        (above + unnamed).take(above.len() as int) == above,
        above + more + unnamed == if more.len() == 1 {
            (above + unnamed).insert(above.len() as int, more[0])
        } else {
            above + unnamed
        },
        seq![line] + named == if gone.len() == 1 {
            seq![line] + (gone + named).skip(1)
        } else {
            seq![line] + (gone + named)
        },
{
    if gone.len() == 1 {
        assert((gone + named).skip(1) == named);
    } else {
        assert(gone + named == named);
    }
}

/// Lines are kept: every line of the text after a headline that holds something but not the keyword
/// stays as it is when the task is scheduled or given a deadline, in its order; the line of a
/// reminder comes in right below the planning line. Of the lines with the keyword the planning line
/// replaces the first, if the section has one, and else comes above all others.
pub proof fn lemma_other_lines_stay(after: Seq<char>, keyword: Seq<char>, picked: Picked)
    requires
        keyword == "SCHEDULED:"@ || keyword == "DEADLINE:"@,
    ensures
        ({
            let new = set_in(after, keyword, planning_text(keyword, picked));
            let line = planning_line(keyword, picked.0, picked.2);
            let above = lines_above(after, keyword);
            let old_lines = lines_without(after, keyword);
            &&& full_lines(new) == above + planning_lines(keyword, picked) + lines_below(
                after,
                keyword,
            )
            &&& above.len() <= old_lines.len() && old_lines.take(above.len() as int) == above
            &&& lines_without(new, keyword) == match picked.1 {
                Some(seconds) => old_lines.insert(above.len() as int, reminder_line(seconds as nat)),
                None => old_lines,
            }
            &&& match line_range(section_of(after), keyword) {
                Some(_) => lines_with(after, keyword).len() > 0 && lines_with(new, keyword)
                    == seq![line] + lines_with(after, keyword).skip(1),
                None => lines_with(new, keyword) == seq![line] + lines_with(after, keyword),
            }
        }),
{
    let text = planning_text(keyword, picked);
    let line = planning_line(keyword, picked.0, picked.2);
    let above = lines_above(after, keyword);
    let gone = lines_replaced(after, keyword);
    let below = lines_below(after, keyword);
    let more = reminder_lines(picked);
    lemma_planning_lines(keyword, picked);
    lemma_lines_stay(after, keyword, text);
    lemma_lines_put(above, gone, line, more, below, keyword);
    lemma_lines_listed(
        above,
        gone,
        line,
        more,
        below.filter(|l: Seq<char>| contains(l, keyword)),
        below.filter(|l: Seq<char>| !contains(l, keyword)),
    );
}

} // verus!
