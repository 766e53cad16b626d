//! What a headline says, and what the entries below it have from it.
use crate::agenda::{
    after_line, all_tag_chars, between_colons, colon_tags, ends_with_tags, entry_reminder,
    file_items, headline_of, is_headline, is_tag_char, is_tag_name, is_tag_name_char, items_from,
    lemma_ends_with_tags, line_items, nothing_known, reminder_ahead, split_keyword, split_tags,
    tag_run, HeadlineView, ItemView,
};
use crate::patterns::{first_match, is_task_keyword, task_keyword, REMIND_PATTERN};
use crate::planning::{reminder_of, AgendaEntryType};
use crate::tagging::{lemma_trim_front, lemma_trimmed};
use crate::text::{
    contains, is_space, lemma_rfind, lemma_word_len, lines, occurs_at, rfind, trim, trim_end,
    trim_start, word_len, CharClass,
};
use vstd::prelude::*;
use vstd::string::*;

verus! {

/// One of the words that say how far a task is.
pub open spec fn is_state_word(word: Seq<char>) -> bool {
    ||| word == "TODO"@
    ||| word == "DOING"@
    ||| word == "NEXT"@
    ||| word == "STARTED"@
    ||| word == "WAITING"@
    ||| word == "DEFERRED"@
    ||| word == "DONE"@
    ||| word == "CANCELLED"@
    ||| word == "CANCELED"@
}

/// A headline without its tags: stars, a space, a keyword and a space if there is one, and a text.
pub open spec fn untagged(stars: nat, keyword: Option<Seq<char>>, text: Seq<char>) -> Seq<char> {
    Seq::new(stars, |i: int| '*') + " "@ + (match keyword {
        Some(word) => word + " "@ + text,
        None => text,
    })
}

/// The line is a headline: stars, perhaps a keyword, a text that is neither made of white space at
/// its ends nor begins with a star, and perhaps a run of tags. Without a keyword the text does not
/// begin with one, and without tags it holds nothing that looks like their beginning.
pub open spec fn is_written(
    line: Seq<char>,
    stars: nat,
    keyword: Option<Seq<char>>,
    text: Seq<char>,
    tags: Seq<Seq<char>>,
) -> bool {
    &&& stars > 0
    &&& text.len() > 0 && text[0] != '*' && !is_space(text[0]) && !is_space(text.last())
    &&& match keyword {
        Some(word) => is_state_word(word),
        None => forall|word: Seq<char>, rest: Seq<char>|
            #![trigger word + rest]
            text == word + rest && rest.len() > 0 && is_space(rest[0]) ==> !is_state_word(word),
    }
    &&& if tags.len() == 0 {
        line == untagged(stars, keyword, text) && !contains(line, " :"@)
    } else {
        &&& line == untagged(stars, keyword, text) + " "@ + tag_run(tags)
        &&& forall|i: int| 0 <= i < tags.len() ==> is_tag_name(#[trigger] tags[i])
    }
}

/// What a headline that is written so says: its text, its tags and its keyword, and nothing of a
/// reminder.
pub open spec fn reads_headline(line: Seq<char>) -> bool {
    forall|stars: nat, keyword: Option<Seq<char>>, text: Seq<char>, tags: Seq<Seq<char>>|
        #[trigger] is_written(line, stars, keyword, text, tags) ==> says(
            line,
            keyword,
            text,
            tags,
        )
}

/// The line is a headline with a text, tags and a keyword.
pub open spec fn says(
    line: Seq<char>,
    keyword: Option<Seq<char>>,
    text: Seq<char>,
    tags: Seq<Seq<char>>,
) -> bool {
    let said = headline_of(line);
    &&& is_headline(line)
    &&& said.headline == text
    &&& said.tags == tags
    &&& said.todo_keyword == keyword
    &&& said.reminder_duration is None
}

proof fn lemma_trim_stars(stars: nat, rest: Seq<char>)
    requires
        rest.len() > 0,
        rest[0] != '*',
    ensures
        trim_start(Seq::new(stars, |i: int| '*') + rest, CharClass::Star) == rest,
    decreases stars,
{
    let s = Seq::new(stars, |i: int| '*') + rest;
    if stars == 0 {
        assert(s == rest);
    } else {
        let fewer = (stars - 1) as nat;
        assert(s.skip(1) == Seq::new(fewer, |i: int| '*') + rest);
        lemma_trim_stars(fewer, rest);
    }
}

proof fn lemma_word_ends(s: Seq<char>, n: int)
    requires
        0 <= n <= s.len(),
        forall|j: int| 0 <= j < n ==> !is_space(#[trigger] s[j]),
        n < s.len() ==> is_space(s[n]),
    ensures
        word_len(s) == n,
    decreases n,
{
    if n > 0 {
        assert(!is_space(s[0]));
        let t = s.skip(1);
        assert forall|j: int| 0 <= j < n - 1 implies !is_space(#[trigger] t[j]) by {
            assert(t[j] == s[j + 1]);
        }
        lemma_word_ends(t, n - 1);
    }
}

proof fn lemma_state_words(word: Seq<char>)
    requires
        is_state_word(word),
    ensures
        is_task_keyword(word),
        word.len() > 0,
        forall|j: int| 0 <= j < word.len() ==> !is_space(#[trigger] word[j]) && word[j] != '*',
{
    reveal_strlit("TODO");
    reveal_strlit("DOING");
    reveal_strlit("NEXT");
    reveal_strlit("STARTED");
    reveal_strlit("WAITING");
    reveal_strlit("DEFERRED");
    reveal_strlit("DONE");
    reveal_strlit("CANCELLED");
    reveal_strlit("CANCELED");
}

proof fn lemma_trim_none(s: Seq<char>)
    requires
        s.len() > 0,
        !is_space(s[0]),
        !is_space(s.last()),
    ensures
        trim(s, CharClass::Space) == s,
        trim_start(s, CharClass::Space) == s,
        trim_end(s, CharClass::Space) == s,
{
}

proof fn lemma_trim_one_space(s: Seq<char>)
    requires
        s.len() > 0,
        !is_space(s[0]),
    ensures
        trim_start(" "@ + s, CharClass::Space) == s,
{
    reveal_strlit(" ");
    assert((" "@ + s).skip(1) == s);
    assert(trim_start(s, CharClass::Space) == s);
}

proof fn lemma_keyword_read(
    line: Seq<char>,
    stars: nat,
    keyword: Option<Seq<char>>,
    text: Seq<char>,
    tags: Seq<Seq<char>>,
)
    requires
        is_written(line, stars, keyword, text, tags),
    ensures
        ({
            let (rest, found) = split_keyword(untagged(stars, keyword, text));
            &&& found == keyword
            &&& trim(trim_start(rest, CharClass::Star), CharClass::Space) == text
        }),
{
    reveal_strlit(" ");
    let body = match keyword {
        Some(word) => word + " "@ + text,
        None => text,
    };
    let s = untagged(stars, keyword, text);
    if keyword is Some {
        lemma_state_words(keyword->0);
        assert(body[0] == (keyword->0)[0]);
    }
    assert(s == Seq::new(stars, |i: int| '*') + (" "@ + body));
    lemma_trim_stars(stars, " "@ + body);
    lemma_trim_one_space(body);
    assert(trim_start(s, CharClass::Star) == " "@ + body);
    assert(trim_start(" "@ + body, CharClass::Space) == body);
    lemma_trim_none(text);
    match keyword {
        Some(word) => {
            assert forall|j: int| 0 <= j < word.len() implies !is_space(#[trigger] body[j]) by {
                assert(body[j] == word[j]);
            }
            assert(body[word.len() as int] == ' ');
            lemma_word_ends(body, word.len() as int);
            assert(body.take(word.len() as int) == word);
            assert(body.skip(word.len() as int) == " "@ + text);
            lemma_trim_one_space(text);
            assert(task_keyword(s) == Some((word, text)));
            assert(trim_start(text, CharClass::Star) == text);
        },
        None => {
            lemma_word_len(text);
            let n = word_len(text);
            let word = text.take(n);
            let rest = text.skip(n);
            assert(text == word + rest);
            if rest.len() > 0 && is_space(rest[0]) {
                assert(!is_state_word(word));
            } else {
                assert(trim_start(rest, CharClass::Space) == rest);
            }
            assert(task_keyword(s) is None);
            lemma_trim_one_space(text);
        },
    }
}

/// A headline that is written so is read, once its tags are.
pub(crate) proof fn lemma_headline_read(
    line: Seq<char>,
    stars: nat,
    keyword: Option<Seq<char>>,
    text: Seq<char>,
    tags: Seq<Seq<char>>,
)
    requires
        is_written(line, stars, keyword, text, tags),
    ensures
        ({
            let s = untagged(stars, keyword, text);
            &&& is_headline(line)
            &&& trim(line, CharClass::Space) == line
            &&& trim_end(s, CharClass::Space) == s
            &&& tags.len() > 0 ==> ends_with_tags(line, s, tags)
            &&& tags.len() == 0 ==> split_tags(line) == (s, tags)
            &&& split_tags(line) == (s, tags) ==> says(line, keyword, text, tags)
        }),
{
    reveal_strlit(" ");
    reveal_strlit(" :");
    let s = untagged(stars, keyword, text);
    lemma_keyword_read(line, stars, keyword, text, tags);
    assert(s[0] == '*');
    assert(s.last() == text.last()) by {
        if keyword is Some {
            lemma_state_words(keyword->0);
        }
    }
    lemma_trim_none(s);
    assert(line[0] == s[0]);
    assert(trim_start(line, CharClass::Space) == line);
    if tags.len() == 0 {
        lemma_rfind(s, " :"@);
        assert(tags == Seq::<Seq<char>>::empty());
    } else {
        assert(ends_with_tags(line, s, tags));
        assert(tag_run(tags).last() == ':');
        assert(line.last() == ':');
        lemma_trim_none(line);
    }
}

/// A headline says what is written in it: its text, without the stars, the keyword and the tags;
/// its keyword; and its tags, each of them and in their order. For tags, ASCII letters and digits
/// have to count as alphanumeric.
pub proof fn lemma_headline_says(
    line: Seq<char>,
    stars: nat,
    keyword: Option<Seq<char>>,
    text: Seq<char>,
    tags: Seq<Seq<char>>,
)
    requires
        is_written(line, stars, keyword, text, tags),
    ensures
        tags.len() == 0 || (forall|c: char| is_tag_name_char(c) ==> #[trigger] is_tag_char(c))
            ==> says(line, keyword, text, tags),
{
    let s = untagged(stars, keyword, text);
    lemma_headline_read(line, stars, keyword, text, tags);
    if tags.len() > 0 {
        lemma_ends_with_tags(line, s, tags);
        if forall|c: char| is_tag_name_char(c) ==> #[trigger] is_tag_char(c) {
            let end = line.skip(s.len() as int);
            assert forall|i: int| 0 <= i < end.len() implies is_tag_char(#[trigger] end[i]) by {
                assert(end[i] == ':' || end[i] == ' ' || is_tag_name_char(end[i]));
            }
        }
    }
}

/// A line that is no headline is not written as one.
pub(crate) proof fn lemma_reads_no_headline(line: Seq<char>)
    ensures
        !is_headline(line) ==> reads_headline(line),
{
    assert forall|stars: nat, keyword: Option<Seq<char>>, text: Seq<char>, tags: Seq<Seq<char>>|
        #[trigger] is_written(line, stars, keyword, text, tags) implies is_headline(line) by {
        lemma_headline_read(line, stars, keyword, text, tags);
    }
}

/// The line stands under a headline: none begins between the two.
pub open spec fn is_under(all: Seq<Seq<char>>, line: int, headline: int) -> bool {
    &&& 0 <= headline <= line < all.len()
    &&& is_headline(all[headline])
    &&& forall|k: int| headline < k <= line ==> !is_headline(#[trigger] all[k])
}

/// The line stands under no headline.
pub open spec fn is_above_headlines(all: Seq<Seq<char>>, line: int) -> bool {
    forall|k: int| 0 <= k <= line ==> !is_headline(#[trigger] all[k])
}

/// An entry has what the headline says under which its line stands: the text, the tags and the
/// keyword; or nothing where it stands under none.
pub open spec fn has_headline(item: ItemView, all: Seq<Seq<char>>, line: int) -> bool {
    &&& forall|headline: int| #[trigger]
        is_under(all, line, headline) ==> {
            let said = headline_of(all[headline]);
            &&& item.headline == said.headline
            &&& item.tags == said.tags
            &&& item.todo_keyword == said.todo_keyword
        }
    &&& is_above_headlines(all, line) ==> {
        &&& item.headline.len() == 0
        &&& item.tags.len() == 0
        &&& item.todo_keyword is None
    }
}

/// What is written in the headline under which the line of an entry stands is what the entry has.
pub open spec fn has_written_headline(item: ItemView, all: Seq<Seq<char>>, line: int) -> bool {
    forall|
        headline: int,
        stars: nat,
        keyword: Option<Seq<char>>,
        text: Seq<char>,
        tags: Seq<Seq<char>>,
    |
        #![trigger is_written(all[headline], stars, keyword, text, tags)]
        is_under(all, line, headline) && is_written(all[headline], stars, keyword, text, tags) ==> {
            &&& item.headline == text
            &&& item.tags == tags
            &&& item.todo_keyword == keyword
        }
}

/// The reminder that a line holds, if it holds one.
pub open spec fn reminder_on(all: Seq<Seq<char>>, line: int) -> Option<nat> {
    reminder_of(first_match(REMIND_PATTERN@, all[line]))
}

/// A line holds a reminder that holds for another line: it stands above that, or is that line, with
/// no headline after it and no other reminder up to that line.
pub open spec fn is_reminded_from(all: Seq<Seq<char>>, line: int, from: int) -> bool {
    &&& 0 <= from <= line < all.len()
    &&& reminder_on(all, from) is Some
    &&& forall|k: int|
        from < k <= line ==> !is_headline(#[trigger] all[k]) && reminder_on(all, k) is None
}

/// A line holds the first reminder on the four lines after another one, with no headline before it.
pub open spec fn is_reminded_below(all: Seq<Seq<char>>, line: int, at: int) -> bool {
    &&& line < at <= line + 4 && at < all.len()
    &&& reminder_on(all, at) is Some
    &&& forall|k: int| line < k <= at ==> !is_headline(#[trigger] all[k])
    &&& forall|k: int| line < k < at ==> #[trigger] reminder_on(all, k) is None
}

/// An entry has the reminder on the lines after it, or else the last one under its headline up to
/// its line, or else none. A closed entry does not look at the lines after it.
pub open spec fn has_reminder_of(item: ItemView, all: Seq<Seq<char>>, line: int) -> bool {
    &&& forall|at: int| #[trigger]
        is_reminded_below(all, line, at) && item.entry_type != AgendaEntryType::Closed
            ==> item.reminder_duration == reminder_on(all, at)
    &&& item.entry_type == AgendaEntryType::Closed || (forall|at: int| !#[trigger]
        is_reminded_below(all, line, at)) ==> {
        &&& forall|from: int| #[trigger]
            is_reminded_from(all, line, from) ==> item.reminder_duration == reminder_on(all, from)
        &&& (forall|from: int| !#[trigger] is_reminded_from(all, line, from))
            ==> item.reminder_duration is None
    }
}

/// What is known on a line is what its headline says, and the last reminder under that.
spec fn is_known(known: HeadlineView, all: Seq<Seq<char>>, line: int) -> bool {
    &&& forall|headline: int| #[trigger]
        is_under(all, line, headline) ==> {
            let said = headline_of(all[headline]);
            &&& known.headline == said.headline
            &&& known.tags == said.tags
            &&& known.todo_keyword == said.todo_keyword
        }
    &&& is_above_headlines(all, line) ==> {
        &&& known.headline.len() == 0
        &&& known.tags.len() == 0
        &&& known.todo_keyword is None
    }
    &&& forall|from: int| #[trigger]
        is_reminded_from(all, line, from) ==> known.reminder_duration == reminder_on(all, from)
    &&& (forall|from: int| !#[trigger] is_reminded_from(all, line, from))
        ==> known.reminder_duration is None
}

proof fn lemma_known_next(known: HeadlineView, all: Seq<Seq<char>>, line: int)
    requires
        0 <= line < all.len(),
        line > 0 ==> is_known(known, all, line - 1),
        line == 0 ==> known == nothing_known(),
    ensures
        is_known(after_line(known, all[line]), all, line),
{
    let after = after_line(known, all[line]);
    assert forall|headline: int| #[trigger] is_under(all, line, headline) implies ({
        let said = headline_of(all[headline]);
        &&& after.headline == said.headline
        &&& after.tags == said.tags
        &&& after.todo_keyword == said.todo_keyword
    }) by {
        if headline < line {
            assert(!is_headline(all[line]));
            assert(is_under(all, line - 1, headline));
        }
    }
    if is_above_headlines(all, line) {
        assert(!is_headline(all[line]));
        if line > 0 {
            assert(is_above_headlines(all, line - 1));
        }
    }
    assert forall|from: int| #[trigger] is_reminded_from(all, line, from) implies
        after.reminder_duration == reminder_on(all, from) by {
        if from < line {
            assert(!is_headline(all[line]) && reminder_on(all, line) is None);
            assert(is_reminded_from(all, line - 1, from));
        }
    }
    if forall|from: int| !#[trigger] is_reminded_from(all, line, from) {
        assert(!is_reminded_from(all, line, line));
        if !is_headline(all[line]) && line > 0 {
            assert forall|from: int| !#[trigger] is_reminded_from(all, line - 1, from) by {
                assert(!is_reminded_from(all, line, from));
            }
        }
    }
}

proof fn lemma_ahead(all: Seq<Seq<char>>, line: int, from: int)
    requires
        0 <= line < from <= line + 5,
        forall|k: int|
            line < k < from && k < all.len() ==> !is_headline(#[trigger] all[k]) && reminder_on(all, k) is None,
    ensures
        forall|at: int| #[trigger]
            is_reminded_below(all, line, at) ==> reminder_ahead(all, from, line + 5)
                == reminder_on(all, at),
        reminder_ahead(all, from, line + 5) is Some ==> exists|at: int| #[trigger]
            is_reminded_below(all, line, at),
    decreases line + 5 - from,
{
    if from < line + 5 && from < all.len() && !is_headline(all[from]) {
        if reminder_on(all, from) is Some {
            assert(is_reminded_below(all, line, from));
            assert forall|at: int| #[trigger] is_reminded_below(all, line, at) implies at == from by {
                if at < from {
                    assert(reminder_on(all, at) is None);
                    assert(!is_headline(all[at]));
                } else if at > from {
                    assert(reminder_on(all, from) is None);
                }
            }
        } else {
            lemma_ahead(all, line, from + 1);
        }
    } else {
        assert forall|at: int| #[trigger] is_reminded_below(all, line, at) implies false by {
            if at < from {
                assert(!is_headline(all[at]));
            } else {
                assert(!is_headline(all[from]));
            }
        }
    }
}

/// An entry is one of a line: it stands in the file, on the line, and has what the headline above
/// it says, and its reminder.
pub open spec fn is_of_line(item: ItemView, path: Seq<char>, all: Seq<Seq<char>>, line: int) -> bool {
    &&& 0 <= line < all.len()
    &&& item.file_path == path
    &&& item.line_number == line as u32
    &&& has_headline(item, all, line)
    &&& has_reminder_of(item, all, line)
}

proof fn lemma_line_items_known(
    path: Seq<char>,
    known: HeadlineView,
    all: Seq<Seq<char>>,
    line: int,
    k: int,
)
    requires
        0 <= line < all.len(),
        is_known(known, all, line),
        0 <= k < line_items(path, known, all, line).len(),
    ensures
        is_of_line(line_items(path, known, all, line)[k], path, all, line),
{
    lemma_ahead(all, line, line + 1);
    let item = line_items(path, known, all, line)[k];
    assert(item.headline == known.headline);
    assert(item.tags == known.tags);
    assert(item.todo_keyword == known.todo_keyword);
    assert(item.entry_type == AgendaEntryType::Closed ==> item.reminder_duration
        == known.reminder_duration);
    assert(item.entry_type != AgendaEntryType::Closed ==> item.reminder_duration == entry_reminder(
        known.reminder_duration,
        all,
        line,
    ));
}

proof fn lemma_items_known(
    path: Seq<char>,
    known: HeadlineView,
    all: Seq<Seq<char>>,
    from: int,
    k: int,
)
    requires
        0 <= from <= all.len(),
        from > 0 ==> is_known(known, all, from - 1),
        from == 0 ==> known == nothing_known(),
        0 <= k < items_from(path, known, all, from).len(),
    ensures
        exists|line: int| #[trigger]
            is_of_line(items_from(path, known, all, from)[k], path, all, line),
    decreases all.len() - from,
{
    let current = after_line(known, all[from]);
    let own = line_items(path, current, all, from);
    let rest = items_from(path, current, all, from + 1);
    let items = items_from(path, known, all, from);
    assert(items == own + rest);
    lemma_known_next(known, all, from);
    if k < own.len() {
        lemma_line_items_known(path, current, all, from, k);
        assert(items[k] == own[k]);
    } else {
        lemma_items_known(path, current, all, from + 1, k - own.len());
        assert(items[k] == rest[k - own.len()]);
    }
}

/// Every entry of a file, of whatever kind, stands in that file, on a line of it, and has what the
/// headline says under which that line stands: its text, its tags and its keyword. Its reminder is
/// the first on the four lines after it, unless it is closed, or else the last one under its
/// headline.
pub proof fn lemma_entries_have_headlines(path: Seq<char>, content: Seq<char>, k: int)
    requires
        0 <= k < file_items(path, content).len(),
    ensures
        exists|line: int| #[trigger]
            is_of_line(file_items(path, content)[k], path, lines(content), line),
{
    lemma_items_known(path, nothing_known(), lines(content), 0, k);
}

/// Two entries under the same headline of a file have the same text, tags and keyword, whatever
/// their kinds.
pub proof fn lemma_same_headline(
    a: ItemView,
    b: ItemView,
    path: Seq<char>,
    all: Seq<Seq<char>>,
    one: int,
    other: int,
    headline: int,
)
    requires
        is_of_line(a, path, all, one),
        is_of_line(b, path, all, other),
        is_under(all, one, headline),
        is_under(all, other, headline),
    ensures
        a.headline == b.headline,
        a.tags == b.tags,
        a.todo_keyword == b.todo_keyword,
{
}

/// Every entry stands in the file, on a line of it, with its reminder and with the text, the tags
/// and the keyword that are written in the headline above it.
pub open spec fn have_headlines(items: Seq<ItemView>, path: Seq<char>, all: Seq<Seq<char>>) -> bool {
    forall|k: int| 0 <= k < items.len() ==> is_of_some_line(#[trigger] items[k], path, all)
}

/// The entry stands in the file, on a line of it, with its reminder and with what is written in the
/// headline above it.
pub open spec fn is_of_some_line(item: ItemView, path: Seq<char>, all: Seq<Seq<char>>) -> bool {
    exists|line: int| #[trigger]
        is_of_line(item, path, all, line) && has_written_headline(item, all, line)
}

/// The entries of a file whose headlines are read have what is written in these.
pub(crate) proof fn lemma_file_headlines(path: Seq<char>, content: Seq<char>)
    requires
        forall|i: int| 0 <= i < lines(content).len() ==> reads_headline(#[trigger] lines(content)[i]),
    ensures
        have_headlines(file_items(path, content), path, lines(content)),
{
    let items = file_items(path, content);
    let all = lines(content);
    assert forall|k: int| 0 <= k < items.len() implies is_of_some_line(
        #[trigger] items[k],
        path,
        all,
    ) by {
        lemma_entries_have_headlines(path, content, k);
        let line = choose|line: int| is_of_line(items[k], path, all, line);
        assert forall|
            headline: int,
            stars: nat,
            keyword: Option<Seq<char>>,
            text: Seq<char>,
            tags: Seq<Seq<char>>,
        |
            #![trigger is_written(all[headline], stars, keyword, text, tags)]
            is_under(all, line, headline) && is_written(
                all[headline],
                stars,
                keyword,
                text,
                tags,
            ) implies {
            &&& items[k].headline == text
            &&& items[k].tags == tags
            &&& items[k].todo_keyword == keyword
        } by {
            assert(reads_headline(all[headline]));
            assert(says(all[headline], keyword, text, tags));
        }
        assert(has_written_headline(items[k], all, line));
    }
}

/// A line is a headline if the first thing on it, after white space, is a star, and what stands
/// around a headline makes no difference to what it says.
pub proof fn lemma_headline_indented(before: Seq<char>, line: Seq<char>, after: Seq<char>)
    requires
        line.len() > 0 && !is_space(line[0]) && !is_space(line.last()),
        forall|i: int| 0 <= i < before.len() ==> is_space(#[trigger] before[i]),
        forall|i: int| 0 <= i < after.len() ==> is_space(#[trigger] after[i]),
    ensures
        is_headline(before + line + after) <==> line[0] == '*',
        headline_of(before + line + after) == headline_of(line),
        !is_headline(before),
{
    let none = Seq::<char>::empty();
    assert(before + line + after =~= before + (line + after));
    assert((line + after)[0] == line[0]);
    lemma_trim_front(before, line + after, CharClass::Space);
    lemma_trimmed(before, line, after, CharClass::Space);
    lemma_trimmed(none, line, none, CharClass::Space);
    assert(none + line + none =~= line);
    lemma_trim_front(before, none, CharClass::Space);
    assert(before + none =~= before);
}

/// A headline has no tags where no colon follows a space in it, nor where something follows the last
/// such colon that cannot stand among tags; it is then left as it is.
pub proof fn lemma_no_tags(head: Seq<char>, rest: Seq<char>, i: int)
    ensures
        !contains(head, " :"@) ==> split_tags(head) == (head, Seq::<Seq<char>>::empty()),
        !contains(seq![':'] + rest, " :"@) && 0 <= i < rest.len() && !is_tag_char(rest[i])
            ==> split_tags(head + " :"@ + rest) == (head + " :"@ + rest, Seq::<Seq<char>>::empty()),
{
    reveal_strlit(" :");
    lemma_rfind(head, " :"@);
    let text = head + " :"@ + rest;
    let at = head.len() as int;
    if !contains(seq![':'] + rest, " :"@) && 0 <= i < rest.len() && !is_tag_char(rest[i]) {
        lemma_rfind(text, " :"@);
        assert(text.subrange(at, at + 2) =~= " :"@);
        assert(occurs_at(text, " :"@, at));
        let k = rfind(text, " :"@)->0;
        if k > at {
            let tail = seq![':'] + rest;
            assert(tail.subrange(k - at - 1, k - at + 1) =~= text.subrange(k, k + 2));
            assert(occurs_at(tail, " :"@, k - at - 1));
        }
        let end = text.skip(at);
        assert(end[2 + i] == rest[i]);
        assert(!all_tag_chars(end));
    }
}

/// What is read as tags can stand as tags, each of it.
pub proof fn lemma_tags_are_names(text: Seq<char>, i: int)
    requires
        0 <= i < colon_tags(text).len(),
    ensures
        is_tag_name(colon_tags(text)[i]),
{
    let p = |piece: Seq<char>| is_tag_name(piece);
    between_colons(text).lemma_filter_pred(p, i);
}

} // verus!
