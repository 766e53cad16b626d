//! The entries of an agenda, as they stand in org files.
use crate::agenda_text::{
    are_entries, holds_closing, holds_warned_line, lemma_file_entries, reads_entries,
    reads_reminder,
};
use crate::buffer::{head, tail};
use crate::calendar::{iso_date, lemma_iso_date_shape, weekday_abbreviation, Date};
use crate::headlines::{
    have_headlines, is_written, lemma_file_headlines, lemma_headline_read, lemma_reads_no_headline,
    reads_headline, says, untagged,
};
use crate::number::{decimal, lemma_decimal, parse_i64, parse_int};
use crate::patterns::{
    captures, finds_planning_lines, finds_warnings, first_match, found_texts, group, group_at,
    has_closing, has_warning, introduces, lacks, option_text, replace_first, task_keyword, Groups,
    CLOSED_PATTERN, DEADLINE_PATTERN, KEYWORD_PATTERN, REMIND_PATTERN, SCHEDULED_PATTERN,
};
use crate::planning::{
    as_option_str, date_of_group, lemma_has_repeating_timestamp, lemma_has_timestamp,
    lemma_lacks_join, lemma_weekday_word, option_nat, parse_reminder_duration, planning_line,
    read_group_date, reminder_of, timestamp, AgendaEntryType,
};
use crate::repeater::{lemma_repeater_round_trip, optional_repeater, parse_repeater, RepeaterInfo};
use crate::text::{
    alphanumeric, chars_of, contains, lemma_rfind, lemma_split_at, lemma_split_one,
    lemma_texts_push, lines, lines_of, occurs_at, rfind, rfind_text, split, split_text, texts, trim,
    trim_end, trim_end_of, trim_of, trim_start, trim_start_of, CharClass,
};
use vstd::prelude::*;
use vstd::string::*;

verus! {

/// An entry of an agenda.
#[derive(Debug)]
pub struct AgendaItem {
    pub file_path: String,
    pub headline: String,
    pub date: Date,
    pub entry_type: AgendaEntryType,
    pub line_number: u32,
    pub tags: Vec<String>,
    pub todo_keyword: Option<String>,
    /// How many days before a deadline to warn of it.
    pub warning_days: Option<i64>,
    /// How many seconds before the end of the day to remind of the entry.
    pub reminder_duration: Option<u128>,
    pub repeater: Option<RepeaterInfo>,
}

/// What an entry of an agenda says.
#[verifier::ext_equal]
pub struct ItemView {
    pub file_path: Seq<char>,
    pub headline: Seq<char>,
    pub date: Date,
    pub entry_type: AgendaEntryType,
    pub line_number: u32,
    pub tags: Seq<Seq<char>>,
    pub todo_keyword: Option<Seq<char>>,
    pub warning_days: Option<i64>,
    pub reminder_duration: Option<nat>,
    pub repeater: Option<RepeaterInfo>,
}

impl View for AgendaItem {
    type V = ItemView;

    /// What the entry says.
    open spec fn view(&self) -> ItemView {
        ItemView {
            file_path: self.file_path@,
            headline: self.headline@,
            date: self.date,
            entry_type: self.entry_type,
            line_number: self.line_number,
            tags: texts(self.tags@),
            todo_keyword: option_text(self.todo_keyword),
            warning_days: self.warning_days,
            reminder_duration: option_nat(self.reminder_duration),
            repeater: self.repeater,
        }
    }
}

/// A copy of a list of texts.
pub fn clone_texts(v: &Vec<String>) -> (r: Vec<String>)
    ensures
        texts(r@) == texts(v@),
{
    let mut r: Vec<String> = Vec::new();
    let mut i: usize = 0;
    while i < v.len()
        invariant
            i <= v@.len(),
            r@.len() == i,
            forall|j: int| 0 <= j < i ==> (#[trigger] r@[j])@ == v@[j]@,
        decreases v@.len() - i,
    {
        r.push(v[i].clone());
        i += 1;
    }
    assert(texts(r@) == texts(v@));
    r
}

/// A copy of an optional text.
pub fn clone_option(s: &Option<String>) -> (r: Option<String>)
    ensures
        option_text(r) == option_text(*s),
{
    match s {
        Some(s) => Some(s.clone()),
        None => None,
    }
}

impl Clone for AgendaItem {
    fn clone(&self) -> (r: AgendaItem)
        ensures
            r@ == self@,
            r.date == self.date,
    {
        AgendaItem {
            file_path: self.file_path.clone(),
            headline: self.headline.clone(),
            date: self.date,
            entry_type: self.entry_type,
            line_number: self.line_number,
            tags: clone_texts(&self.tags),
            todo_keyword: clone_option(&self.todo_keyword),
            warning_days: self.warning_days,
            reminder_duration: self.reminder_duration,
            repeater: self.repeater,
        }
    }
}

/// What several entries say.
pub open spec fn item_views(items: Seq<AgendaItem>) -> Seq<ItemView> {
    items.map_values(|item: AgendaItem| item@)
}

/// Every entry has a date of the calendar.
pub open spec fn all_dated(items: Seq<ItemView>) -> bool {
    forall|i: int| 0 <= i < items.len() ==> (#[trigger] items[i]).date.valid()
}

/// The line is a headline: it begins with a star, after white space.
pub open spec fn is_headline(line: Seq<char>) -> bool {
    let t = trim_start(line, CharClass::Space);
    t.len() > 0 && t[0] == '*'
}

/// Whether the line is a headline.
pub fn line_is_headline(line: &str) -> (r: bool)
    ensures
        r == is_headline(line@),
{
    let t = trim_start_of(line, CharClass::Space);
    t.unicode_len() > 0 && t.get_char(0) == '*'
}

/// The character may stand among the tags that end a headline.
pub open spec fn is_tag_char(c: char) -> bool {
    c == ':' || c == ' ' || alphanumeric(c) || c == '_' || c == '@'
}

/// Every character of the text may stand among the tags that end a headline.
pub open spec fn all_tag_chars(s: Seq<char>) -> bool {
    forall|i: int| 0 <= i < s.len() ==> is_tag_char(#[trigger] s[i])
}

/// Every character of the text is a colon, a space, or one that can stand in a tag between colons.
pub open spec fn all_plain_tag_chars(s: Seq<char>) -> bool {
    forall|i: int|
        0 <= i < s.len() ==> #[trigger] s[i] == ':' || s[i] == ' ' || is_tag_name_char(s[i])
}

/// Whether every character of the text may stand among the tags that end a headline.
pub fn has_tag_chars(s: &str) -> (r: bool)
    ensures
        r == all_tag_chars(s@),
        all_plain_tag_chars(s@) ==> r,
{
    let cs = chars_of(s);
    let mut i: usize = 0;
    while i < cs.len()
        invariant
            cs@ == s@,
            i <= cs@.len(),
            forall|j: int| 0 <= j < i ==> is_tag_char(#[trigger] s@[j]),
        decreases cs@.len() - i,
    {
        let c = cs[i];
        if !(c == ':' || c == ' ' || c.is_alphanumeric() || c == '_' || c == '@') {
            assert(!is_tag_char(s@[i as int]));
            return false;
        }
        i += 1;
    }
    true
}

/// The text can stand between colons as a tag: it is made of one or more ASCII letters, digits,
/// underscores and at signs.
pub open spec fn is_tag_name(s: Seq<char>) -> bool {
    s.len() > 0 && forall|i: int| 0 <= i < s.len() ==> is_tag_name_char(#[trigger] s[i])
}

/// The character can stand in a tag between colons.
pub open spec fn is_tag_name_char(c: char) -> bool {
    'a' <= c <= 'z' || 'A' <= c <= 'Z' || '0' <= c <= '9' || c == '_' || c == '@'
}

/// Whether the text can stand between colons as a tag.
fn names_tag(s: &str) -> (r: bool)
    ensures
        r == is_tag_name(s@),
{
    let cs = chars_of(s);
    let mut i: usize = 0;
    while i < cs.len()
        invariant
            cs@ == s@,
            i <= cs@.len(),
            forall|j: int| 0 <= j < i ==> is_tag_name_char(#[trigger] s@[j]),
        decreases cs@.len() - i,
    {
        let c = cs[i];
        if !('a' <= c && c <= 'z' || 'A' <= c && c <= 'Z' || '0' <= c && c <= '9' || c == '_' || c
            == '@') {
            assert(!is_tag_name_char(s@[i as int]));
            return false;
        }
        i += 1;
    }
    cs.len() > 0
}

/// What stands between the first colon of a text and the last, piece by piece.
pub open spec fn between_colons(text: Seq<char>) -> Seq<Seq<char>> {
    let pieces = split(text, ':');
    if pieces.len() > 2 {
        pieces.subrange(1, pieces.len() - 1)
    } else {
        Seq::empty()
    }
}

/// The tags in a text: the pieces between two colons that can be tags. Two tags that follow each
/// other may share a colon.
pub open spec fn colon_tags(text: Seq<char>) -> Seq<Seq<char>> {
    between_colons(text).filter(|piece: Seq<char>| is_tag_name(piece))
}

/// The tags in a text.
pub fn read_colon_tags(text: &str) -> (r: Vec<String>)
    ensures
        texts(r@) == colon_tags(text@),
{
    let pieces = split_text(text, ':');
    let ghost all = split(text@, ':');
    let ghost named = |piece: Seq<char>| is_tag_name(piece);
    let mut r: Vec<String> = Vec::new();
    let n = pieces.len();
    assert(texts(pieces@).len() == n);
    assert(Seq::<Seq<char>>::empty().filter(named) == Seq::<Seq<char>>::empty()) by {
        reveal(Seq::filter);
    }
    assert(texts(r@) == Seq::<Seq<char>>::empty());
    if n <= 2 {
        return r;
    }
    let ghost inner = between_colons(text@);
    let mut i: usize = 1;
    assert(inner.take(0) == Seq::<Seq<char>>::empty());
    while i < n - 1
        invariant
            texts(pieces@) == all,
            n == pieces@.len(),
            n > 2,
            1 <= i <= n - 1,
            inner == all.subrange(1, n - 1),
            named == (|piece: Seq<char>| is_tag_name(piece)),
            texts(r@) == inner.take(i - 1).filter(named),
        decreases n - i,
    {
        assert(all[i as int] == pieces@[i as int]@);
        assert(inner[i - 1] == all[i as int]);
        proof {
            assert(inner.take(i as int) == inner.take(i - 1).push(inner[i - 1]));
            inner.take(i - 1).lemma_filter_push(inner[i - 1], named);
        }
        if names_tag(pieces[i].as_str()) {
            let tag = pieces[i].clone();
            proof {
                lemma_texts_push(r@, tag);
            }
            r.push(tag);
        }
        i += 1;
    }
    assert(inner.take(n - 2) == inner);
    r
}

/// Tags between colons, with one colon between two of them.
pub open spec fn tag_run(tags: Seq<Seq<char>>) -> Seq<char>
    decreases tags.len(),
{
    if tags.len() == 0 {
        seq![':']
    } else {
        tag_run(tags.drop_last()) + tags.last() + seq![':']
    }
}

/// The pieces of a run of tags.
proof fn lemma_run_pieces(before: Seq<char>, tags: Seq<Seq<char>>)
    requires
        lacks(before, ':'),
        forall|i: int| 0 <= i < tags.len() ==> is_tag_name(#[trigger] tags[i]),
    ensures
        split(before + tag_run(tags), ':') == seq![before] + tags + seq![Seq::<char>::empty()],
    decreases tags.len(),
{
    let none = Seq::<char>::empty();
    lemma_split_one(none, ':');
    if tags.len() == 0 {
        lemma_split_one(before, ':');
        lemma_split_at(before, none, ':');
        assert(before + tag_run(tags) == before + seq![':'] + none);
        assert(seq![before] + tags + seq![none] == seq![before] + seq![none]);
    } else {
        let init = tags.drop_last();
        let tag = tags.last();
        lemma_run_pieces(before, init);
        assert(is_tag_name(tag));
        let run = tag_run(init);
        let stem = if init.len() == 0 {
            before
        } else {
            before + tag_run(init.drop_last()) + init.last()
        };
        assert(before + run == stem + seq![':']);
        lemma_split_at(stem, none, ':');
        assert(stem + seq![':'] + none == before + run);
        let pieces = split(stem, ':');
        assert(pieces + seq![none] == seq![before] + init + seq![none]);
        assert(pieces == (pieces + seq![none]).drop_last());
        assert(pieces == seq![before] + init);
        lemma_split_one(tag, ':');
        lemma_split_at(stem, tag, ':');
        lemma_split_at(stem + seq![':'] + tag, none, ':');
        assert(before + tag_run(tags) == stem + seq![':'] + tag + seq![':'] + none);
        assert(seq![before] + init + seq![tag] + seq![none] == seq![before] + tags + seq![none]);
    }
}

/// A filter that every piece passes leaves all of them.
proof fn lemma_all_named(tags: Seq<Seq<char>>)
    requires
        forall|i: int| 0 <= i < tags.len() ==> is_tag_name(#[trigger] tags[i]),
    ensures
        tags.filter(|piece: Seq<char>| is_tag_name(piece)) == tags,
    decreases tags.len(),
{
    let named = |piece: Seq<char>| is_tag_name(piece);
    if tags.len() == 0 {
        assert(tags.filter(named) == tags) by {
            reveal(Seq::filter);
        }
    } else {
        let init = tags.drop_last();
        lemma_all_named(init);
        assert(is_tag_name(tags.last()));
        init.lemma_filter_push(tags.last(), named);
        assert(init.push(tags.last()) == tags);
    }
}

/// The tags of a run are read, each of them and in their order.
pub proof fn lemma_tag_run(before: Seq<char>, tags: Seq<Seq<char>>)
    requires
        lacks(before, ':'),
        forall|i: int| 0 <= i < tags.len() ==> is_tag_name(#[trigger] tags[i]),
    ensures
        colon_tags(before + tag_run(tags)) == tags,
{
    lemma_run_pieces(before, tags);
    lemma_all_named(tags);
    let pieces = split(before + tag_run(tags), ':');
    if tags.len() > 0 {
        assert(pieces.subrange(1, pieces.len() - 1) == tags);
    } else {
        assert(between_colons(before + tag_run(tags)) == tags);
    }
}

/// The tags at the end of a headline, and the headline without them. They begin at the last space
/// that a colon follows, if nothing but tags follows it.
pub open spec fn split_tags(text: Seq<char>) -> (Seq<char>, Seq<Seq<char>>) {
    match rfind(text, " :"@) {
        Some(i) if all_tag_chars(text.skip(i)) => (
            trim_end(text.take(i), CharClass::Space),
            colon_tags(text.skip(i)),
        ),
        _ => (text, Seq::empty()),
    }
}

/// The headline ends with a run of tags after a space.
pub open spec fn ends_with_tags(
    text: Seq<char>,
    headline: Seq<char>,
    tags: Seq<Seq<char>>,
) -> bool {
    &&& text == headline + " "@ + tag_run(tags)
    &&& forall|i: int| 0 <= i < tags.len() ==> is_tag_name(#[trigger] tags[i])
}

/// A run of tags begins with a colon and is made of colons and what can stand between them.
proof fn lemma_run_chars(tags: Seq<Seq<char>>)
    requires
        forall|i: int| 0 <= i < tags.len() ==> is_tag_name(#[trigger] tags[i]),
    ensures
        tag_run(tags).len() > 0,
        tag_run(tags)[0] == ':',
        lacks(tag_run(tags), ' '),
        all_plain_tag_chars(tag_run(tags)),
    decreases tags.len(),
{
    if tags.len() > 0 {
        lemma_run_chars(tags.drop_last());
        assert(is_tag_name(tags.last()));
        let first = tag_run(tags.drop_last());
        let run = tag_run(tags);
        assert forall|i: int| 0 <= i < run.len() implies (#[trigger] run[i] == ':'
            || is_tag_name_char(run[i])) && run[i] != ' ' by {
            if i < first.len() {
                assert(run[i] == first[i]);
            } else if i < first.len() + tags.last().len() {
                assert(run[i] == tags.last()[i - first.len()]);
            }
        }
    }
}

/// The run of tags at the end of a headline begins at the last space that a colon follows.
pub proof fn lemma_ends_with_tags(text: Seq<char>, headline: Seq<char>, tags: Seq<Seq<char>>)
    requires
        ends_with_tags(text, headline, tags),
    ensures
        rfind(text, " :"@) == Some(headline.len() as int),
        text.take(headline.len() as int) == headline,
        all_plain_tag_chars(text.skip(headline.len() as int)),
        colon_tags(text.skip(headline.len() as int)) == tags,
{
    reveal_strlit(" ");
    reveal_strlit(" :");
    let at = headline.len() as int;
    let run = tag_run(tags);
    lemma_run_chars(tags);
    lemma_tag_run(" "@, tags);
    assert(text.skip(at) == " "@ + run);
    assert(text.subrange(at, at + 2) == " :"@);
    assert(occurs_at(text, " :"@, at));
    assert forall|j: int| at < j implies !occurs_at(text, " :"@, j) by {
        if occurs_at(text, " :"@, j) {
            assert(text.subrange(j, j + 2)[0] == text[j]);
            assert(text[j] == run[j - at - 1]);
        }
    }
    lemma_rfind(text, " :"@);
}

/// The tags at the end of a headline, and the headline without them. A run of tags after a space is
/// read, each of them.
pub fn take_tags(text: &str) -> (r: (String, Vec<String>))
    ensures
        (r.0@, texts(r.1@)) == split_tags(text@),
        forall|headline: Seq<char>, tags: Seq<Seq<char>>| #[trigger]
            ends_with_tags(text@, headline, tags) ==> r.0@ == trim_end(headline, CharClass::Space)
                && texts(r.1@) == tags,
{
    proof {
        assert forall|headline: Seq<char>, tags: Seq<Seq<char>>| #[trigger]
            ends_with_tags(text@, headline, tags) implies rfind(text@, " :"@) == Some(
            headline.len() as int,
        ) && text@.take(headline.len() as int) == headline && all_plain_tag_chars(
            text@.skip(headline.len() as int),
        ) && colon_tags(text@.skip(headline.len() as int)) == tags by {
            lemma_ends_with_tags(text@, headline, tags);
        }
    }
    if let Some(i) = rfind_text(text, " :") {
        let end = tail(text, i);
        if has_tag_chars(end) {
            let tags = read_colon_tags(end);
            return (trim_end_of(head(text, i), CharClass::Space).to_owned(), tags);
        }
    }
    let tags: Vec<String> = Vec::new();
    assert(texts(tags@) == Seq::<Seq<char>>::empty());
    (text.to_owned(), tags)
}

/// The keyword of a headline, and the headline without it.
pub open spec fn split_keyword(text: Seq<char>) -> (Seq<char>, Option<Seq<char>>) {
    match task_keyword(text) {
        Some((keyword, rest)) => (rest, Some(keyword)),
        None => (text, None),
    }
}

/// The keyword of a headline, and the headline without it.
pub fn take_keyword(text: &str) -> (r: (String, Option<String>))
    ensures
        (r.0@, option_text(r.1)) == split_keyword(text@),
{
    match captures(KEYWORD_PATTERN, text) {
        Some(groups) => (replace_first(KEYWORD_PATTERN, text, ""), group(&groups, 1)),
        None => (text.to_owned(), None),
    }
}

/// What is known of the headline under which a line stands.
#[verifier::ext_equal]
pub struct HeadlineView {
    pub headline: Seq<char>,
    pub tags: Seq<Seq<char>>,
    pub todo_keyword: Option<Seq<char>>,
    pub reminder_duration: Option<nat>,
}

/// What is known of the headline under which a line stands.
pub struct Headline {
    pub headline: String,
    pub tags: Vec<String>,
    pub todo_keyword: Option<String>,
    pub reminder_duration: Option<u128>,
}

impl View for Headline {
    type V = HeadlineView;

    /// What is known.
    open spec fn view(&self) -> HeadlineView {
        HeadlineView {
            headline: self.headline@,
            tags: texts(self.tags@),
            todo_keyword: option_text(self.todo_keyword),
            reminder_duration: option_nat(self.reminder_duration),
        }
    }
}

/// What a headline says: its text without tags, keyword and stars.
pub open spec fn headline_of(line: Seq<char>) -> HeadlineView {
    let (without_tags, tags) = split_tags(trim(line, CharClass::Space));
    let (without_keyword, todo_keyword) = split_keyword(without_tags);
    HeadlineView {
        headline: trim(trim_start(without_keyword, CharClass::Star), CharClass::Space),
        tags,
        todo_keyword,
        reminder_duration: None,
    }
}

/// Reads a headline. Its text, its tags and its keyword are read as they are written.
pub fn read_headline(line: &str) -> (r: Headline)
    ensures
        r@ == headline_of(line@),
        reads_headline(line@),
        forall|stars: nat, keyword: Option<Seq<char>>, text: Seq<char>, tags: Seq<Seq<char>>|
            #[trigger] is_written(line@, stars, keyword, text, tags) ==> r@ == (HeadlineView {
                headline: text,
                tags,
                todo_keyword: keyword,
                reminder_duration: None,
            }),
{
    let (without_tags, tags) = take_tags(trim_of(line, CharClass::Space));
    proof {
        assert forall|
            stars: nat,
            keyword: Option<Seq<char>>,
            text: Seq<char>,
            tags: Seq<Seq<char>>,
        | #[trigger]
            is_written(line@, stars, keyword, text, tags) implies says(
            line@,
            keyword,
            text,
            tags,
        ) by {
            lemma_headline_read(line@, stars, keyword, text, tags);
            assert(tags.len() > 0 ==> ends_with_tags(
                line@,
                untagged(stars, keyword, text),
                tags,
            ));
        }
    }
    let (without_keyword, todo_keyword) = take_keyword(without_tags.as_str());
    let headline = trim_of(
        trim_start_of(without_keyword.as_str(), CharClass::Star),
        CharClass::Space,
    ).to_owned();
    Headline { headline, tags, todo_keyword, reminder_duration: None }
}

/// What is known after a line: a headline begins anew, and a reminder stays until the next
/// headline or reminder.
pub open spec fn after_line(known: HeadlineView, line: Seq<char>) -> HeadlineView {
    let current = if is_headline(line) {
        headline_of(line)
    } else {
        known
    };
    match reminder_of(first_match(REMIND_PATTERN@, line)) {
        Some(seconds) => HeadlineView { reminder_duration: Some(seconds), ..current },
        None => current,
    }
}

/// The date and the repeater of a planning line that a search found.
pub open spec fn entry_of(found: Option<Seq<Option<Seq<char>>>>) -> Option<
    (Date, Option<RepeaterInfo>),
> {
    match found {
        Some(groups) => match date_of_group(group_at(groups, 1)) {
            Some(date) => Some(
                (
                    date,
                    optional_repeater(group_at(groups, 2), group_at(groups, 3), group_at(groups, 4)),
                ),
            ),
            None => None,
        },
        None => None,
    }
}

/// The date and the repeater of a planning line that a search found.
pub fn entry_from_groups(found: &Option<Groups>) -> (r: Option<(Date, Option<RepeaterInfo>)>)
    ensures
        r == entry_of(found_texts(*found)),
        r is Some ==> (r->0).0.valid(),
        forall|date: Date|
            #![trigger iso_date(date)]
            date.valid() && 0 <= date.year <= 9999 && found is Some && group_at(
                found_texts(*found)->0,
                1,
            ) == Some(iso_date(date)) ==> r == Some(
                (
                    date,
                    optional_repeater(
                        group_at(found_texts(*found)->0, 2),
                        group_at(found_texts(*found)->0, 3),
                        group_at(found_texts(*found)->0, 4),
                    ),
                ),
            ),
{
    match found {
        Some(groups) => {
            let day = group(groups, 1);
            let prefix = group(groups, 2);
            let interval = group(groups, 3);
            let unit = group(groups, 4);
            let date = read_group_date(as_option_str(&day))?;
            let repeater = parse_repeater(
                as_option_str(&prefix),
                as_option_str(&interval),
                as_option_str(&unit),
            );
            Some((date, repeater))
        },
        None => None,
    }
}

/// How many days before a deadline a warning period asks to be warned: it may be written with or
/// without a sign, which does not count.
pub open spec fn warning_days(period: Seq<char>) -> Option<i64> {
    match parse_int(period, -(i64::MAX as int), i64::MAX as int) {
        Some(n) => Some(
            (if n < 0 {
                -n
            } else {
                n
            }) as i64,
        ),
        None => None,
    }
}

/// The number of days before a deadline at which to warn of it, as a search found it.
pub open spec fn warning_of(found: Option<Seq<Option<Seq<char>>>>) -> Option<i64> {
    match found {
        Some(groups) => match group_at(groups, 5) {
            Some(period) => warning_days(period),
            None => None,
        },
        None => None,
    }
}

/// The number of days before a deadline at which to warn of it, as a search found it.
pub fn warning_from_groups(found: &Option<Groups>) -> (r: Option<i64>)
    ensures
        r == warning_of(found_texts(*found)),
{
    match found {
        Some(groups) => match group(groups, 5) {
            Some(period) => {
                let n = parse_i64(period.as_str())?;
                if n == i64::MIN {
                    None
                } else if n < 0 {
                    Some(-n)
                } else {
                    Some(n)
                }
            },
            None => None,
        },
        None => None,
    }
}

/// The line holds a planning line of the years 0 to 9999, with no angle bracket before it, and a
/// repeater that does not count backwards.
pub open spec fn holds_planning_line(
    line: Seq<char>,
    keyword: Seq<char>,
    indent: Seq<char>,
    date: Date,
    repeater: Option<RepeaterInfo>,
    after: Seq<char>,
) -> bool {
    &&& line == indent + planning_line(keyword, date, repeater) + after
    &&& date.valid() && 0 <= date.year <= 9999
    &&& repeater matches Some(r) ==> r.interval >= 0
    &&& lacks(indent, '<')
}

/// A planning line that the line holds is what a search for it finds.
proof fn lemma_entry_read_back(
    line: Seq<char>,
    keyword: Seq<char>,
    indent: Seq<char>,
    date: Date,
    repeater: Option<RepeaterInfo>,
    after: Seq<char>,
    found: Option<Seq<Option<Seq<char>>>>,
)
    requires
        holds_planning_line(line, keyword, indent, date, repeater, after),
        lacks(keyword, '<'),
        finds_planning_lines(keyword, line, found),
    ensures
        found is Some,
        group_at(found->0, 1) == Some(iso_date(date)),
        optional_repeater(group_at(found->0, 2), group_at(found->0, 3), group_at(found->0, 4))
            == repeater,
        group_at(found->0, 5) is None,
{
    reveal_strlit(" ");
    let before = indent + keyword + " "@;
    lemma_lacks_join(indent, keyword, '<');
    lemma_lacks_join(indent + keyword, " "@, '<');
    assert(introduces(before, keyword));
    assert(line == before + timestamp(date, repeater) + after);
    match repeater {
        Some(r) => {
            lemma_has_repeating_timestamp(line, before, date, r, after);
            lemma_repeater_round_trip(r);
        },
        None => {
            lemma_has_timestamp(line, before, date, after);
        },
    }
}

/// When the task of a line is scheduled, and how it comes back. A planning line that the line
/// holds is read back.
pub fn scheduled_entry(line: &str) -> (r: Option<(Date, Option<RepeaterInfo>)>)
    ensures
        r == entry_of(first_match(SCHEDULED_PATTERN@, line@)),
        r is Some ==> (r->0).0.valid(),
        !contains(line@, "SCHEDULED:"@) ==> r is None,
        forall|indent: Seq<char>, date: Date, repeater: Option<RepeaterInfo>, after: Seq<char>|
            #[trigger] holds_planning_line(
                line@,
                "SCHEDULED:"@,
                indent,
                date,
                repeater,
                after,
            ) ==> r == Some((date, repeater)),
{
    let found = captures(SCHEDULED_PATTERN, line);
    let r = entry_from_groups(&found);
    proof {
        reveal_strlit("SCHEDULED:");
        assert forall|
            indent: Seq<char>,
            date: Date,
            repeater: Option<RepeaterInfo>,
            after: Seq<char>,
        | #[trigger]
            holds_planning_line(
                line@,
                "SCHEDULED:"@,
                indent,
                date,
                repeater,
                after,
            ) implies r == Some((date, repeater)) by {
            lemma_entry_read_back(
                line@,
                "SCHEDULED:"@,
                indent,
                date,
                repeater,
                after,
                found_texts(found),
            );
        }
    }
    r
}

/// When the task of a line is due, how it comes back, and how long before to warn of it. A
/// planning line that the line holds is read back, and so is one with a warning period.
pub fn deadline_entry(line: &str) -> (r: Option<(Date, Option<RepeaterInfo>, Option<i64>)>)
    ensures
        r == deadline_of(first_match(DEADLINE_PATTERN@, line@)),
        r is Some ==> (r->0).0.valid(),
        !contains(line@, "DEADLINE:"@) ==> r is None,
        forall|indent: Seq<char>, date: Date, days: i64, after: Seq<char>| #[trigger]
            holds_warned_line(line@, indent, date, days, after) ==> r == Some(
                (date, None::<RepeaterInfo>, Some(days)),
            ),
        forall|indent: Seq<char>, date: Date, repeater: Option<RepeaterInfo>, after: Seq<char>|
            #[trigger] holds_planning_line(
                line@,
                "DEADLINE:"@,
                indent,
                date,
                repeater,
                after,
            ) ==> r == Some((date, repeater, None::<i64>)),
{
    let found = captures(DEADLINE_PATTERN, line);
    let entry = entry_from_groups(&found);
    let warning = warning_from_groups(&found);
    let r = match entry {
        Some((date, repeater)) => Some((date, repeater, warning)),
        None => None,
    };
    proof {
        reveal_strlit("DEADLINE:");
        assert forall|
            indent: Seq<char>,
            date: Date,
            repeater: Option<RepeaterInfo>,
            after: Seq<char>,
        | #[trigger]
            holds_planning_line(
                line@,
                "DEADLINE:"@,
                indent,
                date,
                repeater,
                after,
            ) implies r == Some((date, repeater, None::<i64>)) by {
            lemma_entry_read_back(
                line@,
                "DEADLINE:"@,
                indent,
                date,
                repeater,
                after,
                found_texts(found),
            );
        }
        assert forall|indent: Seq<char>, date: Date, days: i64, after: Seq<char>| #[trigger]
            holds_warned_line(line@, indent, date, days, after) implies r == Some(
            (date, None::<RepeaterInfo>, Some(days)),
        ) by {
            lemma_warning_read_back(line@, indent, date, days, after, found_texts(found));
        }
    }
    r
}

/// A deadline with a warning period that the line holds is what a search for it finds.
proof fn lemma_warning_read_back(
    line: Seq<char>,
    indent: Seq<char>,
    date: Date,
    days: i64,
    after: Seq<char>,
    found: Option<Seq<Option<Seq<char>>>>,
)
    requires
        holds_warned_line(line, indent, date, days, after),
        finds_warnings(line, found),
    ensures
        found is Some,
        group_at(found->0, 1) == Some(iso_date(date)),
        group_at(found->0, 2) is None,
        warning_of(found) == Some(days),
{
    reveal_strlit(" ");
    reveal_strlit("DEADLINE:");
    reveal_strlit("-");
    let before = indent + "DEADLINE:"@ + " "@;
    let day = weekday_abbreviation(date.weekday());
    let digits = decimal(days as nat);
    lemma_lacks_join(indent, "DEADLINE:"@, '<');
    lemma_lacks_join(indent + "DEADLINE:"@, " "@, '<');
    assert(introduces(before, "DEADLINE:"@));
    lemma_iso_date_shape(date);
    lemma_weekday_word(date.weekday());
    lemma_decimal(days as nat);
    assert(line == before + "<"@ + iso_date(date) + " "@ + day + " "@ + "-"@ + digits + "d"@
        + after);
    assert(has_warning(line, before, iso_date(date), day, "-"@, digits, after));
    let period = "-"@ + digits;
    assert(period.skip(1) == digits);
    assert(period[0] == '-');
}

/// The date, the repeater and the warning of a deadline that a search found.
pub open spec fn deadline_of(found: Option<Seq<Option<Seq<char>>>>) -> Option<
    (Date, Option<RepeaterInfo>, Option<i64>),
> {
    match entry_of(found) {
        Some((date, repeater)) => Some((date, repeater, warning_of(found))),
        None => None,
    }
}

/// The date of a closing line that a search found.
pub open spec fn closed_of(found: Option<Seq<Option<Seq<char>>>>) -> Option<Date> {
    match found {
        Some(groups) => date_of_group(group_at(groups, 1)),
        None => None,
    }
}

/// When the task of a line was closed. A closing date of the years 0 to 9999 is read back.
pub fn closed_entry(line: &str) -> (r: Option<Date>)
    ensures
        r == closed_of(first_match(CLOSED_PATTERN@, line@)),
        r is Some ==> r->0.valid(),
        !contains(line@, "CLOSED:"@) ==> r is None,
        forall|before: Seq<char>, date: Date, after: Seq<char>| #[trigger]
            holds_closing(line@, before, date, after) ==> r == Some(date),
{
    let found = captures(CLOSED_PATTERN, line);
    let r = match &found {
        Some(groups) => {
            let day = group(groups, 1);
            read_group_date(as_option_str(&day))
        },
        None => None,
    };
    proof {
        assert forall|before: Seq<char>, date: Date, after: Seq<char>| #[trigger]
            holds_closing(line@, before, date, after) implies r == Some(date) by {
            lemma_iso_date_shape(date);
            assert(has_closing(line@, before, iso_date(date), after));
        }
    }
    r
}

/// The reminder on the lines from one place up to another, before the next headline.
pub open spec fn reminder_ahead(all: Seq<Seq<char>>, from: int, to: int) -> Option<nat>
    decreases to - from,
{
    if from < 0 || from >= to || from >= all.len() || is_headline(all[from]) {
        None
    } else {
        match reminder_of(first_match(REMIND_PATTERN@, all[from])) {
            Some(seconds) => Some(seconds),
            None => reminder_ahead(all, from + 1, to),
        }
    }
}

/// The reminder of an entry: the one on the four lines after it, or else the one that is known.
pub open spec fn entry_reminder(known: Option<nat>, all: Seq<Seq<char>>, line: int) -> Option<nat> {
    match reminder_ahead(all, line + 1, line + 5) {
        Some(seconds) => Some(seconds),
        None => known,
    }
}

/// The reminder of an entry: the one on the four lines after it, or else the one that is known.
fn find_reminder(known: Option<u128>, all: &Vec<String>, line: usize) -> (r: Option<u128>)
    requires
        line < all@.len(),
    ensures
        option_nat(r) == entry_reminder(option_nat(known), texts(all@), line as int),
{
    let ghost ls = texts(all@);
    let len = all.len();
    let end: usize = if len - line < 5 {
        len
    } else {
        line + 5
    };
    let mut i: usize = line + 1;
    while i < end
        invariant
            ls == texts(all@),
            line < i <= len,
            len == all@.len(),
            end <= len,
            end == line + 5 || end == len && end < line + 5,
            reminder_ahead(ls, line + 1, line + 5) == reminder_ahead(ls, i as int, line + 5),
        decreases end - i,
    {
        assert(ls[i as int] == all@[i as int]@);
        if line_is_headline(all[i].as_str()) {
            return known;
        }
        if let Some(seconds) = parse_reminder_duration(all[i].as_str()) {
            return Some(seconds);
        }
        i += 1;
    }
    known
}

/// The entries on a line, given what is known of its headline.
pub open spec fn line_items(
    path: Seq<char>,
    known: HeadlineView,
    all: Seq<Seq<char>>,
    line: int,
) -> Seq<ItemView> {
    let base = ItemView {
        file_path: path,
        headline: known.headline,
        date: Date { year: 0, month: 0, day: 0 },
        entry_type: AgendaEntryType::Scheduled,
        line_number: line as u32,
        tags: known.tags,
        todo_keyword: known.todo_keyword,
        warning_days: None,
        reminder_duration: known.reminder_duration,
        repeater: None,
    };
    let reminder = entry_reminder(known.reminder_duration, all, line);
    let scheduled = match entry_of(first_match(SCHEDULED_PATTERN@, all[line])) {
        Some((date, repeater)) => seq![
            ItemView { date, repeater, reminder_duration: reminder, ..base },
        ],
        None => Seq::empty(),
    };
    let deadline = match deadline_of(first_match(DEADLINE_PATTERN@, all[line])) {
        Some((date, repeater, warning_days)) => seq![
            ItemView {
                date,
                repeater,
                warning_days,
                reminder_duration: reminder,
                entry_type: AgendaEntryType::Deadline,
                ..base
            },
        ],
        None => Seq::empty(),
    };
    let closed = match closed_of(first_match(CLOSED_PATTERN@, all[line])) {
        Some(date) => seq![ItemView { date, entry_type: AgendaEntryType::Closed, ..base }],
        None => Seq::empty(),
    };
    scheduled + deadline + closed
}

/// The entries on the lines from one on, given what is known before it.
pub open spec fn items_from(
    path: Seq<char>,
    known: HeadlineView,
    all: Seq<Seq<char>>,
    line: int,
) -> Seq<ItemView>
    decreases all.len() - line,
{
    if line < 0 || line >= all.len() {
        Seq::empty()
    } else {
        let current = after_line(known, all[line]);
        line_items(path, current, all, line) + items_from(path, current, all, line + 1)
    }
}

/// What is known before the first headline: nothing.
pub open spec fn nothing_known() -> HeadlineView {
    HeadlineView {
        headline: Seq::empty(),
        tags: Seq::empty(),
        todo_keyword: None,
        reminder_duration: None,
    }
}

/// The entries of a file.
pub open spec fn file_items(path: Seq<char>, content: Seq<char>) -> Seq<ItemView> {
    items_from(path, nothing_known(), lines(content), 0)
}

/// An entry under a headline, without what its kind adds.
fn make_item(
    path: &str,
    known: &Headline,
    line: usize,
    date: Date,
    entry_type: AgendaEntryType,
) -> (r: AgendaItem)
    ensures
        r@ == (ItemView {
            file_path: path@,
            headline: known@.headline,
            date,
            entry_type,
            line_number: line as u32,
            tags: known@.tags,
            todo_keyword: known@.todo_keyword,
            warning_days: None,
            reminder_duration: known@.reminder_duration,
            repeater: None,
        }),
{
    AgendaItem {
        file_path: path.to_owned(),
        headline: known.headline.clone(),
        date,
        entry_type,
        line_number: #[verifier::truncate] (line as u32),
        tags: clone_texts(&known.tags),
        todo_keyword: clone_option(&known.todo_keyword),
        warning_days: None,
        reminder_duration: known.reminder_duration,
        repeater: None,
    }
}

/// Adding an entry adds what it says.
proof fn lemma_views_push(items: Seq<AgendaItem>, item: AgendaItem)
    ensures
        item_views(items.push(item)) == item_views(items).push(item@),
{
    assert(item_views(items.push(item)) =~= item_views(items).push(item@));
}

/// Adds the entries on a line.
fn add_line_items(
    path: &str,
    known: &Headline,
    all: &Vec<String>,
    line: usize,
    items: &mut Vec<AgendaItem>,
)
    requires
        line < all@.len(),
    ensures
        item_views(final(items)@) == item_views(old(items)@) + line_items(
            path@,
            known@,
            texts(all@),
            line as int,
        ),
        all_dated(item_views(old(items)@)) ==> all_dated(item_views(final(items)@)),
        reads_entries(texts(all@)[line as int]),
{
    let text = all[line].as_str();
    assert(texts(all@)[line as int] == text@);
    let reminder = find_reminder(known.reminder_duration, all, line);
    let ghost start = item_views(items@);
    let ghost mut added = Seq::<ItemView>::empty();
    assert(item_views(items@) == start + added);
    if let Some((date, repeater)) = scheduled_entry(text) {
        let mut item = make_item(path, known, line, date, AgendaEntryType::Scheduled);
        item.repeater = repeater;
        item.reminder_duration = reminder;
        proof {
            lemma_views_push(items@, item);
            added = added.push(item@);
        }
        items.push(item);
    }
    let ghost scheduled = added;
    if let Some((date, repeater, warning_days)) = deadline_entry(text) {
        let mut item = make_item(path, known, line, date, AgendaEntryType::Deadline);
        item.repeater = repeater;
        item.warning_days = warning_days;
        item.reminder_duration = reminder;
        proof {
            lemma_views_push(items@, item);
            added = added.push(item@);
        }
        items.push(item);
    }
    if let Some(date) = closed_entry(text) {
        let item = make_item(path, known, line, date, AgendaEntryType::Closed);
        proof {
            lemma_views_push(items@, item);
            added = added.push(item@);
        }
        items.push(item);
    }
    assert(item_views(items@) == start + added);
    assert(added == line_items(path@, known@, texts(all@), line as int));
}

/// Adds the entries of a file. What its lines hold is among them, every entry stands on a line with
/// its keyword, and there are as many as there are keywords, or fewer where one of these is not
/// written in the usual way. Every entry has what is written in the headline above it.
pub fn extract_agenda_items(file_path: &str, content: &str, items: &mut Vec<AgendaItem>)
    ensures
        item_views(final(items)@) == item_views(old(items)@) + file_items(file_path@, content@),
        all_dated(item_views(old(items)@)) ==> all_dated(item_views(final(items)@)),
        are_entries(
            item_views(final(items)@).skip(old(items)@.len() as int),
            lines(content@),
        ),
        have_headlines(
            item_views(final(items)@).skip(old(items)@.len() as int),
            file_path@,
            lines(content@),
        ),
{
    let all = lines_of(content);
    let ghost ls = lines(content@);
    let mut known = Headline {
        headline: String::new(),
        tags: Vec::new(),
        todo_keyword: None,
        reminder_duration: None,
    };
    assert(texts(known.tags@) == Seq::<Seq<char>>::empty());
    assert(known@ == nothing_known());
    let ghost before = item_views(items@);
    let ghost wanted = file_items(file_path@, content@);
    let mut i: usize = 0;
    assert(ls.len() == all@.len());
    while i < all.len()
        invariant
            texts(all@) == ls,
            ls.len() == all@.len(),
            i <= all@.len(),
            item_views(items@) + items_from(file_path@, known@, ls, i as int) == before + wanted,
            all_dated(before) ==> all_dated(item_views(items@)),
            before.len() == old(items)@.len(),
            forall|line: int|
                0 <= line < i ==> reads_entries(#[trigger] ls[line]) && reads_reminder(ls[line])
                    && reads_headline(ls[line]),
        decreases all@.len() - i,
    {
        let ghost old_known = known@;
        let ghost old_items = item_views(items@);
        assert(ls[i as int] == all@[i as int]@);
        if line_is_headline(all[i].as_str()) {
            known = read_headline(all[i].as_str());
        }
        proof {
            lemma_reads_no_headline(ls[i as int]);
        }
        if let Some(seconds) = parse_reminder_duration(all[i].as_str()) {
            known.reminder_duration = Some(seconds);
        }
        assert(known@ == after_line(old_known, ls[i as int]));
        add_line_items(file_path, &known, &all, i, items);
        assert(old_items + (line_items(file_path@, known@, ls, i as int) + items_from(
            file_path@,
            known@,
            ls,
            i + 1,
        )) == item_views(items@) + items_from(file_path@, known@, ls, i + 1));
        i += 1;
    }
    assert(item_views(items@) + Seq::<ItemView>::empty() == item_views(items@));
    proof {
        lemma_file_entries(file_path@, content@);
        lemma_file_headlines(file_path@, content@);
        assert((before + wanted).skip(before.len() as int) == wanted);
    }
}

/// The entries of some files, given by their paths and what they hold, file by file.
pub open spec fn files_items(files: Seq<(String, String)>) -> Seq<ItemView>
    decreases files.len(),
{
    if files.len() == 0 {
        Seq::empty()
    } else {
        files_items(files.drop_last()) + file_items(files.last().0@, files.last().1@)
    }
}

/// The entries of some files, given by their paths and what they hold.
pub fn scan_org_files(files: &Vec<(String, String)>) -> (r: Vec<AgendaItem>)
    ensures
        item_views(r@) == files_items(files@),
        all_dated(item_views(r@)),
{
    let mut items: Vec<AgendaItem> = Vec::new();
    let mut i: usize = 0;
    assert(item_views(items@) == files_items(files@.take(0)));
    while i < files.len()
        invariant
            i <= files@.len(),
            item_views(items@) == files_items(files@.take(i as int)),
            all_dated(item_views(items@)),
        decreases files@.len() - i,
    {
        assert(files@.take(i + 1).drop_last() == files@.take(i as int));
        extract_agenda_items(files[i].0.as_str(), files[i].1.as_str(), &mut items);
        i += 1;
    }
    assert(files@.take(i as int) == files@);
    items
}

} // verus!
