//! What becomes of each part of a template for a note.
use crate::calendar::{iso_date, year_text, DateTime, Time};
use crate::capture::{expanded, lacks_placeholders, lemma_nothing_to_fill, link_to, CaptureContext};
use crate::entry::clock;
use crate::number::{all_digits, decimal, is_digit, lemma_decimal, lemma_padded, padded, value};
use crate::paths::file_name;
use crate::patterns::option_text;
use crate::settings::HourFormat;
use crate::text::{contains, find, lemma_find, lemma_find_is, occurs_at, replace};
use vstd::prelude::*;
use vstd::string::*;

verus! {

/// A part of a template: some text, or a placeholder.
pub enum Part {
    Text(Seq<char>),
    Date,
    Time,
    Cursor,
    Input,
    Tags,
    Selection,
    File,
    Link,
}

/// How a part is written in a template.
pub open spec fn written(part: Part) -> Seq<char> {
    match part {
        Part::Text(text) => text,
        Part::Date => "{date}"@,
        Part::Time => "{time}"@,
        Part::Cursor => "{cursor}"@,
        Part::Input => "{input}"@,
        Part::Tags => "{tags}"@,
        Part::Selection => "{selection}"@,
        Part::File => "{file}"@,
        Part::Link => "{link}"@,
    }
}

/// What a note is made from: the time, the format of hours, what was typed, the tags, and where it
/// is taken.
pub struct Taking {
    pub now: DateTime,
    pub hour_format: HourFormat,
    pub input: Option<Seq<char>>,
    pub tags: Option<Seq<char>>,
    pub context: Option<CaptureContext>,
}

impl Taking {
    /// The note that a template gives.
    pub open spec fn note(self, template: Seq<char>) -> Seq<char> {
        expanded(template, self.hour_format, self.context, self.input, self.tags, self.now)
    }

    /// The selected text, if there is any.
    pub open spec fn selection(self) -> Option<Seq<char>> {
        match self.context {
            Some(context) => option_text(context.selection),
            None => None,
        }
    }

    /// The path of the file, if there is one.
    pub open spec fn path(self) -> Option<Seq<char>> {
        match self.context {
            Some(context) => option_text(context.file_path),
            None => None,
        }
    }

    /// What takes the place of a part: of a text, the text; of the cursor, nothing; of a
    /// placeholder, what it stands for, or the placeholder itself where that is not there.
    pub open spec fn in_place_of(self, part: Part) -> Seq<char> {
        match part {
            Part::Text(text) => text,
            Part::Date => iso_date(self.now.date),
            Part::Time => clock(self.now.time, self.hour_format),
            Part::Cursor => Seq::empty(),
            Part::Input => match self.input {
                Some(input) => input,
                None => "{input}"@,
            },
            Part::Tags => match self.tags {
                Some(tags) => tags,
                None => "{tags}"@,
            },
            Part::Selection => match self.selection() {
                Some(selection) => selection,
                None => "{selection}"@,
            },
            Part::File => match self.path() {
                Some(path) => match file_name(path) {
                    Some(name) => name,
                    None => Seq::empty(),
                },
                None => "{file}"@,
            },
            Part::Link => match (self.path(), self.context) {
                (Some(path), Some(context)) => match context.line_number {
                    Some(line) => {
                        let place = path + ":"@ + decimal(line as nat);
                        "["@ + place + "]("@ + place + ")"@
                    },
                    None => "{link}"@,
                },
                _ => "{link}"@,
            },
        }
    }
}

/// The texts that a function makes of some parts, one after the other.
pub open spec fn concat(parts: Seq<Part>, f: spec_fn(Part) -> Seq<char>) -> Seq<char>
    decreases parts.len(),
{
    if parts.len() == 0 {
        Seq::empty()
    } else {
        f(parts[0]) + concat(parts.skip(1), f)
    }
}

/// A text in which no placeholder begins.
pub open spec fn has_no_brace(text: Seq<char>) -> bool {
    forall|i: int| 0 <= i < text.len() ==> #[trigger] text[i] != '{'
}

/// One of the placeholders.
pub open spec fn is_placeholder(text: Seq<char>) -> bool {
    ||| text == "{date}"@
    ||| text == "{time}"@
    ||| text == "{cursor}"@
    ||| text == "{input}"@
    ||| text == "{tags}"@
    ||| text == "{selection}"@
    ||| text == "{file}"@
    ||| text == "{link}"@
}

proof fn lemma_placeholders()
    ensures
        forall|a: Seq<char>|
            #[trigger] is_placeholder(a) ==> {
                &&& a.len() >= 6
                &&& a[0] == '{'
                &&& has_no_brace(a.skip(1))
            },
        forall|a: Seq<char>, b: Seq<char>|
            #[trigger] is_placeholder(a) && #[trigger] is_placeholder(b) && a != b ==> a[1] != b[1]
                || a[2] != b[2],
{
    reveal_strlit("{date}");
    reveal_strlit("{time}");
    reveal_strlit("{cursor}");
    reveal_strlit("{input}");
    reveal_strlit("{tags}");
    reveal_strlit("{selection}");
    reveal_strlit("{file}");
    reveal_strlit("{link}");
}

proof fn lemma_replace_after(a: Seq<char>, s: Seq<char>, from: Seq<char>, to: Seq<char>)
    requires
        from.len() > 0,
        forall|j: int| 0 <= j < a.len() ==> !occurs_at(a + s, from, j),
    ensures
        replace(a + s, from, to) == a + replace(s, from, to),
{
    lemma_find(s, from);
    lemma_find(a + s, from);
    let n = a.len() as int;
    assert forall|j: int| 0 <= j implies occurs_at(a + s, from, n + j) == occurs_at(s, from, j) by {
        if n + j + from.len() <= (a + s).len() {
            assert((a + s).subrange(n + j, n + j + from.len()) == s.subrange(j, j + from.len()));
        }
    }
    match find(s, from) {
        Some(i) => {
            assert forall|j: int| 0 <= j < n + i implies !occurs_at(a + s, from, j) by {
                if j >= n {
                    assert(occurs_at(a + s, from, n + (j - n)) == occurs_at(s, from, j - n));
                }
            }
            assert(occurs_at(a + s, from, n + i));
            lemma_find_is(a + s, from, n + i);
            assert((a + s).take(n + i) == a + s.take(i));
            assert((a + s).skip(n + i + from.len()) == s.skip(i + from.len()));
            assert(a + s.take(i) + to + replace(s.skip(i + from.len()), from, to) == a + (s.take(i)
                + to + replace(s.skip(i + from.len()), from, to)));
        },
        None => {
            if find(a + s, from) is Some {
                let k = find(a + s, from)->0;
                assert(occurs_at(a + s, from, n + (k - n)) == occurs_at(s, from, k - n));
            }
        },
    }
}

proof fn lemma_replace_head(s: Seq<char>, from: Seq<char>, to: Seq<char>)
    requires
        from.len() > 0,
    ensures
        replace(from + s, from, to) == to + replace(s, from, to),
{
    assert((from + s).subrange(0, from.len() as int) == from);
    lemma_find_is(from + s, from, 0);
    assert((from + s).take(0) == Seq::<char>::empty());
    assert((from + s).skip(from.len() as int) == s);
    assert(Seq::<char>::empty() + to == to);
}

proof fn lemma_not_at(s: Seq<char>, word: Seq<char>, j: int, at: int)
    requires
        0 <= j,
        0 <= at < word.len(),
        j + at < s.len() ==> s[j + at] != word[at],
    ensures
        !occurs_at(s, word, j),
{
    if occurs_at(s, word, j) {
        assert(s.subrange(j, j + word.len())[at] == s[j + at]);
    }
}

/// Neither a text without a brace nor another placeholder begins an occurrence of a placeholder.
proof fn lemma_none_begins(a: Seq<char>, s: Seq<char>, word: Seq<char>)
    requires
        is_placeholder(word),
        has_no_brace(a) || is_placeholder(a) && a != word,
    ensures
        forall|j: int| 0 <= j < a.len() ==> !occurs_at(a + s, word, j),
{
    lemma_placeholders();
    assert forall|j: int| 0 <= j < a.len() implies !occurs_at(a + s, word, j) by {
        assert((a + s)[j] == a[j]);
        if is_placeholder(a) && a != word {
            if j == 0 {
                assert((a + s)[1] == a[1]);
                assert((a + s)[2] == a[2]);
                if a[1] != word[1] {
                    lemma_not_at(a + s, word, 0, 1);
                } else {
                    lemma_not_at(a + s, word, 0, 2);
                }
            } else {
                assert(a.skip(1)[j - 1] == a[j]);
                lemma_not_at(a + s, word, j, 0);
            }
        } else {
            lemma_not_at(a + s, word, j, 0);
        }
    }
}

proof fn lemma_replace_parts(
    parts: Seq<Part>,
    f: spec_fn(Part) -> Seq<char>,
    g: spec_fn(Part) -> Seq<char>,
    word: Seq<char>,
    value: Seq<char>,
)
    requires
        is_placeholder(word),
        forall|i: int|
            0 <= i < parts.len() ==> has_no_brace(f(#[trigger] parts[i])) || is_placeholder(
                f(parts[i]),
            ),
        forall|i: int|
            0 <= i < parts.len() ==> g(#[trigger] parts[i]) == if f(parts[i]) == word {
                value
            } else {
                f(parts[i])
            },
    ensures
        replace(concat(parts, f), word, value) == concat(parts, g),
    decreases parts.len(),
{
    lemma_placeholders();
    if parts.len() == 0 {
        assert(!contains(Seq::<char>::empty(), word));
        lemma_nothing_to_fill(Seq::<char>::empty(), word, value);
    } else {
        let rest = parts.skip(1);
        assert(forall|i: int| 0 <= i < rest.len() ==> rest[i] == parts[i + 1]);
        lemma_replace_parts(rest, f, g, word, value);
        let a = f(parts[0]);
        if a == word {
            lemma_replace_head(concat(rest, f), word, value);
        } else {
            lemma_none_begins(a, concat(rest, f), word);
            lemma_replace_after(a, concat(rest, f), word, value);
        }
    }
}

/// The turn in which a part gets its final text: texts have it from the beginning.
spec fn turn(part: Part) -> int {
    match part {
        Part::Text(_) => 0,
        Part::Date => 1,
        Part::Time => 2,
        Part::Cursor => 3,
        Part::Input => 4,
        Part::Tags => 5,
        Part::Selection => 6,
        Part::File => 7,
        Part::Link => 8,
    }
}

proof fn lemma_written(a: Part, b: Part)
    requires
        !(a is Text),
        !(b is Text),
    ensures
        is_placeholder(written(a)),
        written(a) == written(b) ==> a == b,
{
    reveal_strlit("{date}");
    reveal_strlit("{time}");
    reveal_strlit("{cursor}");
    reveal_strlit("{input}");
    reveal_strlit("{tags}");
    reveal_strlit("{selection}");
    reveal_strlit("{file}");
    reveal_strlit("{link}");
    if written(a) == written(b) {
        assert(written(a)[1] == written(b)[1]);
        assert(written(a)[2] == written(b)[2]);
    }
}

impl Taking {
    /// No placeholder begins in what takes the place of the placeholders.
    pub open spec fn has_no_braces(self) -> bool {
        &&& self.input matches Some(input) ==> has_no_brace(input)
        &&& self.tags matches Some(tags) ==> has_no_brace(tags)
        &&& self.selection() matches Some(selection) ==> has_no_brace(selection)
        &&& self.path() matches Some(path) ==> has_no_brace(path) && (file_name(path) matches Some(name)
            ==> has_no_brace(name))
    }

    /// What a part is after some turns.
    spec fn after_turns(self, turns: int) -> spec_fn(Part) -> Seq<char> {
        |part: Part|
            if turn(part) <= turns {
                self.in_place_of(part)
            } else {
                written(part)
            }
    }
}

proof fn lemma_digits_have_no_brace(s: Seq<char>)
    requires
        all_digits(s),
    ensures
        has_no_brace(s),
{
    assert forall|i: int| 0 <= i < s.len() implies #[trigger] s[i] != '{' by {
        assert(is_digit(s[i]));
    }
}

proof fn lemma_no_brace_concat(a: Seq<char>, b: Seq<char>)
    requires
        has_no_brace(a),
        has_no_brace(b),
    ensures
        has_no_brace(a + b),
{
    assert forall|i: int| 0 <= i < (a + b).len() implies #[trigger] (a + b)[i] != '{' by {
        if i < a.len() {
            assert((a + b)[i] == a[i]);
        } else {
            assert((a + b)[i] == b[i - a.len()]);
        }
    }
}

proof fn lemma_date_has_no_brace(at: DateTime)
    ensures
        has_no_brace(iso_date(at.date)),
{
    reveal_strlit("-");
    let year = at.date.year as int;
    let size = (if year < 0 {
        -year
    } else {
        year
    }) as nat;
    lemma_padded(size, 4);
    lemma_digits_have_no_brace(padded(size, 4));
    lemma_no_brace_concat(seq!['-'], padded(size, 4));
    lemma_no_brace_concat(seq!['+'], padded(size, 4));
    lemma_padded(at.date.month as nat, 2);
    lemma_padded(at.date.day as nat, 2);
    lemma_digits_have_no_brace(padded(at.date.month as nat, 2));
    lemma_digits_have_no_brace(padded(at.date.day as nat, 2));
    assert(has_no_brace(year_text(year)));
    lemma_no_brace_concat(year_text(year), "-"@);
    lemma_no_brace_concat(year_text(year) + "-"@, padded(at.date.month as nat, 2));
    lemma_no_brace_concat(year_text(year) + "-"@ + padded(at.date.month as nat, 2), "-"@);
    lemma_no_brace_concat(
        year_text(year) + "-"@ + padded(at.date.month as nat, 2) + "-"@,
        padded(at.date.day as nat, 2),
    );
}

proof fn lemma_clock_has_no_brace(time: Time, hour_format: HourFormat)
    ensures
        has_no_brace(clock(time, hour_format)),
{
    reveal_strlit(":");
    reveal_strlit(" ");
    reveal_strlit("PM");
    reveal_strlit("AM");
    let hour = match hour_format {
        HourFormat::Hour24 => time.hour as nat,
        HourFormat::Hour12 => if time.hour % 12 == 0 {
            12
        } else {
            (time.hour % 12) as nat
        },
    };
    lemma_decimal(hour);
    lemma_padded(time.minute as nat, 2);
    lemma_digits_have_no_brace(decimal(hour));
    lemma_digits_have_no_brace(padded(time.minute as nat, 2));
    lemma_no_brace_concat(decimal(hour), ":"@);
    let a = decimal(hour) + ":"@;
    lemma_no_brace_concat(a, padded(time.minute as nat, 2));
    let b = a + padded(time.minute as nat, 2);
    lemma_no_brace_concat(b, " "@);
    lemma_no_brace_concat(b + " "@, "PM"@);
    lemma_no_brace_concat(b + " "@, "AM"@);
}

proof fn lemma_link_has_no_brace(path: Seq<char>, line: nat)
    requires
        has_no_brace(path),
    ensures
        has_no_brace(link_to(path, line)),
        link_to(path, line) == "["@ + (path + ":"@ + decimal(line)) + "]("@ + (path + ":"@ + decimal(
            line,
        )) + ")"@,
{
    reveal_strlit("[");
    reveal_strlit(":");
    reveal_strlit("](");
    reveal_strlit(")");
    lemma_decimal(line);
    lemma_digits_have_no_brace(decimal(line));
    let place = path + ":"@ + decimal(line);
    lemma_no_brace_concat(path, ":"@);
    lemma_no_brace_concat(path + ":"@, decimal(line));
    lemma_no_brace_concat("["@, place);
    lemma_no_brace_concat("["@ + place, "]("@);
    lemma_no_brace_concat("["@ + place + "]("@, place);
    lemma_no_brace_concat("["@ + place + "]("@ + place, ")"@);
    assert(link_to(path, line) == "["@ + place + "]("@ + place + ")"@);
}

proof fn lemma_values(taking: Taking, part: Part)
    requires
        taking.has_no_braces(),
        part matches Part::Text(text) ==> has_no_brace(text),
    ensures
        has_no_brace(taking.in_place_of(part)) || !(part is Text) && taking.in_place_of(part)
            == written(part),
{
    lemma_date_has_no_brace(taking.now);
    lemma_clock_has_no_brace(taking.now.time, taking.hour_format);
    if let Some(context) = taking.context {
        if let (Some(path), Some(line)) = (context.file_path, context.line_number) {
            lemma_link_has_no_brace(path@, line as nat);
        }
    }
}

proof fn lemma_concat_same(
    parts: Seq<Part>,
    f: spec_fn(Part) -> Seq<char>,
    g: spec_fn(Part) -> Seq<char>,
)
    requires
        forall|i: int| 0 <= i < parts.len() ==> f(#[trigger] parts[i]) == g(parts[i]),
    ensures
        concat(parts, f) == concat(parts, g),
    decreases parts.len(),
{
    if parts.len() > 0 {
        let rest = parts.skip(1);
        assert(forall|i: int| 0 <= i < rest.len() ==> rest[i] == parts[i + 1]);
        lemma_concat_same(rest, f, g);
    }
}

proof fn lemma_turn(parts: Seq<Part>, taking: Taking, part: Part)
    requires
        taking.has_no_braces(),
        !(part is Text),
        forall|i: int|
            0 <= i < parts.len() ==> (#[trigger] parts[i] matches Part::Text(text) ==> has_no_brace(
                text,
            )),
    ensures
        ({
            let before = concat(parts, taking.after_turns(turn(part) - 1));
            let after = concat(parts, taking.after_turns(turn(part)));
            &&& replace(before, written(part), taking.in_place_of(part)) == after
            &&& taking.in_place_of(part) == written(part) ==> before == after
        }),
{
    let f = taking.after_turns(turn(part) - 1);
    let g = taking.after_turns(turn(part));
    lemma_written(part, part);
    lemma_placeholders();
    assert forall|i: int| 0 <= i < parts.len() implies {
        &&& has_no_brace(f(#[trigger] parts[i])) || is_placeholder(f(parts[i]))
        &&& g(parts[i]) == if f(parts[i]) == written(part) {
            taking.in_place_of(part)
        } else {
            f(parts[i])
        }
    } by {
        let other = parts[i];
        lemma_values(taking, other);
        if !(other is Text) {
            lemma_written(part, other);
        }
        if has_no_brace(f(other)) {
            assert(written(part)[0] == '{');
            assert(f(other) != written(part));
        }
    }
    lemma_replace_parts(parts, f, g, written(part), taking.in_place_of(part));
    if taking.in_place_of(part) == written(part) {
        assert forall|i: int| 0 <= i < parts.len() implies f(#[trigger] parts[i]) == g(parts[i]) by {
            if turn(parts[i]) == turn(part) {
                assert(parts[i] == part);
            }
        }
        lemma_concat_same(parts, f, g);
    }
}

/// A note has, in the place of each part of its template, what that part stands for, whatever the
/// other parts are and whether or not they have something to stand for: texts stay; the cursor
/// goes; the date, the time, what was typed, the tags, the selected text, the name of the file and
/// the link to the line take the places of their placeholders, each as often as it is asked for;
/// and a placeholder stays where there is nothing to take its place. The texts and what takes the
/// place of the placeholders have no opening braces.
pub proof fn lemma_note_by_parts(parts: Seq<Part>, taking: Taking)
    requires
        taking.has_no_braces(),
        forall|i: int|
            0 <= i < parts.len() ==> (#[trigger] parts[i] matches Part::Text(text) ==> has_no_brace(
                text,
            )),
    ensures
        taking.note(concat(parts, |part: Part| written(part))) == concat(
            parts,
            |part: Part| taking.in_place_of(part),
        ),
{
    reveal_strlit("");
    assert(""@ == Seq::<char>::empty());
    lemma_turn(parts, taking, Part::Date);
    lemma_turn(parts, taking, Part::Time);
    lemma_turn(parts, taking, Part::Cursor);
    lemma_turn(parts, taking, Part::Input);
    lemma_turn(parts, taking, Part::Tags);
    lemma_turn(parts, taking, Part::Selection);
    lemma_turn(parts, taking, Part::File);
    lemma_turn(parts, taking, Part::Link);
    lemma_concat_same(parts, |part: Part| written(part), taking.after_turns(0));
    lemma_concat_same(parts, |part: Part| taking.in_place_of(part), taking.after_turns(8));
    if let Some(context) = taking.context {
        if let (Some(path), Some(line)) = (context.file_path, context.line_number) {
            lemma_link_has_no_brace(path@, line as nat);
        }
    }
}

/// A placeholder stands nowhere in two texts and another placeholder between them, if it stands
/// in neither of the two.
proof fn lemma_none_around(p: Seq<char>, between: Seq<char>, q: Seq<char>, word: Seq<char>, j: int)
    requires
        is_placeholder(between),
        is_placeholder(word),
        !contains(p, word),
        !contains(q, word),
        j != p.len() || between != word,
    ensures
        !occurs_at(p + between + q, word, j),
{
    let s = p + between + q;
    lemma_placeholders();
    if occurs_at(s, word, j) {
        let n = p.len() as int;
        let m = between.len() as int;
        assert(forall|i: int| 0 <= i < word.len() ==> #[trigger] word[i] == s[j + i]);
        if j + word.len() <= n {
            assert(p.subrange(j, j + word.len()) == word);
            assert(occurs_at(p, word, j));
        } else if j < n {
            assert(s[n] == between[0]);
            assert(word[n - j] == '{');
            assert(word.skip(1)[n - j - 1] == '{');
        } else if j == n {
            assert(s[n + 1] == between[1]);
            assert(s[n + 2] == between[2]);
            assert(word[1] == s[j + 1]);
            assert(word[2] == s[j + 2]);
        } else if j < n + m {
            assert(s[j] == between[j - n]);
            assert(word[0] == s[j + 0]);
            assert(between.skip(1)[j - n - 1] == '{');
        } else {
            assert(q.subrange(j - n - m, j - n - m + word.len()) == word);
            assert(occurs_at(q, word, j - n - m));
        }
    }
}

proof fn lemma_fill_between(
    p: Seq<char>,
    between: Seq<char>,
    q: Seq<char>,
    word: Seq<char>,
    value: Seq<char>,
)
    requires
        is_placeholder(between),
        is_placeholder(word),
        !contains(p, word),
        !contains(q, word),
    ensures
        replace(p + between + q, word, value) == if between == word {
            p + value + q
        } else {
            p + between + q
        },
{
    let s = p + between + q;
    lemma_placeholders();
    if between == word {
        assert forall|j: int| 0 <= j < p.len() implies !occurs_at(p + (word + q), word, j) by {
            lemma_none_around(p, between, q, word, j);
            assert(p + (word + q) == s);
        }
        lemma_replace_after(p, word + q, word, value);
        lemma_replace_head(q, word, value);
        lemma_nothing_to_fill(q, word, value);
        assert(p + (word + q) == s);
        assert(p + (value + q) == p + value + q);
    } else {
        assert forall|j: int| !occurs_at(s, word, j) by {
            lemma_none_around(p, between, q, word, j);
        }
        lemma_nothing_to_fill(s, word, value);
    }
}

/// A template with one placeholder, between two texts without any, gives a note in which what the
/// placeholder stands for is between the two texts, unless a new placeholder is made of the three.
pub proof fn lemma_one_placeholder(p: Seq<char>, part: Part, q: Seq<char>, taking: Taking)
    requires
        !(part is Text),
        lacks_placeholders(p),
        lacks_placeholders(q),
        taking.in_place_of(part) == written(part) || lacks_placeholders(
            p + taking.in_place_of(part) + q,
        ),
    ensures
        taking.note(p + written(part) + q) == p + taking.in_place_of(part) + q,
{
    reveal_strlit("");
    assert(""@ == Seq::<char>::empty());
    let v = taking.in_place_of(part);
    let s = p + written(part) + q;
    let t = p + v + q;
    lemma_written(part, part);
    lemma_fill_at(p, part, q, t, Part::Date, taking.in_place_of(Part::Date));
    lemma_fill_at(p, part, q, t, Part::Time, taking.in_place_of(Part::Time));
    lemma_fill_at(p, part, q, t, Part::Cursor, taking.in_place_of(Part::Cursor));
    lemma_fill_at(p, part, q, t, Part::Input, taking.in_place_of(Part::Input));
    lemma_fill_at(p, part, q, t, Part::Tags, taking.in_place_of(Part::Tags));
    lemma_fill_at(p, part, q, t, Part::Selection, taking.in_place_of(Part::Selection));
    lemma_fill_at(p, part, q, t, Part::File, taking.in_place_of(Part::File));
    lemma_fill_at(p, part, q, t, Part::Link, taking.in_place_of(Part::Link));
    if let Some(context) = taking.context {
        if let (Some(path), Some(line)) = (context.file_path, context.line_number) {
            assert(link_to(path@, line as nat) == taking.in_place_of(Part::Link));
        }
    }
}

proof fn lemma_fill_at(
    p: Seq<char>,
    part: Part,
    q: Seq<char>,
    done: Seq<char>,
    word: Part,
    value: Seq<char>,
)
    requires
        !(part is Text),
        !(word is Text),
        lacks_placeholders(p),
        lacks_placeholders(q),
    ensures
        replace(p + written(part) + q, written(word), value) == if part == word {
            p + value + q
        } else {
            p + written(part) + q
        },
        lacks_placeholders(done) ==> replace(done, written(word), value) == done,
{
    lemma_written(part, word);
    lemma_written(word, word);
    lemma_fill_between(p, written(part), q, written(word), value);
    if lacks_placeholders(done) {
        lemma_nothing_to_fill(done, written(word), value);
    }
}

/// What was typed takes the place of its placeholder, whatever tags there are or are not: the note
/// has it between the texts around it, and the placeholder is gone.
pub proof fn lemma_input_is_filled_in(p: Seq<char>, typed: Seq<char>, q: Seq<char>, taking: Taking)
    requires
        taking.input == Some(typed),
        lacks_placeholders(p),
        lacks_placeholders(q),
        lacks_placeholders(p + typed + q),
    ensures
        taking.note(p + "{input}"@ + q) == p + typed + q,
        !contains(taking.note(p + "{input}"@ + q), "{input}"@),
{
    lemma_one_placeholder(p, Part::Input, q, taking);
}

/// Where what was typed and the texts of a template have no opening braces, the note has no
/// placeholder for what was typed left, whatever other placeholders the template has.
pub proof fn lemma_no_input_left(parts: Seq<Part>, taking: Taking)
    requires
        taking.has_no_braces(),
        taking.input is Some,
        forall|i: int|
            0 <= i < parts.len() ==> (#[trigger] parts[i] matches Part::Text(text) ==> has_no_brace(
                text,
            )),
    ensures
        !contains(taking.note(concat(parts, |part: Part| written(part))), "{input}"@),
{
    lemma_note_by_parts(parts, taking);
    lemma_lacks_input(parts, taking);
}

proof fn lemma_lacks_input(parts: Seq<Part>, taking: Taking)
    requires
        taking.has_no_braces(),
        taking.input is Some,
        forall|i: int|
            0 <= i < parts.len() ==> (#[trigger] parts[i] matches Part::Text(text) ==> has_no_brace(
                text,
            )),
    ensures
        !contains(concat(parts, |part: Part| taking.in_place_of(part)), "{input}"@),
    decreases parts.len(),
{
    let f = |part: Part| taking.in_place_of(part);
    let word = "{input}"@;
    lemma_placeholders();
    assert(is_placeholder(word));
    if parts.len() > 0 {
        let rest = parts.skip(1);
        assert(forall|i: int| 0 <= i < rest.len() ==> rest[i] == parts[i + 1]);
        lemma_lacks_input(rest, taking);
        let a = f(parts[0]);
        let s = concat(rest, f);
        lemma_values(taking, parts[0]);
        if !(parts[0] is Text) {
            lemma_written(parts[0], Part::Input);
        }
        if a == word {
            assert(a[0] == '{');
            assert(parts[0] == Part::Input);
        }
        lemma_none_begins(a, s, word);
        assert forall|j: int| !occurs_at(a + s, word, j) by {
            if j >= a.len() && j + word.len() <= (a + s).len() {
                assert((a + s).subrange(j, j + word.len()) == s.subrange(
                    j - a.len(),
                    j - a.len() + word.len(),
                ));
                assert(!occurs_at(s, word, j - a.len()));
            }
        }
        assert(concat(parts, f) == a + s);
    }
}

} // verus!
