//! Where a journal lies, and how a new entry in it begins.
use crate::calendar::{date_with_weekday, iso_date, local_now, weekday_name, Date, DateTime, Time};
use crate::number::{decimal, decimal_text, padded, padded_text};
use crate::paths::{
    ends_with_path, inside, is_rooted, is_same_path, join_inside, join_path, joined,
    lemma_inside_begins, lemma_inside_rooted, lemma_rooted_start, path_ends_with, path_is_rooted,
    same_path, PathStyle,
};
use crate::patterns::{lacks, option_text};
use crate::repeater::option_str;
use crate::settings::HourFormat;
use crate::text::{
    alphanumeric, chars_of, contains, contains_text, index_of, lemma_index_of, lemma_index_of_none,
    occurs_at, starts_with, texts,
};
use vstd::prelude::*;
use vstd::string::*;

verus! {

/// The character may stand in the name of a variable.
pub open spec fn is_variable_char(c: char) -> bool {
    alphanumeric(c) || c == '_'
}

/// The variables in a path can be told apart: none of them begins with a letter or a digit that is
/// not ASCII. A dollar sign after another is no variable, and neither is what stands between
/// braces.
pub open spec fn is_expandable(path: Seq<char>) -> bool
    decreases path.len(),
{
    if path.len() < 2 {
        true
    } else if path[0] != '$' {
        is_expandable(path.skip(1))
    } else if path[1] == '{' {
        match index_of(path, '}') {
            Some(i) => if 0 <= i < path.len() {
                is_expandable(path.skip(i + 1))
            } else {
                true
            },
            None => is_expandable(path.skip(2)),
        }
    } else if is_variable_char(path[1]) {
        path[1] <= '\u{7f}' && is_expandable(path.skip(1))
    } else if path[1] == '$' {
        is_expandable(path.skip(2))
    } else {
        is_expandable(path.skip(1))
    }
}

/// Whether the variables in a path can be told apart.
pub fn can_expand(path: &str) -> (r: bool)
    ensures
        r == is_expandable(path@),
{
    let cs = chars_of(path);
    let n = cs.len();
    let mut i: usize = 0;
    assert(path@.skip(0) == path@);
    while i < n && n - i >= 2
        invariant
            cs@ == path@,
            n == cs@.len(),
            i <= n,
            is_expandable(path@) == is_expandable(path@.skip(i as int)),
        decreases n - i,
    {
        let ghost rest = path@.skip(i as int);
        assert(rest[0] == cs@[i as int] && rest[1] == cs@[i + 1]);
        assert(rest.skip(1) == path@.skip(i + 1));
        assert(rest.skip(2) == path@.skip(i + 2));
        let next = cs[i + 1];
        if cs[i] != '$' {
            i += 1;
        } else if next == '{' {
            let mut j: usize = i;
            while j < n && cs[j] != '}'
                invariant
                    cs@ == path@,
                    n == cs@.len(),
                    i <= j <= n,
                    rest == path@.skip(i as int),
                    forall|k: int| i <= k < j ==> cs@[k] != '}',
                decreases n - j,
            {
                j += 1;
            }
            if j < n {
                proof {
                    assert forall|k: int| 0 <= k < j - i implies rest[k] != '}' by {
                        assert(rest[k] == cs@[i + k]);
                    }
                    assert(rest[j - i] == '}');
                    lemma_index_of(rest, '}', j - i);
                    assert(rest.skip(j - i + 1) == path@.skip(j + 1));
                }
                i = j + 1;
            } else {
                proof {
                    assert forall|k: int| 0 <= k < rest.len() implies rest[k] != '}' by {
                        assert(rest[k] == cs@[i + k]);
                    }
                    lemma_index_of_none(rest, '}');
                }
                i += 2;
            }
        } else if next.is_alphanumeric() || next == '_' {
            if next > '\u{7f}' {
                return false;
            }
            i += 1;
        } else if next == '$' {
            i += 2;
        } else {
            i += 1;
        }
    }
    true
}

/// The path begins with a tilde that can stand for the home directory: nothing or a separator
/// follows it.
pub open spec fn begins_at_home(path: Seq<char>) -> bool {
    path.len() > 0 && path[0] == '~' && (path.len() == 1 || path[1] == '/' || path[1] == '\\')
}

/// What a path without variables expands to: the path itself, or, where it begins with a tilde
/// that can stand for the home directory, what follows the tilde after some text or after the tilde.
pub open spec fn expands_plainly(path: Seq<char>, expanded: Option<Seq<char>>) -> bool {
    &&& expanded is Some
    &&& !begins_at_home(path) ==> expanded == Some(path)
    &&& begins_at_home(path) ==> exists|home: Seq<char>| expanded == Some(#[trigger] (home + path.skip(1)))
}

/// What stands before the first dollar sign of a path.
pub open spec fn before_variables(path: Seq<char>) -> Seq<char> {
    match index_of(path, '$') {
        Some(i) => path.take(i),
        None => path,
    }
}

/// The path begins with a tilde.
pub open spec fn begins_with_tilde(path: Seq<char>) -> bool {
    path.len() > 0 && path[0] == '~'
}

/// What a path with variables expands to, if it does: it begins with what stands before the first
/// dollar sign, in which some text may stand for a tilde that the path begins with.
pub open spec fn expands_from_start(path: Seq<char>, expanded: Option<Seq<char>>) -> bool {
    expanded matches Some(text) ==> if begins_with_tilde(path) {
        exists|home: Seq<char>|
            starts_with(text, #[trigger] (home + before_variables(path).skip(1)))
    } else {
        starts_with(text, before_variables(path))
    }
}

/// What a path may expand to.
pub open spec fn is_expansion(path: Seq<char>, expanded: Option<Seq<char>>) -> bool {
    if lacks(path, '$') {
        expands_plainly(path, expanded)
    } else {
        expands_from_start(path, expanded)
    }
}

/// A path with its variables and its tilde expanded, through `shellexpand::full`. Nothing is
/// expanded where a variable is not set. A path without variables expands to itself, but for a tilde
/// that it begins with; what stands before the first dollar sign of another begins what it expands
/// to. What a variable or the tilde stands for, and whether a variable is set, depends on the
/// machine and is left unsaid.
#[verifier::external_body]
fn expand(path: &str) -> (r: Option<String>)
    requires
        is_expandable(path@),
    ensures
        is_expansion(path@, option_text(r)),
{
    shellexpand::full(path).ok().map(|expanded| expanded.into_owned())
}

/// The directory of a journal, given what its path expands to and the home directory: one inside
/// the path, or inside the home directory where the path does not begin at a root.
pub open spec fn journal_dir_at(
    expanded: Option<Seq<char>>,
    home: Option<Seq<char>>,
    style: PathStyle,
) -> Option<Seq<char>> {
    match expanded {
        Some(path) => if is_rooted(path, style) {
            Some(inside(path, "journal"@, style))
        } else {
            match home {
                Some(home) => Some(inside(home, "journal"@, style)),
                None => None,
            }
        },
        None => None,
    }
}

/// The directory of a journal, given what its path expands to and the home directory.
pub fn journal_dir_from(expanded: Option<&str>, home: Option<&str>, style: PathStyle) -> (r: Option<String>)
    ensures
        option_text(r) == journal_dir_at(option_str(expanded), option_str(home), style),
{
    let path = expanded?;
    if path_is_rooted(path, style) {
        Some(join_inside(path, "journal", style))
    } else {
        Some(join_inside(home?, "journal", style))
    }
}

/// A directory, if there is one, begins with what stands before the first dollar sign of a path, if
/// that begins at a root.
pub open spec fn lies_below_start(
    path: Seq<char>,
    dir: Option<Seq<char>>,
    style: PathStyle,
) -> bool {
    !begins_with_tilde(path) && is_rooted(before_variables(path), style) ==> (dir matches Some(d)
        ==> starts_with(d, before_variables(path)))
}

/// The directory of a journal begins with what stands before the first dollar sign of its path, if
/// that begins at a root; and there is such a directory wherever the path expands.
pub proof fn lemma_dir_begins(
    path: Seq<char>,
    expanded: Option<Seq<char>>,
    home: Option<Seq<char>>,
    style: PathStyle,
)
    requires
        is_expansion(path, expanded),
    ensures
        lies_below_start(path, journal_dir_at(expanded, home, style), style),
        !begins_with_tilde(path) && is_rooted(before_variables(path), style) ==> (
        journal_dir_at(expanded, home, style) is Some <==> expanded is Some),
{
    if !begins_with_tilde(path) && is_rooted(before_variables(path), style) {
        if let Some(text) = expanded {
            let start = before_variables(path);
            if lacks(path, '$') {
                lemma_index_of_none(path, '$');
                assert(text.subrange(0, text.len() as int) == text);
            }
            lemma_rooted_start(start, text, style);
            lemma_inside_begins(text, "journal"@, style);
            let dir = inside(text, "journal"@, style);
            reveal_strlit("journal");
            assert(dir.subrange(0, start.len() as int) == text.subrange(0, start.len() as int));
        }
    }
}

/// The directory of a journal, given its path and the home directory.
pub fn journal_dir(path: &str, home: Option<&str>, style: PathStyle) -> (r: Option<String>)
    requires
        is_expandable(path@),
    ensures
        exists|expanded: Option<Seq<char>>|
            option_text(r) == #[trigger] journal_dir_at(expanded, option_str(home), style)
                && is_expansion(path@, expanded),
        lies_below_start(path@, option_text(r), style),
        lacks(path@, '$') && !begins_at_home(path@) ==> option_text(r) == journal_dir_at(
            Some(path@),
            option_str(home),
            style,
        ),
{
    let expanded = expand(path);
    let r = match &expanded {
        Some(expanded) => journal_dir_from(Some(expanded.as_str()), home, style),
        None => None,
    };
    assert(option_text(r) == journal_dir_at(option_text(expanded), option_str(home), style));
    proof {
        lemma_dir_begins(path@, option_text(expanded), option_str(home), style);
    }
    r
}

/// The directory of a journal, given its path and the home directory, where the variables in the
/// path can be told apart.
pub fn try_journal_dir(path: &str, home: Option<&str>, style: PathStyle) -> (r: Option<Option<String>>)
    ensures
        match r {
            Some(dir) => {
                &&& is_expandable(path@)
                &&& exists|expanded: Option<Seq<char>>|
                    option_text(dir) == #[trigger] journal_dir_at(expanded, option_str(home), style)
                        && is_expansion(path@, expanded)
                &&& lies_below_start(path@, option_text(dir), style)
                &&& lacks(path@, '$') && !begins_at_home(path@) ==> option_text(dir)
                    == journal_dir_at(Some(path@), option_str(home), style)
            },
            None => !is_expandable(path@),
        },
{
    if can_expand(path) {
        Some(journal_dir(path, home, style))
    } else {
        None
    }
}

/// The directory of a journal begins at a root, if the home directory does.
pub proof fn lemma_journal_dir_absolute(
    expanded: Option<Seq<char>>,
    home: Option<Seq<char>>,
    style: PathStyle,
)
    requires
        home matches Some(dir) ==> is_rooted(dir, style),
    ensures
        journal_dir_at(expanded, home, style) matches Some(dir) ==> is_rooted(dir, style),
{
    reveal_strlit("journal");
    if let Some(path) = expanded {
        if is_rooted(path, style) {
            lemma_inside_rooted(path, "journal"@, style);
        } else if let Some(dir) = home {
            lemma_inside_rooted(dir, "journal"@, style);
        }
    }
}

/// A time on the clock.
pub open spec fn clock(time: Time, hour_format: HourFormat) -> Seq<char> {
    match hour_format {
        HourFormat::Hour24 => decimal(time.hour as nat) + ":"@ + padded(time.minute as nat, 2),
        HourFormat::Hour12 => {
            let hour = if time.hour % 12 == 0 {
                12
            } else {
                time.hour % 12
            };
            decimal(hour as nat) + ":"@ + padded(time.minute as nat, 2) + " "@ + if time.hour >= 12 {
                "PM"@
            } else {
                "AM"@
            }
        },
    }
}

/// A time on the clock.
pub fn clock_text(time: Time, hour_format: &HourFormat) -> (r: String)
    requires
        time.valid(),
    ensures
        r@ == clock(time, *hour_format),
{
    let minute = padded_text(time.minute as u128, 2);
    match hour_format {
        HourFormat::Hour24 => {
            let mut r = decimal_text(time.hour as u128);
            r.append(":");
            r.append(minute.as_str());
            r
        },
        HourFormat::Hour12 => {
            let hour: u32 = if time.hour % 12 == 0 {
                12
            } else {
                time.hour % 12
            };
            let mut r = decimal_text(hour as u128);
            r.append(":");
            r.append(minute.as_str());
            r.append(" ");
            r.append(
                if time.hour >= 12 {
                    "PM"
                } else {
                    "AM"
                },
            );
            r
        },
    }
}

/// The heading of what is written at a time, under the heading of its day.
pub fn time_heading(now: Time, hour_format: &HourFormat) -> (r: String)
    requires
        now.valid(),
    ensures
        r@ == "** "@ + clock(now, *hour_format),
{
    let mut r = "** ".to_owned();
    let time = clock_text(now, hour_format);
    r.append(time.as_str());
    r
}

/// The heading of an entry that stands by itself.
pub fn heading_entry(now: Time, hour_format: &HourFormat) -> (r: String)
    requires
        now.valid(),
    ensures
        r@ == "# "@ + clock(now, *hour_format),
{
    let mut r = "# ".to_owned();
    let time = clock_text(now, hour_format);
    r.append(time.as_str());
    r
}

/// The heading of a day.
pub open spec fn date_heading(date: Date) -> Seq<char> {
    "* "@ + (iso_date(date) + " "@ + weekday_name(date.weekday()))
}

/// A new entry: the journal's directory and file, and the headings of the day and of the time.
#[derive(Debug)]
pub struct NewEntry {
    pub journal_dir: String,
    pub entry_path: String,
    pub date_heading: String,
    pub time_heading: String,
}

impl NewEntry {
    /// The entry is one in a directory, at a time.
    pub open spec fn begins(
        self,
        dir: Seq<char>,
        style: PathStyle,
        hour_format: HourFormat,
        now: DateTime,
    ) -> bool {
        &&& self.journal_dir@ == dir
        &&& self.entry_path@ == inside(dir, "journal.org"@, style)
        &&& self.date_heading@ == date_heading(now.date)
        &&& self.time_heading@ == "** "@ + clock(now.time, hour_format)
    }
}

/// A new entry in a directory, at a time.
pub fn new_journal_entry_at(
    journal_dir: &str,
    style: PathStyle,
    hour_format: &HourFormat,
    now: DateTime,
) -> (r: NewEntry)
    requires
        now.valid(),
    ensures
        r.begins(journal_dir@, style, *hour_format, now),
{
    let mut heading = "* ".to_owned();
    let date = date_with_weekday(now.date);
    heading.append(date.as_str());
    NewEntry {
        journal_dir: journal_dir.to_owned(),
        entry_path: join_inside(journal_dir, "journal.org", style),
        date_heading: heading,
        time_heading: time_heading(now.time, hour_format),
    }
}

/// A new entry in the journal with a path, now. There is none where the journal's directory cannot
/// be determined.
pub fn new_journal_entry(
    path: &str,
    home: Option<&str>,
    style: PathStyle,
    hour_format: &HourFormat,
) -> (r: Option<NewEntry>)
    requires
        is_expandable(path@),
    ensures
        exists|expanded: Option<Seq<char>>, now: DateTime|
            #![trigger journal_dir_at(expanded, option_str(home), style), now.valid()]
            now.valid() && is_expansion(path@, expanded) && match (
                journal_dir_at(expanded, option_str(home), style),
                r,
            ) {
                (Some(dir), Some(entry)) => entry.begins(dir, style, *hour_format, now),
                (None, None) => true,
                _ => false,
            },
{
    let now = local_now();
    let dir = journal_dir(path, home, style);
    let r = match &dir {
        Some(dir) => Some(new_journal_entry_at(dir.as_str(), style, hour_format, now)),
        None => None,
    };
    proof {
        let expanded = choose|expanded: Option<Seq<char>>|
            option_text(dir) == #[trigger] journal_dir_at(expanded, option_str(home), style)
                && is_expansion(path@, expanded);
        assert(journal_dir_at(expanded, option_str(home), style) == option_text(dir));
        assert(now.valid());
    }
    r
}

/// A new entry in the journal with a path, now, where the variables in the path can be told apart.
pub fn try_new_journal_entry(
    path: &str,
    home: Option<&str>,
    style: PathStyle,
    hour_format: &HourFormat,
) -> (r: Option<Option<NewEntry>>)
    ensures
        match r {
            Some(entry) => is_expandable(path@) && exists|
                expanded: Option<Seq<char>>,
                now: DateTime,
            |
                #![trigger journal_dir_at(expanded, option_str(home), style), now.valid()]
                now.valid() && is_expansion(path@, expanded) && match (
                    journal_dir_at(expanded, option_str(home), style),
                    entry,
                ) {
                    (Some(dir), Some(entry)) => entry.begins(dir, style, *hour_format, now),
                    (None, None) => true,
                    _ => false,
                },
            None => !is_expandable(path@),
        },
{
    if can_expand(path) {
        Some(new_journal_entry(path, home, style, hour_format))
    } else {
        None
    }
}

/// Whether an entry needs the heading of its day: it does not where that heading stands in the
/// file.
pub fn needs_date_heading(existing_content: &str, date_heading: &str) -> (r: bool)
    ensures
        r == !contains(existing_content@, date_heading@),
{
    !contains_text(existing_content, date_heading)
}

/// What is put at the end of the journal's file for a new entry, piece by piece.
pub open spec fn entry_pieces(
    file_is_empty: bool,
    date_heading: Option<Seq<char>>,
    time_heading: Seq<char>,
) -> Seq<Seq<char>> {
    (if file_is_empty {
        Seq::empty()
    } else {
        seq!["\n\n"@]
    }) + (match date_heading {
        Some(heading) => seq![heading, "\n\n"@],
        None => Seq::empty(),
    }) + seq![time_heading, "\n\n"@]
}

/// What is put at the end of the journal's file for a new entry, piece by piece: an empty line
/// before it unless the file is empty, the heading of the day if it is needed, and the heading of
/// the time.
pub fn entry_insertions(
    file_is_empty: bool,
    needs_date_heading: bool,
    date_heading: &str,
    time_heading: &str,
) -> (r: Vec<String>)
    ensures
        texts(r@) == entry_pieces(
            file_is_empty,
            if needs_date_heading {
                Some(date_heading@)
            } else {
                None
            },
            time_heading@,
        ),
{
    let mut r: Vec<String> = Vec::new();
    if !file_is_empty {
        r.push("\n\n".to_owned());
    }
    if needs_date_heading {
        r.push(date_heading.to_owned());
        r.push("\n\n".to_owned());
    }
    r.push(time_heading.to_owned());
    r.push("\n\n".to_owned());
    assert(texts(r@) == entry_pieces(
        file_is_empty,
        if needs_date_heading {
            Some(date_heading@)
        } else {
            None
        },
        time_heading@,
    ));
    r
}

/// Some pieces, one after the other.
pub open spec fn concatenated(pieces: Seq<Seq<char>>) -> Seq<char>
    decreases pieces.len(),
{
    if pieces.len() == 0 {
        Seq::empty()
    } else {
        concatenated(pieces.drop_last()) + pieces.last()
    }
}

/// A piece stands in what the pieces make up.
proof fn lemma_piece_stands(pieces: Seq<Seq<char>>, i: int)
    requires
        0 <= i < pieces.len(),
    ensures
        contains(concatenated(pieces), pieces[i]),
    decreases pieces.len(),
{
    let init = pieces.drop_last();
    let all = concatenated(pieces);
    if i == pieces.len() - 1 {
        let start = concatenated(init).len() as int;
        assert(all.subrange(start, start + pieces[i].len()) == pieces[i]);
        assert(occurs_at(all, pieces[i], start));
    } else {
        lemma_piece_stands(init, i);
        let part = concatenated(init);
        let k = choose|k: int| occurs_at(part, pieces[i], k);
        assert(all.subrange(k, k + pieces[i].len()) == part.subrange(k, k + pieces[i].len()));
        assert(occurs_at(all, pieces[i], k));
    }
}

/// Once an entry was added, the heading of its day stands in the journal's file: it stood there,
/// or came with the entry. So the next entry of that day needs no heading.
pub proof fn lemma_day_has_heading(
    existing_content: Seq<char>,
    date_heading: Seq<char>,
    time_heading: Seq<char>,
)
    ensures
        contains(
            existing_content + concatenated(
                entry_pieces(
                    existing_content.len() == 0,
                    if contains(existing_content, date_heading) {
                        None
                    } else {
                        Some(date_heading)
                    },
                    time_heading,
                ),
            ),
            date_heading,
        ),
{
    let needed = !contains(existing_content, date_heading);
    let pieces = entry_pieces(
        existing_content.len() == 0,
        if needed {
            Some(date_heading)
        } else {
            None
        },
        time_heading,
    );
    let end = concatenated(pieces);
    let all = existing_content + end;
    if needed {
        let i = if existing_content.len() == 0 {
            0int
        } else {
            1
        };
        assert(pieces[i] == date_heading);
        lemma_piece_stands(pieces, i);
        let k = choose|k: int| occurs_at(end, date_heading, k);
        let start = existing_content.len() + k;
        assert(all.subrange(start, start + date_heading.len()) == end.subrange(
            k,
            k + date_heading.len(),
        ));
        assert(occurs_at(all, date_heading, start));
    } else {
        let k = choose|k: int| occurs_at(existing_content, date_heading, k);
        assert(all.subrange(k, k + date_heading.len()) == existing_content.subrange(
            k,
            k + date_heading.len(),
        ));
        assert(occurs_at(all, date_heading, k));
    }
}

/// A directory that is open, and the directories right inside it.
#[derive(Debug)]
pub struct Worktree {
    pub root: String,
    pub directories: Vec<String>,
}

impl Worktree {
    /// The journal's directory is this one, or one inside it ends with the journal's path.
    pub open spec fn holds(self, journal_dir: Seq<char>) -> bool {
        ||| same_path(self.root@, journal_dir)
        ||| exists|i: int|
            0 <= i < self.directories@.len() && path_ends_with(
                joined(self.root@, (#[trigger] self.directories@[i])@),
                journal_dir,
            )
    }

    /// Whether the journal's directory is this one, or one inside it ends with the journal's path.
    pub fn has_journal(&self, journal_dir: &str) -> (r: bool)
        ensures
            r == self.holds(journal_dir@),
    {
        if is_same_path(self.root.as_str(), journal_dir) {
            return true;
        }
        let mut i: usize = 0;
        while i < self.directories.len()
            invariant
                i <= self.directories@.len(),
                forall|j: int|
                    0 <= j < i ==> !path_ends_with(
                        joined(self.root@, (#[trigger] self.directories@[j])@),
                        journal_dir@,
                    ),
            decreases self.directories@.len() - i,
        {
            let full = join_path(self.root.as_str(), self.directories[i].as_str());
            if ends_with_path(full.as_str(), journal_dir) {
                return true;
            }
            i += 1;
        }
        false
    }
}

/// Whether the journal is to be opened in a workspace of its own: where none of the directories
/// that are open holds it.
pub fn opens_new_workspace(worktrees: &Vec<Worktree>, journal_dir: &str) -> (r: bool)
    ensures
        r == forall|i: int|
            0 <= i < worktrees@.len() ==> !(#[trigger] worktrees@[i]).holds(journal_dir@),
{
    let mut i: usize = 0;
    while i < worktrees.len()
        invariant
            i <= worktrees@.len(),
            forall|j: int| 0 <= j < i ==> !(#[trigger] worktrees@[j]).holds(journal_dir@),
        decreases worktrees@.len() - i,
    {
        if worktrees[i].has_journal(journal_dir) {
            return false;
        }
        i += 1;
    }
    true
}

} // verus!
