//! What a new entry of a journal says, and where it stands.
use crate::calendar::{iso_date, stamp, weekday_abbreviation, weekday_name, Date, DateTime, Time};
use crate::entry::{
    clock, concatenated, date_heading, entry_pieces, journal_dir_at, NewEntry, Worktree,
};
use crate::number::{
    all_digits, decimal, lemma_decimal, lemma_decimal_len, lemma_padded, padded, value,
};
use crate::paths::{
    components, inside, is_plain_name, is_rooted, joined, lemma_components_joined, path_ends_with,
    PathStyle,
};
use crate::settings::HourFormat;
use vstd::prelude::*;
use vstd::string::*;

verus! {

/// What a clock shows can be read: the digits before the colon are the hour, with twelve for
/// midnight and noon where there are twelve hours, and the two digits after it are the minute;
/// there `AM` follows up to noon and `PM` from noon on, and otherwise nothing.
pub proof fn lemma_clock_reads(time: Time, hour_format: HourFormat)
    requires
        time.valid(),
    ensures
        ({
            let shown = clock(time, hour_format);
            let end: int = if hour_format is Hour12 {
                shown.len() - 3
            } else {
                shown.len() as int
            };
            let hour = shown.subrange(0, end - 3);
            let minute = shown.subrange(end - 2, end);
            &&& end > 3
            &&& shown[end - 3] == ':'
            &&& all_digits(hour) && all_digits(minute)
            &&& value(minute) == time.minute
            &&& hour_format is Hour24 ==> value(hour) == time.hour
            &&& hour_format is Hour12 ==> 1 <= value(hour) <= 12
            &&& hour_format is Hour12 && time.hour < 12 ==> shown.skip(end) == " AM"@ && value(hour)
                % 12 == time.hour
            &&& hour_format is Hour12 && time.hour >= 12 ==> shown.skip(end) == " PM"@ && value(hour)
                % 12 + 12 == time.hour
        }),
{
    reveal_strlit(":");
    reveal_strlit(" ");
    reveal_strlit("AM");
    reveal_strlit("PM");
    reveal_strlit(" AM");
    reveal_strlit(" PM");
    let shown = clock(time, hour_format);
    let n: nat = match hour_format {
        HourFormat::Hour24 => time.hour as nat,
        HourFormat::Hour12 => if time.hour % 12 == 0 {
            12
        } else {
            (time.hour % 12) as nat
        },
    };
    let end: int = if hour_format is Hour12 {
        shown.len() - 3
    } else {
        shown.len() as int
    };
    lemma_decimal(n);
    lemma_padded(time.minute as nat, 2);
    lemma_decimal_len(time.minute as nat);
    assert(shown.subrange(0, end - 3) == decimal(n));
    assert(shown.subrange(end - 2, end) == padded(time.minute as nat, 2));
    if hour_format is Hour12 {
        if time.hour >= 12 {
            assert(shown.skip(end) == " PM"@);
        } else {
            assert(shown.skip(end) == " AM"@);
        }
    }
}

/// Two times that a clock shows alike have the same hour and the same minute.
pub proof fn lemma_clock_tells(a: Time, b: Time, hour_format: HourFormat)
    requires
        a.valid(),
        b.valid(),
        clock(a, hour_format) == clock(b, hour_format),
    ensures
        a.hour == b.hour,
        a.minute == b.minute,
{
    lemma_clock_reads(a, hour_format);
    lemma_clock_reads(b, hour_format);
    reveal_strlit(" AM");
    reveal_strlit(" PM");
    if hour_format is Hour12 {
        assert(" AM"@[1] == 'A' && " PM"@[1] == 'P');
    }
}

/// The heading of a day has one star and says the date and the day of the week, by its name; the
/// short name in a timestamp is how that name begins.
pub proof fn lemma_day_heading(date: Date)
    ensures
        date_heading(date) == "* "@ + iso_date(date) + " "@ + weekday_name(date.weekday()),
        weekday_name(date.weekday()).len() > 3,
        weekday_name(date.weekday()).take(3) == weekday_abbreviation(date.weekday()),
{
    reveal_strlit("Sunday");
    reveal_strlit("Monday");
    reveal_strlit("Tuesday");
    reveal_strlit("Wednesday");
    reveal_strlit("Thursday");
    reveal_strlit("Friday");
    reveal_strlit("Saturday");
    reveal_strlit("Sun");
    reveal_strlit("Mon");
    reveal_strlit("Tue");
    reveal_strlit("Wed");
    reveal_strlit("Thu");
    reveal_strlit("Fri");
    reveal_strlit("Sat");
    assert(date_heading(date) =~= "* "@ + iso_date(date) + " "@ + weekday_name(date.weekday()));
    assert(weekday_name(date.weekday()).take(3) =~= weekday_abbreviation(date.weekday()));
}

/// The time at which a task is closed says the date, the day of the week, and the hour and the
/// minute in two digits each.
pub proof fn lemma_stamp_reads(at: DateTime)
    requires
        at.valid(),
    ensures
        ({
            let text = stamp(at);
            let end = text.len() as int;
            let hour = text.subrange(end - 5, end - 3);
            let minute = text.subrange(end - 2, end);
            &&& end > 5
            &&& text.take(end - 5) == iso_date(at.date) + " "@ + weekday_abbreviation(
                at.date.weekday(),
            ) + " "@
            &&& text[end - 3] == ':'
            &&& all_digits(hour) && value(hour) == at.time.hour
            &&& all_digits(minute) && value(minute) == at.time.minute
        }),
{
    reveal_strlit(":");
    let text = stamp(at);
    let end = text.len() as int;
    let h = padded(at.time.hour as nat, 2);
    let m = padded(at.time.minute as nat, 2);
    lemma_padded(at.time.hour as nat, 2);
    lemma_padded(at.time.minute as nat, 2);
    lemma_decimal_len(at.time.hour as nat);
    lemma_decimal_len(at.time.minute as nat);
    assert(text.subrange(end - 5, end - 3) =~= h);
    assert(text.subrange(end - 2, end) =~= m);
    assert(text.take(end - 5) =~= iso_date(at.date) + " "@ + weekday_abbreviation(at.date.weekday())
        + " "@);
}

/// What a new entry puts at the end of the journal's file: an empty line before it unless the file
/// is empty, the heading of the day if it is needed and an empty line, and the heading of the time
/// and an empty line.
pub proof fn lemma_entry_text(
    file_is_empty: bool,
    day: Seq<char>,
    is_needed: bool,
    time: Seq<char>,
)
    ensures
        concatenated(
            entry_pieces(
                file_is_empty,
                if is_needed {
                    Some(day)
                } else {
                    None
                },
                time,
            ),
        ) == (if file_is_empty {
            ""@
        } else {
            "\n\n"@
        }) + (if is_needed {
            day + "\n\n"@
        } else {
            ""@
        }) + time + "\n\n"@,
{
    reveal_strlit("");
    let heading = if is_needed {
        Some(day)
    } else {
        None
    };
    let pieces = entry_pieces(file_is_empty, heading, time);
    reveal_with_fuel(concatenated, 6);
    let a = pieces.drop_last();
    let b = a.drop_last();
    assert(pieces.last() == "\n\n"@);
    assert(a.last() == time);
    if is_needed {
        let c = b.drop_last();
        let d = c.drop_last();
        assert(b.last() == "\n\n"@);
        assert(c.last() == day);
        if !file_is_empty {
            assert(d.last() == "\n\n"@);
            assert(d.len() == 1);
        } else {
            assert(d.len() == 0);
        }
    } else if !file_is_empty {
        assert(b.last() == "\n\n"@);
        assert(b.len() == 1);
    } else {
        assert(b.len() == 0);
    }
    assert(concatenated(pieces) =~= (if file_is_empty {
        ""@
    } else {
        "\n\n"@
    }) + (if is_needed {
        day + "\n\n"@
    } else {
        ""@
    }) + time + "\n\n"@);
}

/// A new entry goes to the file `journal.org` in the journal's directory, under the heading of the
/// day, with the time on the clock as a heading of two stars.
pub proof fn lemma_new_entry(
    entry: NewEntry,
    dir: Seq<char>,
    style: PathStyle,
    hour_format: HourFormat,
    now: DateTime,
)
    requires
        entry.begins(dir, style, hour_format, now),
    ensures
        entry.journal_dir@ == dir,
        style is Posix ==> components(entry.entry_path@) == components(dir).push("journal.org"@),
        entry.entry_path@ == inside(dir, "journal.org"@, style),
        entry.date_heading@ == "* "@ + iso_date(now.date) + " "@ + weekday_name(now.date.weekday()),
        entry.time_heading@ == "** "@ + clock(now.time, hour_format),
{
    reveal_strlit("journal.org");
    reveal_strlit("");
    reveal_strlit(".");
    lemma_day_heading(now.date);
    if style is Posix {
        assert("journal.org"@.len() == 11 && ""@.len() == 0 && "."@.len() == 1);
        lemma_components_joined(dir, "journal.org"@);
    }
}

/// The directory of a journal lies inside its path if that begins at a root, whatever the home
/// directory is, and inside the home directory otherwise, whatever the path is.
pub proof fn lemma_journal_lies_inside(
    path: Seq<char>,
    home: Option<Seq<char>>,
    other: Option<Seq<char>>,
    style: PathStyle,
)
    ensures
        is_rooted(path, style) ==> journal_dir_at(Some(path), home, style) == Some(
            inside(path, "journal"@, style),
        ),
        is_rooted(path, style) ==> journal_dir_at(Some(path), home, style) == journal_dir_at(
            Some(path),
            other,
            style,
        ),
        !is_rooted(path, style) ==> journal_dir_at(Some(path), home, style) == match home {
            Some(home) => Some(inside(home, "journal"@, style)),
            None => None,
        },
        journal_dir_at(None, home, style) is None,
{
}

/// The directory of a journal is one named `journal` inside the path of the journal, whatever the
/// home directory is, if that path begins at the root; and one of that name inside the home
/// directory, whatever the path is, if it does not.
pub proof fn lemma_journal_lies(path: Seq<char>, other: Seq<char>, home: Seq<char>)
    ensures
        ({
            let posix = PathStyle::Posix;
            let none = None::<Seq<char>>;
            let dir = journal_dir_at(Some(path), Some(home), posix);
            &&& dir is Some
            &&& is_rooted(path, posix) ==> components(dir->0) == components(path).push("journal"@)
                && journal_dir_at(Some(path), none, posix) == dir
            &&& !is_rooted(path, posix) ==> components(dir->0) == components(home).push("journal"@)
                && journal_dir_at(Some(path), none, posix) is None
            &&& !is_rooted(path, posix) && !is_rooted(other, posix) ==> journal_dir_at(
                Some(other),
                Some(home),
                posix,
            ) == dir
            &&& journal_dir_at(none, Some(home), posix) is None
        }),
{
    reveal_strlit("journal");
    reveal_strlit("");
    reveal_strlit(".");
    assert("journal"@.len() == 7 && ""@.len() == 0 && "."@.len() == 1);
    lemma_components_joined(path, "journal"@);
    lemma_components_joined(home, "journal"@);
}

/// A directory that is open holds a journal that it is, or that lies right inside it.
pub proof fn lemma_worktree_holds(worktree: Worktree, journal_dir: Seq<char>, i: int)
    ensures
        components(worktree.root@) == components(journal_dir) ==> worktree.holds(journal_dir),
        0 <= i < worktree.directories@.len() && is_plain_name(worktree.directories@[i]@)
            && components(journal_dir) == components(worktree.root@).push(
            worktree.directories@[i]@,
        ) ==> worktree.holds(journal_dir),
        worktree.holds(journal_dir) && worktree.directories@.len() == 0 ==> components(
            worktree.root@,
        ) == components(journal_dir),
{
    if 0 <= i < worktree.directories@.len() && is_plain_name(worktree.directories@[i]@)
        && components(journal_dir) == components(worktree.root@).push(worktree.directories@[i]@) {
        let name = worktree.directories@[i]@;
        lemma_components_joined(worktree.root@, name);
        let full = components(joined(worktree.root@, name));
        assert(full.skip(0) == full);
        assert(path_ends_with(joined(worktree.root@, name), journal_dir));
    }
}

/// A directory that is open holds no journal but itself and those whose path is how the path of a
/// directory right inside it ends, component by component.
pub proof fn lemma_worktree_holds_only(worktree: Worktree, journal_dir: Seq<char>)
    requires
        worktree.holds(journal_dir),
    ensures
        ({
            let own = components(journal_dir);
            components(worktree.root@) == own || exists|i: int|
                0 <= i < worktree.directories@.len() && ({
                    let full = components(
                        joined(worktree.root@, (#[trigger] worktree.directories@[i])@),
                    );
                    &&& own.len() <= full.len()
                    &&& forall|k: int|
                        0 <= k < own.len() ==> own[k] == #[trigger] full[full.len() - own.len() + k]
                })
        }),
{
    let own = components(journal_dir);
    if components(worktree.root@) != own {
        let i = choose|i: int|
            0 <= i < worktree.directories@.len() && path_ends_with(
                joined(worktree.root@, (#[trigger] worktree.directories@[i])@),
                journal_dir,
            );
        let full = components(joined(worktree.root@, worktree.directories@[i]@));
        let end = full.skip(full.len() - own.len());
        assert forall|k: int| 0 <= k < own.len() implies own[k] == #[trigger] full[full.len()
            - own.len() + k] by {
            assert(end[k] == full[full.len() - own.len() + k]);
        }
    }
}

} // verus!
