//! What the pickers and the modes of the journal do to what is chosen.
use crate::agenda::ItemView;
use crate::agenda_view::{files_in, place_of, reminder_message, tags_in, ReminderView};
use crate::calendar::{iso_date, lemma_in_calendar, weekday_name, Date};
use crate::date_picker::{
    next_reminder, next_repeater, reminder_words, repeater, repeater_words, unit_name,
    DatePickerModal,
};
use crate::label::{Color, LabelSize};
use crate::notification::DeadlineNotification;
use crate::number::{decimal, decimal_int};
use crate::paths::{components, file_stem, is_plain_name, joined, lemma_components_joined};
use crate::picker::{
    clamped_index, everything, file_after_pick, hash_list, range_days, range_labels,
    tags_after_pick, toggled, with_hash, Selection, TagPickerDelegate,
};
use crate::recurrence::lies_after;
use crate::repeater::{
    lemma_shifted, repeater_prefix, repeater_text, shifted, unit_letter, RepeaterInfo, RepeaterType,
    RepeaterUnit,
};
use crate::scheduling::picker_from;
use crate::text::{contains, occurs_at};
use crate::zen::{
    followed, in_journal, profile_before, ZenChange, ZenToggle, ZenView, JOURNAL_ZEN_PROFILE,
};
use vstd::prelude::*;
use vstd::string::*;

verus! {

/// Moving the selected date moves it by exactly that many days, or not at all where the calendar
/// has no such date, and changes nothing else that was chosen.
pub proof fn lemma_date_moves(picker: DatePickerModal, days: int)
    requires
        picker.valid(),
    ensures
        ({
            let after = picker.adjusted(days);
            &&& after.valid()
            &&& lies_after(Some(after.selected_date), picker.selected_date, days) || lies_after(
                None,
                picker.selected_date,
                days,
            ) && after.selected_date == picker.selected_date
            &&& after.selected_reminder == picker.selected_reminder
            &&& after.selected_repeater == picker.selected_repeater
            &&& after.confirmed == picker.confirmed
        }),
{
    lemma_shifted(picker.selected_date, days);
    if shifted(picker.selected_date, days) is None {
        assert forall|d: Date| d.valid() implies #[trigger] d.number()
            - picker.selected_date.number() != days by {
            lemma_in_calendar(d);
        }
    }
}

/// A picker that begins some days from today begins on that day, with no reminder and no repeater,
/// and has handed out nothing.
pub proof fn lemma_picker_begins(today: Date, days: int)
    ensures
        match picker_from(today, days) {
            Some(picker) => {
                &&& lies_after(Some(picker.selected_date), today, days)
                &&& picker.selected_reminder is None
                &&& picker.selected_repeater is None
                &&& !picker.confirmed
            },
            None => lies_after(None, today, days),
        },
{
    lemma_shifted(today, days);
    if shifted(today, days) is None {
        assert forall|d: Date| d.valid() implies #[trigger] d.number() - today.number() != days by {
            lemma_in_calendar(d);
        }
    }
}

/// Each reminder is earlier than the one before it: ten minutes, an hour, a day, a week ahead; and
/// after the last of them, or any other, there is none.
pub proof fn lemma_reminders_grow(reminder: Option<u128>)
    ensures
        next_reminder(None) == Some(600u128),
        reminder matches Some(s) ==> match next_reminder(reminder) {
            Some(next) => s < next && (next == 6 * s || next == 24 * s || next == 7 * s) && (next
                == 3600 || next == 86400 || next == 604800),
            None => s != 600 && s != 3600 && s != 86400,
        },
{
}

/// The repeaters come in the order in which their signs come, `+`, `++` and `.+`, and with one sign
/// in the order of their lengths; each sign begins with a day, and after the last there is none.
pub proof fn lemma_repeaters_in_order(r: RepeaterInfo)
    ensures
        next_repeater(None) == Some(repeater(1, RepeaterUnit::Day, RepeaterType::Cumulative)),
        match next_repeater(Some(r)) {
            Some(next) => {
                &&& next.interval > 0
                &&& next.repeater_type == r.repeater_type ==> {
                    &&& r.unit == RepeaterUnit::Day && r.interval == 1 ==> next.unit
                        == RepeaterUnit::Week && next.interval == 1
                    &&& r.unit == RepeaterUnit::Week && r.interval == 1 ==> next.unit
                        == RepeaterUnit::Week && next.interval == 2
                    &&& r.unit == RepeaterUnit::Week && r.interval == 2 ==> next.unit
                        == RepeaterUnit::Month && next.interval == 1
                    &&& r.unit == RepeaterUnit::Month && r.interval == 1 ==> next.unit
                        == RepeaterUnit::Month && next.interval == 3
                    &&& r.unit == RepeaterUnit::Month && r.interval == 3 ==> next.unit
                        == RepeaterUnit::Year && next.interval == 1
                    &&& r.unit == RepeaterUnit::Day || r.unit == RepeaterUnit::Week || r.unit
                        == RepeaterUnit::Month
                    &&& 1 <= r.interval <= 3
                }
                &&& next.repeater_type != r.repeater_type ==> {
                    &&& next.unit == RepeaterUnit::Day && next.interval == 1
                    &&& r.repeater_type == RepeaterType::Cumulative && next.repeater_type
                        == RepeaterType::CatchUp || r.repeater_type == RepeaterType::CatchUp
                        && next.repeater_type == RepeaterType::Restart
                    &&& r.unit != RepeaterUnit::Day || r.interval != 1
                    &&& r.repeater_type == RepeaterType::Cumulative && r.unit == RepeaterUnit::Week
                        ==> r.interval != 1 && r.interval != 2
                    &&& r.repeater_type == RepeaterType::Cumulative && r.unit == RepeaterUnit::Month
                        ==> r.interval != 1 && r.interval != 3
                }
            },
            None => r.repeater_type == RepeaterType::Restart && (r.unit != RepeaterUnit::Day
                || r.interval != 1),
        },
{
}

/// A repeater in words begins as its timestamp does, with the sign and the number; the letter of
/// the unit there is the first of its name; and the name is in the plural unless there is one.
pub proof fn lemma_repeater_in_words(r: RepeaterInfo)
    ensures
        ({
            let text = repeater_text(r);
            let words = repeater_words(Some(r));
            let n = text.len() - 1;
            &&& n >= 0 && n + 1 < words.len()
            &&& words.take(n) == text.take(n)
            &&& words[n] == ' '
            &&& words[n + 1] == text[n]
            &&& words.last() == ')'
        }),
        unit_name(r.unit, false) == unit_name(r.unit, true) + "s"@,
        unit_name(r.unit, true) == match r.unit {
            RepeaterUnit::Day => "day"@,
            RepeaterUnit::Week => "week"@,
            RepeaterUnit::Month => "month"@,
            RepeaterUnit::Year => "year"@,
        },
        repeater_words(Some(r)) == repeater_text(r).drop_last() + " "@ + unit_name(
            r.unit,
            r.interval == 1,
        ) + (match r.repeater_type {
            RepeaterType::Cumulative => " (from date)"@,
            RepeaterType::CatchUp => " (catch up)"@,
            RepeaterType::Restart => " (from completion)"@,
        }),
{
    reveal_strlit("d");
    reveal_strlit("w");
    reveal_strlit("m");
    reveal_strlit("y");
    reveal_strlit("s");
    reveal_strlit(" ");
    reveal_strlit(")");
    reveal_strlit("day");
    reveal_strlit("days");
    reveal_strlit("week");
    reveal_strlit("weeks");
    reveal_strlit("month");
    reveal_strlit("months");
    reveal_strlit("year");
    reveal_strlit("years");
    reveal_strlit(" (");
    reveal_strlit("from date");
    reveal_strlit("catch up");
    reveal_strlit("from completion");
    reveal_strlit(" (from date)");
    reveal_strlit(" (catch up)");
    reveal_strlit(" (from completion)");
    assert(" (from date)"@ =~= " ("@ + "from date"@ + ")"@);
    assert(" (catch up)"@ =~= " ("@ + "catch up"@ + ")"@);
    assert(" (from completion)"@ =~= " ("@ + "from completion"@ + ")"@);
    let text = repeater_text(r);
    let words = repeater_words(Some(r));
    let start = repeater_prefix(r.repeater_type) + decimal_int(r.interval as int);
    let n = text.len() - 1;
    assert(unit_letter(r.unit).len() == 1);
    assert(text =~= start + unit_letter(r.unit));
    assert(words.take(n) =~= start);
    assert(text.take(n) =~= start);
    assert(words[n + 1] == unit_name(r.unit, r.interval == 1)[0]);
    assert(unit_name(r.unit, false) =~= unit_name(r.unit, true) + "s"@);
    assert(text.drop_last() =~= start);
    assert(words =~= start + " "@ + unit_name(r.unit, r.interval == 1) + (match r.repeater_type {
        RepeaterType::Cumulative => " (from date)"@,
        RepeaterType::CatchUp => " (catch up)"@,
        RepeaterType::Restart => " (from completion)"@,
    }));
}

/// A picker shows the day of the week, the date, the reminder and the repeater that are chosen, and
/// these two stand out where something is chosen.
pub proof fn lemma_picker_shows(picker: DatePickerModal)
    ensures
        ({
            let labels = picker.labels();
            &&& labels.len() == 11
            &&& labels[1].0 == weekday_name(picker.selected_date.weekday())
            &&& labels[2].0 == iso_date(picker.selected_date)
            &&& labels[4].0 == reminder_words(picker.selected_reminder)
            &&& labels[7].0 == repeater_words(picker.selected_repeater)
            &&& labels[4].2 == Color::Accent <==> picker.selected_reminder is Some
            &&& labels[7].2 == Color::Accent <==> picker.selected_repeater is Some
        }),
        reminder_words(None) == "None"@,
        repeater_words(None) == "None"@,
        reminder_words(Some(600)) == "10 minutes"@,
        reminder_words(Some(3600)) == "1 hour"@,
        reminder_words(Some(86400)) == "1 day"@,
        reminder_words(Some(604800)) == "1 week"@,
        forall|s: u128|
            s != 600 && s != 3600 && s != 86400 && s != 604800 ==> #[trigger] reminder_words(Some(s))
                == decimal(s as nat) + "s"@,
{
}

/// Where nothing was typed, a list shows each candidate in its place, under its own number and with
/// its own text, and nothing else.
pub proof fn lemma_list_shows_all(candidates: Seq<Seq<char>>, i: int)
    requires
        0 <= i < candidates.len(),
    ensures
        everything(candidates).len() == candidates.len(),
        everything(candidates)[i].0 == i,
        everything(candidates)[i].1 == candidates[i],
        everything(candidates)[i].2.len() == 0,
{
}

/// The selection stays where it is while there is a match there, goes to the last match where there
/// are fewer, and to the first place where there are none.
pub proof fn lemma_selection_stays(selected: int, count: int)
    requires
        0 <= selected,
        0 <= count,
    ensures
        0 <= clamped_index(selected, count),
        clamped_index(selected, count) <= selected,
        selected < count ==> clamped_index(selected, count) == selected,
        selected >= count && count > 0 ==> clamped_index(selected, count) + 1 == count,
        count == 0 ==> clamped_index(selected, count) == 0,
{
}

/// Toggling a tag changes whether it is listed, and that of no other tag; the others stay in their
/// order, and a new one comes last.
pub proof fn lemma_toggled(tags: Seq<Seq<char>>, tag: Seq<char>, other: Seq<char>)
    requires
        tags.no_duplicates(),
    ensures
        toggled(tags, tag).contains(tag) != tags.contains(tag),
        other != tag ==> (toggled(tags, tag).contains(other) <==> tags.contains(other)),
        !tags.contains(tag) ==> toggled(tags, tag) == tags.push(tag),
        tags.contains(tag) ==> exists|i: int|
            0 <= i < tags.len() && tags[i] == tag && toggled(tags, tag) == #[trigger] tags.remove(i),
{
    let after = toggled(tags, tag);
    if tags.contains(tag) {
        tags.index_of_first_ensures(tag);
        let i = tags.index_of_first(tag)->0;
        assert(after == tags.remove(i));
        assert forall|x: Seq<char>| after.contains(x) <==> tags.contains(x) && x != tag by {
            if after.contains(x) {
                let k = choose|k: int| 0 <= k < after.len() && after[k] == x;
                let j = if k < i {
                    k
                } else {
                    k + 1
                };
                assert(tags[j] == x);
            }
            if tags.contains(x) && x != tag {
                let k = choose|k: int| 0 <= k < tags.len() && tags[k] == x;
                let j = if k < i {
                    k
                } else {
                    k - 1
                };
                assert(after[j] == x);
            }
        }
    } else {
        assert(after == tags.push(tag));
        assert(after[tags.len() as int] == tag);
        if tags.contains(other) {
            let k = choose|k: int| 0 <= k < tags.len() && tags[k] == other;
            assert(after[k] == other);
        }
        if after.contains(other) && other != tag {
            let k = choose|k: int| 0 <= k < after.len() && after[k] == other;
            assert(tags[k] == other);
        }
    }
}

/// Tags that were picked are handed out one after the other, with a space between two of them, each
/// with a number sign, and without a second one.
pub proof fn lemma_tags_handed_out(tags: Seq<Seq<char>>, tag: Seq<char>)
    ensures
        hash_list(Seq::empty()).len() == 0,
        hash_list(seq![tag]) == with_hash(tag),
        tags.len() > 0 ==> hash_list(tags.push(tag)) == hash_list(tags) + " "@ + with_hash(tag),
        tag.len() > 0 && tag[0] == '#' ==> with_hash(tag) == tag,
        tag.len() == 0 || tag[0] != '#' ==> with_hash(tag) == "#"@ + tag,
{
    let f = |tag: Seq<char>| with_hash(tag);
    let more = tags.push(tag);
    assert(more.map_values(f).drop_last() =~= tags.map_values(f));
    assert(more.map_values(f).last() == with_hash(tag));
    assert(seq![tag].map_values(f).len() == 1);
}

/// The choice for nothing in particular asks for no tag and no file; any other choice toggles the
/// tag that was picked, or asks for the file.
pub proof fn lemma_filter_picked(asked: Seq<Seq<char>>, picked: Seq<char>)
    ensures
        tags_after_pick(asked, "All (clear filter)"@).len() == 0,
        file_after_pick("All (clear filter)"@) is None,
        picked != "All (clear filter)"@ ==> file_after_pick(picked) == Some(picked),
        picked != "All (clear filter)"@ && !asked.contains(picked) ==> tags_after_pick(asked, picked)
            == asked.push(picked),
        picked != "All (clear filter)"@ && asked.no_duplicates() && asked.contains(picked)
            ==> !tags_after_pick(asked, picked).contains(picked) && tags_after_pick(
            asked,
            picked,
        ).len() + 1 == asked.len(),
{
    if asked.no_duplicates() {
        lemma_toggled(asked, picked, picked);
    }
}

/// The ranges of days are in the order of their lengths, and each says its number of days, but for
/// those of any day and of today, which leave out none.
pub proof fn lemma_ranges_say_days(i: int)
    requires
        0 <= i < 9,
    ensures
        range_labels().len() == 9,
        range_days().len() == 9,
        i < 2 ==> range_days()[i] == 0,
        i >= 2 ==> range_days()[i] > range_days()[i - 1],
        i >= 2 ==> contains(range_labels()[i], decimal(range_days()[i] as nat) + " days"@),
{
    if i >= 2 {
        reveal_with_fuel(decimal, 4);
        reveal_strlit(" days");
        reveal_strlit("Next 3 days");
        reveal_strlit("This week (7 days)");
        reveal_strlit("Next 2 weeks (14 days)");
        reveal_strlit("This month (30 days)");
        reveal_strlit("Next 2 months (60 days)");
        reveal_strlit("This quarter (90 days)");
        reveal_strlit("This year (365 days)");
        let label = range_labels()[i];
        let words = decimal(range_days()[i] as nat) + " days"@;
        let at = if i == 2 {
            5int
        } else {
            label.len() - 1 - words.len()
        };
        assert(label.subrange(at, at + words.len()) =~= words);
        assert(occurs_at(label, words, at));
    }
}

/// A change of the mode switches to a profile and toggles each part of the window once. The mode
/// has a profile of its own.
pub proof fn lemma_mode_change(change: ZenChange, profile: Seq<char>, part: ZenToggle)
    requires
        change.switches_to(profile),
    ensures
        JOURNAL_ZEN_PROFILE@ == "journal-zen"@,
        change.profile@ == profile,
        change.toggles@.len() == 3,
        change.toggles@.contains(part),
{
    assert(change.toggles@[0] == ZenToggle::AllDocks);
    assert(change.toggles@[1] == ZenToggle::CenteredLayout);
    assert(change.toggles@[2] == ZenToggle::Zoom);
}

/// A file is one of the journal's if it lies in the journal's directory or deeper, and not if its
/// path begins otherwise or is shorter; without a file or a directory none is.
pub proof fn lemma_file_of_journal(dir: Seq<char>, name: Seq<char>, inner: Seq<char>, file: Seq<char>, i: int)
    requires
        is_plain_name(name),
        is_plain_name(inner),
    ensures
        in_journal(Some(joined(dir, name)), Some(dir)),
        in_journal(Some(joined(joined(dir, name), inner)), Some(dir)),
        components(file).len() < components(dir).len() ==> !in_journal(Some(file), Some(dir)),
        0 <= i < components(dir).len() && i < components(file).len() && components(file)[i]
            != components(dir)[i] ==> !in_journal(Some(file), Some(dir)),
        !in_journal(None, Some(dir)),
        !in_journal(Some(file), None),
{
    lemma_components_joined(dir, name);
    lemma_components_joined(joined(dir, name), inner);
    let d = components(dir);
    assert(d.push(name).take(d.len() as int) =~= d);
    assert(d.push(name).push(inner).take(d.len() as int) =~= d);
    if 0 <= i < d.len() <= components(file).len() && components(file)[i] != d[i] {
        assert(components(file).take(d.len() as int)[i] == components(file)[i]);
    }
}

/// The mode keeps what was before it while it is on, and keeps nothing once it is off. Following
/// the user to another file of the journal does not change what is kept.
pub proof fn lemma_mode_keeps(
    state: ZenView,
    file: Option<Seq<char>>,
    journal_dir: Option<Seq<char>>,
    profile: Option<Seq<char>>,
)
    ensures
        !state.is_active && in_journal(file, journal_dir) ==> ({
            let after = followed(state, file, journal_dir, profile);
            after.is_active && after.journal_dir == journal_dir && after.previous_profile == profile
        }),
        state.is_active && in_journal(file, journal_dir) ==> followed(
            state,
            file,
            journal_dir,
            profile,
        ) == state,
        state.is_active && !in_journal(file, journal_dir) ==> ({
            let after = followed(state, file, journal_dir, profile);
            !after.is_active && after.journal_dir is None && after.previous_profile is None
        }),
        !state.is_active && !in_journal(file, journal_dir) ==> followed(
            state,
            file,
            journal_dir,
            profile,
        ) == state,
        state.previous_profile matches Some(p) ==> profile_before(state) == p,
        state.previous_profile is None ==> profile_before(state).len() == 0,
{
}

/// A notification shows its title, the task, and how soon and on which day that is due.
pub proof fn lemma_notification_shows(n: DeadlineNotification)
    ensures
        n.lines().len() == 3,
        n.lines()[0] == (n.title@, LabelSize::Large, Color::Default),
        n.lines()[1] == (n.task_name@, LabelSize::Default, Color::Default),
        n.lines()[2] == (
            "Deadline "@ + n.urgency@ + ": "@ + n.deadline_date@,
            LabelSize::Small,
            Color::Muted,
        ),
{
}

/// The message of a reminder says how soon the task is due, its name and its day.
pub proof fn lemma_message_says(r: ReminderView)
    ensures
        reminder_message(r) == "⏰ Reminder "@ + r.urgency + ": "@ + r.task_name + " ("@
            + r.deadline_date + ")"@,
{
}

/// Opening an entry of the agenda goes to its file, to the row before its line, or to the first
/// where there is none before.
pub proof fn lemma_entry_opens(item: ItemView)
    ensures
        place_of(item).0 == item.file_path,
        item.line_number > 0 ==> place_of(item).1 + 1 == item.line_number,
        item.line_number == 0 ==> place_of(item).1 == 0,
{
}

/// The tags and the files there are to ask for are those of each entry, and no others.
pub proof fn lemma_choices_of_entries(items: Seq<ItemView>, text: Seq<char>)
    ensures
        tags_in(items).contains(text) <==> exists|i: int|
            0 <= i < items.len() && (#[trigger] items[i]).tags.contains(text),
        files_in(items).contains(text) <==> exists|i: int|
            0 <= i < items.len() && file_stem((#[trigger] items[i]).file_path) == Some(text),
{
}

/// What is picked in a list is the candidate of the match that is selected, and nothing where no
/// match is.
pub proof fn lemma_picked(selection: Selection)
    ensures
        selection.selected_index < selection.matches@.len() ==> selection.picked() == Some(
            selection.matches@[selection.selected_index as int].candidate_id as int,
        ),
        selection.selected_index >= selection.matches@.len() ==> selection.picked() is None,
{
}

/// A list of tags closes when it is asked to, and where there is nothing to pick but something was
/// picked before; it stays open where a tag can be picked, or where none was.
pub proof fn lemma_tags_finished(picker: TagPickerDelegate)
    ensures
        picker.finishes(true),
        picker.selection.matches@.len() == 0 && picker.selected_tags@.len() > 0 ==> picker.finishes(
            false,
        ),
        picker.selection.selected_index < picker.selection.matches@.len() ==> !picker.finishes(false),
        picker.selected_tags@.len() == 0 ==> !picker.finishes(false),
{
}

} // verus!
