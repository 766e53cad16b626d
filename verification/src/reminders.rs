//! When the agenda reminds of an entry, and how often.
use crate::agenda::ItemView;
use crate::agenda_view::{
    by_date, collected, collected_reminders, is_time, lemma_by_date, lemma_with_reminders,
    reminder_for, reminder_id, with_reminders, AgendaState,
};
use crate::calendar::{iso_date, Date, DateTime};
use crate::number::{decimal, decimal_int, lemma_decimal};
use crate::order::lemma_with_text;
use crate::planning::AgendaEntryType;
use vstd::prelude::*;
use vstd::string::*;

verus! {

/// The seconds that are left of a day, up to its last second.
pub open spec fn seconds_left(date: Date, now: DateTime) -> int {
    86400 * (date.number() - now.date.number()) + (86399 - (3600 * now.time.hour + 60
        * now.time.minute + now.time.second))
}

/// A reminder is due of the entries that are neither closed nor done and have a reminder that was
/// not shown yet, from the reminder's duration before the last second of their day until that
/// second; and of no others. They come in the order in which they are listed.
pub proof fn lemma_due_entries(state: AgendaState, now: DateTime, item: ItemView)
    ensures
        state.due_items(now).contains(item) <==> {
            &&& state.all_items.contains(item)
            &&& item.entry_type != AgendaEntryType::Closed
            &&& item.todo_keyword != Some("DONE"@)
            &&& !state.shown_reminders.contains(reminder_id(item))
            &&& item.reminder_duration matches Some(duration) && {
                &&& 0 <= seconds_left(item.date, now) <= duration
                &&& seconds_left(item.date, now) == 0 ==> now.time.nanosecond == 0
            }
        },
        exists|p: spec_fn(ItemView) -> bool| state.due_items(now) == #[trigger] state.all_items.filter(p),
{
    let p = |item: ItemView| state.is_due(item, now);
    let f = state.all_items.filter(p);
    assert(state.due_items(now) == state.all_items.filter(p));
    if f.contains(item) {
        state.all_items.lemma_filter_contains_rev(p, item);
        let i = choose|i: int| 0 <= i < f.len() && f[i] == item;
        state.all_items.lemma_filter_pred(p, i);
    }
    if state.all_items.contains(item) && p(item) {
        let i = choose|i: int| 0 <= i < state.all_items.len() && state.all_items[i] == item;
        state.all_items.lemma_filter_contains(p, i);
    }
}

/// A reminder so many days ahead is due from that many days before the day, less its last second,
/// through the day itself, and neither earlier nor later.
pub proof fn lemma_reminder_days(date: Date, days: nat, now: DateTime)
    requires
        now.valid(),
    ensures
        date.number() - days < now.date.number() < date.number() ==> is_time(date, 86400 * days, now),
        now.date.number() == date.number() && days > 0 && !(now.time.hour == 23 && now.time.minute
            == 59 && now.time.second == 59) ==> is_time(date, 86400 * days, now),
        now.date.number() < date.number() - days ==> !is_time(date, 86400 * days, now),
        now.date.number() > date.number() ==> !is_time(date, 86400 * days, now),
{
}

/// Once it is time to remind of an entry, it is as long as its day lasts; and where it is time
/// with a duration, it is with a longer one.
pub proof fn lemma_reminder_lasts(
    date: Date,
    duration: nat,
    longer: nat,
    now: DateTime,
    later: DateTime,
)
    requires
        now.valid(),
        later.valid(),
        duration <= longer,
        is_time(date, duration, now),
    ensures
        is_time(date, longer, now),
        now.date.number() <= later.date.number() && later.date.number() < date.number() && (
        now.date.number() == later.date.number() ==> seconds_left(date, later) <= seconds_left(
            date,
            now,
        )) ==> is_time(date, duration, later),
{
}

/// A reminder names its entry, its day as the calendar writes it, and its place, and says how many
/// days are left.
pub proof fn lemma_reminder_says(item: ItemView, now: DateTime)
    ensures
        ({
            let r = reminder_for(item, now);
            let days = item.date.number() - now.date.number();
            &&& r.task_name == item.headline
            &&& r.deadline_date == iso_date(item.date)
            &&& r.file_path == item.file_path
            &&& r.line_number == item.line_number
            &&& days == 0 ==> r.urgency == "TODAY"@
            &&& days == 1 ==> r.urgency == "TOMORROW"@
            &&& days != 0 && days != 1 ==> r.urgency == "in "@ + decimal_int(days) + " days"@
        }),
{
}

/// Entries on different lines of a file, or in different files of names of one length, have
/// different reminders.
pub proof fn lemma_reminders_differ(a: ItemView, b: ItemView)
    requires
        a.file_path.len() == b.file_path.len(),
        reminder_id(a) == reminder_id(b),
    ensures
        a.file_path == b.file_path,
        a.line_number == b.line_number,
{
    reveal_strlit("-");
    let x = reminder_id(a);
    let y = reminder_id(b);
    let n = a.file_path.len() as int;
    assert(x.take(n) == a.file_path);
    assert(y.take(n) == b.file_path);
    assert(x.skip(n + 1) == decimal(a.line_number as nat));
    assert(y.skip(n + 1) == decimal(b.line_number as nat));
    lemma_decimal(a.line_number as nat);
    lemma_decimal(b.line_number as nat);
}

/// After reminding of some entries those reminders count as shown that did before and those of
/// these entries, and no others.
pub proof fn lemma_shown_reminders(ids: Seq<Seq<char>>, items: Seq<ItemView>, id: Seq<char>)
    requires
        ids.no_duplicates(),
    ensures
        with_reminders(ids, items).contains(id) <==> ids.contains(id) || exists|i: int|
            0 <= i < items.len() && id == reminder_id(#[trigger] items[i]),
        with_reminders(ids, items).no_duplicates(),
    decreases items.len(),
{
    lemma_with_reminders(ids, items);
    if items.len() > 0 {
        let init = items.drop_last();
        lemma_shown_reminders(ids, init, id);
        let before = with_reminders(ids, init);
        lemma_with_reminders(ids, init);
        lemma_with_text(before, reminder_id(items.last()));
        if with_reminders(ids, items).contains(id) && !ids.contains(id) {
            assert(with_reminders(ids, items).to_set().contains(id));
            if id == reminder_id(items.last()) {
                assert(id == reminder_id(items[items.len() - 1]));
            } else {
                assert(before.to_set().contains(id));
                let i = choose|i: int| 0 <= i < init.len() && id == reminder_id(#[trigger] init[i]);
                assert(items[i] == init[i]);
            }
        }
    }
}

/// Collecting entries lists them by date, each as often as it was there, keeps what is asked for,
/// and hands out one reminder for each entry of which one is due, in their order.
pub proof fn lemma_collected_entries(
    state: AgendaState,
    items: Seq<ItemView>,
    tags: Seq<Seq<char>>,
    files: Seq<Seq<char>>,
    now: DateTime,
)
    requires
        state.shown_reminders.no_duplicates(),
    ensures
        ({
            let after = collected(state, items, tags, files, now);
            let reminders = collected_reminders(state, items, now);
            let due = (AgendaState { all_items: after.all_items, ..state }).due_items(now);
            &&& after.all_items.to_multiset() == items.to_multiset()
            &&& forall|i: int, j: int|
                0 <= i < j < after.all_items.len() ==> (#[trigger] after.all_items[i]).date.number()
                    <= (#[trigger] after.all_items[j]).date.number()
            &&& after.items == after.refreshed(now.date).items
            &&& after.selected_index == 0
            &&& after.show_done == state.show_done
            &&& after.filter_tags == state.filter_tags
            &&& after.filter_file == state.filter_file
            &&& after.days_range == state.days_range
            &&& after.available_tags == tags
            &&& after.available_files == files
            &&& reminders.len() == due.len()
            &&& forall|i: int|
                0 <= i < due.len() ==> #[trigger] reminders[i] == reminder_for(due[i], now)
            &&& forall|i: int|
                0 <= i < due.len() ==> after.shown_reminders.contains(
                    reminder_id(#[trigger] due[i]),
                )
            &&& forall|id: Seq<char>|
                state.shown_reminders.contains(id) ==> #[trigger] after.shown_reminders.contains(id)
        }),
{
    lemma_by_date(items);
    let after = collected(state, items, tags, files, now);
    let plain = AgendaState { all_items: by_date(items), ..state };
    let chosen = (AgendaState {
        all_items: by_date(items),
        available_tags: tags,
        available_files: files,
        ..state
    }).refreshed(now.date);
    let p = |item: ItemView| plain.is_due(item, now);
    let q = |item: ItemView| chosen.is_due(item, now);
    assert(p =~= q);
    lemma_with_reminders(state.shown_reminders, chosen.due_items(now));
    let u = |item: ItemView| chosen.passes(item, now.date);
    let v = |item: ItemView| after.passes(item, now.date);
    let w = |item: ItemView|
        (AgendaState {
            all_items: by_date(items),
            available_tags: tags,
            available_files: files,
            ..state
        }).passes(item, now.date);
    assert(u =~= v);
    assert(u =~= w);
}

} // verus!
