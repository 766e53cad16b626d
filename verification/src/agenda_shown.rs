//! What an agenda shows of its entries, and of which it reminds.
use crate::agenda::ItemView;
use crate::agenda_view::{by_date, lemma_by_date, next_range, on_date, AgendaState};
use crate::calendar::Date;
use crate::paths::file_stem;
use crate::planning::AgendaEntryType;
use vstd::prelude::*;
use vstd::string::*;

verus! {

proof fn lemma_filter_count(s: Seq<ItemView>, p: spec_fn(ItemView) -> bool, item: ItemView)
    ensures
        s.filter(p).to_multiset().count(item) == if p(item) {
            s.to_multiset().count(item)
        } else {
            0
        },
    decreases s.len(),
{
    if s.len() == 0 {
        reveal(Seq::filter);
        assert(s.filter(p) == s);
        broadcast use vstd::seq_lib::group_to_multiset_ensures;

        assert(!s.contains(item));
    } else {
        let init = s.drop_last();
        lemma_filter_count(init, p, item);
        assert(s == init.push(s.last()));
        init.lemma_filter_push(s.last(), p);
        vstd::seq_lib::to_multiset_build(init, s.last());
        vstd::seq_lib::to_multiset_build(init.filter(p), s.last());
    }
}

proof fn lemma_filter_twice(
    s: Seq<ItemView>,
    p: spec_fn(ItemView) -> bool,
    q: spec_fn(ItemView) -> bool,
)
    ensures
        s.filter(p).filter(q) == s.filter(q).filter(p),
    decreases s.len(),
{
    if s.len() == 0 {
        reveal(Seq::filter);
    } else {
        let init = s.drop_last();
        let last = s.last();
        lemma_filter_twice(init, p, q);
        assert(s == init.push(last));
        init.lemma_filter_push(last, p);
        init.lemma_filter_push(last, q);
        init.filter(p).lemma_filter_push(last, q);
        init.filter(q).lemma_filter_push(last, p);
    }
}

proof fn lemma_refreshed_count(state: AgendaState, today: Date, item: ItemView)
    ensures
        state.refreshed(today).items.to_multiset().count(item) == if state.passes(item, today) {
            state.all_items.to_multiset().count(item)
        } else {
            0
        },
        state.refreshed(today).items.contains(item) ==> state.all_items.contains(item)
            && state.passes(item, today),
{
    let p = |item: ItemView| state.passes(item, today);
    let f = state.all_items.filter(p);
    lemma_by_date(f);
    lemma_filter_count(state.all_items, p, item);
    broadcast use vstd::seq_lib::group_to_multiset_ensures;

}

/// Each entry that an agenda shows is one of its entries; it lies at most as many days before or
/// after today as the range says, if there is one; unless the agenda shows what is done, the
/// entry is neither done nor closed; it has one of the tags asked for, if any are; and it stands
/// in a file with the name asked for, if one is.
pub proof fn lemma_shown_as_asked(state: AgendaState, today: Date, k: int)
    requires
        0 <= k < state.refreshed(today).items.len(),
    ensures
        ({
            let item = state.refreshed(today).items[k];
            &&& state.all_items.contains(item)
            &&& state.days_range > 0 ==> {
                &&& item.date.number() - today.number() <= state.days_range
                &&& today.number() - item.date.number() <= state.days_range
            }
            &&& !state.show_done ==> item.entry_type != AgendaEntryType::Closed
            &&& !state.show_done ==> item.todo_keyword != Some("DONE"@)
            &&& state.filter_tags.len() > 0 ==> exists|tag: Seq<char>|
                state.filter_tags.contains(tag) && #[trigger] item.tags.contains(tag)
            &&& state.filter_file is Some ==> match file_stem(item.file_path) {
                Some(stem) => stem == state.filter_file->0,
                None => state.filter_file->0.len() == 0,
            }
        }),
{
    let item = state.refreshed(today).items[k];
    assert(state.refreshed(today).items.contains(item));
    lemma_refreshed_count(state, today, item);
    if state.filter_tags.len() > 0 {
        let i = choose|i: int|
            0 <= i < state.filter_tags.len() && item.tags.contains(#[trigger] state.filter_tags[i]);
        assert(state.filter_tags.contains(state.filter_tags[i]));
        assert(item.tags.contains(state.filter_tags[i]));
    }
}

/// An entry that is as asked is shown as often as it is listed: one that is near enough to today,
/// neither done nor closed unless that is shown, with a tag asked for if any is, and in the file
/// asked for if one is.
pub proof fn lemma_asked_is_shown(state: AgendaState, today: Date, item: ItemView, tag: Seq<char>)
    requires
        state.days_range <= 0 || -state.days_range <= item.date.number() - today.number()
            <= state.days_range,
        state.show_done || item.entry_type != AgendaEntryType::Closed && item.todo_keyword != Some(
            "DONE"@,
        ),
        state.filter_tags.len() == 0 || state.filter_tags.contains(tag) && item.tags.contains(tag),
        state.filter_file is None || file_stem(item.file_path) == state.filter_file,
    ensures
        state.refreshed(today).items.to_multiset().count(item)
            == state.all_items.to_multiset().count(item),
        state.all_items.contains(item) ==> state.refreshed(today).items.contains(item),
{
    lemma_refreshed_count(state, today, item);
    if state.filter_tags.len() > 0 {
        let i = choose|i: int| 0 <= i < state.filter_tags.len() && state.filter_tags[i] == tag;
        assert(item.tags.contains(state.filter_tags[i]));
    }
    broadcast use vstd::seq_lib::group_to_multiset_ensures;

}

/// Choosing what to show puts it in the order of the dates, keeps the order among the entries of
/// a date, selects the first, and changes nothing else.
pub proof fn lemma_shown_in_order(state: AgendaState, today: Date, date: Date)
    ensures
        ({
            let after = state.refreshed(today);
            &&& forall|i: int, j: int|
                0 <= i < j < after.items.len() ==> (#[trigger] after.items[i]).date.number() <= (
                #[trigger] after.items[j]).date.number()
            &&& exists|p: spec_fn(ItemView) -> bool|
                on_date(after.items, date) == #[trigger] on_date(state.all_items, date).filter(p)
            &&& after.selected_index == 0
            &&& after.all_items == state.all_items
            &&& after.show_done == state.show_done
            &&& after.filter_tags == state.filter_tags
            &&& after.filter_file == state.filter_file
            &&& after.available_tags == state.available_tags
            &&& after.available_files == state.available_files
            &&& after.days_range == state.days_range
            &&& after.shown_reminders == state.shown_reminders
        }),
{
    let p = |item: ItemView| state.passes(item, today);
    let q = |item: ItemView| item.date == date;
    let f = state.all_items.filter(p);
    lemma_by_date(f);
    assert(on_date(by_date(f), date) == on_date(f, date));
    lemma_filter_twice(state.all_items, p, q);
    assert(on_date(state.refreshed(today).items, date) == on_date(state.all_items, date).filter(p));
}

/// A wider range shows what a narrower one does, and no range shows what any does.
pub proof fn lemma_wider_range_shows_more(
    state: AgendaState,
    today: Date,
    narrow: i64,
    wide: i64,
    item: ItemView,
)
    requires
        0 < narrow <= wide || wide <= 0,
        state.with_range(narrow).refreshed(today).items.contains(item),
    ensures
        state.with_range(wide).refreshed(today).items.contains(item),
{
    broadcast use vstd::seq_lib::group_to_multiset_ensures;

    lemma_refreshed_count(state.with_range(narrow), today, item);
    lemma_refreshed_count(state.with_range(wide), today, item);
}

/// Asking for one more tag shows what asking for some did, and nothing that is asked for no
/// longer hides anything: no tag asked for shows what any tags do, and no file what any file does.
pub proof fn lemma_asking_less_shows_more(
    state: AgendaState,
    today: Date,
    tag: Seq<char>,
    item: ItemView,
)
    requires
        state.refreshed(today).items.contains(item),
    ensures
        state.filter_tags.len() > 0 ==> state.with_tags(state.filter_tags.push(tag)).refreshed(
            today,
        ).items.contains(item),
        state.with_tags(Seq::empty()).refreshed(today).items.contains(item),
        state.with_file(None).refreshed(today).items.contains(item),
        (AgendaState { show_done: true, ..state }).refreshed(today).items.contains(item),
{
    broadcast use vstd::seq_lib::group_to_multiset_ensures;

    lemma_refreshed_count(state, today, item);
    let more = state.with_tags(state.filter_tags.push(tag));
    lemma_refreshed_count(more, today, item);
    lemma_refreshed_count(state.with_tags(Seq::empty()), today, item);
    lemma_refreshed_count(state.with_file(None), today, item);
    lemma_refreshed_count(AgendaState { show_done: true, ..state }, today, item);
    if state.filter_tags.len() > 0 {
        let i = choose|i: int|
            0 <= i < state.filter_tags.len() && item.tags.contains(#[trigger] state.filter_tags[i]);
        assert(more.filter_tags[i] == state.filter_tags[i]);
        assert(item.tags.contains(more.filter_tags[i]));
    }
}

/// Once nothing in particular is asked for, the entries shown are those that are neither done nor
/// closed and lie at most thirty days away, whatever was asked for before.
pub proof fn lemma_cleared_shows(state: AgendaState, today: Date, item: ItemView)
    ensures
        state.cleared().refreshed(today).items.contains(item) <==> {
            &&& state.all_items.contains(item)
            &&& item.todo_keyword != Some("DONE"@)
            &&& item.entry_type != AgendaEntryType::Closed
            &&& item.date.number() <= today.number() + 30
            &&& today.number() <= item.date.number() + 30
        },
        state.cleared().all_items == state.all_items,
        state.cleared().available_tags == state.available_tags,
        state.cleared().available_files == state.available_files,
        state.cleared().shown_reminders == state.shown_reminders,
{
    broadcast use vstd::seq_lib::group_to_multiset_ensures;

    lemma_refreshed_count(state.cleared(), today, item);
}

/// Asking for tags, a file or a range changes what is asked for there and nothing else.
pub proof fn lemma_asking_changes_one_thing(
    state: AgendaState,
    tags: Seq<Seq<char>>,
    file: Option<Seq<char>>,
    days: i64,
)
    ensures
        state.with_tags(tags) == (AgendaState { filter_tags: tags, ..state }),
        state.with_file(file) == (AgendaState { filter_file: file, ..state }),
        state.with_range(days) == (AgendaState { days_range: days, ..state }),
        state.with_next_tags() == state.with_tags(state.with_next_tags().filter_tags),
        state.with_next_file() == state.with_file(state.with_next_file().filter_file),
{
}

/// Going on through the ranges widens them, from a week over a month to a quarter; after the
/// quarter any day is shown, and from there, or from any other range, it begins with the week.
pub proof fn lemma_ranges_widen(days: i64)
    ensures
        next_range(0) == 7,
        next_range(7) == 30,
        next_range(30) == 90,
        next_range(90) == 0,
        days != 7 && days != 30 && days != 90 ==> next_range(days) == 7,
{
}

} // verus!
