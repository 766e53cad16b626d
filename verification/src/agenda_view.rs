//! The agenda: which entries it shows, in what order, and of which it reminds.
use crate::agenda::{all_dated, clone_texts, item_views, AgendaItem, ItemView};
use crate::calendar::{
    iso_date, iso_date_text, local_now, long_date, long_date_text, Date, DateTime,
};
use crate::label::{shown, Color, Label, LabelSize, Shown};
use crate::number::{decimal, decimal_int, decimal_int_text, decimal_text};
use crate::order::{
    add_text, add_texts, holds_text, lemma_with_text, position, position_of, sort_distinct,
    sorted_listing, with_text,
};
use crate::paths::{file_stem, file_stem_of};
use crate::patterns::option_text;
use crate::planning::AgendaEntryType;
use crate::text::{same_text, texts};
use vstd::prelude::*;
use vstd::string::*;

verus! {

/// The state of an agenda.
#[derive(Debug)]
pub struct AgendaView {
    /// The entries shown, by date.
    pub items: Vec<AgendaItem>,
    /// All entries, by date.
    pub all_items: Vec<AgendaItem>,
    pub selected_index: usize,
    pub show_done: bool,
    pub filter_tags: Vec<String>,
    pub filter_file: Option<String>,
    pub available_tags: Vec<String>,
    pub available_files: Vec<String>,
    /// How many days away an entry may be; 0 for any number.
    pub days_range: i64,
    /// The reminders that were shown, each once.
    pub shown_reminders: Vec<String>,
}

/// What the state of an agenda says.
#[verifier::ext_equal]
pub struct AgendaState {
    pub items: Seq<ItemView>,
    pub all_items: Seq<ItemView>,
    pub selected_index: int,
    pub show_done: bool,
    pub filter_tags: Seq<Seq<char>>,
    pub filter_file: Option<Seq<char>>,
    pub available_tags: Seq<Seq<char>>,
    pub available_files: Seq<Seq<char>>,
    pub days_range: i64,
    pub shown_reminders: Seq<Seq<char>>,
}

impl View for AgendaView {
    type V = AgendaState;

    /// What the state says.
    open spec fn view(&self) -> AgendaState {
        AgendaState {
            items: item_views(self.items@),
            all_items: item_views(self.all_items@),
            selected_index: self.selected_index as int,
            show_done: self.show_done,
            filter_tags: texts(self.filter_tags@),
            filter_file: option_text(self.filter_file),
            available_tags: texts(self.available_tags@),
            available_files: texts(self.available_files@),
            days_range: self.days_range,
            shown_reminders: texts(self.shown_reminders@),
        }
    }
}

impl AgendaState {
    /// The entries have dates of the calendar, the selection is one of the entries shown, or the
    /// first place where there are none, and no reminder is listed twice.
    pub open spec fn valid(self) -> bool {
        &&& all_dated(self.items)
        &&& all_dated(self.all_items)
        &&& self.selected_index == 0 || self.selected_index < self.items.len()
        &&& self.shown_reminders.no_duplicates()
    }

    /// The agenda shows an entry: unless it shows what is done, the entry is not done and not
    /// closed; its date is near enough; it has one of the tags asked for, if any are; and it
    /// stands in the file asked for, if one is.
    pub open spec fn passes(self, item: ItemView, today: Date) -> bool {
        &&& self.show_done || item.todo_keyword != Some("DONE"@) && item.entry_type
            != AgendaEntryType::Closed
        &&& self.days_range > 0 ==> -self.days_range <= item.date.number() - today.number()
            <= self.days_range
        &&& self.filter_tags.len() > 0 ==> shares_text(self.filter_tags, item.tags)
        &&& self.filter_file matches Some(file) ==> stem_of(item.file_path) == file
    }

    /// The state with some tags asked for.
    pub open spec fn with_tags(self, tags: Seq<Seq<char>>) -> AgendaState {
        AgendaState { filter_tags: tags, ..self }
    }

    /// The state with a file asked for, or with none.
    pub open spec fn with_file(self, file: Option<Seq<char>>) -> AgendaState {
        AgendaState { filter_file: file, ..self }
    }

    /// The state with a range of days.
    pub open spec fn with_range(self, days: i64) -> AgendaState {
        AgendaState { days_range: days, ..self }
    }

    /// The state with the next tags asked for.
    pub open spec fn with_next_tags(self) -> AgendaState {
        AgendaState { filter_tags: next_tags(self.filter_tags, self.available_tags), ..self }
    }

    /// The state with the next file asked for.
    pub open spec fn with_next_file(self) -> AgendaState {
        AgendaState { filter_file: next_file(self.filter_file, self.available_files), ..self }
    }

    /// The state with nothing in particular asked for: any tag, any file, what is not done, thirty
    /// days.
    pub open spec fn cleared(self) -> AgendaState {
        AgendaState {
            filter_tags: Seq::empty(),
            filter_file: None,
            show_done: false,
            days_range: 30,
            ..self
        }
    }

    /// The state with the entries shown chosen anew, and the first of them selected.
    pub open spec fn refreshed(self, today: Date) -> AgendaState {
        AgendaState {
            items: by_date(self.all_items.filter(|item: ItemView| self.passes(item, today))),
            selected_index: 0,
            ..self
        }
    }
}

/// The lists have a text in common.
pub open spec fn shares_text(a: Seq<Seq<char>>, b: Seq<Seq<char>>) -> bool {
    exists|i: int| 0 <= i < a.len() && b.contains(#[trigger] a[i])
}

/// Whether the lists have a text in common.
fn share_text(a: &Vec<String>, b: &Vec<String>) -> (r: bool)
    ensures
        r == shares_text(texts(a@), texts(b@)),
{
    let mut i: usize = 0;
    while i < a.len()
        invariant
            i <= a@.len(),
            forall|j: int| 0 <= j < i ==> !texts(b@).contains(#[trigger] texts(a@)[j]),
        decreases a@.len() - i,
    {
        assert(texts(a@)[i as int] == a@[i as int]@);
        if holds_text(b, a[i].as_str()) {
            return true;
        }
        i += 1;
    }
    false
}

/// The name of a file without its extension, or nothing where the path has no name.
pub open spec fn stem_of(path: Seq<char>) -> Seq<char> {
    match file_stem(path) {
        Some(stem) => stem,
        None => Seq::empty(),
    }
}

/// The name of a file without its extension, or nothing where the path has no name.
fn stem_text(path: &str) -> (r: String)
    ensures
        r@ == stem_of(path@),
{
    match file_stem_of(path) {
        Some(stem) => stem,
        None => String::new(),
    }
}

/// The entries with one more, after all that are not later.
pub open spec fn inserted(items: Seq<ItemView>, item: ItemView) -> Seq<ItemView>
    decreases items.len(),
{
    if items.len() > 0 && items.last().date.number() > item.date.number() {
        inserted(items.drop_last(), item).push(items.last())
    } else {
        items.push(item)
    }
}

/// The entries by date; those of one date stay in their order.
pub open spec fn by_date(items: Seq<ItemView>) -> Seq<ItemView>
    decreases items.len(),
{
    if items.len() == 0 {
        items
    } else {
        inserted(by_date(items.drop_last()), items.last())
    }
}

/// Where an entry goes is after all that are not later, and before those that are.
proof fn lemma_inserted(items: Seq<ItemView>, item: ItemView, k: int)
    requires
        0 <= k <= items.len(),
        forall|j: int| k <= j < items.len() ==> (#[trigger] items[j]).date.number() > item.date.number(),
        k > 0 ==> items[k - 1].date.number() <= item.date.number(),
    ensures
        inserted(items, item) == items.insert(k, item),
    decreases items.len(),
{
    if k < items.len() {
        let init = items.drop_last();
        lemma_inserted(init, item, k);
        assert(items[items.len() - 1].date.number() > item.date.number());
        assert(init.insert(k, item).push(items.last()) == items.insert(k, item));
    } else {
        assert(items.push(item) == items.insert(k, item));
    }
}

/// The entries are in the order of their dates.
pub open spec fn is_by_date(items: Seq<ItemView>) -> bool {
    forall|i: int, j: int|
        0 <= i < j < items.len() ==> (#[trigger] items[i]).date.number() <= (
        #[trigger] items[j]).date.number()
}

/// Among entries in order, there is a place after all that are not later than an entry and before
/// those that are.
proof fn lemma_insert_place(items: Seq<ItemView>, item: ItemView) -> (k: int)
    requires
        is_by_date(items),
    ensures
        0 <= k <= items.len(),
        forall|j: int| k <= j < items.len() ==> (#[trigger] items[j]).date.number() > item.date.number(),
        forall|j: int| 0 <= j < k ==> (#[trigger] items[j]).date.number() <= item.date.number(),
        inserted(items, item) == items.insert(k, item),
    decreases items.len(),
{
    if items.len() > 0 && items.last().date.number() > item.date.number() {
        let init = items.drop_last();
        let k = lemma_insert_place(init, item);
        assert forall|j: int| 0 <= j < k implies (#[trigger] items[j]).date.number()
            <= item.date.number() by {
            assert(init[j] == items[j]);
        }
        assert forall|j: int| k <= j < items.len() implies (#[trigger] items[j]).date.number()
            > item.date.number() by {
            if j < init.len() {
                assert(init[j] == items[j]);
            }
        }
        if k > 0 {
            assert(items[k - 1].date.number() <= item.date.number());
        }
        lemma_inserted(items, item, k);
        k
    } else {
        let k = items.len() as int;
        assert forall|j: int| 0 <= j < k implies (#[trigger] items[j]).date.number()
            <= item.date.number() by {
            if j < items.len() - 1 {
                assert(items[j].date.number() <= items[items.len() - 1].date.number());
            }
        }
        assert(items.push(item) == items.insert(k, item));
        k
    }
}

/// The entries of one date.
pub open spec fn on_date(items: Seq<ItemView>, date: Date) -> Seq<ItemView> {
    items.filter(|item: ItemView| item.date == date)
}

/// Putting entries in the order of their dates keeps them all, and keeps those of one date in
/// their order.
pub proof fn lemma_by_date(items: Seq<ItemView>)
    ensures
        is_by_date(by_date(items)),
        by_date(items).to_multiset() == items.to_multiset(),
        forall|date: Date| #[trigger] on_date(by_date(items), date) == on_date(items, date),
    decreases items.len(),
{
    if items.len() > 0 {
        let init = items.drop_last();
        let item = items.last();
        lemma_by_date(init);
        let s = by_date(init);
        let k = lemma_insert_place(s, item);
        let r = s.insert(k, item);
        assert(items == init.push(item));
        assert forall|i: int, j: int| 0 <= i < j < r.len() implies (#[trigger] r[i]).date.number()
            <= (#[trigger] r[j]).date.number() by {
            if i < k && j < k {
                assert(s[i].date.number() <= s[j].date.number());
            } else if i < k && j > k {
                assert(s[i].date.number() <= s[j - 1].date.number());
            } else if i < k {
                assert(s[i].date.number() <= item.date.number());
            } else if i == k {
                assert(s[j - 1].date.number() > item.date.number());
            } else {
                assert(s[i - 1].date.number() <= s[j - 1].date.number());
            }
        }
        vstd::seq_lib::to_multiset_insert(s, k, item);
        vstd::seq_lib::to_multiset_build(init, item);
        assert forall|date: Date| #[trigger] on_date(r, date) == on_date(items, date) by {
            let p = |item: ItemView| item.date == date;
            assert(on_date(s, date) == on_date(init, date));
            let a = s.take(k);
            let b = s.skip(k);
            assert(s == a + b);
            assert(r == a.push(item) + b);
            Seq::filter_distributes_over_add(a, b, p);
            Seq::filter_distributes_over_add(a.push(item), b, p);
            a.lemma_filter_push(item, p);
            init.lemma_filter_push(item, p);
            if item.date == date {
                assert(b.filter(p) == Seq::<ItemView>::empty()) by {
                    if b.filter(p).len() > 0 {
                        let x = b.filter(p)[0];
                        b.lemma_filter_pred(p, 0);
                        b.lemma_filter_contains_rev(p, x);
                        let j = choose|j: int| 0 <= j < b.len() && b[j] == x;
                        assert(s[k + j] == x);
                    }
                }
                assert(a.filter(p).push(item) + Seq::<ItemView>::empty() == (a.filter(p)
                    + Seq::<ItemView>::empty()).push(item));
            }
        }
    }
}

/// The views of entries with one more put in are the views with its view put in.
proof fn lemma_views_insert(items: Seq<AgendaItem>, k: int, item: AgendaItem)
    requires
        0 <= k <= items.len(),
    ensures
        item_views(items.insert(k, item)) == item_views(items).insert(k, item@),
{
    assert(item_views(items.insert(k, item)) =~= item_views(items).insert(k, item@));
}

/// Puts an entry after all that are not later.
fn insert_item(items: &mut Vec<AgendaItem>, item: AgendaItem)
    requires
        all_dated(item_views(old(items)@)),
        item.date.valid(),
    ensures
        item_views(final(items)@) == inserted(item_views(old(items)@), item@),
{
    let ghost views = item_views(items@);
    let mut k: usize = items.len();
    while k > 0 && item.date.before(items[k - 1].date)
        invariant
            k <= items@.len(),
            items@ == old(items)@,
            views == item_views(items@),
            all_dated(views),
            item.date.valid(),
            forall|j: int| 0 <= j < views.len() ==> views[j].date == (#[trigger] items@[j]).date,
            forall|j: int|
                k <= j < views.len() ==> (#[trigger] views[j]).date.number() > item@.date.number(),
        decreases k,
    {
        assert(views[k - 1] == items@[k - 1]@);
        k -= 1;
    }
    proof {
        if k > 0 {
            assert(views[k - 1] == items@[k - 1]@);
        }
        lemma_inserted(views, item@, k as int);
        lemma_views_insert(items@, k as int, item);
    }
    items.insert(k, item);
}

/// Where all entries have dates, they do in the order of these.
pub proof fn lemma_by_date_dated(items: Seq<ItemView>)
    requires
        all_dated(items),
    ensures
        all_dated(by_date(items)),
        by_date(items).len() == items.len(),
{
    lemma_by_date(items);
    broadcast use vstd::seq_lib::group_to_multiset_ensures;

    assert(by_date(items).to_multiset().len() == items.to_multiset().len());

    assert forall|i: int| 0 <= i < by_date(items).len() implies (#[trigger] by_date(
        items,
    )[i]).date.valid() by {
        let x = by_date(items)[i];
        assert(by_date(items).contains(x));
        assert(by_date(items).to_multiset().count(x) > 0);
        assert(items.contains(x));
    }
}

/// The entries by date.
pub fn sort_by_date(items: &Vec<AgendaItem>) -> (r: Vec<AgendaItem>)
    requires
        all_dated(item_views(items@)),
    ensures
        item_views(r@) == by_date(item_views(items@)),
{
    let ghost views = item_views(items@);
    let mut r: Vec<AgendaItem> = Vec::new();
    let mut i: usize = 0;
    assert(item_views(r@) == views.take(0));
    while i < items.len()
        invariant
            i <= items@.len(),
            views == item_views(items@),
            all_dated(views),
            item_views(r@) == by_date(views.take(i as int)),
        decreases items@.len() - i,
    {
        assert(views[i as int] == items@[i as int]@);
        let item = items[i].clone();
        proof {
            let init = views.take(i as int);
            assert(all_dated(init));
            lemma_by_date_dated(init);
            assert(views.take(i + 1).drop_last() == init);
            assert(views.take(i + 1).last() == item@);
        }
        insert_item(&mut r, item);
        i += 1;
    }
    assert(views.take(i as int) == views);
    r
}

/// An empty agenda, for the entries of the thirty days around today.
pub open spec fn empty_agenda() -> AgendaState {
    AgendaState {
        items: Seq::empty(),
        all_items: Seq::empty(),
        selected_index: 0,
        show_done: false,
        filter_tags: Seq::empty(),
        filter_file: None,
        available_tags: Seq::empty(),
        available_files: Seq::empty(),
        days_range: 30,
        shown_reminders: Seq::empty(),
    }
}

impl AgendaView {
    /// An empty agenda, for the entries of the thirty days around today.
    pub fn new() -> (r: AgendaView)
        ensures
            r@ == empty_agenda(),
            r@.valid(),
    {
        let r = AgendaView {
            items: Vec::new(),
            all_items: Vec::new(),
            selected_index: 0,
            show_done: false,
            filter_tags: Vec::new(),
            filter_file: None,
            available_tags: Vec::new(),
            available_files: Vec::new(),
            days_range: 30,
            shown_reminders: Vec::new(),
        };
        assert(r@.items == Seq::<ItemView>::empty());
        assert(r@.all_items == Seq::<ItemView>::empty());
        assert(r@.filter_tags == Seq::<Seq<char>>::empty());
        assert(r@.available_tags == Seq::<Seq<char>>::empty());
        assert(r@.available_files == Seq::<Seq<char>>::empty());
        assert(r@.shown_reminders == Seq::<Seq<char>>::empty());
        r
    }

    /// Whether the agenda shows an entry.
    fn shows(&self, item: &AgendaItem, today: Date) -> (r: bool)
        requires
            item.date.valid(),
            today.valid(),
        ensures
            r == self@.passes(item@, today),
    {
        if !self.show_done {
            if let Some(todo) = &item.todo_keyword {
                if same_text(todo.as_str(), "DONE") {
                    return false;
                }
            }
            if let AgendaEntryType::Closed = item.entry_type {
                return false;
            }
        }
        if self.days_range > 0 {
            let days = item.date.days_since(today);
            if days > self.days_range || days < -self.days_range {
                return false;
            }
        }
        if self.filter_tags.len() > 0 {
            if !share_text(&self.filter_tags, &item.tags) {
                return false;
            }
        }
        if let Some(file) = &self.filter_file {
            let stem = stem_text(item.file_path.as_str());
            if !same_text(stem.as_str(), file.as_str()) {
                return false;
            }
        }
        true
    }

    /// Chooses the entries to show anew, for a day.
    pub fn apply_filters_on(&mut self, today: Date)
        requires
            old(self)@.valid(),
            today.valid(),
        ensures
            final(self)@ == old(self)@.refreshed(today),
            final(self)@.valid(),
    {
        let ghost state = self@;
        let ghost all = self@.all_items;
        let ghost p = |item: ItemView| state.passes(item, today);
        let mut filtered: Vec<AgendaItem> = Vec::new();
        let mut i: usize = 0;
        proof {
            reveal(Seq::filter);
            assert(item_views(filtered@) == all.take(0).filter(p));
        }
        while i < self.all_items.len()
            invariant
                i <= self.all_items@.len(),
                self@ == state,
                *self == *old(self),
                all == item_views(self.all_items@),
                all_dated(all),
                today.valid(),
                p == (|item: ItemView| state.passes(item, today)),
                item_views(filtered@) == all.take(i as int).filter(p),
            decreases self.all_items@.len() - i,
        {
            assert(all[i as int] == self.all_items@[i as int]@);
            proof {
                assert(all.take(i + 1) == all.take(i as int).push(all[i as int]));
                all.take(i as int).lemma_filter_push(all[i as int], p);
            }
            if self.shows(&self.all_items[i], today) {
                let item = self.all_items[i].clone();
                proof {
                    assert(item_views(filtered@.push(item)) == item_views(filtered@).push(item@));
                }
                filtered.push(item);
            }
            i += 1;
        }
        proof {
            assert(all.take(i as int) == all);
            let f = all.filter(p);
            assert forall|j: int| 0 <= j < f.len() implies (#[trigger] f[j]).date.valid() by {
                all.lemma_filter_contains_rev(p, f[j]);
            }
            lemma_by_date_dated(f);
        }
        self.items = sort_by_date(&filtered);
        self.selected_index = 0;
    }

    /// Chooses the entries to show anew, for today.
    pub fn apply_filters(&mut self)
        requires
            old(self)@.valid(),
        ensures
            exists|now: DateTime|
                now.valid() && final(self)@ == #[trigger] old(self)@.refreshed(now.date),
            final(self)@.valid(),
    {
        let now = local_now();
        self.apply_filters_on(now.date);
    }
}

/// The tags asked for, one step on: the next of those there are is added, and after the last of
/// them none is asked for.
pub open spec fn next_tags(asked: Seq<Seq<char>>, available: Seq<Seq<char>>) -> Seq<Seq<char>> {
    if asked.len() == 0 {
        seq![available[0]]
    } else {
        match position(available, asked.last()) {
            Some(i) => if i + 1 < available.len() {
                with_text(asked, available[i + 1])
            } else {
                Seq::empty()
            },
            None => Seq::empty(),
        }
    }
}

/// The file asked for, one step on: the next of those there are, and after the last none.
pub open spec fn next_file(asked: Option<Seq<char>>, available: Seq<Seq<char>>) -> Option<
    Seq<char>,
> {
    match asked {
        None => Some(available[0]),
        Some(file) => match position(available, file) {
            Some(i) => if i + 1 < available.len() {
                Some(available[i + 1])
            } else {
                None
            },
            None => None,
        },
    }
}

/// The range of days after another one: a week, a month, a quarter, and any number.
pub open spec fn next_range(days: i64) -> i64 {
    if days == 7 {
        30
    } else if days == 30 {
        90
    } else if days == 90 {
        0
    } else {
        7
    }
}

impl AgendaView {
    /// Shows what is done, or hides it. The entries are to be collected anew after that.
    pub fn toggle_show_done(&mut self)
        ensures
            final(self)@ == (AgendaState { show_done: !old(self)@.show_done, ..old(self)@ }),
    {
        self.show_done = !self.show_done;
    }

    /// Goes on to the next range of days. The entries are to be collected anew after that.
    pub fn cycle_date_range(&mut self)
        ensures
            final(self)@ == (AgendaState {
                days_range: next_range(old(self)@.days_range),
                ..old(self)@
            }),
    {
        self.days_range = match self.days_range {
            7 => 30,
            30 => 90,
            90 => 0,
            _ => 7,
        };
    }

    /// Asks for the next tags, without choosing the entries anew.
    fn advance_tags(&mut self)
        requires
            old(self)@.available_tags.len() > 0,
        ensures
            final(self)@ == old(self)@.with_next_tags(),
    {
        assert(self@.available_tags.len() == self.available_tags@.len());
        assert(self@.filter_tags.len() == self.filter_tags@.len());
        let count = self.filter_tags.len();
        let available = self.available_tags.len();
        if count == 0 {
            let first = self.available_tags[0].clone();
            assert(self@.available_tags[0] == first@);
            self.filter_tags = vec![first];
            assert(self@.filter_tags == seq![first@]);
        } else {
            let last = self.filter_tags[count - 1].clone();
            assert(self@.filter_tags.last() == last@);
            match position_of(&self.available_tags, last.as_str()) {
                Some(i) => {
                    if i + 1 < available {
                        let next = self.available_tags[i + 1].clone();
                        assert(self@.available_tags[i + 1] == next@);
                        add_text(&mut self.filter_tags, next.as_str());
                    } else {
                        self.filter_tags = Vec::new();
                        assert(self@.filter_tags == Seq::<Seq<char>>::empty());
                    }
                },
                None => {
                    self.filter_tags = Vec::new();
                    assert(self@.filter_tags == Seq::<Seq<char>>::empty());
                },
            }
        }
    }

    /// Asks for the next tags, if there are any to ask for.
    pub fn cycle_tag_filter(&mut self)
        requires
            old(self)@.valid(),
        ensures
            final(self)@.valid(),
            old(self)@.available_tags.len() == 0 ==> final(self)@ == old(self)@,
            old(self)@.available_tags.len() > 0 ==> exists|now: DateTime|
                now.valid() && final(self)@ == #[trigger] old(self)@.with_next_tags().refreshed(
                    now.date,
                ),
    {
        if self.available_tags.len() == 0 {
            return ;
        }
        self.advance_tags();
        self.apply_filters();
    }

    /// Asks for the next file, without choosing the entries anew.
    fn advance_file(&mut self)
        requires
            old(self)@.available_files.len() > 0,
        ensures
            final(self)@ == old(self)@.with_next_file(),
    {
        assert(self@.available_files.len() == self.available_files@.len());
        let available = self.available_files.len();
        let next = match &self.filter_file {
            None => {
                assert(self@.available_files[0] == self.available_files@[0]@);
                Some(self.available_files[0].clone())
            },
            Some(file) => match position_of(&self.available_files, file.as_str()) {
                Some(i) => if i + 1 < available {
                    assert(self@.available_files[i + 1] == self.available_files@[i + 1]@);
                    Some(self.available_files[i + 1].clone())
                } else {
                    None
                },
                None => None,
            },
        };
        self.filter_file = next;
    }

    /// Asks for the next file, if there are any to ask for.
    pub fn cycle_file_filter(&mut self)
        requires
            old(self)@.valid(),
        ensures
            final(self)@.valid(),
            old(self)@.available_files.len() == 0 ==> final(self)@ == old(self)@,
            old(self)@.available_files.len() > 0 ==> exists|now: DateTime|
                now.valid() && final(self)@ == #[trigger] old(self)@.with_next_file().refreshed(
                    now.date,
                ),
    {
        if self.available_files.len() == 0 {
            return ;
        }
        self.advance_file();
        self.apply_filters();
    }

    /// Asks for nothing in particular: any tag, any file, what is not done, thirty days.
    pub fn clear_filters(&mut self)
        requires
            old(self)@.valid(),
        ensures
            final(self)@.valid(),
            exists|now: DateTime|
                now.valid() && final(self)@ == #[trigger] old(self)@.cleared().refreshed(now.date),
    {
        self.filter_tags = Vec::new();
        assert(self@.filter_tags == Seq::<Seq<char>>::empty());
        self.filter_file = None;
        self.show_done = false;
        self.days_range = 30;
        self.apply_filters();
    }

    /// Selects the next entry, if there is one.
    pub fn select_next(&mut self)
        requires
            old(self)@.valid(),
        ensures
            final(self)@.valid(),
            final(self)@ == (AgendaState {
                selected_index: if old(self)@.selected_index + 1 < old(self)@.items.len() {
                    old(self)@.selected_index + 1
                } else {
                    old(self)@.selected_index
                },
                ..old(self)@
            }),
    {
        assert(self@.items.len() == self.items@.len());
        let len = self.items.len();
        if self.selected_index < len && self.selected_index + 1 < len {
            self.selected_index = self.selected_index + 1;
        }
    }

    /// Selects the entry before, if there is one.
    pub fn select_previous(&mut self)
        requires
            old(self)@.valid(),
        ensures
            final(self)@.valid(),
            final(self)@ == (AgendaState {
                selected_index: if old(self)@.selected_index > 0 {
                    old(self)@.selected_index - 1
                } else {
                    0
                },
                ..old(self)@
            }),
    {
        if self.selected_index > 0 {
            self.selected_index = self.selected_index - 1;
        }
    }

    /// The file of the selected entry, and the row to go to in it.
    pub fn confirm(&self) -> (r: Option<(String, u32)>)
        requires
            self@.valid(),
        ensures
            match r {
                Some((path, row)) => self@.selected_index < self@.items.len() && (path@, row)
                    == place_of(self@.items[self@.selected_index]),
                None => self@.selected_index >= self@.items.len(),
            },
    {
        assert(self@.items.len() == self.items@.len());
        if self.selected_index < self.items.len() {
            assert(self@.items[self@.selected_index] == self.items@[self.selected_index as int]@);
            Some(open_agenda_item(&self.items[self.selected_index]))
        } else {
            None
        }
    }
}

/// The file of an entry, and the row to go to in it: the one before that of the entry, if there
/// is one.
pub open spec fn place_of(item: ItemView) -> (Seq<char>, u32) {
    (
        item.file_path,
        if item.line_number > 0 {
            (item.line_number - 1) as u32
        } else {
            0
        },
    )
}

/// The file of an entry, and the row to go to in it.
pub fn open_agenda_item(item: &AgendaItem) -> (r: (String, u32))
    ensures
        (r.0@, r.1) == place_of(item@),
{
    let row: u32 = if item.line_number > 0 {
        item.line_number - 1
    } else {
        0
    };
    (item.file_path.clone(), row)
}

/// Going on through the tags asks for one more of those there are at each step, and after the
/// last of them for none.
pub proof fn lemma_tag_cycle(available: Seq<Seq<char>>, count: int)
    requires
        available.no_duplicates(),
        available.len() > 0,
        0 <= count <= available.len(),
    ensures
        next_tags(available.take(count), available) == if count < available.len() {
            available.take(count + 1)
        } else {
            Seq::empty()
        },
{
    let asked = available.take(count);
    if count == 0 {
        assert(available.take(1) == seq![available[0]]);
    } else {
        assert(asked.last() == available[count - 1]);
        assert(available.contains(available[count - 1]));
        available.index_of_first_ensures(available[count - 1]);
        assert(position(available, asked.last()) == Some(count - 1));
        if count < available.len() {
            if asked.contains(available[count]) {
                let k = choose|k: int| 0 <= k < asked.len() && asked[k] == available[count];
                assert(available[k] == available[count]);
            }
            assert(available.take(count + 1) == asked.push(available[count]));
        }
    }
}

/// Going on through the files asks for each of those there are in turn, and after the last of
/// them for none.
pub proof fn lemma_file_cycle(available: Seq<Seq<char>>, i: int)
    requires
        available.no_duplicates(),
        0 <= i < available.len(),
    ensures
        next_file(None, available) == Some(available[0]),
        next_file(Some(available[i]), available) == if i + 1 < available.len() {
            Some(available[i + 1])
        } else {
            None
        },
{
    assert(available.contains(available[i]));
    available.index_of_first_ensures(available[i]);
}

/// Going on through the ranges four times leads back, from any of them.
pub proof fn lemma_range_cycle(days: i64)
    requires
        days == 7 || days == 30 || days == 90 || days == 0,
    ensures
        next_range(next_range(next_range(next_range(days)))) == days,
{
}

/// What the agenda shows are those entries that it is to show, and no others, in the order of
/// their dates.
pub proof fn lemma_shown_items(state: AgendaState, today: Date, item: ItemView)
    ensures
        is_by_date(state.refreshed(today).items),
        state.refreshed(today).items.contains(item) <==> state.all_items.contains(item)
            && state.passes(item, today),
{
    let p = |item: ItemView| state.passes(item, today);
    let f = state.all_items.filter(p);
    lemma_by_date(f);
    broadcast use vstd::seq_lib::group_to_multiset_ensures;

    let shown_items = by_date(f);
    assert(shown_items.contains(item) <==> shown_items.to_multiset().count(item) > 0);
    assert(f.contains(item) <==> f.to_multiset().count(item) > 0);
    if f.contains(item) {
        state.all_items.lemma_filter_contains_rev(p, item);
        let i = choose|i: int| 0 <= i < f.len() && f[i] == item;
        state.all_items.lemma_filter_pred(p, i);
    }
    if state.all_items.contains(item) && state.passes(item, today) {
        let i = choose|i: int| 0 <= i < state.all_items.len() && state.all_items[i] == item;
        state.all_items.lemma_filter_contains(p, i);
    }
}

/// Choosing the entries to show anew, on the same day, changes nothing more.
pub proof fn lemma_refresh_twice(state: AgendaState, today: Date)
    ensures
        state.refreshed(today).refreshed(today) == state.refreshed(today),
{
    let p = |item: ItemView| state.passes(item, today);
    let q = |item: ItemView| state.refreshed(today).passes(item, today);
    assert(p =~= q);
}

/// A reminder to show: of what, for which day, how soon that is, and where it stands.
#[derive(Debug)]
pub struct Reminder {
    pub task_name: String,
    pub deadline_date: String,
    pub urgency: String,
    pub file_path: String,
    pub line_number: u32,
}

/// What a reminder says.
#[verifier::ext_equal]
pub struct ReminderView {
    pub task_name: Seq<char>,
    pub deadline_date: Seq<char>,
    pub urgency: Seq<char>,
    pub file_path: Seq<char>,
    pub line_number: u32,
}

impl View for Reminder {
    type V = ReminderView;

    /// What the reminder says.
    open spec fn view(&self) -> ReminderView {
        ReminderView {
            task_name: self.task_name@,
            deadline_date: self.deadline_date@,
            urgency: self.urgency@,
            file_path: self.file_path@,
            line_number: self.line_number,
        }
    }
}

/// What several reminders say.
pub open spec fn reminder_views(reminders: Seq<Reminder>) -> Seq<ReminderView> {
    reminders.map_values(|r: Reminder| r@)
}

/// What tells the reminder of an entry from others: its file and its line.
pub open spec fn reminder_id(item: ItemView) -> Seq<char> {
    item.file_path + "-"@ + decimal(item.line_number as nat)
}

/// What tells the reminder of an entry from others.
fn reminder_id_of(item: &AgendaItem) -> (r: String)
    ensures
        r@ == reminder_id(item@),
{
    let mut r = item.file_path.clone();
    r.append("-");
    let line = decimal_text(item.line_number as u128);
    r.append(line.as_str());
    r
}

/// The number of whole seconds from the first day of the year 1 to a time.
pub open spec fn seconds_of(at: DateTime) -> int {
    86400 * at.date.number() + 3600 * at.time.hour + 60 * at.time.minute + at.time.second
}

/// The last second of a day.
pub open spec fn end_of_day(date: Date) -> int {
    86400 * date.number() + 86399
}

/// It is time to remind of an entry: its last second is not over, and the reminder's duration
/// before that second has come.
pub open spec fn is_time(date: Date, duration: nat, now: DateTime) -> bool {
    &&& seconds_of(now) >= end_of_day(date) - duration
    &&& seconds_of(now) < end_of_day(date) || seconds_of(now) == end_of_day(date)
        && now.time.nanosecond == 0
}

/// Whether it is time to remind of an entry.
pub fn is_reminder_time(date: Date, duration: u128, now: DateTime) -> (r: bool)
    requires
        date.valid(),
        now.valid(),
    ensures
        r == is_time(date, duration as nat, now),
{
    let end: i64 = 86400 * date.day_number() + 86399;
    let at: i64 = 86400 * now.date.day_number() + 3600 * now.time.hour as i64 + 60
        * now.time.minute as i64 + now.time.second as i64;
    if at > end || at == end && now.time.nanosecond > 0 {
        return false;
    }
    let left: i64 = end - at;
    left as u128 <= duration
}

/// How soon a day is, in words.
pub open spec fn urgency_words(days: int) -> Seq<char> {
    if days == 0 {
        "TODAY"@
    } else if days == 1 {
        "TOMORROW"@
    } else {
        "in "@ + decimal_int(days) + " days"@
    }
}

/// How soon a day is, in words.
pub fn describe_urgency(days: i64) -> (r: String)
    ensures
        r@ == urgency_words(days as int),
{
    if days == 0 {
        "TODAY".to_owned()
    } else if days == 1 {
        "TOMORROW".to_owned()
    } else {
        let mut r = "in ".to_owned();
        let n = decimal_int_text(days);
        r.append(n.as_str());
        r.append(" days");
        r
    }
}

impl AgendaState {
    /// The reminder of an entry is due: the entry is for a day to come and not done, has a
    /// reminder that was not shown, and it is time.
    pub open spec fn is_due(self, item: ItemView, now: DateTime) -> bool {
        &&& item.entry_type != AgendaEntryType::Closed
        &&& item.todo_keyword != Some("DONE"@)
        &&& item.reminder_duration is Some
        &&& !self.shown_reminders.contains(reminder_id(item))
        &&& is_time(item.date, item.reminder_duration->0, now)
    }

    /// The entries of which a reminder is due.
    pub open spec fn due_items(self, now: DateTime) -> Seq<ItemView> {
        self.all_items.filter(|item: ItemView| self.is_due(item, now))
    }
}

/// The reminder of an entry.
pub open spec fn reminder_for(item: ItemView, now: DateTime) -> ReminderView {
    ReminderView {
        task_name: item.headline,
        deadline_date: iso_date(item.date),
        urgency: urgency_words(item.date.number() - now.date.number()),
        file_path: item.file_path,
        line_number: item.line_number,
    }
}

/// A list of texts with those of some entries' reminders added, each once.
pub open spec fn with_reminders(ids: Seq<Seq<char>>, items: Seq<ItemView>) -> Seq<Seq<char>>
    decreases items.len(),
{
    if items.len() == 0 {
        ids
    } else {
        with_text(with_reminders(ids, items.drop_last()), reminder_id(items.last()))
    }
}

/// Adding reminders to a list of distinct ones keeps them distinct, and lists what was listed and
/// what was added.
pub proof fn lemma_with_reminders(ids: Seq<Seq<char>>, items: Seq<ItemView>)
    requires
        ids.no_duplicates(),
    ensures
        with_reminders(ids, items).no_duplicates(),
        forall|id: Seq<char>| ids.contains(id) ==> #[trigger] with_reminders(ids, items).contains(id),
        forall|i: int|
            0 <= i < items.len() ==> with_reminders(ids, items).contains(
                reminder_id(#[trigger] items[i]),
            ),
    decreases items.len(),
{
    if items.len() > 0 {
        let init = items.drop_last();
        let before = with_reminders(ids, init);
        let after = with_reminders(ids, items);
        lemma_with_reminders(ids, init);
        lemma_with_text(before, reminder_id(items.last()));
        assert forall|t: Seq<char>| before.contains(t) implies after.contains(t) by {
            assert(before.to_set().contains(t));
            assert(after.to_set().contains(t));
        }
        assert(after.to_set().contains(reminder_id(items.last())));
        assert forall|i: int| 0 <= i < items.len() implies after.contains(
            reminder_id(#[trigger] items[i]),
        ) by {
            if i < init.len() {
                assert(before.contains(reminder_id(init[i])));
            }
        }
    }
}

/// A reminder that was shown is not due again.
pub proof fn lemma_reminded_once(state: AgendaState, now: DateTime, later: DateTime, item: ItemView)
    requires
        state.shown_reminders.no_duplicates(),
        state.due_items(now).contains(item),
    ensures
        !(AgendaState {
            shown_reminders: with_reminders(state.shown_reminders, state.due_items(now)),
            ..state
        }).is_due(item, later),
{
    let due = state.due_items(now);
    lemma_with_reminders(state.shown_reminders, due);
    let i = choose|i: int| 0 <= i < due.len() && due[i] == item;
    assert(with_reminders(state.shown_reminders, due).contains(reminder_id(due[i])));
}

impl AgendaView {
    /// Whether a reminder of an entry is due.
    fn due(&self, item: &AgendaItem, now: DateTime) -> (r: bool)
        requires
            item.date.valid(),
            now.valid(),
        ensures
            r == self@.is_due(item@, now),
    {
        if let AgendaEntryType::Closed = item.entry_type {
            return false;
        }
        if let Some(todo) = &item.todo_keyword {
            if same_text(todo.as_str(), "DONE") {
                return false;
            }
        }
        match item.reminder_duration {
            Some(duration) => {
                let id = reminder_id_of(item);
                !holds_text(&self.shown_reminders, id.as_str()) && is_reminder_time(
                    item.date,
                    duration,
                    now,
                )
            },
            None => false,
        }
    }

    /// The reminders that are due at a time, which then count as shown.
    pub fn check_deadline_reminders_at(&mut self, now: DateTime) -> (r: Vec<Reminder>)
        requires
            old(self)@.valid(),
            now.valid(),
        ensures
            final(self)@.valid(),
            reminder_views(r@) == old(self)@.due_items(now).map_values(
                |item: ItemView| reminder_for(item, now),
            ),
            final(self)@ == (AgendaState {
                shown_reminders: with_reminders(
                    old(self)@.shown_reminders,
                    old(self)@.due_items(now),
                ),
                ..old(self)@
            }),
    {
        let ghost state = self@;
        let ghost all = self@.all_items;
        let ghost p = |item: ItemView| state.is_due(item, now);
        let ghost f = |item: ItemView| reminder_for(item, now);
        let mut reminders: Vec<Reminder> = Vec::new();
        let mut ids: Vec<String> = clone_texts(&self.shown_reminders);
        let mut i: usize = 0;
        proof {
            reveal(Seq::filter);
            assert(all.take(0).filter(p) == Seq::<ItemView>::empty());
            assert(reminder_views(reminders@) == all.take(0).filter(p).map_values(f));
        }
        while i < self.all_items.len()
            invariant
                i <= self.all_items@.len(),
                *self == *old(self),
                self@ == state,
                all == item_views(self.all_items@),
                all_dated(all),
                now.valid(),
                p == (|item: ItemView| state.is_due(item, now)),
                f == (|item: ItemView| reminder_for(item, now)),
                reminder_views(reminders@) == all.take(i as int).filter(p).map_values(f),
                texts(ids@) == with_reminders(state.shown_reminders, all.take(i as int).filter(p)),
            decreases self.all_items@.len() - i,
        {
            assert(all[i as int] == self.all_items@[i as int]@);
            let ghost before = all.take(i as int).filter(p);
            proof {
                assert(all.take(i + 1) == all.take(i as int).push(all[i as int]));
                all.take(i as int).lemma_filter_push(all[i as int], p);
            }
            let item = &self.all_items[i];
            if self.due(item, now) {
                let id = reminder_id_of(item);
                add_text(&mut ids, id.as_str());
                let reminder = Reminder {
                    task_name: item.headline.clone(),
                    deadline_date: iso_date_text(item.date),
                    urgency: describe_urgency(item.date.days_since(now.date)),
                    file_path: item.file_path.clone(),
                    line_number: item.line_number,
                };
                proof {
                    assert(reminder@ == f(item@));
                    let after = before.push(item@);
                    assert(after.drop_last() == before);
                    assert(after.map_values(f) == before.map_values(f).push(f(item@)));
                    assert(reminder_views(reminders@.push(reminder)) == reminder_views(
                        reminders@,
                    ).push(reminder@));
                }
                reminders.push(reminder);
            }
            i += 1;
        }
        proof {
            assert(all.take(i as int) == all);
            lemma_with_reminders(state.shown_reminders, state.due_items(now));
        }
        self.shown_reminders = ids;
        reminders
    }

    /// The reminders that are due now, which then count as shown.
    pub fn check_deadline_reminders(&mut self) -> (r: Vec<Reminder>)
        requires
            old(self)@.valid(),
        ensures
            final(self)@.valid(),
            exists|now: DateTime|
                #![trigger old(self)@.due_items(now)]
                now.valid() && reminder_views(r@) == old(self)@.due_items(now).map_values(
                    |item: ItemView| reminder_for(item, now),
                ) && final(self)@ == (AgendaState {
                    shown_reminders: with_reminders(
                        old(self)@.shown_reminders,
                        old(self)@.due_items(now),
                    ),
                    ..old(self)@
                }),
    {
        let now = local_now();
        self.check_deadline_reminders_at(now)
    }
}

/// The text of the message that goes with a reminder.
pub open spec fn reminder_message(r: ReminderView) -> Seq<char> {
    "⏰ Reminder "@ + r.urgency + ": "@ + r.task_name + " ("@ + r.deadline_date + ")"@
}

/// The text of the message that goes with a reminder.
pub fn format_reminder_message(r: &Reminder) -> (s: String)
    ensures
        s@ == reminder_message(r@),
{
    let mut s = "⏰ Reminder ".to_owned();
    s.append(r.urgency.as_str());
    s.append(": ");
    s.append(r.task_name.as_str());
    s.append(" (");
    s.append(r.deadline_date.as_str());
    s.append(")");
    s
}

/// The tags of some entries.
pub open spec fn tags_in(items: Seq<ItemView>) -> Set<Seq<char>> {
    Set::new(
        |tag: Seq<char>|
            exists|i: int| 0 <= i < items.len() && (#[trigger] items[i]).tags.contains(tag),
    )
}

/// The names of the files of some entries, without extensions.
pub open spec fn files_in(items: Seq<ItemView>) -> Set<Seq<char>> {
    Set::new(
        |name: Seq<char>|
            exists|i: int|
                0 <= i < items.len() && file_stem((#[trigger] items[i]).file_path) == Some(name),
    )
}

/// The tags of some entries, each once, in order.
fn collect_tags(items: &Vec<AgendaItem>) -> (r: Vec<String>)
    ensures
        sorted_listing(texts(r@), tags_in(item_views(items@))),
{
    let ghost views = item_views(items@);
    let mut tags: Vec<String> = Vec::new();
    let mut i: usize = 0;
    assert(texts(tags@).to_set() =~= tags_in(views.take(0)));
    while i < items.len()
        invariant
            i <= items@.len(),
            views == item_views(items@),
            texts(tags@).no_duplicates(),
            texts(tags@).to_set() == tags_in(views.take(i as int)),
        decreases items@.len() - i,
    {
        add_texts(&mut tags, &items[i].tags);
        proof {
            let item = views[i as int];
            let a = views.take(i as int);
            let b = views.take(i + 1);
            assert forall|t: Seq<char>| tags_in(b).contains(t) <==> tags_in(a).union(
                item.tags.to_set(),
            ).contains(t) by {
                if tags_in(a).contains(t) {
                    let k = choose|k: int| 0 <= k < a.len() && (#[trigger] a[k]).tags.contains(t);
                    assert(b[k].tags.contains(t));
                }
                if item.tags.contains(t) {
                    assert(b[i as int].tags.contains(t));
                }
                if tags_in(b).contains(t) {
                    let k = choose|k: int| 0 <= k < b.len() && (#[trigger] b[k]).tags.contains(t);
                    if k < i {
                        assert(a[k].tags.contains(t));
                    }
                }
            }
            assert(tags_in(b) =~= tags_in(a).union(item.tags.to_set()));
        }
        i += 1;
    }
    assert(views.take(i as int) == views);
    sort_distinct(&tags)
}

/// The names of the files of some entries, without extensions, each once, in order.
fn collect_files(items: &Vec<AgendaItem>) -> (r: Vec<String>)
    ensures
        sorted_listing(texts(r@), files_in(item_views(items@))),
{
    let ghost views = item_views(items@);
    let mut files: Vec<String> = Vec::new();
    let mut i: usize = 0;
    assert(texts(files@).to_set() =~= files_in(views.take(0)));
    while i < items.len()
        invariant
            i <= items@.len(),
            views == item_views(items@),
            texts(files@).no_duplicates(),
            texts(files@).to_set() == files_in(views.take(i as int)),
        decreases items@.len() - i,
    {
        let ghost before = texts(files@);
        let name = file_stem_of(items[i].file_path.as_str());
        if let Some(stem) = &name {
            proof {
                lemma_with_text(texts(files@), stem@);
            }
            add_text(&mut files, stem.as_str());
        }
        proof {
            let a = views.take(i as int);
            let b = views.take(i + 1);
            assert forall|t: Seq<char>| files_in(b).contains(t) <==> files_in(a).contains(t)
                || option_text(name) == Some(t) by {
                if files_in(a).contains(t) {
                    let k = choose|k: int|
                        0 <= k < a.len() && file_stem((#[trigger] a[k]).file_path) == Some(t);
                    assert(file_stem(b[k].file_path) == Some(t));
                }
                if option_text(name) == Some(t) {
                    assert(file_stem(b[i as int].file_path) == Some(t));
                }
                if files_in(b).contains(t) {
                    let k = choose|k: int|
                        0 <= k < b.len() && file_stem((#[trigger] b[k]).file_path) == Some(t);
                    if k < i {
                        assert(file_stem(a[k].file_path) == Some(t));
                    }
                }
            }
            assert(texts(files@).to_set() =~= files_in(b));
        }
        i += 1;
    }
    assert(views.take(i as int) == views);
    sort_distinct(&files)
}

/// The state after collecting entries at a time: they are put in order and listed, those to show
/// are chosen anew, and the reminders that are due count as shown. The lists of tags and files are
/// given.
pub open spec fn collected(
    state: AgendaState,
    items: Seq<ItemView>,
    tags: Seq<Seq<char>>,
    files: Seq<Seq<char>>,
    now: DateTime,
) -> AgendaState {
    let chosen = (AgendaState {
        all_items: by_date(items),
        available_tags: tags,
        available_files: files,
        ..state
    }).refreshed(now.date);
    AgendaState {
        shown_reminders: with_reminders(chosen.shown_reminders, chosen.due_items(now)),
        ..chosen
    }
}

/// The reminders that are due once entries were collected at a time.
pub open spec fn collected_reminders(
    state: AgendaState,
    items: Seq<ItemView>,
    now: DateTime,
) -> Seq<ReminderView> {
    (AgendaState { all_items: by_date(items), ..state }).due_items(now).map_values(
        |item: ItemView| reminder_for(item, now),
    )
}

impl AgendaView {
    /// Takes in the entries of the journal's files, at a time, and hands out the reminders that
    /// are due.
    pub fn collect_agenda_items_at(&mut self, items: Vec<AgendaItem>, now: DateTime) -> (r: Vec<
        Reminder,
    >)
        requires
            old(self)@.valid(),
            all_dated(item_views(items@)),
            now.valid(),
        ensures
            final(self)@.valid(),
            sorted_listing(final(self)@.available_tags, tags_in(item_views(items@))),
            sorted_listing(final(self)@.available_files, files_in(item_views(items@))),
            final(self)@ == collected(
                old(self)@,
                item_views(items@),
                final(self)@.available_tags,
                final(self)@.available_files,
                now,
            ),
            reminder_views(r@) == collected_reminders(old(self)@, item_views(items@), now),
    {
        let ghost state = self@;
        let ghost views = item_views(items@);
        self.available_tags = collect_tags(&items);
        self.available_files = collect_files(&items);
        proof {
            lemma_by_date_dated(views);
        }
        self.all_items = sort_by_date(&items);
        self.apply_filters_on(now.date);
        proof {
            let plain = AgendaState { all_items: by_date(views), ..state };
            let p = |item: ItemView| plain.is_due(item, now);
            let q = |item: ItemView| self@.is_due(item, now);
            assert(p =~= q);
        }
        self.check_deadline_reminders_at(now)
    }

    /// Takes in the entries of the journal's files, now, and hands out the reminders that are due.
    pub fn collect_agenda_items(&mut self, items: Vec<AgendaItem>) -> (r: Vec<Reminder>)
        requires
            old(self)@.valid(),
            all_dated(item_views(items@)),
        ensures
            final(self)@.valid(),
            sorted_listing(final(self)@.available_tags, tags_in(item_views(items@))),
            sorted_listing(final(self)@.available_files, files_in(item_views(items@))),
            exists|now: DateTime|
                now.valid() && final(self)@ == #[trigger] collected(
                    old(self)@,
                    item_views(items@),
                    final(self)@.available_tags,
                    final(self)@.available_files,
                    now,
                ) && reminder_views(r@) == collected_reminders(
                    old(self)@,
                    item_views(items@),
                    now,
                ),
    {
        let now = local_now();
        self.collect_agenda_items_at(items, now)
    }
}

/// A row of the agenda.
#[derive(Debug)]
pub enum AgendaRow {
    /// The date of the entries that follow.
    Date(Label),
    /// An entry.
    Item {
        selected: bool,
        icon: Label,
        keyword: Option<Label>,
        headline: Label,
        tags: Vec<Label>,
        file: Label,
    },
    /// What stands there where there are no entries.
    Empty(Label),
}

/// What a row of the agenda shows.
pub enum RowView {
    Date(Shown),
    Item {
        selected: bool,
        icon: Shown,
        keyword: Option<Shown>,
        headline: Shown,
        tags: Seq<Shown>,
        file: Shown,
    },
    Empty(Shown),
}

impl View for AgendaRow {
    type V = RowView;

    /// What the row shows.
    open spec fn view(&self) -> RowView {
        match self {
            AgendaRow::Date(label) => RowView::Date(label@),
            AgendaRow::Item { selected, icon, keyword, headline, tags, file } => RowView::Item {
                selected: *selected,
                icon: icon@,
                keyword: match keyword {
                    Some(label) => Some(label@),
                    None => None,
                },
                headline: headline@,
                tags: shown(tags@),
                file: file@,
            },
            AgendaRow::Empty(label) => RowView::Empty(label@),
        }
    }
}

/// What several rows show.
pub open spec fn row_views(rows: Seq<AgendaRow>) -> Seq<RowView> {
    rows.map_values(|row: AgendaRow| row@)
}

/// A date as the agenda names it.
pub open spec fn date_words(date: Date, today: Date) -> Seq<char> {
    if date == today {
        "Today"@
    } else if date.number() == today.number() + 1 {
        "Tomorrow"@
    } else if date.number() == today.number() - 1 {
        "Yesterday"@
    } else {
        long_date(date)
    }
}

/// The color of a date: past, today, within a week, or later.
pub open spec fn date_color(days: int) -> Color {
    if days < 0 {
        Color::Error
    } else if days == 0 {
        Color::Accent
    } else if days <= 7 {
        Color::Warning
    } else {
        Color::Default
    }
}

/// The sign and the color of a kind of entry.
pub open spec fn entry_icon(t: AgendaEntryType) -> Shown {
    match t {
        AgendaEntryType::Scheduled => ("◷"@, LabelSize::Default, Color::Accent),
        AgendaEntryType::Deadline => ("⚠"@, LabelSize::Default, Color::Warning),
        AgendaEntryType::Closed => ("✓"@, LabelSize::Default, Color::Success),
    }
}

/// The color of a keyword.
pub open spec fn keyword_color(keyword: Seq<char>) -> Color {
    if keyword == "TODO"@ || keyword == "DOING"@ || keyword == "NEXT"@ || keyword == "STARTED"@ {
        Color::Warning
    } else if keyword == "DONE"@ {
        Color::Success
    } else if keyword == "WAITING"@ || keyword == "DEFERRED"@ {
        Color::Muted
    } else if keyword == "CANCELLED"@ || keyword == "CANCELED"@ {
        Color::Error
    } else {
        Color::Default
    }
}

/// The color of a keyword.
pub fn color_of_keyword(keyword: &str) -> (r: Color)
    ensures
        r == keyword_color(keyword@),
{
    if same_text(keyword, "TODO") || same_text(keyword, "DOING") || same_text(keyword, "NEXT")
        || same_text(keyword, "STARTED") {
        Color::Warning
    } else if same_text(keyword, "DONE") {
        Color::Success
    } else if same_text(keyword, "WAITING") || same_text(keyword, "DEFERRED") {
        Color::Muted
    } else if same_text(keyword, "CANCELLED") || same_text(keyword, "CANCELED") {
        Color::Error
    } else {
        Color::Default
    }
}

/// The row of a date.
pub open spec fn date_row(date: Date, today: Date) -> RowView {
    RowView::Date(
        (
            date_words(date, today),
            LabelSize::Default,
            date_color(date.number() - today.number()),
        ),
    )
}

/// The row of an entry.
pub open spec fn item_row(item: ItemView, selected: bool) -> RowView {
    RowView::Item {
        selected,
        icon: entry_icon(item.entry_type),
        keyword: match item.todo_keyword {
            Some(keyword) => Some((keyword, LabelSize::XSmall, keyword_color(keyword))),
            None => None,
        },
        headline: (item.headline, LabelSize::Small, Color::Default),
        tags: item.tags.map_values(
            |tag: Seq<char>| (":"@ + tag + ":"@, LabelSize::XSmall, Color::Accent),
        ),
        file: (stem_of(item.file_path), LabelSize::XSmall, Color::Muted),
    }
}

/// The rows of the first entries: each entry, and before it its date where that is another than
/// the one before.
pub open spec fn item_rows(items: Seq<ItemView>, selected: int, today: Date, count: int) -> Seq<
    RowView,
>
    decreases count,
{
    if count <= 0 {
        Seq::empty()
    } else {
        let item = items[count - 1];
        let before = item_rows(items, selected, today, count - 1);
        let headed = if count == 1 || items[count - 2].date != item.date {
            before.push(date_row(item.date, today))
        } else {
            before
        };
        headed.push(item_row(item, count - 1 == selected))
    }
}

/// The rows of an agenda.
pub open spec fn agenda_rows(state: AgendaState, today: Date) -> Seq<RowView> {
    if state.items.len() == 0 {
        seq![
            RowView::Empty(
                ("No scheduled or deadline tasks found"@, LabelSize::Default, Color::Muted),
            ),
        ]
    } else {
        item_rows(state.items, state.selected_index, today, state.items.len() as int)
    }
}

/// The row of a date.
fn make_date_row(date: Date, today: Date) -> (r: AgendaRow)
    requires
        date.valid(),
        today.valid(),
    ensures
        r@ == date_row(date, today),
{
    let days = date.days_since(today);
    let words = if date.year == today.year && date.month == today.month && date.day == today.day {
        "Today".to_owned()
    } else if days == 1 {
        "Tomorrow".to_owned()
    } else if days == -1 {
        "Yesterday".to_owned()
    } else {
        long_date_text(date)
    };
    let color = if days < 0 {
        Color::Error
    } else if days == 0 {
        Color::Accent
    } else if days <= 7 {
        Color::Warning
    } else {
        Color::Default
    };
    AgendaRow::Date(Label::new(words.as_str(), LabelSize::Default, color))
}

/// The labels of tags.
fn tag_labels(tags: &Vec<String>) -> (r: Vec<Label>)
    ensures
        shown(r@) == texts(tags@).map_values(
            |tag: Seq<char>| (":"@ + tag + ":"@, LabelSize::XSmall, Color::Accent),
        ),
{
    let mut r: Vec<Label> = Vec::new();
    let mut i: usize = 0;
    while i < tags.len()
        invariant
            i <= tags@.len(),
            r@.len() == i,
            forall|j: int|
                0 <= j < i ==> (#[trigger] r@[j])@ == (
                    ":"@ + tags@[j]@ + ":"@,
                    LabelSize::XSmall,
                    Color::Accent,
                ),
        decreases tags@.len() - i,
    {
        let mut text = ":".to_owned();
        text.append(tags[i].as_str());
        text.append(":");
        r.push(Label::new(text.as_str(), LabelSize::XSmall, Color::Accent));
        i += 1;
    }
    assert(shown(r@) == texts(tags@).map_values(
        |tag: Seq<char>| (":"@ + tag + ":"@, LabelSize::XSmall, Color::Accent),
    ));
    r
}

/// The row of an entry.
fn make_item_row(item: &AgendaItem, selected: bool) -> (r: AgendaRow)
    ensures
        r@ == item_row(item@, selected),
{
    let icon = match item.entry_type {
        AgendaEntryType::Scheduled => Label::new("◷", LabelSize::Default, Color::Accent),
        AgendaEntryType::Deadline => Label::new("⚠", LabelSize::Default, Color::Warning),
        AgendaEntryType::Closed => Label::new("✓", LabelSize::Default, Color::Success),
    };
    let keyword = match &item.todo_keyword {
        Some(keyword) => {
            let color = color_of_keyword(keyword.as_str());
            Some(Label::new(keyword.as_str(), LabelSize::XSmall, color))
        },
        None => None,
    };
    let stem = stem_text(item.file_path.as_str());
    AgendaRow::Item {
        selected,
        icon,
        keyword,
        headline: Label::new(item.headline.as_str(), LabelSize::Small, Color::Default),
        tags: tag_labels(&item.tags),
        file: Label::new(stem.as_str(), LabelSize::XSmall, Color::Muted),
    }
}

/// Adding a row adds what it shows.
proof fn lemma_rows_push(rows: Seq<AgendaRow>, row: AgendaRow)
    ensures
        row_views(rows.push(row)) == row_views(rows).push(row@),
{
    assert(row_views(rows.push(row)) =~= row_views(rows).push(row@));
}

/// The words for a range of days.
pub open spec fn range_words(days: i64) -> Seq<char> {
    if days == 7 {
        "Week"@
    } else if days == 30 {
        "Month"@
    } else if days == 90 {
        "Quarter"@
    } else {
        "All"@
    }
}

/// What stands above the rows of an agenda.
pub open spec fn agenda_header(state: AgendaState) -> Seq<Shown> {
    seq![
        ("Agenda"@, LabelSize::Large, Color::Default),
        ("Range: "@ + range_words(state.days_range), LabelSize::XSmall, Color::Muted),
        if state.show_done {
            ("• Showing Done"@, LabelSize::XSmall, Color::Success)
        } else {
            ("• Hiding Done"@, LabelSize::XSmall, Color::Muted)
        },
    ] + state.filter_tags.map_values(
        |tag: Seq<char>| ("• Tag: "@ + tag, LabelSize::XSmall, Color::Accent),
    ) + (match state.filter_file {
        Some(file) => seq![("• File: "@ + file, LabelSize::XSmall, Color::Accent)],
        None => Seq::empty(),
    }) + seq![(decimal(state.items.len()) + " items"@, LabelSize::XSmall, Color::Muted)]
}

/// Adding a label adds what it shows.
proof fn lemma_shown_push(labels: Seq<Label>, label: Label)
    ensures
        shown(labels.push(label)) == shown(labels).push(label@),
{
    assert(shown(labels.push(label)) =~= shown(labels).push(label@));
}

impl AgendaView {
    /// The rows of the agenda, for a day.
    pub fn render_items(&self, today: Date) -> (r: Vec<AgendaRow>)
        requires
            self@.valid(),
            today.valid(),
        ensures
            row_views(r@) == agenda_rows(self@, today),
    {
        let ghost items = self@.items;
        let mut rows: Vec<AgendaRow> = Vec::new();
        let mut i: usize = 0;
        assert(row_views(rows@) == item_rows(items, self@.selected_index, today, 0));
        while i < self.items.len()
            invariant
                i <= self.items@.len(),
                items == self@.items,
                self@.valid(),
                today.valid(),
                row_views(rows@) == item_rows(items, self@.selected_index, today, i as int),
            decreases self.items@.len() - i,
        {
            let item = &self.items[i];
            assert(items[i as int] == item@);
            if i > 0 {
                assert(items[i - 1] == self.items@[i - 1]@);
            }
            if i == 0 || self.items[i - 1].date != item.date {
                let row = make_date_row(item.date, today);
                proof {
                    lemma_rows_push(rows@, row);
                }
                rows.push(row);
            }
            let row = make_item_row(item, i == self.selected_index);
            proof {
                lemma_rows_push(rows@, row);
            }
            rows.push(row);
            i += 1;
        }
        assert(items.len() == self.items@.len());
        if self.items.len() == 0 {
            let row = AgendaRow::Empty(
                Label::new("No scheduled or deadline tasks found", LabelSize::Default, Color::Muted),
            );
            proof {
                lemma_rows_push(rows@, row);
                assert(row_views(rows@) == Seq::<RowView>::empty());
            }
            rows.push(row);
            assert(row_views(rows@) == agenda_rows(self@, today));
        }
        rows
    }

    /// What stands above the rows of the agenda.
    pub fn render_header(&self) -> (r: Vec<Label>)
        ensures
            shown(r@) == agenda_header(self@),
    {
        let mut range = "Range: ".to_owned();
        range.append(
            match self.days_range {
                7 => "Week",
                30 => "Month",
                90 => "Quarter",
                _ => "All",
            },
        );
        let done = if self.show_done {
            Label::new("• Showing Done", LabelSize::XSmall, Color::Success)
        } else {
            Label::new("• Hiding Done", LabelSize::XSmall, Color::Muted)
        };
        let mut r = vec![
            Label::new("Agenda", LabelSize::Large, Color::Default),
            Label::new(range.as_str(), LabelSize::XSmall, Color::Muted),
            done,
        ];
        let ghost f = |tag: Seq<char>| ("• Tag: "@ + tag, LabelSize::XSmall, Color::Accent);
        let ghost start = shown(r@);
        let ghost tags = self@.filter_tags;
        let mut i: usize = 0;
        assert(start + tags.take(0).map_values(f) == start);
        while i < self.filter_tags.len()
            invariant
                i <= self.filter_tags@.len(),
                tags == texts(self.filter_tags@),
                f == (|tag: Seq<char>| ("• Tag: "@ + tag, LabelSize::XSmall, Color::Accent)),
                shown(r@) == start + tags.take(i as int).map_values(f),
            decreases self.filter_tags@.len() - i,
        {
            let mut text = "• Tag: ".to_owned();
            text.append(self.filter_tags[i].as_str());
            let label = Label::new(text.as_str(), LabelSize::XSmall, Color::Accent);
            proof {
                assert(tags[i as int] == self.filter_tags@[i as int]@);
                assert(label@ == f(tags[i as int]));
                lemma_shown_push(r@, label);
                assert(tags.take(i + 1) == tags.take(i as int).push(tags[i as int]));
                assert(tags.take(i + 1).map_values(f) == tags.take(i as int).map_values(f).push(
                    f(tags[i as int]),
                ));
                assert((start + tags.take(i as int).map_values(f)).push(label@) == start + tags.take(
                    i + 1,
                ).map_values(f));
            }
            r.push(label);
            i += 1;
        }
        assert(tags.take(i as int) == tags);
        if let Some(file) = &self.filter_file {
            let mut text = "• File: ".to_owned();
            text.append(file.as_str());
            let label = Label::new(text.as_str(), LabelSize::XSmall, Color::Accent);
            proof {
                lemma_shown_push(r@, label);
            }
            r.push(label);
        }
        let mut count = decimal_text(self.items.len() as u128);
        count.append(" items");
        let label = Label::new(count.as_str(), LabelSize::XSmall, Color::Muted);
        proof {
            lemma_shown_push(r@, label);
            assert(self@.items.len() == self.items@.len());
        }
        r.push(label);
        assert(shown(r@) == agenda_header(self@));
        r
    }

    /// What the agenda shows today: what stands above its rows, and the rows.
    pub fn render(&self) -> (r: (Vec<Label>, Vec<AgendaRow>))
        requires
            self@.valid(),
        ensures
            shown(r.0@) == agenda_header(self@),
            exists|now: DateTime|
                now.valid() && row_views(r.1@) == #[trigger] agenda_rows(self@, now.date),
    {
        let now = local_now();
        (self.render_header(), self.render_items(now.date))
    }
}

/// Opens an agenda with the entries of the journal's files, and hands out the reminders that are
/// due.
pub fn open_agenda(items: Vec<AgendaItem>) -> (r: (AgendaView, Vec<Reminder>))
    requires
        all_dated(item_views(items@)),
    ensures
        r.0@.valid(),
        sorted_listing(r.0@.available_tags, tags_in(item_views(items@))),
        sorted_listing(r.0@.available_files, files_in(item_views(items@))),
        exists|now: DateTime|
            now.valid() && r.0@ == #[trigger] collected(
                empty_agenda(),
                item_views(items@),
                r.0@.available_tags,
                r.0@.available_files,
                now,
            ) && reminder_views(r.1@) == collected_reminders(
                empty_agenda(),
                item_views(items@),
                now,
            ),
{
    let mut view = AgendaView::new();
    let reminders = view.collect_agenda_items(items);
    (view, reminders)
}

} // verus!
