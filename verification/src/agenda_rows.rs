//! Where the entries and the dates stand among the rows of an agenda.
use crate::agenda::ItemView;
use crate::agenda_view::{
    agenda_header, agenda_rows, item_rows, keyword_color, AgendaState, RowView,
};
use crate::calendar::{long_date, Date};
use crate::label::{Color, LabelSize};
use crate::number::decimal;
use crate::paths::file_stem;
use crate::planning::AgendaEntryType;
use vstd::prelude::*;
use vstd::string::*;

verus! {

/// How many dates stand above the entries up to one: one where the entries begin, and one more
/// wherever an entry has another date than the one before it.
pub open spec fn dates_above(items: Seq<ItemView>, k: int) -> int
    decreases k + 1,
{
    if k < 0 {
        0
    } else {
        dates_above(items, k - 1) + if k == 0 || items[k - 1].date != items[k].date {
            1int
        } else {
            0
        }
    }
}

/// A row shows an entry: its headline, its keyword if it has one, its tags between colons, the
/// name of its file, a sign for its kind, and whether it is selected.
pub open spec fn shows_entry(row: RowView, item: ItemView, is_selected: bool) -> bool {
    match row {
        RowView::Item { selected, icon, keyword, headline, tags, file } => {
            &&& selected == is_selected
            &&& icon.0 == match item.entry_type {
                AgendaEntryType::Scheduled => "◷"@,
                AgendaEntryType::Deadline => "⚠"@,
                AgendaEntryType::Closed => "✓"@,
            }
            &&& icon.1 == LabelSize::Default
            &&& icon.2 == match item.entry_type {
                AgendaEntryType::Scheduled => Color::Accent,
                AgendaEntryType::Deadline => Color::Warning,
                AgendaEntryType::Closed => Color::Success,
            }
            &&& headline == (item.headline, LabelSize::Small, Color::Default)
            &&& keyword is Some <==> item.todo_keyword is Some
            &&& keyword matches Some(label) ==> label == (
                item.todo_keyword->0,
                LabelSize::XSmall,
                keyword_color(item.todo_keyword->0),
            )
            &&& tags.len() == item.tags.len()
            &&& forall|i: int|
                0 <= i < tags.len() ==> #[trigger] tags[i] == (
                    ":"@ + item.tags[i] + ":"@,
                    LabelSize::XSmall,
                    Color::Accent,
                )
            &&& match file_stem(item.file_path) {
                Some(name) => file.0 == name,
                None => file.0.len() == 0,
            }
            &&& file.1 == LabelSize::XSmall && file.2 == Color::Muted
        },
        _ => false,
    }
}

/// A row names a date: by a word where it is today or next to it, else in full. What is past, what
/// is today, what comes within a week and what comes later differ in color.
pub open spec fn names_date(row: RowView, date: Date, today: Date) -> bool {
    match row {
        RowView::Date(label) => {
            let days = date.number() - today.number();
            &&& date == today ==> label.0 == "Today"@
            &&& days == 1 ==> label.0 == "Tomorrow"@
            &&& days == -1 ==> label.0 == "Yesterday"@
            &&& days > 1 || days < -1 ==> label.0 == long_date(date)
            &&& label.1 == LabelSize::Default
            &&& label.2 == Color::Error <==> days < 0
            &&& label.2 == Color::Accent <==> days == 0
            &&& label.2 == Color::Warning <==> 0 < days <= 7
            &&& label.2 == Color::Default <==> days > 7
        },
        _ => false,
    }
}

proof fn lemma_rows_stand(items: Seq<ItemView>, selected: int, today: Date, count: int, k: int)
    requires
        0 <= k < count <= items.len(),
    ensures
        ({
            let rows = item_rows(items, selected, today, count);
            let at = k + dates_above(items, k);
            &&& rows.len() == count + dates_above(items, count - 1)
            &&& dates_above(items, k) <= dates_above(items, count - 1)
            &&& 1 <= dates_above(items, k)
            &&& shows_entry(rows[at], items[k], k == selected)
            &&& k == 0 || items[k - 1].date != items[k].date ==> names_date(
                rows[at - 1],
                items[k].date,
                today,
            )
        }),
    decreases count,
{
    let before = item_rows(items, selected, today, count - 1);
    let rows = item_rows(items, selected, today, count);
    if count == 1 {
        assert(before.len() == 0);
        assert(dates_above(items, -1) == 0);
        assert(dates_above(items, 0) == 1);
        assert(rows.len() == 2);
    } else {
        let other = if k < count - 1 {
            k
        } else {
            k - 1
        };
        lemma_rows_stand(items, selected, today, count - 1, other);
        assert(dates_above(items, count - 1) == dates_above(items, count - 2) + if items[count
            - 2].date != items[count - 1].date {
            1int
        } else {
            0
        });
        assert(forall|i: int| 0 <= i < before.len() ==> rows[i] == before[i]);
    }
}

/// The rows of an agenda show each of its entries, in their order, with a date before the first
/// and before each whose date differs from the one before, and nothing else; the selected entry is
/// marked, and no other. An agenda without entries has one row that says so.
pub proof fn lemma_rows_show(state: AgendaState, today: Date, k: int)
    requires
        0 <= k < state.items.len(),
    ensures
        ({
            let rows = agenda_rows(state, today);
            let at = k + dates_above(state.items, k);
            &&& rows.len() == state.items.len() + dates_above(state.items, state.items.len() - 1)
            &&& 0 < at < rows.len()
            &&& shows_entry(rows[at], state.items[k], k == state.selected_index)
            &&& k == 0 || state.items[k - 1].date != state.items[k].date ==> names_date(
                rows[at - 1],
                state.items[k].date,
                today,
            )
        }),
{
    lemma_rows_stand(state.items, state.selected_index, today, state.items.len() as int, k);
}

/// An agenda without entries has one row, which says so.
pub proof fn lemma_no_rows(state: AgendaState, today: Date)
    requires
        state.items.len() == 0,
    ensures
        agenda_rows(state, today).len() == 1,
        agenda_rows(state, today)[0] matches RowView::Empty(label) && label.0
            == "No scheduled or deadline tasks found"@,
{
}

/// Above the rows stand the name of the view, the range, whether what is done is shown, each tag
/// asked for, the file asked for if one is, and last the number of entries.
pub proof fn lemma_header_says(state: AgendaState, k: int)
    ensures
        ({
            let header = agenda_header(state);
            let tags = state.filter_tags.len();
            &&& header.len() == 4 + tags + if state.filter_file is Some {
                1int
            } else {
                0
            }
            &&& header[0] == ("Agenda"@, LabelSize::Large, Color::Default)
            &&& forall|i: int| 0 < i < header.len() ==> (#[trigger] header[i]).1 == LabelSize::XSmall
            &&& header[1].2 == Color::Muted && header.last().2 == Color::Muted
            &&& header[2].2 == if state.show_done {
                Color::Success
            } else {
                Color::Muted
            }
            &&& forall|i: int|
                3 <= i < header.len() - 1 ==> (#[trigger] header[i]).2 == Color::Accent
            &&& state.days_range == 7 ==> header[1].0 == "Range: "@ + "Week"@
            &&& state.days_range == 30 ==> header[1].0 == "Range: "@ + "Month"@
            &&& state.days_range == 90 ==> header[1].0 == "Range: "@ + "Quarter"@
            &&& state.days_range != 7 && state.days_range != 30 && state.days_range != 90
                ==> header[1].0 == "Range: "@ + "All"@
            &&& header[2].0 == if state.show_done {
                "• Showing Done"@
            } else {
                "• Hiding Done"@
            }
            &&& 0 <= k < tags ==> header[3 + k].0 == "• Tag: "@ + state.filter_tags[k]
            &&& state.filter_file matches Some(file) ==> header[3int + tags].0 == "• File: "@ + file
            &&& header.last().0 == decimal(state.items.len()) + " items"@
        }),
{
}

} // verus!
