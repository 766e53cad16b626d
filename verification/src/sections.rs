//! Which section is around a row, where it ends, and what is inside it.
use crate::outline::{
    child_rows, cycle_steps, is_folded, section_around, section_end, section_on, sections_above,
    FoldStep, OutlineItem,
};
use vstd::prelude::*;

verus! {

proof fn lemma_sections_above(items: Seq<OutlineItem>, row: int, count: int)
    requires
        0 <= count <= items.len(),
        forall|k: int| 0 <= k < count ==> (#[trigger] items[k]).start.row <= row,
        count < items.len() ==> items[count].start.row > row,
    ensures
        sections_above(items, row) == count,
    decreases items.len(),
{
    if count > 0 {
        let rest = items.skip(1);
        assert(items[0].start.row <= row);
        assert forall|k: int| 0 <= k < count - 1 implies (#[trigger] rest[k]).start.row <= row by {
            assert(rest[k] == items[k + 1]);
        }
        lemma_sections_above(rest, row, count - 1);
    }
}

proof fn lemma_section_on_row(items: Seq<OutlineItem>, row: int, count: int, i: int)
    requires
        0 <= i <= count <= items.len(),
        forall|k: int| 0 <= k < i ==> (#[trigger] items[k]).start.row != row,
        i < count ==> items[i].start.row == row,
    ensures
        section_on(items, row, count) == if i < count {
            Some(i)
        } else {
            None
        },
    decreases count,
{
    if count > 0 {
        if i < count {
            lemma_section_on_row(items, row, count - 1, i);
        } else {
            lemma_section_on_row(items, row, count - 1, i - 1);
        }
    }
}

/// The section around a row is the first one that begins on it, if one does, and else the last of
/// those that begin above it; there is none above the first section. Of the sections, so many begin
/// at or above the row, and the next one below it.
pub proof fn lemma_section_around(items: Seq<OutlineItem>, row: int, count: int, i: int)
    requires
        0 <= i <= count <= items.len(),
        forall|k: int| 0 <= k < count ==> (#[trigger] items[k]).start.row <= row,
        count < items.len() ==> items[count].start.row > row,
        forall|k: int| 0 <= k < i ==> (#[trigger] items[k]).start.row != row,
        i < count ==> items[i].start.row == row,
    ensures
        i < count ==> section_around(items, row) == Some(i),
        i == count && count > 0 ==> section_around(items, row) == Some(count - 1),
        count == 0 ==> section_around(items, row) is None,
{
    lemma_sections_above(items, row, count);
    lemma_section_on_row(items, row, count, i);
}

/// A section is over where the next one begins that does not lie deeper, and with the buffer where
/// none does.
pub proof fn lemma_section_ends(
    items: Seq<OutlineItem>,
    from: int,
    end: int,
    depth: int,
    max_row: int,
)
    requires
        0 <= from <= end <= items.len(),
        forall|k: int| from <= k < end ==> (#[trigger] items[k]).depth > depth,
        end < items.len() ==> items[end].depth <= depth,
    ensures
        section_end(items, from, depth, max_row) == if end < items.len() {
            items[end].start.row as int
        } else {
            max_row
        },
    decreases end - from,
{
    if from < end {
        assert(items[from].depth > depth);
        lemma_section_ends(items, from + 1, end, depth, max_row);
    }
}

/// The headlines right inside a section are those before its end that lie one deeper, in their
/// order; those that lie deeper still are not among them.
pub proof fn lemma_children(items: Seq<OutlineItem>, from: int, end: int, depth: int)
    requires
        0 <= from <= end <= items.len(),
        forall|k: int| from <= k < end ==> (#[trigger] items[k]).depth > depth,
        end < items.len() ==> items[end].depth <= depth,
    ensures
        child_rows(items, from, depth) == items.subrange(from, end).filter(
            |item: OutlineItem| item.depth == depth + 1,
        ).map_values(|item: OutlineItem| item.start.row),
    decreases end - from,
{
    let p = |item: OutlineItem| item.depth == depth + 1;
    let f = |item: OutlineItem| item.start.row;
    let part = items.subrange(from, end);
    if from < end {
        assert(items[from].depth > depth);
        lemma_children(items, from + 1, end, depth);
        let rest = items.subrange(from + 1, end);
        let first = seq![items[from]];
        let none = Seq::<OutlineItem>::empty();
        assert(part =~= first + rest);
        Seq::filter_distributes_over_add(first, rest, p);
        assert(none.push(items[from]) =~= first);
        none.lemma_filter_push(items[from], p);
        assert(none.filter(p) =~= none) by {
            reveal(Seq::filter);
        }
        assert(first.filter(p) =~= if p(items[from]) {
            first
        } else {
            none
        });
        assert(child_rows(items, from, depth) =~= part.filter(p).map_values(f));
    } else {
        assert(part =~= Seq::<OutlineItem>::empty());
        reveal(Seq::filter);
        assert(part.filter(p) =~= Seq::<OutlineItem>::empty());
    }
}

/// Going on in folding acts on the last section that begins at or above the cursor, whose rows are
/// given: where what follows its headline is folded, that is unfolded and the headlines right
/// inside it are folded; where these are all folded, and there are any, they are unfolded; and else
/// the section is folded.
pub proof fn lemma_fold_goes_on(
    items: Seq<OutlineItem>,
    cursor_row: int,
    max_row: int,
    folded: Seq<u32>,
    i: int,
    over: int,
)
    requires
        0 <= i < over <= items.len(),
        forall|k: int| 0 <= k <= i ==> (#[trigger] items[k]).start.row <= cursor_row,
        i + 1 < items.len() ==> items[i + 1].start.row > cursor_row,
        forall|k: int| i < k < over ==> (#[trigger] items[k]).depth > items[i].depth,
        over < items.len() ==> items[over].depth <= items[i].depth,
    ensures
        ({
            let row = items[i].start.row;
            let end = if over < items.len() {
                items[over].start.row as int
            } else {
                max_row
            };
            let inside = child_rows(items, i + 1, items[i].depth as int);
            let steps = cycle_steps(items, cursor_row, max_row, folded);
            let is_closed = row < end && folded.contains((row + 1) as u32);
            let shows_inside = inside.len() > 0 && forall|k: int|
                0 <= k < inside.len() ==> #[trigger] inside[k] < end && folded.contains(
                    (inside[k] + 1) as u32,
                );
            max_row <= u32::MAX ==> {
                &&& is_closed ==> steps.len() == 1 + inside.len() && steps[0] == FoldStep::Unfold(row)
                    && forall|k: int|
                    0 <= k < inside.len() ==> steps[k + 1] == FoldStep::Fold(#[trigger] inside[k])
                &&& !is_closed && shows_inside ==> steps.len() == inside.len() && forall|k: int|
                    0 <= k < inside.len() ==> steps[k] == FoldStep::Unfold(#[trigger] inside[k])
                &&& !is_closed && !shows_inside ==> steps == seq![FoldStep::Fold(row)]
            }
        }),
{
    lemma_sections_above(items, cursor_row, i + 1);
    lemma_section_ends(items, i + 1, over, items[i].depth as int, max_row);
    let row = items[i].start.row;
    let depth = items[i].depth as int;
    let end = section_end(items, i + 1, depth, max_row);
    let inside = child_rows(items, i + 1, depth);
    if max_row <= u32::MAX {
        lemma_folded(folded, row, end);
        assert forall|k: int| 0 <= k < inside.len() implies (is_folded(
            folded,
            #[trigger] inside[k] as int,
            end,
        ) <==> inside[k] < end && folded.contains((inside[k] + 1) as u32)) by {
            lemma_folded(folded, inside[k], end);
        }
    }
}

proof fn lemma_folded(folded: Seq<u32>, row: u32, end: int)
    requires
        end <= u32::MAX,
    ensures
        is_folded(folded, row as int, end) <==> row < end && folded.contains(
            (row + 1) as u32,
        ),
{
    if row < end {
        if folded.contains((row + 1) as u32) {
            let k = choose|k: int| 0 <= k < folded.len() && folded[k] == (row + 1) as u32;
            assert(folded[k] == row + 1);
        }
    }
}

} // verus!
