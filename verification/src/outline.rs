//! Sections of an org file: showing one alone, and folding them.
use vstd::prelude::*;

verus! {

/// A place in a buffer.
#[derive(Clone, Copy, Debug, PartialEq, Eq, Structural)]
pub struct Point {
    pub row: u32,
    pub column: u32,
}

/// A section: where its headline begins, where all of it ends, and how deep it lies.
#[derive(Clone, Copy, Debug, PartialEq, Eq, Structural)]
pub struct OutlineItem {
    pub start: Point,
    pub end: Point,
    pub depth: usize,
}

/// How many sections begin at or above a row, of those before the first that begins below it.
pub open spec fn sections_above(items: Seq<OutlineItem>, row: int) -> int
    decreases items.len(),
{
    if items.len() > 0 && items[0].start.row <= row {
        1 + sections_above(items.skip(1), row)
    } else {
        0
    }
}

/// The first section whose headline stands on a row, among the first so many.
pub open spec fn section_on(items: Seq<OutlineItem>, row: int, count: int) -> Option<int>
    decreases count,
{
    if count <= 0 {
        None
    } else {
        match section_on(items, row, count - 1) {
            Some(i) => Some(i),
            None => if items[count - 1].start.row == row {
                Some(count - 1)
            } else {
                None
            },
        }
    }
}

/// The section around a row: the first whose headline stands on it, or else the last that begins
/// above it.
pub open spec fn section_around(items: Seq<OutlineItem>, row: int) -> Option<int> {
    let count = sections_above(items, row);
    match section_on(items, row, count) {
        Some(i) => Some(i),
        None => if count > 0 {
            Some(count - 1)
        } else {
            None
        },
    }
}

/// How many sections begin at or above a row.
fn count_above(items: &Vec<OutlineItem>, row: u32) -> (r: usize)
    ensures
        r == sections_above(items@, row as int),
        r <= items@.len(),
{
    let mut i: usize = 0;
    assert(items@.skip(0) == items@);
    while i < items.len() && items[i].start.row <= row
        invariant
            i <= items@.len(),
            sections_above(items@, row as int) == i + sections_above(
                items@.skip(i as int),
                row as int,
            ),
        decreases items@.len() - i,
    {
        assert(items@.skip(i as int).skip(1) == items@.skip(i + 1));
        i += 1;
    }
    i
}

/// The section around the cursor.
fn find_current_section(items: &Vec<OutlineItem>, cursor_row: u32) -> (r: Option<usize>)
    ensures
        match section_around(items@, cursor_row as int) {
            Some(i) => 0 <= i < items@.len() && (r matches Some(k) && k == i),
            None => r is None,
        },
{
    let count = count_above(items, cursor_row);
    let mut i: usize = 0;
    while i < count
        invariant
            i <= count <= items@.len(),
            section_on(items@, cursor_row as int, i as int) is None,
            count == sections_above(items@, cursor_row as int),
        decreases count - i,
    {
        if items[i].start.row == cursor_row {
            proof {
                lemma_section_on(items@, cursor_row as int, i as int, count as int);
            }
            return Some(i);
        }
        i += 1;
    }
    if count > 0 {
        Some(count - 1)
    } else {
        None
    }
}

/// The range of the section around the cursor.
pub fn find_current_section_range(items: &Vec<OutlineItem>, cursor_row: u32) -> (r: Option<
    (Point, Point),
>)
    ensures
        match section_around(items@, cursor_row as int) {
            Some(i) => 0 <= i < items@.len() && r == Some((items@[i].start, items@[i].end)),
            None => r is None,
        },
{
    let i = find_current_section(items, cursor_row)?;
    Some((items[i].start, items[i].end))
}

/// The first section on a row is so among any more of them.
proof fn lemma_section_on(items: Seq<OutlineItem>, row: int, i: int, count: int)
    requires
        0 <= i < count,
        section_on(items, row, i) is None,
        items[i].start.row == row,
    ensures
        section_on(items, row, count) == Some(i),
    decreases count,
{
    if count > i + 1 {
        lemma_section_on(items, row, i, count - 1);
    }
}

/// The row on which a section is over: that of the next one that does not lie deeper, or the last
/// row of the buffer.
pub open spec fn section_end(items: Seq<OutlineItem>, from: int, depth: int, max_row: int) -> int
    decreases items.len() - from,
{
    if from < 0 || from >= items.len() {
        max_row
    } else if items[from].depth <= depth {
        items[from].start.row as int
    } else {
        section_end(items, from + 1, depth, max_row)
    }
}

/// The rows of the sections that lie one deeper, up to the next that does not lie deeper.
pub open spec fn child_rows(items: Seq<OutlineItem>, from: int, depth: int) -> Seq<u32>
    decreases items.len() - from,
{
    if from < 0 || from >= items.len() || items[from].depth <= depth {
        Seq::empty()
    } else if items[from].depth == depth + 1 {
        seq![items[from].start.row] + child_rows(items, from + 1, depth)
    } else {
        child_rows(items, from + 1, depth)
    }
}

/// A step in folding: fold what follows a row, or unfold it.
#[derive(Clone, Copy, Debug, PartialEq, Eq, Structural)]
pub enum FoldStep {
    Fold(u32),
    Unfold(u32),
}

/// A step for each row: folding what follows it, or unfolding that.
pub open spec fn steps_of(rows: Seq<u32>, fold: bool) -> Seq<FoldStep> {
    Seq::new(
        rows.len(),
        |i: int|
            if fold {
                FoldStep::Fold(rows[i])
            } else {
                FoldStep::Unfold(rows[i])
            },
    )
}

/// The steps that show one of the sections, of those among the first so many, and fold the others
/// that lie as deep.
pub open spec fn focus_steps(items: Seq<OutlineItem>, shown: int, count: int) -> Seq<FoldStep>
    decreases count,
{
    if count <= 0 {
        Seq::empty()
    } else {
        let item = items[count - 1];
        let before = focus_steps(items, shown, count - 1);
        if count - 1 == shown {
            before.push(FoldStep::Unfold(item.start.row))
        } else if item.depth == items[shown].depth {
            before.push(FoldStep::Fold(item.start.row))
        } else {
            before
        }
    }
}

/// The rows on which the sections begin.
pub open spec fn section_rows(items: Seq<OutlineItem>) -> Seq<u32> {
    items.map_values(|item: OutlineItem| item.start.row)
}

/// A part of the buffer that shows alone, and the steps in folding that go with it.
#[derive(Debug, PartialEq, Eq)]
pub struct Focus {
    pub start: Point,
    pub end: Point,
    pub steps: Vec<FoldStep>,
}

/// Shows the section around the cursor alone: the range to show, and the steps that unfold the
/// section and fold all others that lie as deep, if there is a section.
pub fn focus_section(items: &Vec<OutlineItem>, cursor_row: u32) -> (r: Option<Focus>)
    ensures
        match section_around(items@, cursor_row as int) {
            Some(i) => {
                &&& 0 <= i < items@.len()
                &&& r matches Some(focus)
                &&& focus.start == items@[i].start
                &&& focus.end == items@[i].end
                &&& focus.steps@ == focus_steps(items@, i, items@.len() as int)
            },
            None => r is None,
        },
{
    let shown = find_current_section(items, cursor_row)?;
    let mut steps: Vec<FoldStep> = Vec::new();
    let mut i: usize = 0;
    assert(steps@ == focus_steps(items@, shown as int, 0));
    while i < items.len()
        invariant
            i <= items@.len(),
            shown < items@.len(),
            steps@ == focus_steps(items@, shown as int, i as int),
        decreases items@.len() - i,
    {
        if i == shown {
            steps.push(FoldStep::Unfold(items[i].start.row));
        } else if items[i].depth == items[shown].depth {
            steps.push(FoldStep::Fold(items[i].start.row));
        }
        i += 1;
    }
    Some(Focus { start: items[shown].start, end: items[shown].end, steps })
}

/// Shows all sections again: the range of the whole buffer, and the steps that unfold each section.
pub fn unfocus_section(items: &Vec<OutlineItem>, max_point: Point) -> (r: Focus)
    ensures
        r.start == (Point { row: 0, column: 0 }),
        r.end == max_point,
        r.steps@ == steps_of(section_rows(items@), false),
{
    let mut steps: Vec<FoldStep> = Vec::new();
    let mut i: usize = 0;
    let ghost wanted = steps_of(section_rows(items@), false);
    assert(steps@ == wanted.take(0));
    while i < items.len()
        invariant
            i <= items@.len(),
            wanted == steps_of(section_rows(items@), false),
            steps@ == wanted.take(i as int),
        decreases items@.len() - i,
    {
        assert(wanted.take(i + 1) == wanted.take(i as int).push(wanted[i as int]));
        steps.push(FoldStep::Unfold(items[i].start.row));
        i += 1;
    }
    assert(wanted.take(i as int) == wanted);
    Focus { start: Point { row: 0, column: 0 }, end: max_point, steps }
}

/// What follows the row, up to the end of the section, is folded.
pub open spec fn is_folded(folded: Seq<u32>, row: int, end: int) -> bool {
    row + 1 <= end && exists|i: int| 0 <= i < folded.len() && #[trigger] folded[i] == row + 1
}

/// Each section inside is folded.
pub open spec fn all_folded(folded: Seq<u32>, children: Seq<u32>, end: int) -> bool {
    forall|i: int| 0 <= i < children.len() ==> is_folded(folded, #[trigger] children[i] as int, end)
}

/// The steps that take a section to its next state: from folded to showing the headlines inside
/// it, from there to showing everything, and from there to folded. Given are the section's row,
/// the row on which it is over, the rows of the headlines inside it, and the rows that are folded
/// away.
pub open spec fn fold_steps(row: u32, end: int, children: Seq<u32>, folded: Seq<u32>) -> Seq<
    FoldStep,
> {
    if is_folded(folded, row as int, end) {
        seq![FoldStep::Unfold(row)] + steps_of(children, true)
    } else if children.len() > 0 && all_folded(folded, children, end) {
        steps_of(children, false)
    } else {
        seq![FoldStep::Fold(row)]
    }
}

/// The steps that take the section around the cursor to its next state.
pub open spec fn cycle_steps(
    items: Seq<OutlineItem>,
    cursor_row: int,
    max_row: int,
    folded: Seq<u32>,
) -> Seq<FoldStep> {
    let count = sections_above(items, cursor_row);
    if count > 0 {
        let section = items[count - 1];
        fold_steps(
            section.start.row,
            section_end(items, count, section.depth as int, max_row),
            child_rows(items, count, section.depth as int),
            folded,
        )
    } else {
        Seq::empty()
    }
}

/// Whether what follows the row is folded.
fn row_folded(folded: &Vec<u32>, row: u32, end: u32) -> (r: bool)
    ensures
        r == is_folded(folded@, row as int, end as int),
{
    if row >= end {
        return false;
    }
    let mut i: usize = 0;
    while i < folded.len()
        invariant
            i <= folded@.len(),
            row < end,
            forall|j: int| 0 <= j < i ==> #[trigger] folded@[j] != row + 1,
        decreases folded@.len() - i,
    {
        if folded[i] == row + 1 {
            return true;
        }
        i += 1;
    }
    false
}

/// The row on which a section is over.
fn find_section_end(items: &Vec<OutlineItem>, from: usize, depth: usize, max_row: u32) -> (r: u32)
    requires
        from <= items@.len(),
    ensures
        r == section_end(items@, from as int, depth as int, max_row as int),
{
    let mut i: usize = from;
    while i < items.len()
        invariant
            from <= i <= items@.len(),
            section_end(items@, from as int, depth as int, max_row as int) == section_end(
                items@,
                i as int,
                depth as int,
                max_row as int,
            ),
        decreases items@.len() - i,
    {
        if items[i].depth <= depth {
            return items[i].start.row;
        }
        i += 1;
    }
    max_row
}

/// The rows of the sections that lie one deeper.
fn find_child_rows(items: &Vec<OutlineItem>, from: usize, depth: usize) -> (r: Vec<u32>)
    requires
        from <= items@.len(),
    ensures
        r@ == child_rows(items@, from as int, depth as int),
{
    let mut r: Vec<u32> = Vec::new();
    let mut i: usize = from;
    assert(r@ + child_rows(items@, from as int, depth as int) == child_rows(
        items@,
        from as int,
        depth as int,
    ));
    while i < items.len() && items[i].depth > depth
        invariant
            from <= i <= items@.len(),
            r@ + child_rows(items@, i as int, depth as int) == child_rows(
                items@,
                from as int,
                depth as int,
            ),
        decreases items@.len() - i,
    {
        let item = items[i];
        if item.depth - 1 == depth {
            assert(r@ + (seq![item.start.row] + child_rows(items@, i + 1, depth as int)) == r@.push(
                item.start.row,
            ) + child_rows(items@, i + 1, depth as int));
            r.push(item.start.row);
        }
        i += 1;
    }
    assert(r@ + Seq::<u32>::empty() == r@);
    r
}

/// Whether each section inside is folded.
fn children_folded(folded: &Vec<u32>, children: &Vec<u32>, end: u32) -> (r: bool)
    ensures
        r == all_folded(folded@, children@, end as int),
{
    let mut i: usize = 0;
    while i < children.len()
        invariant
            i <= children@.len(),
            forall|j: int|
                0 <= j < i ==> is_folded(folded@, #[trigger] children@[j] as int, end as int),
        decreases children@.len() - i,
    {
        if !row_folded(folded, children[i], end) {
            return false;
        }
        i += 1;
    }
    true
}

/// Adds a step for each row.
fn steps_for(rows: &Vec<u32>, fold: bool, steps: &mut Vec<FoldStep>)
    ensures
        final(steps)@ == old(steps)@ + steps_of(rows@, fold),
{
    let mut i: usize = 0;
    assert(steps@ == old(steps)@ + steps_of(rows@, fold).take(0));
    while i < rows.len()
        invariant
            i <= rows@.len(),
            steps@ == old(steps)@ + steps_of(rows@, fold).take(i as int),
        decreases rows@.len() - i,
    {
        let step = if fold {
            FoldStep::Fold(rows[i])
        } else {
            FoldStep::Unfold(rows[i])
        };
        assert(steps_of(rows@, fold).take(i + 1) == steps_of(rows@, fold).take(i as int).push(step));
        steps.push(step);
        assert(steps@ == old(steps)@ + steps_of(rows@, fold).take(i + 1));
        i += 1;
    }
    assert(steps_of(rows@, fold).take(i as int) == steps_of(rows@, fold));
}

/// The steps that take the section around the cursor to its next state, given the last row of the
/// buffer and the rows that are folded away.
pub fn cycle_fold(
    items: &Vec<OutlineItem>,
    cursor_row: u32,
    max_row: u32,
    folded: &Vec<u32>,
) -> (r: Vec<FoldStep>)
    ensures
        r@ == cycle_steps(items@, cursor_row as int, max_row as int, folded@),
{
    let mut steps: Vec<FoldStep> = Vec::new();
    let count = count_above(items, cursor_row);
    if count == 0 {
        return steps;
    }
    let section = items[count - 1];
    let end = find_section_end(items, count, section.depth, max_row);
    let children = find_child_rows(items, count, section.depth);
    let row = section.start.row;
    if row_folded(folded, row, end) {
        steps.push(FoldStep::Unfold(row));
        steps_for(&children, true, &mut steps);
        assert(steps@ == seq![FoldStep::Unfold(row)] + steps_of(children@, true));
    } else if children.len() > 0 && children_folded(folded, &children, end) {
        steps_for(&children, false, &mut steps);
        assert(steps@ == steps_of(children@, false));
    } else {
        steps.push(FoldStep::Fold(row));
        assert(steps@ == seq![FoldStep::Fold(row)]);
    }
    steps
}

/// The rows that are folded away after a step: folding what follows a row folds the next row away,
/// and unfolding it shows that row.
pub open spec fn after_step(folded: Set<int>, step: FoldStep) -> Set<int> {
    match step {
        FoldStep::Fold(row) => folded.insert(row + 1),
        FoldStep::Unfold(row) => folded.remove(row + 1),
    }
}

/// The rows that are folded away after several steps.
pub open spec fn after_steps(folded: Set<int>, steps: Seq<FoldStep>) -> Set<int>
    decreases steps.len(),
{
    if steps.len() == 0 {
        folded
    } else {
        after_step(after_steps(folded, steps.drop_last()), steps.last())
    }
}

/// The list holds the rows of the set, and no others.
pub open spec fn lists(rows: Seq<u32>, set: Set<int>) -> bool {
    forall|row: int|
        #[trigger] set.contains(row) <==> exists|i: int|
            0 <= i < rows.len() && #[trigger] rows[i] == row
}

/// After folding each of some rows, or unfolding each, what follows them is folded or not; what
/// follows other rows is as it was.
proof fn lemma_after_rows(folded: Set<int>, rows: Seq<u32>, fold: bool, row: int)
    ensures
        after_steps(folded, steps_of(rows, fold)).contains(row + 1) <==> if exists|i: int|
            0 <= i < rows.len() && #[trigger] rows[i] == row {
            fold
        } else {
            folded.contains(row + 1)
        },
    decreases rows.len(),
{
    let steps = steps_of(rows, fold);
    if rows.len() > 0 {
        let init = rows.drop_last();
        lemma_after_rows(folded, init, fold, row);
        assert(steps.drop_last() == steps_of(init, fold));
        if exists|i: int| 0 <= i < init.len() && #[trigger] init[i] == row {
            let i = choose|i: int| 0 <= i < init.len() && #[trigger] init[i] == row;
            assert(rows[i] == row);
        }
        if exists|i: int| 0 <= i < rows.len() && #[trigger] rows[i] == row {
            let i = choose|i: int| 0 <= i < rows.len() && #[trigger] rows[i] == row;
            if i < init.len() {
                assert(init[i] == row);
            } else {
                assert(rows.last() == row);
            }
        }
    }
}

/// A section that is folded, with headlines inside it, shows these next; and a section that shows
/// the headlines inside it shows everything next. Given is that what follows each headline is
/// before the end of the section.
pub proof fn lemma_fold_cycle(
    row: u32,
    end: int,
    children: Seq<u32>,
    folded: Seq<u32>,
    set: Set<int>,
    next: Seq<u32>,
)
    requires
        lists(folded, set),
        children.len() > 0,
        row + 1 <= end,
        forall|i: int|
            0 <= i < children.len() ==> row < #[trigger] children[i] && children[i] + 1 <= end,
        lists(next, after_steps(set, fold_steps(row, end, children, folded))),
    ensures
        is_folded(folded, row as int, end) ==> !is_folded(next, row as int, end) && all_folded(
            next,
            children,
            end,
        ),
        !is_folded(folded, row as int, end) && all_folded(folded, children, end) ==> !is_folded(
            next,
            row as int,
            end,
        ) && forall|i: int|
            0 <= i < children.len() ==> !is_folded(next, #[trigger] children[i] as int, end),
        !is_folded(folded, row as int, end) && !all_folded(folded, children, end) ==> is_folded(
            next,
            row as int,
            end,
        ),
{
    let steps = fold_steps(row, end, children, folded);
    let after = after_steps(set, steps);
    assert(is_folded(next, row as int, end) <==> after.contains(row + 1));
    assert(is_folded(folded, row as int, end) <==> set.contains(row + 1));
    assert forall|i: int| 0 <= i < children.len() implies (is_folded(
        next,
        #[trigger] children[i] as int,
        end,
    ) <==> after.contains(children[i] + 1)) by {}
    if is_folded(folded, row as int, end) {
        let first = seq![FoldStep::Unfold(row)];
        reveal_with_fuel(after_steps, 2);
        assert(first.drop_last() == Seq::<FoldStep>::empty());
        let shown_rows = after_steps(set, first);
        assert(shown_rows == set.remove(row + 1));
        lemma_steps_join(set, first, steps_of(children, true));
        lemma_after_rows(shown_rows, children, true, row as int);
        assert forall|i: int| 0 <= i < children.len() implies is_folded(
            next,
            #[trigger] children[i] as int,
            end,
        ) by {
            lemma_after_rows(shown_rows, children, true, children[i] as int);
            assert(after.contains(children[i] + 1));
        }
    } else if all_folded(folded, children, end) {
        lemma_after_rows(set, children, false, row as int);
        assert forall|i: int| 0 <= i < children.len() implies !is_folded(
            next,
            #[trigger] children[i] as int,
            end,
        ) by {
            lemma_after_rows(set, children, false, children[i] as int);
            assert(!after.contains(children[i] + 1));
        }
    } else {
        reveal_with_fuel(after_steps, 2);
        assert(steps.drop_last() == Seq::<FoldStep>::empty());
    }
}

/// Some steps after others.
proof fn lemma_steps_join(folded: Set<int>, a: Seq<FoldStep>, b: Seq<FoldStep>)
    ensures
        after_steps(folded, a + b) == after_steps(after_steps(folded, a), b),
    decreases b.len(),
{
    if b.len() == 0 {
        assert(a + b == a);
    } else {
        lemma_steps_join(folded, a, b.drop_last());
        assert((a + b).drop_last() == a + b.drop_last());
        assert((a + b).last() == b.last());
    }
}

/// The rows of the first so many sections are folded or shown as the steps that show one section say,
/// and nothing else changes.
proof fn lemma_focus_steps(
    items: Seq<OutlineItem>,
    shown: int,
    count: int,
    folded: Set<int>,
    row: int,
)
    requires
        0 <= shown < items.len(),
        0 <= count <= items.len(),
        section_rows(items).no_duplicates(),
    ensures
        after_steps(folded, focus_steps(items, shown, count)).contains(row + 1) <==> if exists|
            j: int,
        |
            0 <= j < count && items[j].depth == items[shown].depth && (
            #[trigger] items[j]).start.row == row {
            items[shown].start.row != row
        } else {
            folded.contains(row + 1)
        },
    decreases count,
{
    if count > 0 {
        let k = count - 1;
        lemma_focus_steps(items, shown, k, folded, row);
        let steps = focus_steps(items, shown, count);
        let before = focus_steps(items, shown, k);
        assert forall|a: int, b: int|
            0 <= a < items.len() && 0 <= b < items.len() && a != b implies (
        #[trigger] items[a]).start.row != (#[trigger] items[b]).start.row by {
            assert(section_rows(items)[a] != section_rows(items)[b]);
        }
        if k == shown || items[k].depth == items[shown].depth {
            assert(steps.drop_last() == before);
        }
    }
}

/// After the steps that show one section alone, it is not folded, every other that lies as deep is,
/// and the rest is as it was. Given is that no two sections begin on one row.
pub proof fn lemma_focus(items: Seq<OutlineItem>, shown: int, folded: Set<int>)
    requires
        0 <= shown < items.len(),
        section_rows(items).no_duplicates(),
    ensures
        ({
            let after = after_steps(folded, focus_steps(items, shown, items.len() as int));
            &&& !after.contains(items[shown].start.row + 1)
            &&& forall|j: int|
                0 <= j < items.len() && j != shown && items[j].depth == items[shown].depth
                    ==> after.contains((#[trigger] items[j]).start.row + 1)
            &&& forall|j: int|
                0 <= j < items.len() && items[j].depth != items[shown].depth ==> (after.contains(
                    (#[trigger] items[j]).start.row + 1,
                ) <==> folded.contains(items[j].start.row + 1))
        }),
{
    let count = items.len() as int;
    let after = after_steps(folded, focus_steps(items, shown, count));
    assert forall|a: int, b: int|
        0 <= a < items.len() && 0 <= b < items.len() && a != b implies (
    #[trigger] items[a]).start.row != (#[trigger] items[b]).start.row by {
        assert(section_rows(items)[a] != section_rows(items)[b]);
    }
    lemma_focus_steps(items, shown, count, folded, items[shown].start.row as int);
    assert forall|j: int|
        0 <= j < items.len() && j != shown && items[j].depth
            == items[shown].depth implies after.contains((#[trigger] items[j]).start.row + 1) by {
        lemma_focus_steps(items, shown, count, folded, items[j].start.row as int);
    }
    assert forall|j: int| 0 <= j < items.len() && items[j].depth != items[shown].depth implies (
    after.contains((#[trigger] items[j]).start.row + 1) <==> folded.contains(
        items[j].start.row + 1,
    )) by {
        lemma_focus_steps(items, shown, count, folded, items[j].start.row as int);
    }
}

/// After the steps that show all sections again, none of them is folded.
pub proof fn lemma_unfocus(items: Seq<OutlineItem>, folded: Set<int>)
    ensures
        forall|j: int|
            0 <= j < items.len() ==> !after_steps(
                folded,
                steps_of(section_rows(items), false),
            ).contains((#[trigger] items[j]).start.row + 1),
{
    assert forall|j: int| 0 <= j < items.len() implies !after_steps(
        folded,
        steps_of(section_rows(items), false),
    ).contains((#[trigger] items[j]).start.row + 1) by {
        lemma_after_rows(folded, section_rows(items), false, items[j].start.row as int);
        assert(section_rows(items)[j] == items[j].start.row);
    }
}

} // verus!
