//! The task that follows one that comes back, once that is done.
use crate::buffer::byte_len;
use crate::calendar::{iso_date, weekday_abbreviation, Date, DateTime};
use crate::patterns::{
    all_replaced, first_match, first_replaced, CLOSED_LINE_PATTERN, DONE_PATTERN,
    REPEATING_LINE_PATTERN,
};
use crate::planning::{
    has_planning_line, planning_keyword, planning_line, recurring_info, section_at, AgendaEntryType,
};
use crate::recurring::{
    is_unplanned, keyword_place, recurring_task, reopened, stars_len, with_keyword,
};
use crate::repeater::{next_occurrence, repeater_text, RepeaterInfo};
use crate::syntax::{first_of_kind, last_of_kind, SyntaxNode};
use crate::text::{contains, lemma_find_is};
use crate::todo::{edits_with_change, following_task, keyword_node, next_state, node_text};
use vstd::prelude::*;
use vstd::string::*;

verus! {

/// The line that plans a task: `SCHEDULED:` or `DEADLINE:`, and a timestamp with a repeater.
pub open spec fn plan(entry_type: AgendaEntryType, date: Date, repeater: RepeaterInfo) -> Seq<char> {
    (if entry_type == AgendaEntryType::Deadline {
        "DEADLINE: <"@
    } else {
        "SCHEDULED: <"@
    }) + iso_date(date) + " "@ + weekday_abbreviation(date.weekday()) + " "@ + repeater_text(
        repeater,
    ) + ">"@
}

/// A text is the task that follows one with a headline: it holds the plan for the next date, of the
/// same kind and with the same repeater. Where neither the headline nor the keyword says anything
/// else of a plan, that plan is the one that counts in it.
pub open spec fn is_follow_up(
    task: Seq<char>,
    headline: Seq<char>,
    keyword: Seq<char>,
    entry_type: AgendaEntryType,
    date: Date,
    repeater: RepeaterInfo,
) -> bool {
    &&& contains(task, plan(entry_type, date, repeater))
    &&& is_unplanned(headline) && is_unplanned(keyword) && 0 <= date.year <= 9999 ==> exists|
        before: Seq<char>,
        after: Seq<char>,
    |
        #[trigger] has_planning_line(task, entry_type, before, date, Some(repeater), after)
}

/// What follows a task on the day it is done, given its headline, what stands under it, and the
/// keywords for what is to do: where a plan with a repeater counts there, a task of the same kind
/// and with the same repeater, planned for the next date; and no task where no plan has a repeater.
/// There is no answer where there is no next date or no keyword.
pub open spec fn follows(
    task: Option<Option<Seq<char>>>,
    headline: Seq<char>,
    section: Seq<char>,
    todo: Seq<Seq<char>>,
    today: Date,
) -> bool {
    forall|
        entry_type: AgendaEntryType,
        before: Seq<char>,
        date: Date,
        repeater: RepeaterInfo,
        after: Seq<char>,
    |
        #[trigger] has_planning_line(section, entry_type, before, date, Some(repeater), after)
            ==> match next_occurrence(date, repeater, Some(today), today) {
            Some(next) => if todo.len() > 0 {
                task matches Some(Some(text)) && is_follow_up(
                    text,
                    headline,
                    todo[0],
                    entry_type,
                    next,
                    repeater,
                )
            } else {
                task is None
            },
            None => task is None,
        }
}

/// The keyword that the headline gets, if it gets one.
pub open spec fn keyword_after(
    buffer_text: Seq<char>,
    item: SyntaxNode,
    todo: Seq<Seq<char>>,
    done: Seq<Seq<char>>,
) -> Option<Seq<char>> {
    let current = match keyword_node(buffer_text, item, todo, done) {
        Some(node) => Some(node_text(buffer_text, node)),
        None => None,
    };
    match next_state(current, todo, done, false) {
        Some((keyword, _)) => keyword,
        None => None,
    }
}

/// The text of the last of some edits, if there are any edits, as that of a task that follows.
pub open spec fn last_text(edits: Option<Seq<(int, int, Seq<char>)>>) -> Option<Option<Seq<char>>> {
    match edits {
        Some(edits) => if edits.len() > 0 {
            Some(Some(edits.last().2))
        } else {
            Some(None)
        },
        None => None,
    }
}

/// Where the task under the cursor becomes done, the last edit puts in the task that follows it, if
/// its plan has a repeater.
pub open spec fn done_task_follows(
    edits: Option<Seq<(int, int, Seq<char>)>>,
    buffer_text: Seq<char>,
    ancestors: Seq<SyntaxNode>,
    todo: Seq<Seq<char>>,
    done: Seq<Seq<char>>,
    today: Date,
) -> bool {
    first_of_kind(ancestors, "headline"@) matches Some(headline) ==> (match (
        last_of_kind(headline.children@, "stars"@),
        last_of_kind(headline.children@, "item"@),
    ) {
        (Some(stars), Some(item)) => match keyword_after(buffer_text, item, todo, done) {
            Some(keyword) => done.contains(keyword) ==> follows(
                last_text(edits),
                node_text(buffer_text, headline),
                section_at(buffer_text, headline.end_byte as int),
                todo,
                today,
            ),
            None => true,
        },
        _ => true,
    })
}

/// A planning line with a repeater is the plan in it.
pub proof fn lemma_plan(entry_type: AgendaEntryType, date: Date, repeater: RepeaterInfo)
    requires
        entry_type != AgendaEntryType::Closed,
    ensures
        planning_line(planning_keyword(entry_type), date, Some(repeater)) == plan(
            entry_type,
            date,
            repeater,
        ),
{
    reveal_strlit("DEADLINE:");
    reveal_strlit("SCHEDULED:");
    reveal_strlit("DEADLINE: <");
    reveal_strlit("SCHEDULED: <");
    reveal_strlit(" ");
    reveal_strlit("<");
    assert("DEADLINE: <"@ =~= "DEADLINE:"@ + " "@ + "<"@);
    assert("SCHEDULED: <"@ =~= "SCHEDULED:"@ + " "@ + "<"@);
    assert(planning_line(planning_keyword(entry_type), date, Some(repeater)) =~= plan(
        entry_type,
        date,
        repeater,
    ));
}

proof fn lemma_stars(stars: nat, title: Seq<char>)
    requires
        title.len() > 0,
        title[0] != '*',
        title[0] != ' ',
    ensures
        stars_len(Seq::new(stars, |i: int| '*') + " "@ + title) == stars + 1,
    decreases stars,
{
    reveal_strlit(" ");
    let s = Seq::new(stars, |i: int| '*') + " "@ + title;
    if stars == 0 {
        assert(s[0] == ' ');
        assert(s.skip(1) == title);
        assert(stars_len(title) == 0);
    } else {
        let fewer = (stars - 1) as nat;
        assert(s.skip(1) == Seq::new(fewer, |i: int| '*') + " "@ + title);
        assert(s[0] == '*');
        lemma_stars(fewer, title);
    }
}

/// A keyword that does not stand in a headline is put between its stars and its title, and one that
/// does leaves the headline alone.
pub proof fn lemma_keyword_put_in(stars: nat, title: Seq<char>, keyword: Seq<char>)
    requires
        stars > 0,
        title.len() > 0,
        title[0] != '*',
        title[0] != ' ',
    ensures
        ({
            let headline = Seq::new(stars, |i: int| '*') + " "@ + title;
            with_keyword(headline, keyword) == if contains(headline, keyword) {
                headline
            } else {
                Seq::new(stars, |i: int| '*') + " "@ + keyword + " "@ + title
            }
        }),
{
    reveal_strlit("*");
    reveal_strlit(" ");
    let headline = Seq::new(stars, |i: int| '*') + " "@ + title;
    assert(headline.subrange(0, 1) =~= "*"@);
    lemma_find_is(headline, "*"@, 0);
    assert(headline.skip(0) == headline);
    lemma_stars(stars, title);
    assert(keyword_place(headline) == Some(1int + stars));
    assert(headline.take(1int + stars) =~= Seq::new(stars, |i: int| '*') + " "@);
    assert(headline.skip(1int + stars) =~= title);
}

/// The task that follows is the headline of the one before, with the first keyword for what is to
/// do, and under it the plan of the same kind and with the same repeater for the next date, where
/// nothing is to be taken out of the headline.
pub proof fn lemma_task_that_follows(
    stars: nat,
    title: Seq<char>,
    entry_type: AgendaEntryType,
    date: Date,
    repeater: RepeaterInfo,
    todo: Seq<Seq<char>>,
    today: Date,
)
    requires
        stars > 0,
        title.len() > 0,
        title[0] != '*',
        title[0] != ' ',
        entry_type != AgendaEntryType::Closed,
        todo.len() > 0,
    ensures
        ({
            let headline = Seq::new(stars, |i: int| '*') + " "@ + title;
            let opened = if contains(headline, todo[0]) {
                headline
            } else {
                Seq::new(stars, |i: int| '*') + " "@ + todo[0] + " "@ + title
            };
            let task = following_task(headline, (entry_type, date, repeater), todo, today);
            reopened(headline) == headline && first_match(REPEATING_LINE_PATTERN@, opened) is None
                ==> match next_occurrence(date, repeater, Some(today), today) {
                Some(next) => task == Some(
                    "\n"@ + opened + "\n"@ + plan(entry_type, next, repeater) + "\n"@,
                ),
                None => task is None,
            }
        }),
{
    let headline = Seq::new(stars, |i: int| '*') + " "@ + title;
    lemma_keyword_put_in(stars, title, todo[0]);
    let opened = with_keyword(headline, todo[0]);
    if let Some(next) = next_occurrence(date, repeater, Some(today), today) {
        lemma_plan(entry_type, next, repeater);
        let line = plan(entry_type, next, repeater);
        assert("\n"@ + (opened + "\n"@ + line) + "\n"@ =~= "\n"@ + opened + "\n"@ + line + "\n"@);
    }
}

/// Where a task becomes done whose plan has a repeater, the last edit puts the task that follows
/// after its section, counted after the edits before; where it does not become done, or its plan
/// has no repeater, nothing follows.
pub proof fn lemma_follow_up_edit(
    buffer_text: Seq<char>,
    headline: SyntaxNode,
    change: (int, int, Seq<char>),
    stamped: bool,
    is_done: bool,
    todo: Seq<Seq<char>>,
    now: DateTime,
)
    ensures
        ({
            let end = headline.end_byte as int;
            let section = section_at(buffer_text, end);
            let edits = edits_with_change(
                buffer_text,
                headline,
                change,
                stamped,
                is_done,
                todo,
                now,
            );
            let count: int = if stamped {
                2
            } else {
                1
            };
            &&& is_done && recurring_info(section) is Some ==> match following_task(
                node_text(buffer_text, headline),
                recurring_info(section)->0,
                todo,
                now.date,
            ) {
                Some(task) => edits matches Some(edits) && edits.len() == count + 1
                    && edits.last().2 == task && edits.last().0 == edits.last().1
                    && edits.last().0 == end + byte_len(change.2) - (change.1 - change.0)
                    + byte_len(section) + if stamped {
                    byte_len(edits[1].2) as int
                } else {
                    0
                },
                None => edits is None,
            }
            &&& !is_done || recurring_info(section) is None ==> (edits matches Some(edits)
                && edits.len() == count)
        }),
{
}

/// The text of a task that comes back: its headline without a keyword of what is done and without a
/// closing line, with the keyword of what is to do, and the plan in the place of the one that stood
/// in it, or else under it; on lines of its own.
pub proof fn lemma_task_text(
    headline: Seq<char>,
    keyword: Seq<char>,
    date: Date,
    repeater: RepeaterInfo,
    entry_type: AgendaEntryType,
)
    requires
        entry_type != AgendaEntryType::Closed,
    ensures
        ({
            let open = all_replaced(
                CLOSED_LINE_PATTERN@,
                all_replaced(DONE_PATTERN@, headline, ""@),
                ""@,
            );
            let task = recurring_task(headline, keyword, date, repeater, entry_type);
            let line = plan(entry_type, date, repeater);
            &&& first_match(REPEATING_LINE_PATTERN@, with_keyword(open, keyword)) is Some ==> task
                == "\n"@ + first_replaced(
                REPEATING_LINE_PATTERN@,
                with_keyword(open, keyword),
                line,
            ) + "\n"@
            &&& first_match(REPEATING_LINE_PATTERN@, with_keyword(open, keyword)) is None ==> task
                == "\n"@ + (with_keyword(open, keyword) + "\n"@ + line) + "\n"@
        }),
{
    lemma_plan(entry_type, date, repeater);
}

} // verus!
