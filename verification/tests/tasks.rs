use journal::buffer::TextEdit;
use journal::calendar::{Date, DateTime, Time};
use journal::date_picker::{describe_reminder, describe_repeater, DatePickerModal};
use journal::label::{Color, LabelSize};
use journal::planning::{
    duration_from_parts, extract_recurring_info, find_planned, find_section, format_planning_line,
    format_reminder_duration, parse_reminder_duration, parse_timestamp_with_repeater,
    AgendaEntryType,
};
use journal::recurring::{add_keyword, create_recurring_task, reschedule_on, reschedule_recurring_task};
use journal::repeater::{RepeaterInfo, RepeaterType, RepeaterUnit};
use journal::scheduling::{
    format_planning_text, open_picker, schedule_picked, schedule_task, set_deadline,
    set_deadline_picked, set_recurring, set_recurring_picked,
};
use journal::syntax::SyntaxNode;
use journal::todo::{cycle_todo_state, cycle_todo_state_at, next_keyword};

fn date(year: i32, month: u32, day: u32) -> Date {
    Date { year, month, day }
}

fn repeater(interval: i64, unit: RepeaterUnit, repeater_type: RepeaterType) -> RepeaterInfo {
    RepeaterInfo { interval, unit, repeater_type }
}

fn weekly() -> RepeaterInfo {
    repeater(1, RepeaterUnit::Week, RepeaterType::Cumulative)
}

fn now() -> DateTime {
    DateTime {
        date: date(2025, 1, 20),
        time: Time { hour: 9, minute: 5, second: 0, nanosecond: 0 },
    }
}

fn node(kind: &str, start_byte: usize, end_byte: usize, children: Vec<SyntaxNode>) -> SyntaxNode {
    SyntaxNode { kind: kind.to_string(), start_byte, end_byte, start_row: 0, end_row: 0, children }
}

/// The nodes around a cursor in the first headline of a buffer, which ends before a line feed.
fn tree(buffer: &str) -> Vec<SyntaxNode> {
    let end = buffer.find('\n').unwrap_or(buffer.len());
    let line = &buffer[..end];
    let stars = line.find(' ').unwrap();
    let mut words = Vec::new();
    let mut start = stars + 1;
    for word in line[stars + 1..].split(' ') {
        words.push(node("expr", start, start + word.len(), vec![]));
        start += word.len() + 1;
    }
    let item = node("item", stars + 1, end, words);
    let headline = node(
        "headline",
        0,
        end,
        vec![node("stars", 0, stars, vec![]), item],
    );
    vec![node("expr", stars + 1, end, vec![]), headline]
}

fn apply(buffer: &str, edits: &[TextEdit]) -> String {
    let mut text = buffer.to_string();
    for edit in edits {
        text.replace_range(edit.start..edit.end, &edit.text);
    }
    text
}

fn keywords(words: &[&str]) -> Vec<String> {
    words.iter().map(|word| word.to_string()).collect()
}

fn cycle(buffer: &str) -> Option<String> {
    cycle_todo_state_at(
        buffer,
        &tree(buffer),
        &keywords(&["TODO", "DOING"]),
        &keywords(&["DONE", "CANCELLED"]),
        true,
        now(),
    )
    .map(|edits| apply(buffer, &edits))
}

#[test]
fn states_follow_each_other() {
    let todo = keywords(&["TODO", "DOING"]);
    let done = keywords(&["DONE", "CANCELLED"]);
    let next = |current| next_keyword(current, &todo, &done, true);
    assert_eq!(next(None), Some((Some("TODO".to_string()), false)));
    assert_eq!(next(Some("TODO")), Some((Some("DOING".to_string()), false)));
    assert_eq!(next(Some("DOING")), Some((Some("DONE".to_string()), true)));
    assert_eq!(next(Some("DONE")), Some((Some("CANCELLED".to_string()), false)));
    assert_eq!(next(Some("CANCELLED")), Some((None, false)));
    assert_eq!(next_keyword(None, &vec![], &done, true), None);
    assert_eq!(next_keyword(Some("TODO"), &keywords(&["TODO"]), &vec![], true), Some((None, false)));
    assert_eq!(
        next_keyword(Some("TODO"), &keywords(&["TODO"]), &done, false),
        Some((Some("DONE".to_string()), false))
    );
}

#[test]
fn a_task_goes_round() {
    assert_eq!(cycle("* Task\nbody\n").unwrap(), "* TODO Task\nbody\n");
    assert_eq!(cycle("* TODO Task\nbody\n").unwrap(), "* DOING Task\nbody\n");
    let done = cycle("** DOING Täsk\nbody\n* Next").unwrap();
    assert_eq!(done, "** DONE Täsk\nCLOSED: [2025-01-20 Mon 09:05]\nbody\n* Next");
    assert_eq!(cycle("* DONE Task\nbody\n").unwrap(), "* CANCELLED Task\nbody\n");
}

#[test]
fn a_closing_line_goes_with_the_keyword() {
    let buffer = "* CANCELLED Task\nCLOSED: [2025-01-20 Mon 09:05]\nbody\n* Next\n";
    let edits = cycle_todo_state_at(
        buffer,
        &tree(buffer),
        &keywords(&["TODO"]),
        &keywords(&["DONE", "CANCELLED"]),
        true,
        now(),
    )
    .unwrap();
    let views: Vec<(usize, usize, &str)> =
        edits.iter().map(|e| (e.start, e.end, e.text.as_str())).collect();
    assert_eq!(views, vec![(2, 11, ""), (8, 39, "")]);
    assert_eq!(apply(buffer, &edits), "*  Task\nbody\n* Next\n");
    let last = "* CANCELLED Task\nCLOSED: [x]";
    let edits = cycle_todo_state_at(
        last,
        &tree(last),
        &keywords(&["TODO"]),
        &keywords(&["CANCELLED"]),
        true,
        now(),
    )
    .unwrap();
    assert_eq!((edits[1].start, edits[1].end), (7, last.len() - 9));
    assert_eq!(apply(last, &edits), "*  Task");
    let without = cycle_todo_state_at(
        "* CANCELLED Task\nbody\n",
        &tree("* CANCELLED Task\nbody\n"),
        &keywords(&["TODO"]),
        &keywords(&["CANCELLED"]),
        true,
        now(),
    )
    .unwrap();
    assert_eq!(without.len(), 1);
}

#[test]
fn a_task_that_comes_back_is_followed() {
    let buffer = "* DOING Water\nSCHEDULED: <2025-01-15 Wed ++1w>\n* Next\n";
    let edits = cycle_todo_state_at(
        buffer,
        &tree(buffer),
        &keywords(&["TODO", "DOING"]),
        &keywords(&["DONE"]),
        false,
        now(),
    )
    .unwrap();
    assert_eq!(edits.len(), 2);
    assert_eq!((edits[0].start, edits[0].end, edits[0].text.as_str()), (2, 7, "DONE"));
    assert_eq!((edits[1].start, edits[1].end), (45, 45));
    assert_eq!(
        apply(buffer, &edits),
        "* DONE Water\nSCHEDULED: <2025-01-15 Wed ++1w>\n* TODO DOING Water\n\
         SCHEDULED: <2025-01-22 Wed ++1w>\n\n* Next\n"
    );
    assert_eq!(edits[1].text, "\n* TODO DOING Water\nSCHEDULED: <2025-01-22 Wed ++1w>\n");
    let stamped = cycle_todo_state_at(
        buffer,
        &tree(buffer),
        &keywords(&["TODO", "DOING"]),
        &keywords(&["DONE"]),
        true,
        now(),
    )
    .unwrap();
    assert_eq!(stamped[1].text, "\nCLOSED: [2025-01-20 Mon 09:05]");
    assert_eq!(stamped[1].start, 12);
    assert_eq!(stamped[2].start, 45 + stamped[1].text.len());
    assert_eq!(
        apply(buffer, &stamped),
        "* DONE Water\nCLOSED: [2025-01-20 Mon 09:05]\nSCHEDULED: <2025-01-15 Wed ++1w>\n\
         * TODO DOING Water\nSCHEDULED: <2025-01-22 Wed ++1w>\n\n* Next\n"
    );
}

/// The nodes around a cursor in the first headline of a buffer, which has its line feed.
fn tree_with_feed(buffer: &str) -> Vec<SyntaxNode> {
    let mut nodes = tree(buffer);
    nodes[1].end_byte += 1;
    nodes
}

#[test]
fn headlines_with_their_line_feed() {
    let cycle = |buffer: &str| {
        let edits = cycle_todo_state_at(
            buffer,
            &tree_with_feed(buffer),
            &keywords(&["TODO"]),
            &keywords(&["DONE"]),
            true,
            now(),
        );
        apply(buffer, &edits.unwrap())
    };
    let done = cycle("* TODO A\nbody\n* B\n");
    assert_eq!(done, "* DONE A\nCLOSED: [2025-01-20 Mon 09:05]\nbody\n* B\n");
    assert_eq!(cycle(&done), "*  A\nbody\n* B\n");
    let last = cycle("* TODO A\n");
    assert_eq!(last, "* DONE A\nCLOSED: [2025-01-20 Mon 09:05]\n");
    assert_eq!(cycle(&last), "*  A\n");
    assert_eq!(cycle("* DONE A\nCLOSED: [x]"), "*  A\n");
    // The next task keeps its own closing line.
    assert_eq!(cycle("* DONE A\n* DONE B\nCLOSED: [x]\n"), "*  A\n* DONE B\nCLOSED: [x]\n");
}

#[test]
fn no_task_follows_out_of_the_calendar() {
    let buffer = "* DOING Water\nSCHEDULED: <2025-01-15 Wed +300000y>\n";
    assert!(cycle(buffer).is_none());
    let buffer = "* DONE Water\nSCHEDULED: <2025-01-15 Wed +1w>\n";
    assert!(cycle_todo_state_at(
        buffer,
        &tree(buffer),
        &vec![],
        &keywords(&["DONE", "CANCELLED"]),
        true,
        now()
    )
    .is_none());
}

#[test]
fn nothing_to_cycle() {
    let edits = |tree: Vec<SyntaxNode>| {
        cycle_todo_state_at("text", &tree, &keywords(&["TODO"]), &vec![], true, now()).unwrap()
    };
    assert!(edits(vec![]).is_empty());
    assert!(edits(vec![node("paragraph", 0, 4, vec![])]).is_empty());
    assert!(edits(vec![node("headline", 0, 4, vec![])]).is_empty());
    let stars = node("stars", 0, 1, vec![]);
    assert!(edits(vec![node("headline", 0, 4, vec![stars])]).is_empty());
    let none = cycle_todo_state("* Task", &tree("* Task"), &vec![], &vec![], true).unwrap();
    assert!(none.is_empty());
    let first =
        cycle_todo_state("* Task", &tree("* Task"), &keywords(&["TODO"]), &vec![], true).unwrap();
    assert_eq!(apply("* Task", &first), "* TODO Task");
}

#[test]
fn reminders_in_units() {
    for (seconds, text) in [
        (0, "0w"),
        (604800, "1w"),
        (86400 * 3, "3d"),
        (7200, "2h"),
        (600, "10m"),
        (61, "61s"),
    ] {
        assert_eq!(format_reminder_duration(seconds), text);
    }
    assert_eq!(parse_reminder_duration("REMIND: 10m"), Some(600));
    assert_eq!(parse_reminder_duration("x REMIND:2h y"), Some(7200));
    assert_eq!(parse_reminder_duration("REMIND: 1d"), Some(86400));
    assert_eq!(parse_reminder_duration("REMIND: 3w"), Some(3 * 604800));
    assert_eq!(parse_reminder_duration("REMIND: 61s"), None);
    assert_eq!(parse_reminder_duration("REMIND: soon"), None);
    assert_eq!(parse_reminder_duration("REMIND: 99999999999999999999m"), None);
    assert_eq!(duration_from_parts(Some("5"), Some("x")), None);
    assert_eq!(duration_from_parts(None, Some("m")), None);
    for seconds in [60u128, 3600, 86400, 604800, 5400] {
        let line = format!("  REMIND: {}", format_reminder_duration(seconds));
        assert_eq!(parse_reminder_duration(&line), Some(seconds));
    }
}

#[test]
fn timestamps_are_read_back() {
    let line = format_planning_line("DEADLINE:", date(2025, 1, 15), &Some(weekly()));
    assert_eq!(line, "DEADLINE: <2025-01-15 Wed +1w>");
    assert_eq!(parse_timestamp_with_repeater(&line), Some((date(2025, 1, 15), weekly())));
    let plain = format_planning_line("SCHEDULED:", date(2025, 1, 15), &None);
    assert_eq!(plain, "SCHEDULED: <2025-01-15 Wed>");
    assert_eq!(parse_timestamp_with_repeater(&plain), None);
    assert_eq!(parse_timestamp_with_repeater("<2025-01-15 Wed +.1w>"), None);
    assert_eq!(parse_timestamp_with_repeater("<2025-02-30 Sun +1w>"), None);
}

#[test]
fn planned_dates_of_a_section() {
    let both = "\nSCHEDULED: <2025-01-15 Wed>\nDEADLINE: <2025-02-01 Sat .+2d>\n";
    let back = repeater(2, RepeaterUnit::Day, RepeaterType::Restart);
    assert_eq!(
        extract_recurring_info(both),
        Some((AgendaEntryType::Deadline, date(2025, 2, 1), back))
    );
    assert_eq!(find_planned(both), Some((date(2025, 2, 1), AgendaEntryType::Deadline, Some(back))));
    let plain = "\nSCHEDULED: <2025-01-15 Wed>\nDEADLINE: <2025-02-01 Sat>\n";
    assert_eq!(extract_recurring_info(plain), None);
    assert_eq!(find_planned(plain), Some((date(2025, 1, 15), AgendaEntryType::Scheduled, None)));
    let due = "\nSCHEDULED: later\nDEADLINE: <2025-02-01 Sat>";
    assert_eq!(find_planned(due), Some((date(2025, 2, 1), AgendaEntryType::Deadline, None)));
    let hidden = "\nSCHEDULED: <2025-02-30 Sun>\nDEADLINE: <2025-02-01 Sat>";
    assert_eq!(find_planned(hidden), None);
    assert_eq!(find_planned("nothing planned"), None);
    let twice = "\nDEADLINE: <2025-02-01 Sat .+2d>\nSCHEDULED: <2025-01-15 Wed +1w>";
    assert_eq!(
        extract_recurring_info(twice),
        Some((AgendaEntryType::Scheduled, date(2025, 1, 15), weekly()))
    );
    assert_eq!(find_section("* A\nbody\n* B", 3), "\nbody");
    assert_eq!(find_section("* A\nbody\n* B", 4), "body");
    assert_eq!(find_section("* A\n* B\nbody\n* C", 4), "");
}

#[test]
fn keywords_of_a_headline() {
    assert_eq!(add_keyword("** Task", "TODO"), "** TODO Task");
    assert_eq!(add_keyword("** TODO Task", "TODO"), "** TODO Task");
    assert_eq!(add_keyword("** ", "TODO"), "** ");
    assert_eq!(add_keyword("no stars", "TODO"), "no stars");
}

#[test]
fn the_task_that_follows() {
    let text = create_recurring_task(
        "* DONE Water $1 plants\n  CLOSED: [2025-01-20 Mon 09:05]",
        "TODO",
        date(2025, 1, 22),
        &weekly(),
        AgendaEntryType::Scheduled,
    );
    assert_eq!(text, "\n* TODO Water $1 plants\nSCHEDULED: <2025-01-22 Wed +1w>\n");
    let text = create_recurring_task(
        "* TODO Pay DEADLINE: <2025-01-15 Wed +1m> rent",
        "TODO",
        date(2025, 2, 15),
        &repeater(1, RepeaterUnit::Month, RepeaterType::Cumulative),
        AgendaEntryType::Deadline,
    );
    assert_eq!(text, "\n* TODO Pay DEADLINE: <2025-02-15 Sat +1m> rent\n");
}

#[test]
fn the_task_that_follows_is_read_back() {
    for (kind, back) in [
        (AgendaEntryType::Scheduled, weekly()),
        (AgendaEntryType::Deadline, repeater(3, RepeaterUnit::Month, RepeaterType::CatchUp)),
    ] {
        let day = date(2025, 2, 28);
        let text = create_recurring_task("** Pay the rent", "NEXT", day, &back, kind);
        assert_eq!(extract_recurring_info(&text), Some((kind, day, back)));
    }
}

#[test]
fn moving_a_task_on() {
    let content = "* TODO A\n  SCHEDULED: <2025-01-15 Wed +1w>\r\nbody\n";
    let moved = reschedule_on(
        content,
        0,
        date(2025, 1, 15),
        &weekly(),
        AgendaEntryType::Scheduled,
        date(2025, 1, 20),
    );
    assert_eq!(moved.unwrap(), "* TODO A\n  SCHEDULED: <2025-01-22 Wed +1w>\nbody\n");
    let now = |line, kind| {
        reschedule_recurring_task(content, line, date(2025, 1, 15), &weekly(), kind)
    };
    assert!(now(0, AgendaEntryType::Scheduled).unwrap().contains("<2025-01-22 Wed +1w>"));
    assert_eq!(now(2, AgendaEntryType::Scheduled), None);
    assert_eq!(now(9, AgendaEntryType::Scheduled), None);
    assert_eq!(now(0, AgendaEntryType::Deadline), None);
    assert_eq!(now(0, AgendaEntryType::Closed), None);
    let far = "* A\n1\n2\n3\n4\nSCHEDULED: <2025-01-15 Wed +1w>\n";
    assert_eq!(
        reschedule_on(
            far,
            0,
            date(2025, 1, 15),
            &weekly(),
            AgendaEntryType::Scheduled,
            date(2025, 1, 20)
        ),
        None
    );
}

#[test]
fn scheduling_sets_one_line() {
    let buffer = "* TODO Täsk\nbody\n* Next\n";
    let picked = (date(2025, 1, 15), Some(600), Some(weekly()));
    let edit = schedule_picked(buffer, &tree(buffer), picked).unwrap();
    let once = apply(buffer, &[edit]);
    assert_eq!(
        once,
        "* TODO Täsk\nSCHEDULED: <2025-01-15 Wed +1w>\nREMIND: 10m\n\nbody\n* Next\n"
    );
    let edit = schedule_picked(&once, &tree(&once), (date(2025, 1, 16), None, None)).unwrap();
    let twice = apply(&once, &[edit]);
    assert_eq!(twice, "* TODO Täsk\nSCHEDULED: <2025-01-16 Thu>\nREMIND: 10m\n\nbody\n* Next\n");
    let edit = set_deadline_picked(&twice, &tree(&twice), (date(2025, 2, 1), None, None)).unwrap();
    let due = apply(&twice, &[edit]);
    assert_eq!(
        due,
        "* TODO Täsk\nDEADLINE: <2025-02-01 Sat>\n\nSCHEDULED: <2025-01-16 Thu>\nREMIND: 10m\n\nbody\n* Next\n"
    );
    assert!(schedule_picked(buffer, &vec![], picked).is_none());
    assert_eq!(
        format_planning_text("DEADLINE:", (date(2025, 2, 1), Some(86400), None)),
        "DEADLINE: <2025-02-01 Sat>\nREMIND: 1d"
    );
}

#[test]
fn a_reminder_comes_below_the_planning_line() {
    let buffer = "* A\nabove\n\n  SCHEDULED: <2025-01-01 Wed>\nbelow\nSCHEDULED: later\n* B\n";
    let picked = (date(2025, 1, 15), Some(3600), None);
    let edit = schedule_picked(buffer, &tree(buffer), picked).unwrap();
    assert_eq!(
        apply(buffer, &[edit]),
        "* A\nabove\n\nSCHEDULED: <2025-01-15 Wed>\nREMIND: 1h\nbelow\nSCHEDULED: later\n* B\n"
    );
    let edit = set_deadline_picked(buffer, &tree(buffer), picked).unwrap();
    assert_eq!(
        apply(buffer, &[edit]),
        "* A\nDEADLINE: <2025-01-15 Wed>\nREMIND: 1h\n\nabove\n\n  SCHEDULED: <2025-01-01 Wed>\n\
         below\nSCHEDULED: later\n* B\n"
    );
}

#[test]
fn planning_before_the_next_headline() {
    let buffer = "* TODO A\n* B\nSCHEDULED: <2025-03-01 Sat>\n";
    let picked = (date(2025, 2, 1), None, Some(weekly()));
    let edit = set_deadline_picked(buffer, &tree_with_feed(buffer), picked).unwrap();
    let once = apply(buffer, &[edit]);
    assert_eq!(
        once,
        "* TODO A\n\nDEADLINE: <2025-02-01 Sat +1w>\n* B\nSCHEDULED: <2025-03-01 Sat>\n"
    );
    assert_eq!(
        find_planned(find_section(&once, 9)),
        Some((date(2025, 2, 1), AgendaEntryType::Deadline, Some(weekly())))
    );
    let edit = set_deadline_picked(&once, &tree_with_feed(&once), picked).unwrap();
    let twice = apply(&once, &[edit]);
    let full = |text: &str| -> Vec<String> {
        text.split('\n').filter(|line| !line.is_empty()).map(|line| line.to_string()).collect()
    };
    assert_eq!(full(&once), full(&twice));
}

#[test]
fn making_a_task_come_back() {
    let buffer = "* TODO Task\nDEADLINE: <2025-02-01 Sat>";
    let (mut picker, kind) = set_recurring(buffer, &tree(buffer)).unwrap();
    assert_eq!(kind, AgendaEntryType::Deadline);
    assert_eq!(picker.selected_date, date(2025, 2, 1));
    assert_eq!(picker.selected_repeater, None);
    picker.cycle_repeater();
    let picked = picker.confirm().unwrap();
    let edit = set_recurring_picked(buffer, &tree(buffer), kind, picked).unwrap();
    assert_eq!(apply(buffer, &[edit]), "* TODO Task\nDEADLINE: <2025-02-01 Sat +1d>\n");
    assert!(set_recurring("* TODO Task", &tree("* TODO Task")).is_none());
    assert!(set_recurring(buffer, &vec![]).is_none());
    assert!(set_recurring_picked(
        "* TODO Task",
        &tree("* TODO Task"),
        AgendaEntryType::Scheduled,
        picked
    )
    .is_none());
}

#[test]
fn pickers_open_later() {
    assert!(schedule_task(false).is_none());
    assert!(set_deadline(false).is_none());
    let tomorrow = schedule_task(true).unwrap().selected_date;
    let next_week = set_deadline(true).unwrap().selected_date;
    let days = next_week.days_since(tomorrow);
    assert!(days == 6 || days == 7);
    assert_eq!(open_picker(date(2024, 12, 31), 1).unwrap().selected_date, date(2025, 1, 1));
    assert!(open_picker(date(2024, 12, 31), 1_000_000_000).is_none());
}

#[test]
fn picking_a_date() {
    let mut picker = DatePickerModal::new(date(2024, 2, 28));
    picker.next_day();
    assert_eq!(picker.selected_date, date(2024, 2, 29));
    picker.next_week();
    assert_eq!(picker.selected_date, date(2024, 3, 7));
    picker.prev_week();
    picker.prev_day();
    assert_eq!(picker.selected_date, date(2024, 2, 28));
    picker.adjust_date(200_000_000);
    assert_eq!(picker.selected_date, date(2024, 2, 28));
    let mut reminders = Vec::new();
    for _ in 0..6 {
        picker.cycle_reminder();
        reminders.push(picker.selected_reminder);
    }
    assert_eq!(
        reminders,
        vec![Some(600), Some(3600), Some(86400), Some(604800), None, Some(600)]
    );
    assert_eq!(picker.confirm(), Some((date(2024, 2, 28), Some(600), None)));
    assert_eq!(picker.confirm(), None);
}

#[test]
fn going_through_the_repeaters() {
    let mut picker = DatePickerModal::new_with_repeater(date(2025, 1, 15), None);
    let mut seen = Vec::new();
    for _ in 0..11 {
        picker.cycle_repeater();
        seen.push(describe_repeater(&picker.selected_repeater));
    }
    assert_eq!(
        seen,
        vec![
            "+1 day (from date)",
            "+1 week (from date)",
            "+2 weeks (from date)",
            "+1 month (from date)",
            "+3 months (from date)",
            "+1 year (from date)",
            "++1 day (catch up)",
            "++1 week (catch up)",
            ".+1 day (from completion)",
            ".+1 week (from completion)",
            "None",
        ]
    );
    let odd = repeater(5, RepeaterUnit::Day, RepeaterType::Cumulative);
    let mut picker = DatePickerModal::new_with_repeater(date(2025, 1, 15), Some(odd));
    picker.cycle_repeater();
    assert_eq!(
        picker.selected_repeater,
        Some(repeater(1, RepeaterUnit::Day, RepeaterType::CatchUp))
    );
    assert_eq!(describe_reminder(Some(600)), "10 minutes");
    assert_eq!(describe_reminder(Some(3600)), "1 hour");
    assert_eq!(describe_reminder(Some(86400)), "1 day");
    assert_eq!(describe_reminder(Some(604800)), "1 week");
    assert_eq!(describe_reminder(Some(61)), "61s");
    assert_eq!(describe_reminder(None), "None");
}

#[test]
fn what_the_picker_shows() {
    let mut picker = DatePickerModal::new(date(2025, 1, 15));
    picker.cycle_reminder();
    let labels = picker.render();
    let texts: Vec<&str> = labels.iter().map(|label| label.text.as_str()).collect();
    assert_eq!(
        texts,
        vec![
            "Select Date",
            "Wednesday",
            "2025-01-15",
            "Reminder:",
            "10 minutes",
            "Press 'r' to cycle reminder options",
            "Recurring:",
            "None",
            "Press 'p' to cycle repeater options",
            "Use ↑/↓ for ±1 day, ←/→ for ±7 days",
            "Press Enter to confirm, Esc to cancel",
        ]
    );
    assert_eq!(labels[0].size, LabelSize::Large);
    assert_eq!(labels[4].color, Color::Accent);
    assert_eq!(labels[7].color, Color::Muted);
}
