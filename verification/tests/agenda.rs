use journal::agenda::{
    closed_entry, deadline_entry, extract_agenda_items, has_tag_chars, line_is_headline,
    read_headline, scan_org_files, scheduled_entry, take_keyword, take_tags, AgendaItem,
};
use journal::agenda_view::{
    color_of_keyword, describe_urgency, format_reminder_message, is_reminder_time, open_agenda,
    open_agenda_item, sort_by_date, AgendaRow, AgendaView,
};
use journal::calendar::{Date, DateTime, Time};
use journal::label::{Color, LabelSize};
use journal::notification::{notification_for, DeadlineNotificationEvent};
use journal::picker::{
    AgendaDateRangePickerDelegate, AgendaFilePickerDelegate, AgendaTagPickerDelegate, StringMatch,
};
use journal::planning::{format_reminder_duration, AgendaEntryType};
use journal::repeater::{RepeaterInfo, RepeaterType, RepeaterUnit};

fn date(year: i32, month: u32, day: u32) -> Date {
    Date { year, month, day }
}

fn at(date: Date, hour: u32, minute: u32) -> DateTime {
    DateTime { date, time: Time { hour, minute, second: 0, nanosecond: 0 } }
}

fn items(content: &str) -> Vec<AgendaItem> {
    let mut items = Vec::new();
    extract_agenda_items("/j/work.org", content, &mut items);
    items
}

fn item(path: &str, headline: &str, day: Date, entry_type: AgendaEntryType) -> AgendaItem {
    AgendaItem {
        file_path: path.to_string(),
        headline: headline.to_string(),
        date: day,
        entry_type,
        line_number: 3,
        tags: vec![],
        todo_keyword: None,
        warning_days: None,
        reminder_duration: None,
        repeater: None,
    }
}

fn headlines(items: &[AgendaItem]) -> Vec<&str> {
    items.iter().map(|item| item.headline.as_str()).collect()
}

#[test]
fn headlines_are_taken_apart() {
    assert!(line_is_headline("  * x"));
    assert!(!line_is_headline("x *"));
    let headline = read_headline("  ** TODO Write it up :work:@home:  ");
    assert_eq!(headline.headline, "Write it up");
    assert_eq!(headline.tags, vec!["work", "@home"]);
    assert_eq!(headline.todo_keyword.as_deref(), Some("TODO"));
    assert_eq!(headline.reminder_duration, None);
    let headline = read_headline("* Plan :tag1:tag2:");
    assert_eq!(headline.headline, "Plan");
    assert_eq!(headline.tags, vec!["tag1", "tag2"]);
    let headline = read_headline("* DONE a :b: :c:");
    assert_eq!(headline.headline, "a :b:");
    assert_eq!(headline.tags, vec!["c"]);
    let headline = read_headline("* Ratio 3 :4-5: REMIND: 1h");
    assert_eq!(headline.headline, "Ratio 3 :4-5: REMIND: 1h");
    assert!(headline.tags.is_empty());
    assert_eq!(read_headline("* TODO").todo_keyword, None);
    assert_eq!(read_headline("* LATER x").todo_keyword, None);
    assert!(has_tag_chars(" :a1_@é:"));
    assert!(!has_tag_chars(" :a-b:"));
    assert_eq!(take_tags("* x :a: y").0, "* x");
    assert_eq!(take_keyword("* NEXT  x"), ("x".to_string(), Some("NEXT".to_string())));
    assert_eq!(take_keyword("x NEXT y"), ("x NEXT y".to_string(), None));
}

#[test]
fn entries_on_a_line() {
    let weekly = RepeaterInfo {
        interval: 1,
        unit: RepeaterUnit::Week,
        repeater_type: RepeaterType::Cumulative,
    };
    assert_eq!(
        scheduled_entry("SCHEDULED:<2025-01-15 Wed +1w>"),
        Some((date(2025, 1, 15), Some(weekly)))
    );
    assert_eq!(scheduled_entry("SCHEDULED: <2025-01-15 Wed>"), Some((date(2025, 1, 15), None)));
    assert_eq!(scheduled_entry("SCHEDULED: <2025-02-30 Wed>"), None);
    assert_eq!(scheduled_entry("DEADLINE: <2025-01-15 Wed>"), None);
    assert_eq!(
        deadline_entry("DEADLINE: <2025-01-15 Wed +1w -5d>"),
        Some((date(2025, 1, 15), Some(weekly), Some(5)))
    );
    assert_eq!(
        deadline_entry("DEADLINE: <2025-01-15 Wed -5d>"),
        Some((date(2025, 1, 15), None, Some(5)))
    );
    assert_eq!(
        deadline_entry("DEADLINE: <2025-01-15 Wed 5d>"),
        Some((date(2025, 1, 15), None, Some(5)))
    );
    assert_eq!(
        deadline_entry("DEADLINE: <2025-01-15 Wed -9223372036854775808d>"),
        Some((date(2025, 1, 15), None, None))
    );
    assert_eq!(deadline_entry("SCHEDULED: <2025-01-15 Wed>"), None);
    assert_eq!(
        deadline_entry("DEADLINE: <2025-01-15 Wed>"),
        Some((date(2025, 1, 15), None, None))
    );
    assert_eq!(closed_entry("CLOSED: [2025-01-20 Mon 09:05]"), Some(date(2025, 1, 20)));
    assert_eq!(closed_entry("CLOSED: [yesterday]"), None);
}

#[test]
fn items_of_a_file() {
    let content = "SCHEDULED: <2025-01-01 Wed>\n\
                   * TODO Pay :home:\n\
                   DEADLINE: <2025-01-15 Wed -3d>\n\
                   note\n\
                   REMIND: 1d\n\
                   * DONE Call\n\
                   CLOSED: [2025-01-10 Fri 10:00] SCHEDULED: <2025-01-09 Thu .+2d>\n\
                   * Next\n\
                   REMIND: 1h\n";
    let items = items(content);
    assert_eq!(headlines(&items), vec!["", "Pay", "Call", "Call"]);
    assert_eq!(items[0].line_number, 0);
    assert_eq!(items[0].reminder_duration, None);
    assert_eq!(items[1].entry_type, AgendaEntryType::Deadline);
    assert_eq!(items[1].line_number, 2);
    assert_eq!(items[1].tags, vec!["home"]);
    assert_eq!(items[1].todo_keyword.as_deref(), Some("TODO"));
    assert_eq!(items[1].warning_days, Some(3));
    assert_eq!(items[1].reminder_duration, Some(86400));
    assert_eq!(items[1].file_path, "/j/work.org");
    assert_eq!(items[2].entry_type, AgendaEntryType::Scheduled);
    assert_eq!(items[2].repeater.unwrap().repeater_type, RepeaterType::Restart);
    // The reminder of the next headline is not this one's.
    assert_eq!(items[2].reminder_duration, None);
    assert_eq!(items[3].entry_type, AgendaEntryType::Closed);
    assert_eq!(items[3].repeater, None);
}

#[test]
fn a_deadline_with_a_warning() {
    let items = items("* A\nDEADLINE: <2024-12-25 Wed -5d>\n");
    assert_eq!(items.len(), 1);
    assert_eq!(items[0].entry_type, AgendaEntryType::Deadline);
    assert_eq!(items[0].date, date(2024, 12, 25));
    assert_eq!(items[0].warning_days, Some(5));
    assert_eq!(items[0].repeater, None);
}

#[test]
fn a_reminder_below_a_timestamp() {
    let line = format!("REMIND: {}", format_reminder_duration(5400));
    let items = items(&format!("* A\nSCHEDULED: <2025-01-15 Wed>\n{line}"));
    assert_eq!(items.len(), 1);
    assert_eq!(items[0].reminder_duration, Some(5400));
    assert_eq!(items[0].line_number, 1);
}

#[test]
fn texts_one_after_the_other() {
    let first = "SCHEDULED: <2025-01-01 Wed>\r\n* A :x:\nDEADLINE: <2025-01-02 Thu>\n";
    let second = "* TODO B\nREMIND: 1h\nSCHEDULED: <2025-01-03 Fri +1w>";
    let both = items(&format!("{first}{second}"));
    let mut apart = items(first);
    for mut item in items(second) {
        item.line_number += 3;
        apart.push(item);
    }
    assert_eq!(both.len(), 3);
    for (a, b) in both.iter().zip(&apart) {
        assert_eq!(format!("{a:?}"), format!("{b:?}"));
    }
}

#[test]
fn reminders_near_an_entry() {
    let far = items("* A\nSCHEDULED: <2025-01-01 Wed>\n1\n2\n3\n4\nREMIND: 1h\n");
    assert_eq!(far[0].reminder_duration, None);
    let near = items("* A\nSCHEDULED: <2025-01-01 Wed>\n1\n2\n3\nREMIND: 1h\n");
    assert_eq!(near[0].reminder_duration, Some(3600));
    let before = items("* A\nREMIND: 2h\nSCHEDULED: <2025-01-01 Wed>\nREMIND: 1h\n");
    assert_eq!(before[0].reminder_duration, Some(3600));
    let inside = items("* A REMIND: 3h\nSCHEDULED: <2025-01-01 Wed>\n");
    assert_eq!(inside[0].reminder_duration, Some(3 * 3600));
    let only_before = items("* A\nREMIND: 2h\nSCHEDULED: <2025-01-01 Wed>\n");
    assert_eq!(only_before[0].reminder_duration, Some(7200));
}

#[test]
fn sorting_keeps_the_order_of_a_day() {
    let s = AgendaEntryType::Scheduled;
    let all = vec![
        item("/a.org", "b", date(2025, 1, 2), s),
        item("/a.org", "c", date(2025, 1, 1), s),
        item("/a.org", "a", date(2025, 1, 2), s),
    ];
    assert_eq!(headlines(&sort_by_date(&all)), vec!["c", "b", "a"]);
}

fn sample(today: Date) -> AgendaView {
    let s = AgendaEntryType::Scheduled;
    let mut done = item("/j/b.org", "done", today, s);
    done.todo_keyword = Some("DONE".to_string());
    let mut tagged = item("/j/a.org", "tagged", today, s);
    tagged.tags = vec!["x".to_string(), "y".to_string()];
    let closed = item("/j/a.org", "closed", today, AgendaEntryType::Closed);
    let old = item("/j/c.org", "old", date(today.year - 1, 1, 1), s);
    let mut other = item("/j/b.org", "other", today, AgendaEntryType::Deadline);
    other.tags = vec!["z".to_string()];
    let mut view = AgendaView::new();
    view.collect_agenda_items_at(vec![done, tagged, closed, old, other], at(today, 12, 0));
    view
}

#[test]
fn filters_of_the_agenda() {
    let today = date(2025, 6, 15);
    let mut view = sample(today);
    assert_eq!(view.days_range, 30);
    assert_eq!(view.available_tags, vec!["x", "y", "z"]);
    assert_eq!(view.available_files, vec!["a", "b", "c"]);
    assert_eq!(headlines(&view.items), vec!["tagged", "other"]);
    assert_eq!(headlines(&view.all_items)[0], "old");
    view.toggle_show_done();
    view.apply_filters_on(today);
    assert_eq!(headlines(&view.items), vec!["done", "tagged", "closed", "other"]);
    view.cycle_date_range();
    assert_eq!(view.days_range, 90);
    view.cycle_date_range();
    assert_eq!(view.days_range, 0);
    view.apply_filters_on(today);
    assert_eq!(headlines(&view.items)[0], "old");
    view.cycle_date_range();
    assert_eq!(view.days_range, 7);
    view.filter_tags = vec!["y".to_string(), "none".to_string()];
    view.apply_filters_on(today);
    assert_eq!(headlines(&view.items), vec!["tagged"]);
    view.filter_tags.clear();
    view.filter_file = Some("b".to_string());
    view.apply_filters_on(today);
    assert_eq!(headlines(&view.items), vec!["done", "other"]);
    view.clear_filters();
    assert!(!view.show_done && view.days_range == 30 && view.filter_file.is_none());
}

#[test]
fn going_through_tags_and_files() {
    let mut view = sample(date(2025, 6, 15));
    let mut asked = Vec::new();
    for _ in 0..5 {
        view.cycle_tag_filter();
        asked.push(view.filter_tags.join(","));
    }
    assert_eq!(asked, vec!["x", "x,y", "x,y,z", "", "x"]);
    view.filter_tags = vec!["gone".to_string()];
    view.cycle_tag_filter();
    assert!(view.filter_tags.is_empty());
    let mut files = Vec::new();
    for _ in 0..4 {
        view.cycle_file_filter();
        files.push(view.filter_file.clone().unwrap_or_default());
    }
    assert_eq!(files, vec!["a", "b", "c", ""]);
    let mut empty = AgendaView::new();
    empty.cycle_tag_filter();
    empty.cycle_file_filter();
    assert!(empty.filter_tags.is_empty() && empty.filter_file.is_none());
}

#[test]
fn selecting_an_entry() {
    let mut view = sample(date(2025, 6, 15));
    assert_eq!(view.confirm(), Some(("/j/a.org".to_string(), 2)));
    view.select_next();
    view.select_next();
    assert_eq!(view.selected_index, 1);
    assert_eq!(view.confirm(), Some(("/j/b.org".to_string(), 2)));
    view.select_previous();
    view.select_previous();
    assert_eq!(view.selected_index, 0);
    assert_eq!(AgendaView::new().confirm(), None);
    let mut first = item("/x.org", "x", date(2025, 1, 1), AgendaEntryType::Closed);
    first.line_number = 0;
    assert_eq!(open_agenda_item(&first), ("/x.org".to_string(), 0));
}

#[test]
fn times_to_remind() {
    let day = date(2025, 6, 15);
    assert!(is_reminder_time(day, 600, at(day, 23, 50)));
    assert!(!is_reminder_time(day, 600, at(day, 23, 49)));
    assert!(is_reminder_time(day, 86400, at(day, 0, 0)));
    assert!(!is_reminder_time(day, 86400, at(date(2025, 6, 14), 23, 59)));
    assert!(is_reminder_time(day, 2 * 86400, at(date(2025, 6, 14), 23, 59)));
    assert!(!is_reminder_time(day, u128::MAX, at(date(2025, 6, 16), 0, 0)));
    let last = Time { hour: 23, minute: 59, second: 59, nanosecond: 1 };
    assert!(!is_reminder_time(day, 600, DateTime { date: day, time: last }));
    assert_eq!(describe_urgency(0), "TODAY");
    assert_eq!(describe_urgency(1), "TOMORROW");
    assert_eq!(describe_urgency(5), "in 5 days");
}

#[test]
fn reminders_are_shown_once() {
    let today = date(2025, 6, 15);
    let mut due = item("/j/a.org", "Pay", date(2025, 6, 16), AgendaEntryType::Deadline);
    due.reminder_duration = Some(604800);
    let mut done = due.clone();
    done.todo_keyword = Some("DONE".to_string());
    done.line_number = 4;
    let mut closed = due.clone();
    closed.entry_type = AgendaEntryType::Closed;
    closed.line_number = 5;
    let mut view = AgendaView::new();
    let reminders = view.collect_agenda_items_at(vec![due, done, closed], at(today, 12, 0));
    assert_eq!(reminders.len(), 1);
    assert_eq!(reminders[0].task_name, "Pay");
    assert_eq!(reminders[0].deadline_date, "2025-06-16");
    assert_eq!(reminders[0].urgency, "TOMORROW");
    assert_eq!(reminders[0].line_number, 3);
    assert_eq!(view.shown_reminders, vec!["/j/a.org-3"]);
    assert_eq!(format_reminder_message(&reminders[0]), "⏰ Reminder TOMORROW: Pay (2025-06-16)");
    assert!(view.check_deadline_reminders_at(at(today, 13, 0)).is_empty());
    assert!(view.check_deadline_reminders().is_empty());
    let notification = notification_for(&reminders[0]);
    assert_eq!(notification.title, "Org-Mode Deadline Reminder");
    let (labels, buttons) = notification.render();
    let texts: Vec<&str> = labels.iter().map(|label| label.text.as_str()).collect();
    assert_eq!(
        texts,
        vec!["Org-Mode Deadline Reminder", "Pay", "Deadline TOMORROW: 2025-06-16"]
    );
    assert_eq!(buttons[0].0, "View Task");
    assert!(matches!(buttons[0].1, DeadlineNotificationEvent::Accepted));
    assert_eq!(buttons[1].0, "Dismiss");
    assert!(matches!(buttons[1].1, DeadlineNotificationEvent::Dismissed));
}

#[test]
fn rows_of_the_agenda() {
    let today = date(2025, 6, 15);
    let s = AgendaEntryType::Scheduled;
    let mut view = AgendaView::new();
    let mut first = item("/j/a.org", "one", today, s);
    first.todo_keyword = Some("WAITING".to_string());
    first.tags = vec!["t".to_string()];
    let all = vec![
        first,
        item("/j/a.org", "two", today, AgendaEntryType::Deadline),
        item("/j/b.org", "three", date(2025, 6, 16), s),
        item("/j/b.org", "four", date(2025, 6, 14), s),
        item("/j/b.org", "five", date(2025, 7, 1), s),
    ];
    view.collect_agenda_items_at(all, at(today, 8, 0));
    let rows = view.render_items(today);
    let dates: Vec<(String, Color)> = rows
        .iter()
        .filter_map(|row| match row {
            AgendaRow::Date(label) => Some((label.text.clone(), label.color)),
            _ => None,
        })
        .collect();
    assert_eq!(
        dates,
        vec![
            ("Yesterday".to_string(), Color::Error),
            ("Today".to_string(), Color::Accent),
            ("Tomorrow".to_string(), Color::Warning),
            ("Tuesday, July 01, 2025".to_string(), Color::Default),
        ]
    );
    assert_eq!(rows.len(), 9);
    match &rows[3] {
        AgendaRow::Item { selected, icon, keyword, headline, tags, file } => {
            assert!(!selected);
            assert_eq!((icon.text.as_str(), icon.color), ("◷", Color::Accent));
            let keyword = keyword.as_ref().unwrap();
            assert_eq!((keyword.text.as_str(), keyword.color), ("WAITING", Color::Muted));
            assert_eq!((headline.text.as_str(), headline.size), ("one", LabelSize::Small));
            assert_eq!(tags[0].text, ":t:");
            assert_eq!(file.text, "a");
        }
        _ => panic!("an entry was expected"),
    }
    match &rows[1] {
        AgendaRow::Item { selected, .. } => assert!(*selected),
        _ => panic!("an entry was expected"),
    }
    let empty = AgendaView::new().render_items(today);
    assert!(matches!(&empty[0], AgendaRow::Empty(label)
        if label.text == "No scheduled or deadline tasks found" && label.color == Color::Muted));
    for (keyword, color) in [
        ("TODO", Color::Warning),
        ("STARTED", Color::Warning),
        ("DONE", Color::Success),
        ("DEFERRED", Color::Muted),
        ("CANCELED", Color::Error),
        ("LATER", Color::Default),
    ] {
        assert_eq!(color_of_keyword(keyword), color);
    }
}

#[test]
fn header_of_the_agenda() {
    let mut view = sample(date(2025, 6, 15));
    view.filter_tags = vec!["x".to_string()];
    view.filter_file = Some("a".to_string());
    view.show_done = true;
    view.days_range = 14;
    let texts: Vec<String> = view.render_header().into_iter().map(|label| label.text).collect();
    assert_eq!(
        texts,
        vec!["Agenda", "Range: All", "• Showing Done", "• Tag: x", "• File: a", "2 items"]
    );
    let (header, rows) = AgendaView::new().render();
    assert_eq!(header[1].text, "Range: Month");
    assert_eq!(header[2].text, "• Hiding Done");
    assert_eq!(rows.len(), 1);
}

#[test]
fn picking_filters() {
    let mut view = sample(date(2025, 6, 15));
    let mut tags: AgendaTagPickerDelegate = view.pick_tag_filter();
    assert_eq!(tags.tags, vec!["All (clear filter)", "x", "y", "z"]);
    assert_eq!(tags.placeholder_text(), "Select tag to filter by...");
    let found = vec![StringMatch { candidate_id: 2, string: "y".to_string(), positions: vec![0] }];
    tags.update_matches("y", found);
    tags.confirm(&mut view);
    assert_eq!(view.filter_tags, vec!["y"]);
    tags.confirm(&mut view);
    assert!(view.filter_tags.is_empty());
    tags.confirm(&mut view);
    tags.update_matches("", vec![]);
    tags.selection.set_selected_index(0);
    tags.confirm(&mut view);
    assert!(view.filter_tags.is_empty());
    let mut files: AgendaFilePickerDelegate = view.pick_file_filter();
    files.selection.set_selected_index(2);
    files.confirm(&mut view);
    assert_eq!(view.filter_file.as_deref(), Some("b"));
    files.update_matches("nothing", vec![]);
    files.confirm(&mut view);
    assert_eq!(view.filter_file.as_deref(), Some("b"));
    files.update_matches("", vec![]);
    files.confirm(&mut view);
    assert_eq!(view.filter_file, None);
    let mut ranges: AgendaDateRangePickerDelegate = view.pick_date_range();
    assert_eq!(ranges.selection.match_count(), 9);
    ranges.selection.set_selected_index(4);
    ranges.confirm(&mut view);
    assert_eq!(view.days_range, 14);
    ranges.update_matches("", vec![]);
    assert_eq!(ranges.selection.selected_index(), 4);
}

#[test]
fn opening_the_agenda() {
    let (view, reminders) = open_agenda(items("* A\nSCHEDULED: <2025-01-01 Wed>\n"));
    assert_eq!(view.all_items.len(), 1);
    assert!(reminders.is_empty());
    let mut view = AgendaView::new();
    assert!(view.collect_agenda_items(vec![]).is_empty());
    view.apply_filters();
    assert!(view.items.is_empty());
}

#[test]
fn entries_of_several_files() {
    let files = vec![
        ("/j/a.org".to_string(), "* A\n  SCHEDULED: <2025-01-02 Thu>\n".to_string()),
        ("/j/b.org".to_string(), "nothing".to_string()),
        ("/j/c.org".to_string(), "* C\nDEADLINE: <2025-01-01 Wed ++1w>\n".to_string()),
    ];
    let found = scan_org_files(&files);
    assert_eq!(headlines(&found), vec!["A", "C"]);
    assert_eq!(found[0].date, date(2025, 1, 2));
    assert_eq!((found[1].file_path.as_str(), found[1].line_number), ("/j/c.org", 1));
}

#[test]
fn refreshing_changes_nothing_more() {
    let today = date(2025, 6, 15);
    let mut view = sample(today);
    view.apply_filters_on(today);
    let once: Vec<String> = view.items.iter().map(|item| item.headline.clone()).collect();
    view.apply_filters_on(today);
    assert_eq!(headlines(&view.items), once);
}
