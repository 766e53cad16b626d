use journal::calendar::{Date, DateTime, Time};
use journal::capture::{
    capture_context, capture_template, collect_journal_entries, destination, expand_template,
    expand_template_at, find_entry_path, format_entry_name, open_journal_entry,
    process_template_with_input, step_after_input, step_for, CaptureContext, CaptureStep,
    CaptureTemplatePickerDelegate, Destination, EntryStep, JournalEntryPickerDelegate,
    PendingCapture,
};
use journal::picker::{
    format_tags, toggle_text, StringMatch, TagPick, TagPickerDelegate, TagPickerModal,
    TextInputModal,
};
use journal::settings::{CaptureTemplateConfig, HourFormat};

fn strings(words: &[&str]) -> Vec<String> {
    words.iter().map(|word| word.to_string()).collect()
}

fn now() -> DateTime {
    DateTime {
        date: Date { year: 2025, month: 1, day: 20 },
        time: Time { hour: 21, minute: 5, second: 0, nanosecond: 0 },
    }
}

fn template(target: Option<&str>) -> CaptureTemplateConfig {
    CaptureTemplateConfig {
        name: "note".to_string(),
        description: Some("A note".to_string()),
        template: "{input} {tags}".to_string(),
        target: target.map(|target| target.to_string()),
        prompt_for_input: None,
        input_prompt: None,
        prompt_for_tags: None,
    }
}

fn pending() -> PendingCapture {
    PendingCapture {
        template: template(None),
        context: None,
        input_text: None,
        tags: None,
        journal_dir: Some("/j".to_string()),
        entry_picked: false,
    }
}

#[test]
fn placeholders_are_filled() {
    let context = Some(capture_context(Some("sel"), Some("src/a b.rs"), 9));
    let text = expand_template_at(
        "{date} {time}{cursor} {input} {tags} {selection} {file} {link} {other}",
        &HourFormat::Hour12,
        &context,
        Some("typed {tags}"),
        Some("#x"),
        now(),
    );
    assert_eq!(
        text,
        "2025-01-20 9:05 PM typed #x #x sel a b.rs [src/a b.rs:10](src/a b.rs:10) {other}"
    );
    let plain = expand_template_at("{time} {input}{link}", &HourFormat::Hour24, &None, None, None, now());
    assert_eq!(plain, "21:05 {input}{link}");
    let untouched = expand_template_at(
        "no {place} {} holders",
        &HourFormat::Hour24,
        &context,
        Some("a"),
        Some("b"),
        now(),
    );
    assert_eq!(untouched, "no {place} {} holders");
    let no_line = Some(CaptureContext {
        selection: None,
        file_path: Some("a.rs".to_string()),
        line_number: None,
    });
    assert_eq!(
        expand_template("{selection}{file}{link}", &HourFormat::Hour24, &no_line, None, None),
        "{selection}a.rs{link}"
    );
}

#[test]
fn where_notes_go() {
    let to = |target, dir, editor| destination(target, dir, editor, "t");
    assert!(matches!(to(Some("in.org"), Some("/j"), None),
        Destination::Append { path, content } if path == "/j/in.org" && content == "t\n"));
    assert!(matches!(to(Some("in.org"), None, Some(Some("journal.org"))), Destination::Nowhere));
    assert!(matches!(to(None, Some("/j"), Some(Some("my-journal/x"))),
        Destination::Insert(pieces) if pieces == vec!["t", "\n\n"]));
    assert!(matches!(to(None, Some("/j"), Some(Some("src/a.rs"))),
        Destination::Append { path, content } if path == "/j/journal.org" && content == "t\n\n"));
    assert!(matches!(to(None, Some("/j"), Some(None)), Destination::Append { .. }));
    assert!(matches!(to(None, None, None), Destination::Nowhere));
    let note = process_template_with_input(
        &template(Some("/abs.org")),
        &HourFormat::Hour24,
        &None,
        Some("a"),
        Some("#b"),
        Some("/j"),
        None,
    );
    assert!(matches!(note,
        Destination::Append { path, content } if path == "/abs.org" && content == "a #b\n"));
}

#[test]
fn steps_of_a_capture() {
    let none = template(None);
    assert!(matches!(step_for(&none, true, true), CaptureStep::PickEntry));
    assert!(matches!(step_for(&none, false, true), CaptureStep::Nothing));
    assert!(matches!(step_for(&none, true, false), CaptureStep::Nothing));
    let mut asks = template(Some("x.org"));
    assert!(matches!(step_for(&asks, false, false), CaptureStep::Process));
    let mut note = pending();
    assert!(matches!(step_after_input(&note), CaptureStep::Process));
    note.template.prompt_for_tags = Some(true);
    assert!(matches!(step_after_input(&note), CaptureStep::AskTags));
    note.entry_picked = true;
    assert!(matches!(step_after_input(&note), CaptureStep::Process));
    asks.prompt_for_tags = Some(true);
    assert!(matches!(step_for(&asks, true, true), CaptureStep::AskTags));
    assert!(matches!(step_for(&asks, true, false), CaptureStep::Nothing));
    asks.prompt_for_input = Some(true);
    assert!(matches!(step_for(&asks, true, true),
        CaptureStep::AskInput(prompt) if prompt == "Enter text:"));
    asks.input_prompt = Some("What?".to_string());
    assert!(matches!(step_for(&asks, true, true),
        CaptureStep::AskInput(prompt) if prompt == "What?"));
    assert!(matches!(step_for(&asks, true, false), CaptureStep::Nothing));
}

#[test]
fn picking_a_template() {
    assert!(capture_template(vec![], None).is_none());
    let picker = capture_template(vec![template(Some("a.org")), template(None)], Some("/j".to_string()));
    let mut list: CaptureTemplatePickerDelegate = picker.unwrap().picker;
    assert_eq!(list.placeholder_text(), "Select a capture template…");
    assert!(matches!(list.confirm(true), (None, CaptureStep::Dismiss)));
    list.update_matches("", vec![]);
    assert_eq!(list.selection.match_count(), 2);
    assert!(matches!(list.confirm(true), (Some(0), CaptureStep::Process)));
    list.selection.set_selected_index(1);
    assert!(matches!(list.confirm(true), (Some(1), CaptureStep::PickEntry)));
    assert_eq!(list.description(1).as_deref(), Some("A note"));
    assert_eq!(list.description(2), None);
    let found = vec![StringMatch { candidate_id: 1, string: "note".to_string(), positions: vec![] }];
    list.update_matches("n", found);
    assert_eq!(list.selection.selected_index(), 0);
    assert!(matches!(list.confirm(false), (Some(1), CaptureStep::Nothing)));
}

#[test]
fn names_of_entries() {
    assert_eq!(format_entry_name("/j/2025/01/20.org").as_deref(), Some("2025/01/20"));
    assert_eq!(format_entry_name("/j/2025/01/20.org.org").as_deref(), Some("2025/01/20"));
    assert_eq!(format_entry_name("a/b.org"), None);
    assert_eq!(find_entry_path("/j", "2025/01/20").as_deref(), Some("/j/2025/01/20.org"));
    assert_eq!(find_entry_path("/j", "2025/01"), None);
    let path = find_entry_path("/j", "2025/01/20").unwrap();
    assert_eq!(format_entry_name(&path).as_deref(), Some("2025/01/20"));
    let paths = strings(&["/j/2024/12/31.org", "/j/2025/01/20.org", "/j/2025/01/x.md", "/j/2025/01/03.org"]);
    assert_eq!(collect_journal_entries(&paths), vec!["2025/01/20", "2025/01/03", "2024/12/31"]);
}

#[test]
fn picking_an_entry() {
    let paths = strings(&["/j/2025/01/20.org", "/j/2025/01/21.org"]);
    assert!(open_journal_entry(None, &paths).is_none());
    let mut list = open_journal_entry(Some("/j"), &paths).unwrap().picker;
    assert_eq!(list.placeholder_text(), "Select a journal entry…");
    assert!(matches!(list.confirm(true), EntryStep::Dismiss));
    list.update_matches("", vec![]);
    assert!(matches!(list.confirm(true), EntryStep::Open(path) if path == "/j/2025/01/21.org"));
    let odd = StringMatch { candidate_id: 0, string: "odd".to_string(), positions: vec![] };
    assert_eq!(list.get_entry_path(&odd), None);
    list.update_matches("odd", vec![odd]);
    assert!(matches!(list.confirm(true), EntryStep::Dismiss));
}

#[test]
fn a_note_goes_to_an_entry_once() {
    let paths = strings(&["/j/2025/01/20.org"]);
    let mut list = JournalEntryPickerDelegate::new_for_capture("/j", pending(), &paths);
    list.update_matches("", vec![]);
    match list.confirm(true) {
        EntryStep::Process(note) => {
            assert_eq!(note.template.target.as_deref(), Some("2025/01/20.org"));
            assert_eq!(note.template.name, "note");
        }
        _ => panic!("the note was expected"),
    }
    assert!(matches!(list.confirm(true), EntryStep::Dismiss));
    let mut asking = pending();
    asking.template.prompt_for_input = Some(true);
    let mut list = JournalEntryPickerDelegate::new_for_capture("/j", asking, &paths);
    list.update_matches("", vec![]);
    assert!(matches!(list.confirm(true),
        EntryStep::AskInput(note, prompt)
            if prompt == "Enter text:" && note.template.target.as_deref() == Some("2025/01/20.org")));
    let mut asking = pending();
    asking.template.prompt_for_input = Some(true);
    let mut list = JournalEntryPickerDelegate::new_for_capture("/j", asking, &paths);
    list.update_matches("", vec![]);
    assert!(matches!(list.confirm(false), EntryStep::Process(_)));
}

#[test]
fn asking_for_a_text() {
    let mut modal = TextInputModal::new("What?");
    assert_eq!(modal.prompt, "What?");
    assert_eq!(modal.placeholder, "Enter text...");
    assert_eq!(modal.confirm("typed").as_deref(), Some("typed"));
    assert_eq!(modal.confirm("again"), None);
}

#[test]
fn picking_tags() {
    assert_eq!(format_tags(&strings(&["a", "#b", ""])), "#a #b #");
    assert_eq!(format_tags(&vec![]), "");
    let mut list: TagPickerDelegate = TagPickerModal::new(strings(&["a", "b"])).picker;
    assert_eq!(list.placeholder_text(), "Search tags...");
    assert!(matches!(list.confirm(false), TagPick::Open));
    assert_eq!(list.selected_tags, vec!["a"]);
    assert_eq!(list.render_match(0), Some((true, "#a".to_string())));
    assert_eq!(list.render_match(1), Some((false, "#b".to_string())));
    assert_eq!(list.render_match(2), None);
    list.selection.set_selected_index(1);
    list.confirm(false);
    list.update_matches("", vec![]);
    assert_eq!(list.selection.selected_index(), 0);
    list.update_matches("nothing", vec![]);
    assert!(matches!(list.confirm(false), TagPick::Finished(tags) if tags == "#a #b"));
    assert!(matches!(list.confirm(true), TagPick::Open));
    let mut none = TagPickerDelegate::new(vec![]);
    assert!(matches!(none.confirm(false), TagPick::Open));
    assert!(matches!(none.confirm(true), TagPick::Finished(tags) if tags.is_empty()));
}

#[test]
fn toggling_twice() {
    let mut tags = strings(&["a", "b"]);
    toggle_text(&mut tags, "c");
    toggle_text(&mut tags, "c");
    assert_eq!(tags, vec!["a", "b"]);
    toggle_text(&mut tags, "a");
    toggle_text(&mut tags, "a");
    assert_eq!(tags, vec!["b", "a"]);
}
