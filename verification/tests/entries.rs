use journal::calendar::{Date, DateTime, Time};
use journal::entry::{
    can_expand, entry_insertions, heading_entry, journal_dir, journal_dir_from, needs_date_heading,
    new_journal_entry, new_journal_entry_at, opens_new_workspace, time_heading, try_journal_dir,
    try_new_journal_entry, Worktree,
};
use journal::paths::{join_inside, path_is_rooted, PathStyle};
use journal::settings::{HourFormat, JournalSettings, JournalSettingsContent};
use std::path::{Path, PathBuf};

fn at(hour: u32, minute: u32) -> Time {
    Time { hour, minute, second: 0, nanosecond: 0 }
}

fn home() -> String {
    shellexpand::tilde("~").into_owned()
}

#[test]
fn test_heading_entry_defaults_to_hour_12() {
    let actual_heading_entry = heading_entry(at(15, 0), &HourFormat::default());
    let expected_heading_entry = "# 3:00 PM";
    assert_eq!(actual_heading_entry, expected_heading_entry);
}

#[test]
fn test_heading_entry_is_hour_12() {
    let actual_heading_entry = heading_entry(at(15, 0), &HourFormat::Hour12);
    let expected_heading_entry = "# 3:00 PM";
    assert_eq!(actual_heading_entry, expected_heading_entry);
}

#[test]
fn test_heading_entry_is_hour_24() {
    let actual_heading_entry = heading_entry(at(15, 0), &HourFormat::Hour24);
    let expected_heading_entry = "# 15:00";
    assert_eq!(actual_heading_entry, expected_heading_entry);
}

#[test]
fn test_absolute_unix_path() {
    let result = journal_dir("/home/user", Some(home().as_str()), PathStyle::Posix);
    assert!(result.is_some());
    let path = result.unwrap();
    assert!(Path::new(&path).is_absolute());
    assert_eq!(PathBuf::from(path), PathBuf::from("/home/user/journal"));
}

#[test]
fn test_tilde_expansion() {
    let home = home();
    let result = journal_dir("~/documents", Some(home.as_str()), PathStyle::Posix);
    assert!(result.is_some());
    let path = result.unwrap();
    assert!(Path::new(&path).is_absolute(), "Tilde should expand to absolute path");
    assert_eq!(PathBuf::from(path), PathBuf::from(home).join("documents").join("journal"));
}

#[test]
fn test_relative_path_falls_back_to_home() {
    let home = home();
    for relative_path in ["relative/path", "NONEXT/some/path", "../some/path"] {
        let result = journal_dir(relative_path, Some(home.as_str()), PathStyle::Posix);
        assert!(result.is_some(), "Failed for path: {}", relative_path);
        let path = result.unwrap();
        assert!(
            Path::new(&path).is_absolute(),
            "Path should be absolute for input '{}', got: {:?}",
            relative_path,
            path
        );
        assert_eq!(
            PathBuf::from(path),
            PathBuf::from(&home).join("journal"),
            "Should fall back to home directory for input '{}'",
            relative_path
        );
    }
}

#[test]
fn unset_variables_give_no_directory() {
    let dir = |path| journal_dir(path, Some("/home/me"), PathStyle::Posix);
    assert_eq!(dir("/data/$A_VARIABLE_THAT_IS_NOT_SET"), None);
    assert_eq!(
        dir("/data/${A_VARIABLE_THAT_IS_NOT_SET:-x}"),
        Some("/data/x/journal".to_string())
    );
    let home = home();
    assert_eq!(
        dir("~/a/${A_VARIABLE_THAT_IS_NOT_SET:-b}/c"),
        Some(format!("{home}/a/b/c/journal"))
    );
    assert_eq!(
        dir("a/${A_VARIABLE_THAT_IS_NOT_SET:-/b}"),
        Some("/home/me/journal".to_string())
    );
}

#[test]
fn test_absolute_path_windows_style() {
    let result = journal_dir("C:\\Users\\user\\Documents", Some("C:\\h"), PathStyle::Windows);
    assert!(result.is_some());
    let path = result.unwrap();
    assert_eq!(path, "C:\\Users\\user\\Documents\\journal");
    assert!(path_is_rooted(&path, PathStyle::Windows));
}

#[test]
fn directory_from_expanded_path() {
    let dir = |path, home| journal_dir_from(path, home, PathStyle::Posix);
    assert_eq!(dir(None, Some("/h")), None);
    assert_eq!(dir(Some("rel"), None), None);
    assert_eq!(dir(Some("rel"), Some("/h")), Some("/h/journal".to_string()));
    assert_eq!(dir(Some("/abs/"), None), Some("/abs/journal".to_string()));
    assert_eq!(dir(Some("C:\\x"), Some("/h")), Some("/h/journal".to_string()));
    let dir = |path, home| journal_dir_from(Some(path), Some(home), PathStyle::Windows);
    assert_eq!(dir("D:/notes/", "C:\\h"), Some("D:/notes/journal".to_string()));
    assert_eq!(dir("rel", "C:\\h"), Some("C:\\h\\journal".to_string()));
    assert_eq!(dir("/abs", "C:\\h"), Some("C:\\h\\journal".to_string()));
    assert_eq!(dir("D:notes", "C:\\h"), Some("C:\\h\\journal".to_string()));
    assert_eq!(
        dir("\\\\server\\share", "C:\\h"),
        Some("\\\\server\\share\\journal".to_string())
    );
}

#[test]
fn roots_of_windows_paths() {
    for path in ["C:\\", "z:/x", "\\\\server\\share", "//server/share/x"] {
        assert!(path_is_rooted(path, PathStyle::Windows), "{path}");
    }
    for path in ["", "C:", "C:x", "\\x", "\\\\", "\\\\server", "\\\\server\\", "//server//x", "1:\\"] {
        assert!(!path_is_rooted(path, PathStyle::Windows), "{path}");
    }
    assert_eq!(join_inside("C:", "x", PathStyle::Windows), "C:x");
    assert_eq!(join_inside("", "x", PathStyle::Windows), "x");
    assert_eq!(join_inside("a", "x", PathStyle::Windows), "a\\x");
    assert_eq!(join_inside("a", "x", PathStyle::Posix), "a/x");
}

#[test]
fn variables_that_cannot_be_told_apart() {
    assert!(can_expand("/plain"));
    assert!(can_expand("$HOME/x"));
    assert!(can_expand("/price/$"));
    assert!(can_expand("/a/$$é"));
    assert!(can_expand("/a/${é}"));
    assert!(!can_expand("/a/$é"));
    assert_eq!(try_journal_dir("/a/$é", Some("/h"), PathStyle::Posix), None);
    let dir = try_journal_dir("/a", Some("/h"), PathStyle::Posix);
    assert_eq!(dir, Some(Some("/a/journal".to_string())));
    let entry =
        |path| try_new_journal_entry(path, None, PathStyle::Posix, &HourFormat::Hour12);
    assert!(entry("/a/$é").is_none());
    assert!(entry("rel").unwrap().is_none());
    assert!(entry("/a").unwrap().is_some());
}

#[test]
fn hours_of_the_day() {
    assert_eq!(time_heading(at(0, 5), &HourFormat::Hour12), "** 12:05 AM");
    assert_eq!(time_heading(at(12, 0), &HourFormat::Hour12), "** 12:00 PM");
    assert_eq!(time_heading(at(11, 59), &HourFormat::Hour12), "** 11:59 AM");
    assert_eq!(time_heading(at(9, 7), &HourFormat::Hour24), "** 9:07");
    assert_eq!(time_heading(at(0, 0), &HourFormat::Hour24), "** 0:00");
}

#[test]
fn entry_at_a_time() {
    let now = DateTime { date: Date { year: 2025, month: 1, day: 15 }, time: at(15, 4) };
    let entry = new_journal_entry_at("/home/me/journal", PathStyle::Posix, &HourFormat::Hour12, now);
    assert_eq!(entry.journal_dir, "/home/me/journal");
    assert_eq!(entry.entry_path, "/home/me/journal/journal.org");
    assert_eq!(entry.date_heading, "* 2025-01-15 Wednesday");
    assert_eq!(entry.time_heading, "** 3:04 PM");
    let entry = new_journal_entry_at("D:\\j", PathStyle::Windows, &HourFormat::Hour24, now);
    assert_eq!(entry.entry_path, "D:\\j\\journal.org");
}

#[test]
fn entry_now() {
    let entry = new_journal_entry("/home/me", None, PathStyle::Posix, &HourFormat::Hour24).unwrap();
    assert_eq!(entry.entry_path, "/home/me/journal/journal.org");
    assert!(entry.date_heading.starts_with("* "));
    assert!(entry.time_heading.starts_with("** "));
    let none = new_journal_entry("elsewhere", None, PathStyle::Posix, &HourFormat::Hour24);
    assert!(none.is_none());
}

#[test]
fn day_heading_is_written_once() {
    let heading = "* 2025-01-15 Wednesday";
    assert!(needs_date_heading("", heading));
    let pieces = entry_insertions(true, true, heading, "** 9:00");
    assert_eq!(pieces, vec![heading, "\n\n", "** 9:00", "\n\n"]);
    let content = pieces.concat();
    assert!(!needs_date_heading(&content, heading));
    let pieces = entry_insertions(false, false, heading, "** 9:30");
    assert_eq!(pieces, vec!["\n\n", "** 9:30", "\n\n"]);
}

#[test]
fn journal_in_open_directories() {
    let worktrees = vec![Worktree {
        root: "/home/me".to_string(),
        directories: vec!["code".to_string(), "journal".to_string()],
    }];
    assert!(!opens_new_workspace(&worktrees, "/home/me/journal"));
    assert!(!opens_new_workspace(&worktrees, "/home/me/"));
    assert!(opens_new_workspace(&worktrees, "/home/me/notes"));
    assert!(opens_new_workspace(&vec![], "/home/me/journal"));
}

#[test]
fn usual_settings() {
    let settings = JournalSettings::from_settings(JournalSettingsContent {
        path: None,
        hour_format: None,
        capture_templates: None,
        todo_keywords: None,
        done_keywords: None,
        timestamp_on_done: None,
    });
    assert_eq!(settings.path, "~");
    assert_eq!(settings.hour_format, HourFormat::Hour12);
    assert_eq!(settings.todo_keywords, vec!["TODO", "DOING", "WAITING"]);
    assert_eq!(settings.done_keywords, vec!["DONE", "CANCELLED"]);
    assert!(settings.timestamp_on_done);
    assert!(settings.capture_templates.is_empty());
    let settings = JournalSettings::from_settings(JournalSettingsContent {
        path: Some("/j".to_string()),
        hour_format: Some(HourFormat::Hour24),
        capture_templates: Some(vec![]),
        todo_keywords: Some(vec!["A".to_string()]),
        done_keywords: Some(vec![]),
        timestamp_on_done: Some(false),
    });
    assert_eq!(settings.hour_format, HourFormat::Hour24);
    assert_eq!(settings.todo_keywords, vec!["A"]);
    assert!(settings.done_keywords.is_empty());
    assert!(!settings.timestamp_on_done);
}
