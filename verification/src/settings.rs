//! What a journal can be told to do otherwise.
use crate::text::texts;
use vstd::prelude::*;
use vstd::string::*;

verus! {

/// How the hours of a time are shown.
#[derive(Clone, Copy, Debug, PartialEq, Eq, Structural)]
pub enum HourFormat {
    Hour12,
    Hour24,
}

impl Default for HourFormat {
    fn default() -> (r: HourFormat)
        ensures
            r == HourFormat::Hour12,
    {
        HourFormat::Hour12
    }
}

/// A template for taking a note.
#[derive(Debug)]
pub struct CaptureTemplateConfig {
    pub name: String,
    pub description: Option<String>,
    pub template: String,
    /// The file that the note goes to, inside the journal's directory.
    pub target: Option<String>,
    pub prompt_for_input: Option<bool>,
    pub input_prompt: Option<String>,
    pub prompt_for_tags: Option<bool>,
}

/// The settings as a user gives them.
#[derive(Debug)]
pub struct JournalSettingsContent {
    pub path: Option<String>,
    pub hour_format: Option<HourFormat>,
    pub capture_templates: Option<Vec<CaptureTemplateConfig>>,
    pub todo_keywords: Option<Vec<String>>,
    pub done_keywords: Option<Vec<String>>,
    pub timestamp_on_done: Option<bool>,
}

/// The settings of a journal.
#[derive(Debug)]
pub struct JournalSettings {
    /// The directory in which the journal's own directory lies.
    pub path: String,
    pub hour_format: HourFormat,
    pub capture_templates: Vec<CaptureTemplateConfig>,
    /// The keywords of tasks to do.
    pub todo_keywords: Vec<String>,
    /// The keywords of tasks that are done.
    pub done_keywords: Vec<String>,
    /// Whether a task that is done gets the time at which it was closed.
    pub timestamp_on_done: bool,
}

impl JournalSettings {
    /// The settings of a journal: what the user gave, and the usual for the rest.
    pub fn from_settings(journal: JournalSettingsContent) -> (r: JournalSettings)
        ensures
            match journal.path {
                Some(path) => r.path == path,
                None => r.path@ == "~"@,
            },
            r.hour_format == match journal.hour_format {
                Some(hour_format) => hour_format,
                None => HourFormat::Hour12,
            },
            match journal.capture_templates {
                Some(templates) => r.capture_templates == templates,
                None => r.capture_templates@ == Seq::<CaptureTemplateConfig>::empty(),
            },
            match journal.todo_keywords {
                Some(keywords) => r.todo_keywords == keywords,
                None => texts(r.todo_keywords@) == seq!["TODO"@, "DOING"@, "WAITING"@],
            },
            match journal.done_keywords {
                Some(keywords) => r.done_keywords == keywords,
                None => texts(r.done_keywords@) == seq!["DONE"@, "CANCELLED"@],
            },
            r.timestamp_on_done == match journal.timestamp_on_done {
                Some(on) => on,
                None => true,
            },
    {
        let todo_keywords = match journal.todo_keywords {
            Some(keywords) => keywords,
            None => {
                let keywords = vec!["TODO".to_owned(), "DOING".to_owned(), "WAITING".to_owned()];
                assert(texts(keywords@) == seq!["TODO"@, "DOING"@, "WAITING"@]);
                keywords
            },
        };
        let done_keywords = match journal.done_keywords {
            Some(keywords) => keywords,
            None => {
                let keywords = vec!["DONE".to_owned(), "CANCELLED".to_owned()];
                assert(texts(keywords@) == seq!["DONE"@, "CANCELLED"@]);
                keywords
            },
        };
        JournalSettings {
            path: match journal.path {
                Some(path) => path,
                None => "~".to_owned(),
            },
            hour_format: match journal.hour_format {
                Some(hour_format) => hour_format,
                None => HourFormat::Hour12,
            },
            capture_templates: match journal.capture_templates {
                Some(templates) => templates,
                None => Vec::new(),
            },
            todo_keywords,
            done_keywords,
            timestamp_on_done: match journal.timestamp_on_done {
                Some(on) => on,
                None => true,
            },
        }
    }
}

} // verus!
