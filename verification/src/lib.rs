//! The rules of an org-mode journal.
#![allow(unused_imports)]

pub mod agenda;
pub mod agenda_rows;
pub mod agenda_shown;
pub mod agenda_text;
pub mod agenda_view;
pub mod buffer;
pub mod calendar;
pub mod capture;
pub mod choices;
pub mod date_picker;
pub mod entry;
pub mod follow_up;
pub mod headlines;
pub mod journal_text;
pub mod kept_lines;
pub mod label;
pub mod notes;
pub mod notification;
pub mod number;
pub mod order;
pub mod outline;
pub mod paths;
pub mod patterns;
pub mod picker;
pub mod places;
pub mod planning;
pub mod recurrence;
pub mod recurring;
pub mod reminders;
pub mod repeater;
pub mod scheduling;
pub mod sections;
pub mod settings;
pub mod syntax;
pub mod tagging;
pub mod tags;
pub mod task_text;
pub mod templates;
pub mod text;
pub mod todo;
pub mod written;
pub mod zen;
