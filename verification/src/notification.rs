//! What is shown to remind of a task.
use crate::agenda_view::Reminder;
use crate::label::{shown, Color, Label, LabelSize, Shown};
use vstd::prelude::*;
use vstd::string::*;

verus! {

/// What a user makes of a notification.
#[derive(Clone, Copy, Debug, PartialEq, Eq, Structural)]
pub enum DeadlineNotificationEvent {
    Accepted,
    Dismissed,
}

/// A notification of a task that is due.
#[derive(Debug)]
pub struct DeadlineNotification {
    pub title: String,
    pub task_name: String,
    pub deadline_date: String,
    pub urgency: String,
    pub file_path: String,
    pub line_number: u32,
}

impl DeadlineNotification {
    /// A notification of a task.
    pub fn new(
        task_name: &str,
        deadline_date: &str,
        urgency: &str,
        file_path: &str,
        line_number: u32,
    ) -> (r: DeadlineNotification)
        ensures
            r.title@ == "Org-Mode Deadline Reminder"@,
            r.task_name@ == task_name@,
            r.deadline_date@ == deadline_date@,
            r.urgency@ == urgency@,
            r.file_path@ == file_path@,
            r.line_number == line_number,
    {
        DeadlineNotification {
            title: "Org-Mode Deadline Reminder".to_owned(),
            task_name: task_name.to_owned(),
            deadline_date: deadline_date.to_owned(),
            urgency: urgency.to_owned(),
            file_path: file_path.to_owned(),
            line_number,
        }
    }

    /// The lines of the notification: its title, its task, and when that is due.
    pub open spec fn lines(self) -> Seq<Shown> {
        seq![
            (self.title@, LabelSize::Large, Color::Default),
            (self.task_name@, LabelSize::Default, Color::Default),
            (
                "Deadline "@ + self.urgency@ + ": "@ + self.deadline_date@,
                LabelSize::Small,
                Color::Muted,
            ),
        ]
    }

    /// The lines of the notification, and the words on its two buttons with what they mean.
    pub fn render(&self) -> (r: (Vec<Label>, Vec<(String, DeadlineNotificationEvent)>))
        ensures
            shown(r.0@) == self.lines(),
            r.1@.len() == 2,
            r.1@[0].0@ == "View Task"@ && r.1@[0].1 == DeadlineNotificationEvent::Accepted,
            r.1@[1].0@ == "Dismiss"@ && r.1@[1].1 == DeadlineNotificationEvent::Dismissed,
    {
        let mut due = "Deadline ".to_owned();
        due.append(self.urgency.as_str());
        due.append(": ");
        due.append(self.deadline_date.as_str());
        let lines = vec![
            Label::new(self.title.as_str(), LabelSize::Large, Color::Default),
            Label::new(self.task_name.as_str(), LabelSize::Default, Color::Default),
            Label::new(due.as_str(), LabelSize::Small, Color::Muted),
        ];
        assert(shown(lines@) == self.lines());
        let buttons = vec![
            ("View Task".to_owned(), DeadlineNotificationEvent::Accepted),
            ("Dismiss".to_owned(), DeadlineNotificationEvent::Dismissed),
        ];
        (lines, buttons)
    }
}

/// The notification for a reminder.
pub fn notification_for(reminder: &Reminder) -> (r: DeadlineNotification)
    ensures
        r.title@ == "Org-Mode Deadline Reminder"@,
        r.task_name@ == reminder@.task_name,
        r.deadline_date@ == reminder@.deadline_date,
        r.urgency@ == reminder@.urgency,
        r.file_path@ == reminder@.file_path,
        r.line_number == reminder@.line_number,
{
    DeadlineNotification::new(
        reminder.task_name.as_str(),
        reminder.deadline_date.as_str(),
        reminder.urgency.as_str(),
        reminder.file_path.as_str(),
        reminder.line_number,
    )
}

} // verus!
