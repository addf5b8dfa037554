//! The tasks that the window starts: what they report, and what is shown then.

use crate::app::{AppStatus, ApplyReport};
use crate::install::display_path;
use crate::labels::{applied_message, applied_text, restored_message, restored_text};
use crate::restore::RestoreReport;
use vstd::prelude::*;

verus! {

/// How a message is meant.
#[derive(Debug, Clone, Copy, PartialEq, Eq, Structural)]
pub enum MessageKind {
    Info,
    Success,
    Error,
}

/// What has come from the task that runs.
#[derive(Debug)]
pub enum TaskEvent {
    /// Nothing yet.
    Pending,
    /// The task ended without a result.
    Lost,
    Status(Result<AppStatus, String>),
    Apply(Result<ApplyReport, String>),
    /// What the restore gave, and the state of the install behind it.
    Restore { restored: Result<RestoreReport, String>, status: Option<AppStatus> },
}

/// What is done with the task.
#[derive(Debug, Clone, Copy, PartialEq, Eq, Structural)]
pub enum TaskAction {
    /// It is asked again later.
    Wait,
    /// It has ended.
    End,
    /// It has ended, and the state of the install is read again.
    ReadStatus,
}

/// What the window shows of its tasks.
#[derive(Debug)]
pub struct TaskPanel {
    pub game_dir_input: String,
    pub status: Option<AppStatus>,
    pub message: String,
    pub message_kind: MessageKind,
    pub busy_label: Option<&'static str>,
}

/// The text and the kind of what is said about an event.
pub open spec fn message_of(e: TaskEvent) -> (Seq<char>, MessageKind) {
    match e {
        TaskEvent::Pending => (Seq::empty(), MessageKind::Info),
        TaskEvent::Lost => ("Background task failed unexpectedly."@, MessageKind::Error),
        TaskEvent::Status(Ok(_)) => ("Install detected."@, MessageKind::Success),
        TaskEvent::Apply(Ok(report)) => (
            applied_text(
                report.changed_files as nat,
                report.touched_paths@.len(),
                report.backup_path@,
            ),
            MessageKind::Success,
        ),
        TaskEvent::Restore { restored: Ok(report), .. } => (
            restored_text(report.restored_files as nat, report.backup_removed),
            MessageKind::Success,
        ),
        TaskEvent::Status(Err(error)) => (error@, MessageKind::Error),
        TaskEvent::Apply(Err(error)) => (error@, MessageKind::Error),
        TaskEvent::Restore { restored: Err(error), .. } => (error@, MessageKind::Error),
    }
}

/// The state of the install that is known after an event.
pub open spec fn status_after(before: Option<AppStatus>, e: TaskEvent) -> Option<AppStatus> {
    match e {
        TaskEvent::Status(Ok(status)) => Some(status),
        TaskEvent::Restore { status, .. } => status,
        _ => before,
    }
}

/// Whether an event brings the state of an install.
pub open spec fn brings_status(e: TaskEvent) -> bool {
    match e {
        TaskEvent::Status(Ok(_)) => true,
        TaskEvent::Restore { status: Some(_), .. } => true,
        _ => false,
    }
}

/// What is done with the task after an event. Only after patches were applied is
/// the state read again: a restore brings it.
pub open spec fn action_after(e: TaskEvent) -> TaskAction {
    match e {
        TaskEvent::Pending => TaskAction::Wait,
        TaskEvent::Apply(Ok(_)) => TaskAction::ReadStatus,
        _ => TaskAction::End,
    }
}

impl TaskPanel {
    /// Nothing has been started.
    pub fn new(game_dir_input: String) -> (r: TaskPanel)
        ensures
            r.game_dir_input == game_dir_input,
            r.status is None,
            r.message@ == "Ready."@,
            r.message_kind == MessageKind::Info,
            r.busy_label is None,
    {
        TaskPanel {
            game_dir_input,
            status: None,
            message: "Ready.".to_owned(),
            message_kind: MessageKind::Info,
            busy_label: None,
        }
    }

    /// A task with this label has been started.
    pub fn start(&mut self, label: &'static str)
        ensures
            final(self).game_dir_input == old(self).game_dir_input,
            final(self).status == old(self).status,
            final(self).message@ == label@,
            final(self).message_kind == MessageKind::Info,
            final(self).busy_label == Some(label),
    {
        self.busy_label = Some(label);
        self.message = label.to_owned();
        self.message_kind = MessageKind::Info;
    }

    /// Something is said.
    pub fn set_message(&mut self, message: String, kind: MessageKind)
        ensures
            final(self).game_dir_input == old(self).game_dir_input,
            final(self).status == old(self).status,
            final(self).message == message,
            final(self).message_kind == kind,
            final(self).busy_label == old(self).busy_label,
    {
        self.message = message;
        self.message_kind = kind;
    }

    fn set_status(&mut self, status: AppStatus)
        ensures
            final(self).game_dir_input@ == status.game_dir@,
            final(self).status == Some(status),
            final(self).message == old(self).message,
            final(self).message_kind == old(self).message_kind,
            final(self).busy_label == old(self).busy_label,
    {
        self.game_dir_input = display_path(status.game_dir.as_str());
        self.status = Some(status);
    }

    /// Takes what has come from the task.
    pub fn handle(&mut self, event: TaskEvent) -> (r: TaskAction)
        ensures
            r == action_after(event),
            r is Wait ==> *final(self) == *old(self),
            !(r is Wait) ==> {
                &&& final(self).busy_label is None
                &&& (final(self).message@, final(self).message_kind) == message_of(event)
            },
            final(self).status == status_after(old(self).status, event),
            final(self).game_dir_input@ == (if brings_status(event) {
                status_after(old(self).status, event)->0.game_dir@
            } else {
                old(self).game_dir_input@
            }),
    {
        match event {
            TaskEvent::Pending => TaskAction::Wait,
            TaskEvent::Lost => {
                self.busy_label = None;
                let message = "Background task failed unexpectedly.".to_owned();
                self.set_message(message, MessageKind::Error);
                TaskAction::End
            },
            TaskEvent::Status(result) => {
                self.busy_label = None;
                match result {
                    Ok(status) => {
                        self.set_status(status);
                        self.set_message("Install detected.".to_owned(), MessageKind::Success);
                    },
                    Err(error) => {
                        self.set_message(error, MessageKind::Error);
                    },
                }
                TaskAction::End
            },
            TaskEvent::Apply(result) => {
                self.busy_label = None;
                match result {
                    Ok(report) => {
                        let message = applied_message(
                            report.changed_files,
                            report.touched_paths.len(),
                            report.backup_path.as_str(),
                        );
                        self.set_message(message, MessageKind::Success);
                        TaskAction::ReadStatus
                    },
                    Err(error) => {
                        self.set_message(error, MessageKind::Error);
                        TaskAction::End
                    },
                }
            },
            TaskEvent::Restore { restored, status } => {
                self.busy_label = None;
                match status {
                    Some(status) => {
                        self.set_status(status);
                    },
                    None => {
                        self.status = None;
                    },
                }
                match restored {
                    Ok(report) => {
                        let message = restored_message(&report);
                        self.set_message(message, MessageKind::Success);
                    },
                    Err(error) => {
                        self.set_message(error, MessageKind::Error);
                    },
                }
                TaskAction::End
            },
        }
    }
}

/// Where a task other than a restore fails, what is known of the install stays.
pub proof fn law_failures_keep_the_status(before: Option<AppStatus>, e: TaskEvent)
    requires
        message_of(e).1 == MessageKind::Error,
        !(e is Restore),
    ensures
        status_after(before, e) == before,
        action_after(e) == TaskAction::End,
{
}

} // verus!
