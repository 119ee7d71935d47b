//! The error type of the scheduler and its messages.

use vstd::prelude::*;
use vstd::string::*;

use crate::task_id::{hyphenated, TaskId};

verus! {

/// What can go wrong while scheduling tasks.
#[derive(Debug, PartialEq, Eq)]
pub enum SchedulerError {
    TaskInitialization(String),
    TaskExecution(String),
    TaskShutdown(String),
    InvalidChannel(String),
    EventSend(String),
    EventReceive(String),
    TaskNotFound(TaskId),
}

/// The message of an error: a fixed prefix for each kind followed by its detail.
pub open spec fn error_message(err: SchedulerError) -> Seq<char> {
    match err {
        SchedulerError::TaskInitialization(s) => "Task initialization error: "@ + s@,
        SchedulerError::TaskExecution(s) => "Task execution error: "@ + s@,
        SchedulerError::TaskShutdown(s) => "Task shutdown error: "@ + s@,
        SchedulerError::InvalidChannel(s) => "Invalid channel: "@ + s@,
        SchedulerError::EventSend(s) => "Event send error: "@ + s@,
        SchedulerError::EventReceive(s) => "Event receive error: "@ + s@,
        SchedulerError::TaskNotFound(id) => "Task not found: "@ + hyphenated(id.0),
    }
}

impl SchedulerError {
    /// The human-readable message of the error.
    pub fn to_string(&self) -> (text: String)
        ensures
            text@ == error_message(*self),
    {
        match self {
            SchedulerError::TaskInitialization(s) => {
                String::from_str("Task initialization error: ").concat(s.as_str())
            },
            SchedulerError::TaskExecution(s) => {
                String::from_str("Task execution error: ").concat(s.as_str())
            },
            SchedulerError::TaskShutdown(s) => {
                String::from_str("Task shutdown error: ").concat(s.as_str())
            },
            SchedulerError::InvalidChannel(s) => {
                String::from_str("Invalid channel: ").concat(s.as_str())
            },
            SchedulerError::EventSend(s) => {
                String::from_str("Event send error: ").concat(s.as_str())
            },
            SchedulerError::EventReceive(s) => {
                String::from_str("Event receive error: ").concat(s.as_str())
            },
            SchedulerError::TaskNotFound(id) => {
                let text = id.to_string();
                String::from_str("Task not found: ").concat(text.as_str())
            },
        }
    }
}

} // verus!
