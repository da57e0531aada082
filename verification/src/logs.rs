//! Diagnostics collected during a run, and the output lines of processes.
use vstd::prelude::*;

use crate::task_id::{id_text, TaskId};

verus! {

/// An error or a warning, maybe about a task.
#[derive(Debug, Clone)]
pub enum Diagnostics {
    Error { task_id: Option<TaskId>, error: String },
    Warning { task_id: Option<TaskId>, message: String },
}

/// Bytes a task's process wrote.
#[derive(Debug, Clone)]
pub enum ProcessLog {
    Stdout { task_id: TaskId, data: Vec<u8> },
    Stderr { task_id: TaskId, data: Vec<u8> },
    System { task_id: TaskId, data: Vec<u8> },
}

/// The errors and warnings of a run, in the order they came.
#[derive(Debug, Clone)]
pub struct ErrorCollector {
    errors: Vec<Diagnostics>,
}

/// The line a diagnostic is reported as.
pub open spec fn diagnostic_line(d: Diagnostics) -> Seq<char> {
    match d {
        Diagnostics::Error { task_id, error } => match task_id {
            Some(t) => "Error in task "@ + id_text(t@) + ": "@ + error@,
            None => "Error: "@ + error@,
        },
        Diagnostics::Warning { task_id, message } => match task_id {
            Some(t) => "Warning in task "@ + id_text(t@) + ": "@ + message@,
            None => "Warning: "@ + message@,
        },
    }
}

/// The line that heads the report.
pub open spec fn report_heading() -> Seq<char> {
    "Following errors and warnings were collected during execution:"@
}

impl ErrorCollector {
    /// The diagnostics, in order.
    pub closed spec fn items(&self) -> Seq<Diagnostics> {
        self.errors@
    }

    /// A collector with nothing in it.
    pub fn new() -> (r: ErrorCollector)
        ensures
            r.items() == Seq::<Diagnostics>::empty(),
    {
        ErrorCollector { errors: Vec::new() }
    }

    /// Adds an error.
    pub fn push_error(&mut self, task_id: Option<TaskId>, error: String)
        ensures
            final(self).items() == old(self).items().push(Diagnostics::Error { task_id, error }),
    {
        self.errors.push(Diagnostics::Error { task_id, error });
    }

    /// Adds a warning.
    pub fn push_warning(&mut self, task_id: Option<TaskId>, message: String)
        ensures
            final(self).items() == old(self).items().push(Diagnostics::Warning { task_id, message }),
    {
        self.errors.push(Diagnostics::Warning { task_id, message });
    }

    /// Adds a diagnostic.
    pub fn push(&mut self, diagnostic: Diagnostics)
        ensures
            final(self).items() == old(self).items().push(diagnostic),
    {
        self.errors.push(diagnostic);
    }

    /// The diagnostics, in the order they came.
    pub fn get_errors(&self) -> (r: &[Diagnostics])
        ensures
            r@ == self.items(),
    {
        self.errors.as_slice()
    }

    /// The report of the run: a heading, then one line per diagnostic in
    /// order. The heading goes to standard output, the rest to standard
    /// error.
    pub fn finalize(&self) -> (r: Vec<String>)
        ensures
            r@.len() == self.items().len() + 1,
            r@[0]@ == report_heading(),
            forall|i: int| 0 <= i < self.items().len() ==> (#[trigger] r@[i + 1])@ == diagnostic_line(self.items()[i]),
    {
        let mut r: Vec<String> = Vec::new();
        r.push(String::from_str("Following errors and warnings were collected during execution:"));
        for i in 0..self.errors.len()
            invariant
                r@.len() == i + 1,
                r@[0]@ == report_heading(),
                forall|a: int| 0 <= a < i ==> (#[trigger] r@[a + 1])@ == diagnostic_line(self.errors@[a]),
        {
            let line = match &self.errors[i] {
                Diagnostics::Error { task_id, error } => match task_id {
                    Some(t) => String::from_str("Error in task ").concat(t.to_string().as_str()).concat(": ").concat(error.as_str()),
                    None => String::from_str("Error: ").concat(error.as_str()),
                },
                Diagnostics::Warning { task_id, message } => match task_id {
                    Some(t) => String::from_str("Warning in task ").concat(t.to_string().as_str()).concat(": ").concat(message.as_str()),
                    None => String::from_str("Warning: ").concat(message.as_str()),
                },
            };
            proof {
                assert(line@ =~= diagnostic_line(self.errors@[i as int]));
            }
            r.push(line);
        }
        r
    }
}

/// The kind of a line a service logged.
#[derive(Debug, Clone, Copy, PartialEq, Eq, Structural)]
pub enum LogKind {
    Output,
    Error,
    System,
}

/// The kind of a message of a task.
#[derive(Debug, Clone, Copy, PartialEq, Eq, Structural)]
pub enum LogType {
    Info,
    Error,
    Warning,
    System,
}

/// A message of a task for the log.
#[derive(Debug, Clone)]
pub struct LogMessage {
    pub task_id: TaskId,
    pub message: String,
    pub log_type: LogType,
}

/// Which stream a project's line came from.
#[derive(Debug, Clone, Copy, PartialEq, Eq, Structural)]
pub enum ProjectLogType {
    Stdout,
    Stderr,
}

/// How a child process ended, or that it still runs.
#[derive(Debug, Clone, Copy, PartialEq, Eq, Structural)]
pub enum ChildExitStatus {
    Finished(i32),
    Interepted,
    Killed,
    Failed,
    Running,
}

} // verus!
