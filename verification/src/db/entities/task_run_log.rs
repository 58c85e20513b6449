//! One stored line of a run's output.
use vstd::prelude::*;

verus! {

/// A stored log line. Lines are numbered in the order in which they were
/// stored; a number is never given twice.
pub struct Model {
    pub id: i64,
    pub run_id: String,
    pub task: String,
    pub line: String,
    pub is_stderr: bool,
    pub timestamp: i64,
}

/// The mathematical content of a log line.
pub struct LogSpec {
    pub id: i64,
    pub run_id: Seq<char>,
    pub task: Seq<char>,
    pub line: Seq<char>,
    pub is_stderr: bool,
    pub timestamp: i64,
}

impl View for Model {
    type V = LogSpec;

    open spec fn view(&self) -> LogSpec {
        LogSpec {
            id: self.id,
            run_id: self.run_id@,
            task: self.task@,
            line: self.line@,
            is_stderr: self.is_stderr,
            timestamp: self.timestamp,
        }
    }
}

impl Clone for Model {
    fn clone(&self) -> (copy: Self)
        ensures
            copy@ == self@,
    {
        Model {
            id: self.id,
            run_id: self.run_id.clone(),
            task: self.task.clone(),
            line: self.line.clone(),
            is_stderr: self.is_stderr,
            timestamp: self.timestamp,
        }
    }
}

/// The content of a list of log lines, in order.
pub open spec fn logs_of(logs: Seq<Model>) -> Seq<LogSpec> {
    Seq::new(logs.len(), |i: int| logs[i]@)
}

} // verus!
