//! One execution attempt of a task.
use vstd::prelude::*;
use crate::text::{opt_chars, opt_owned};

verus! {

/// Lifecycle state of a task run.
#[derive(Clone, Copy, Debug, PartialEq, Eq, Structural)]
pub enum TaskRunStatus {
    Queued,
    Running,
    Success,
    Cancelled,
    Failed,
}

impl TaskRunStatus {
    /// `Success`, `Failed` and `Cancelled` end a run.
    pub open spec fn is_terminal(self) -> bool {
        self == TaskRunStatus::Success || self == TaskRunStatus::Failed || self
            == TaskRunStatus::Cancelled
    }

    /// `Queued` and `Running` runs still have work ahead of them.
    pub open spec fn is_active(self) -> bool {
        self == TaskRunStatus::Queued || self == TaskRunStatus::Running
    }

    /// The name of the status as stored and sent.
    pub fn as_str(self) -> (name: &'static str)
        ensures
            name@ == match self {
                TaskRunStatus::Queued => "queued"@,
                TaskRunStatus::Running => "running"@,
                TaskRunStatus::Success => "success"@,
                TaskRunStatus::Cancelled => "cancelled"@,
                TaskRunStatus::Failed => "failed"@,
            },
    {
        match self {
            TaskRunStatus::Queued => "queued",
            TaskRunStatus::Running => "running",
            TaskRunStatus::Success => "success",
            TaskRunStatus::Cancelled => "cancelled",
            TaskRunStatus::Failed => "failed",
        }
    }
}

/// A stored run.
pub struct Model {
    pub id: String,
    pub task: String,
    pub cwd: String,
    pub parent_run_id: Option<String>,
    pub status: TaskRunStatus,
    pub updated_at: i64,
    pub waiting_on: Option<String>,
}

/// The mathematical content of a run.
pub struct RunSpec {
    pub id: Seq<char>,
    pub task: Seq<char>,
    pub cwd: Seq<char>,
    pub parent_run_id: Option<Seq<char>>,
    pub status: TaskRunStatus,
    pub updated_at: i64,
    pub waiting_on: Option<Seq<char>>,
}

impl View for Model {
    type V = RunSpec;

    open spec fn view(&self) -> RunSpec {
        RunSpec {
            id: self.id@,
            task: self.task@,
            cwd: self.cwd@,
            parent_run_id: opt_chars(self.parent_run_id),
            status: self.status,
            updated_at: self.updated_at,
            waiting_on: opt_chars(self.waiting_on),
        }
    }
}

impl Clone for Model {
    fn clone(&self) -> (copy: Self)
        ensures
            copy@ == self@,
    {
        Model {
            id: self.id.clone(),
            task: self.task.clone(),
            cwd: self.cwd.clone(),
            parent_run_id: opt_owned(&self.parent_run_id),
            status: self.status,
            updated_at: self.updated_at,
            waiting_on: opt_owned(&self.waiting_on),
        }
    }
}

/// The content of a list of runs, in order.
pub open spec fn runs_of(runs: Seq<Model>) -> Seq<RunSpec> {
    Seq::new(runs.len(), |i: int| runs[i]@)
}

} // verus!
