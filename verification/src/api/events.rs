//! What the engine tells its subscribers and asks of its surroundings.
use vstd::prelude::*;
use crate::api::model::{EffectSpec, LogLineSpec, line_of};
use crate::db::entities::task_run::{Model, TaskRunStatus};
use crate::db::entities::task_run_log;
use crate::text::{names_of, opt_chars};

verus! {

/// Sent to the subscribers of the status channel whenever a run is stored
/// or changed.
pub struct TaskRunStatusChangedEvent {
    pub run_id: String,
    pub task: String,
    pub cwd: String,
    pub status: TaskRunStatus,
}

impl Clone for TaskRunStatusChangedEvent {
    fn clone(&self) -> (copy: Self)
        ensures
            copy.run_id@ == self.run_id@,
            copy.task@ == self.task@,
            copy.cwd@ == self.cwd@,
            copy.status == self.status,
    {
        TaskRunStatusChangedEvent {
            run_id: self.run_id.clone(),
            task: self.task.clone(),
            cwd: self.cwd.clone(),
            status: self.status,
        }
    }
}

/// One line of a run's output, as subscribers and clients see it.
pub struct TaskRunLogLine {
    pub run_id: String,
    pub task: String,
    pub line: String,
    pub is_stderr: bool,
    pub timestamp: i64,
    pub sequence: u64,
}

impl View for TaskRunLogLine {
    type V = LogLineSpec;

    open spec fn view(&self) -> LogLineSpec {
        LogLineSpec {
            run_id: self.run_id@,
            task: self.task@,
            line: self.line@,
            is_stderr: self.is_stderr,
            timestamp: self.timestamp,
            sequence: self.sequence,
        }
    }
}

impl Clone for TaskRunLogLine {
    fn clone(&self) -> (copy: Self)
        ensures
            copy@ == self@,
    {
        TaskRunLogLine {
            run_id: self.run_id.clone(),
            task: self.task.clone(),
            line: self.line.clone(),
            is_stderr: self.is_stderr,
            timestamp: self.timestamp,
            sequence: self.sequence,
        }
    }
}

/// The content of a list of log lines, in order.
pub open spec fn lines_of(lines: Seq<TaskRunLogLine>) -> Seq<LogLineSpec> {
    Seq::new(lines.len(), |i: int| lines[i]@)
}

impl TaskRunLogLine {
    /// The log line that subscribers see of a stored line: its number
    /// becomes the sequence.
    pub fn from_row(row: &task_run_log::Model) -> (line: TaskRunLogLine)
        requires
            row.id >= 0,
        ensures
            line@ == line_of(row@),
    {
        TaskRunLogLine {
            run_id: row.run_id.clone(),
            task: row.task.clone(),
            line: row.line.clone(),
            is_stderr: row.is_stderr,
            timestamp: row.timestamp,
            sequence: row.id as u64,
        }
    }
}

/// Something the engine's surroundings have to do. Effects are handed out in
/// the order in which the engine produced them.
pub enum Effect {
    /// A run was stored or changed: persist the row as it is given here,
    /// then publish its status.
    StatusChanged(Model),
    /// A log line was stored: persist it, then publish it.
    LogAppended(TaskRunLogLine),
    /// The log lines of these runs were deleted: delete them for good.
    LogsCleared(Vec<String>),
    /// A run is ready: mark it running, run its command, and report how it
    /// ended.
    Execute { run_id: String, task: String, cwd: String, command: Option<String> },
    /// Kill the process group of this run.
    Cancel(String),
}

impl View for Effect {
    type V = EffectSpec;

    open spec fn view(&self) -> EffectSpec {
        match self {
            Effect::StatusChanged(run) => EffectSpec::StatusChanged(run@),
            Effect::LogAppended(line) => EffectSpec::LogAppended(line@),
            Effect::LogsCleared(run_ids) => EffectSpec::LogsCleared(names_of(run_ids@)),
            Effect::Execute { run_id, task, cwd, command } => EffectSpec::Execute {
                run_id: run_id@,
                task: task@,
                cwd: cwd@,
                command: opt_chars(*command),
            },
            Effect::Cancel(run_id) => EffectSpec::Cancel(run_id@),
        }
    }
}

/// The content of a list of effects, in order.
pub open spec fn effects_of(effects: Seq<Effect>) -> Seq<EffectSpec> {
    Seq::new(effects.len(), |i: int| effects[i]@)
}

/// The effect that announces the state of a run.
pub fn status_event_of(run: &Model) -> (effect: Effect)
    ensures
        effect@ == crate::api::model::status_event(run@),
{
    Effect::StatusChanged(run.clone())
}

impl TaskRunStatusChangedEvent {
    /// The event that tells the subscribers of the status of a run.
    pub fn of(run: &Model) -> (event: TaskRunStatusChangedEvent)
        ensures
            event.run_id@ == run.id@,
            event.task@ == run.task@,
            event.cwd@ == run.cwd@,
            event.status == run.status,
    {
        TaskRunStatusChangedEvent {
            run_id: run.id.clone(),
            task: run.task.clone(),
            cwd: run.cwd.clone(),
            status: run.status,
        }
    }
}

} // verus!
