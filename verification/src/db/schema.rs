//! The shape of a task definition as it is written down.
use vstd::prelude::*;

verus! {

/// A task as the configuration file states it.
pub struct Task {
    /// The title of the task.
    pub title: Option<String>,
    /// The command that the task will run.
    pub command: Option<String>,
    /// Names of the tasks that must have succeeded first.
    pub depends_on: Option<Vec<String>>,
    /// Whether the task is optional. If true, the task will only run if started manually.
    pub optional: Option<bool>,
    /// The sub-tasks, by key. Keys must be unique task names.
    pub tasks: Option<Vec<(String, Task)>>,
}

} // verus!
