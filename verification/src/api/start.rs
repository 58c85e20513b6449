//! Which run answers a request to start a task that is under way already.
use vstd::prelude::*;
use crate::api::dependencies::{any_answers, answers, is_latest, latest_task_run, lemma_latest_unique};
use crate::api::descendants::{collect_descendant_run_ids, descendants};
use crate::api::invariants::one_running_per_task;
use crate::api::model::{has_run, run_of};
use crate::api::state::AppState;
use crate::config::{Task, TaskSpec};
use crate::db::entities::task_run::{RunSpec, TaskRunStatus, runs_of};
use crate::text::{is_blank, is_blank_str, names_of, opt_chars, str_eq};

verus! {

/// A task without a command of its own only groups its sub-tasks: its
/// command is absent or blank.
pub open spec fn no_command(task: TaskSpec) -> bool {
    match task.command {
        Some(command) => is_blank(command),
        None => true,
    }
}

/// Whether a run below the run `id` is queued or running.
pub open spec fn has_active_below(runs: Seq<RunSpec>, id: Seq<char>) -> bool {
    exists|k: int|
        0 <= k < descendants(runs, id).len() && (#[trigger] descendants(runs, id)[k]) != id
            && has_run(runs, descendants(runs, id)[k]) && run_of(
            runs,
            descendants(runs, id)[k],
        ).status.is_active()
}

/// Whether the run at `i` is a run of the grouping task with work under way
/// below it.
pub open spec fn is_busy_group(runs: Seq<RunSpec>, cwd: Seq<char>, task: Seq<char>, i: int) -> bool {
    &&& 0 <= i < runs.len()
    &&& runs[i].cwd == cwd
    &&& runs[i].task == task
    &&& has_active_below(runs, runs[i].id)
}

/// Whether the run at `i` is the latest among the first `n` runs of the
/// grouping task with work under way below them.
pub open spec fn is_latest_busy_group(
    runs: Seq<RunSpec>,
    cwd: Seq<char>,
    task: Seq<char>,
    i: int,
    n: int,
) -> bool {
    &&& is_busy_group(runs, cwd, task, i)
    &&& i < n
    &&& forall|j: int|
        0 <= j < n && #[trigger] is_busy_group(runs, cwd, task, j) ==> runs[j].updated_at
            < runs[i].updated_at || (runs[j].updated_at == runs[i].updated_at && i <= j)
}

/// Whether any run of the grouping task has work under way below it.
pub open spec fn any_busy_group(runs: Seq<RunSpec>, cwd: Seq<char>, task: Seq<char>) -> bool {
    exists|j: int| #[trigger] is_busy_group(runs, cwd, task, j)
}

/// The run that answers a request to start `task_key` in `cwd` in place of a
/// new one: the latest running run of the task; or, for a task without a
/// command of its own, the latest run of the task below which a run is
/// queued or running.
pub open spec fn existing_run(
    runs: Seq<RunSpec>,
    cwd: Seq<char>,
    task_key: Seq<char>,
    task: TaskSpec,
) -> Option<Seq<char>> {
    if any_answers(runs, cwd, task_key, Some(TaskRunStatus::Running)) {
        Some(
            runs[choose|i: int| is_latest(runs, cwd, task_key, Some(TaskRunStatus::Running), i)].id,
        )
    } else if no_command(task) && any_busy_group(runs, cwd, task_key) {
        Some(
            runs[choose|i: int|
                is_latest_busy_group(runs, cwd, task_key, i, runs.len() as int)].id,
        )
    } else {
        None
    }
}

/// While a run of a task is running, and no other run of the task in the
/// same working directory is, a request to start the task is answered by
/// that run.
pub proof fn lemma_start_idempotent(
    runs: Seq<RunSpec>,
    cwd: Seq<char>,
    task_key: Seq<char>,
    task: TaskSpec,
    r: int,
)
    requires
        one_running_per_task(runs),
        0 <= r < runs.len(),
        runs[r].status == TaskRunStatus::Running,
        runs[r].cwd == cwd,
        runs[r].task == task_key,
    ensures
        existing_run(runs, cwd, task_key, task) == Some(runs[r].id),
{
    let running = Some(TaskRunStatus::Running);
    assert(answers(runs[r], cwd, task_key, running));
    assert forall|j: int|
        0 <= j < runs.len() && answers(#[trigger] runs[j], cwd, task_key, running) implies j
        == r by {
        if j < r {
            assert(!(runs[j].cwd == runs[r].cwd && runs[j].task == runs[r].task));
        } else if r < j {
            assert(!(runs[r].cwd == runs[j].cwd && runs[r].task == runs[j].task));
        }
    }
    assert(is_latest(runs, cwd, task_key, running, r));
    let i = choose|i: int| is_latest(runs, cwd, task_key, running, i);
    lemma_latest_unique(runs, cwd, task_key, running, i, r);
}

/// Whether a task has no command of its own.
pub fn task_has_no_command(task: &Task) -> (none: bool)
    ensures
        none == no_command(task@),
{
    match &task.command {
        Some(command) => is_blank_str(command.as_str()),
        None => true,
    }
}

/// Whether a run below the run `run_id` is queued or running.
fn has_active_descendant(state: &AppState, run_id: &str) -> (active: bool)
    requires
        state@.wf(),
    ensures
        active == has_active_below(state@.runs, run_id@),
{
    let ghost runs = state@.runs;
    let descendant_run_ids = collect_descendant_run_ids(state.task_runs(), run_id);
    let ghost walk = names_of(descendant_run_ids@);
    assert(walk == descendants(runs, run_id@));
    let mut k: usize = 0;
    while k < descendant_run_ids.len()
        invariant
            k <= descendant_run_ids.len(),
            state@.wf(),
            runs == state@.runs,
            walk == names_of(descendant_run_ids@),
            walk == descendants(runs, run_id@),
            forall|j: int|
                0 <= j < k ==> !((#[trigger] walk[j]) != run_id@ && has_run(runs, walk[j])
                    && run_of(runs, walk[j]).status.is_active()),
        decreases descendant_run_ids.len() - k,
    {
        let id = &descendant_run_ids[k];
        assert(walk[k as int] == id@);
        if !str_eq(id.as_str(), run_id) {
            match state.find_task_run(id.as_str()) {
                Some(run) => {
                    if run.status == TaskRunStatus::Queued || run.status == TaskRunStatus::Running {
                        return true;
                    }
                },
                None => {},
            }
        }
        k += 1;
    }
    false
}

/// The run that answers a request to start the task `task_key` in `cwd` in
/// place of a new one, if there is one: the latest running run of the task;
/// or, for a task without a command of its own, the latest run of the task
/// below which a run is queued or running.
#[verifier::rlimit(40)]
pub fn find_existing_running_run_id(state: &AppState, cwd: &str, task_key: &str, task: &Task) -> (found:
    Option<String>)
    requires
        state@.wf(),
    ensures
        opt_chars(found) == existing_run(state@.runs, cwd@, task_key@, task@),
{
    let runs = state.task_runs();
    let ghost model = state@.runs;
    let ghost running = Some(TaskRunStatus::Running);
    if let Some(i) = latest_task_run(runs, cwd, task_key, Some(TaskRunStatus::Running)) {
        proof {
            let c = choose|c: int| is_latest(model, cwd@, task_key@, running, c);
            lemma_latest_unique(model, cwd@, task_key@, running, c, i as int);
            assert(model[i as int] == runs@[i as int]@);
        }
        return Some(runs[i].id.clone());
    }
    if !task_has_no_command(task) {
        return None;
    }
    let mut best: Option<usize> = None;
    let mut n: usize = 0;
    while n < runs.len()
        invariant
            n <= runs.len(),
            state@.wf(),
            model == state@.runs,
            model == runs_of(runs@),
            best is None ==> forall|j: int|
                0 <= j < n ==> !#[trigger] is_busy_group(model, cwd@, task_key@, j),
            best matches Some(i) ==> is_latest_busy_group(model, cwd@, task_key@, i as int, n as int),
        decreases runs.len() - n,
    {
        let run = &runs[n];
        assert(model[n as int] == run@);
        if str_eq(run.cwd.as_str(), cwd) && str_eq(run.task.as_str(), task_key)
            && has_active_descendant(state, run.id.as_str()) {
            match best {
                Some(i) => {
                    if runs[i].updated_at < run.updated_at {
                        best = Some(n);
                    }
                },
                None => {
                    best = Some(n);
                },
            }
        }
        n += 1;
    }
    match best {
        Some(i) => {
            proof {
                assert(is_busy_group(model, cwd@, task_key@, i as int));
                let c = choose|c: int|
                    is_latest_busy_group(model, cwd@, task_key@, c, model.len() as int);
                assert(is_busy_group(model, cwd@, task_key@, c));
                assert(model[i as int] == runs@[i as int]@);
            }
            Some(runs[i].id.clone())
        },
        None => {
            proof {
                if any_busy_group(model, cwd@, task_key@) {
                    let j = choose|j: int| #[trigger] is_busy_group(model, cwd@, task_key@, j);
                    assert(false);
                }
            }
            None
        },
    }
}

} // verus!
