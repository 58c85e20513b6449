//! Dependencies between tasks: a run waits for the first task it depends on
//! whose latest run in the same working directory has not succeeded.
use vstd::prelude::*;
use crate::config::{Task, TaskSpec};
use crate::db::entities::task_run::{Model, RunSpec, TaskRunStatus, runs_of};
use crate::text::{names_of, str_eq};

verus! {

/// Whether a run belongs to the given working directory and task and, where
/// a status is asked for, has it.
pub open spec fn answers(
    run: RunSpec,
    cwd: Seq<char>,
    task: Seq<char>,
    status: Option<TaskRunStatus>,
) -> bool {
    &&& run.cwd == cwd
    &&& run.task == task
    &&& status matches Some(wanted) ==> run.status == wanted
}

/// Whether the run at `i` is the latest among the first `n` runs that answer
/// the query: none of them changed later, and none that changed at the same
/// time was stored before it.
pub open spec fn is_latest_among(
    runs: Seq<RunSpec>,
    cwd: Seq<char>,
    task: Seq<char>,
    status: Option<TaskRunStatus>,
    i: int,
    n: int,
) -> bool {
    &&& 0 <= i < n <= runs.len()
    &&& answers(runs[i], cwd, task, status)
    &&& forall|j: int|
        0 <= j < n && answers(#[trigger] runs[j], cwd, task, status) ==> runs[j].updated_at
            < runs[i].updated_at || (runs[j].updated_at == runs[i].updated_at && i <= j)
}

/// Whether the run at `i` is the latest of all runs that answer the query.
pub open spec fn is_latest(
    runs: Seq<RunSpec>,
    cwd: Seq<char>,
    task: Seq<char>,
    status: Option<TaskRunStatus>,
    i: int,
) -> bool {
    is_latest_among(runs, cwd, task, status, i, runs.len() as int)
}

/// Whether any run answers the query.
pub open spec fn any_answers(
    runs: Seq<RunSpec>,
    cwd: Seq<char>,
    task: Seq<char>,
    status: Option<TaskRunStatus>,
) -> bool {
    exists|j: int| 0 <= j < runs.len() && answers(#[trigger] runs[j], cwd, task, status)
}

/// A dependency is satisfied when the latest run of the task in the working
/// directory has succeeded.
pub open spec fn dependency_satisfied(runs: Seq<RunSpec>, cwd: Seq<char>, task: Seq<char>) -> bool {
    exists|i: int|
        is_latest(runs, cwd, task, None, i) && (#[trigger] runs[i]).status
            == TaskRunStatus::Success
}

/// The first of `deps[from..]` that is not satisfied.
pub open spec fn first_unmet(
    runs: Seq<RunSpec>,
    cwd: Seq<char>,
    deps: Seq<Seq<char>>,
    from: int,
) -> Option<Seq<char>>
    decreases deps.len() - from,
{
    if from < 0 || from >= deps.len() {
        None
    } else if !dependency_satisfied(runs, cwd, deps[from]) {
        Some(deps[from])
    } else {
        first_unmet(runs, cwd, deps, from + 1)
    }
}

/// The task that a run of `task` has to wait for, if any.
pub open spec fn next_unmet(runs: Seq<RunSpec>, cwd: Seq<char>, task: TaskSpec) -> Option<
    Seq<char>,
> {
    match task.depends_on {
        Some(deps) => first_unmet(runs, cwd, deps, 0),
        None => None,
    }
}

/// The latest run that answers a query is the only one.
pub proof fn lemma_latest_unique(
    runs: Seq<RunSpec>,
    cwd: Seq<char>,
    task: Seq<char>,
    status: Option<TaskRunStatus>,
    i: int,
    k: int,
)
    requires
        is_latest(runs, cwd, task, status, i),
        is_latest(runs, cwd, task, status, k),
    ensures
        i == k,
{
    assert(answers(runs[i], cwd, task, status));
    assert(answers(runs[k], cwd, task, status));
}

/// The place of the latest run of a task in a working directory, among
/// those with the given status where one is asked for.
pub fn latest_task_run(
    runs: &Vec<Model>,
    cwd: &str,
    task: &str,
    status: Option<TaskRunStatus>,
) -> (found: Option<usize>)
    ensures
        found is Some == any_answers(runs_of(runs@), cwd@, task@, status),
        found matches Some(i) ==> is_latest(runs_of(runs@), cwd@, task@, status, i as int),
{
    let ghost model = runs_of(runs@);
    let mut best: Option<usize> = None;
    let mut n: usize = 0;
    while n < runs.len()
        invariant
            n <= runs.len(),
            model == runs_of(runs@),
            best is None ==> forall|j: int|
                0 <= j < n ==> !answers(#[trigger] model[j], cwd@, task@, status),
            best matches Some(i) ==> is_latest_among(model, cwd@, task@, status, i as int, n as int),
        decreases runs.len() - n,
    {
        let run = &runs[n];
        assert(model[n as int] == run@);
        let wanted = match status {
            Some(s) => run.status == s,
            None => true,
        };
        if wanted && str_eq(run.cwd.as_str(), cwd) && str_eq(run.task.as_str(), task) {
            match best {
                Some(i) => {
                    if runs[i].updated_at < run.updated_at {
                        best = Some(n);
                    }
                },
                None => {
                    best = Some(n);
                },
            }
        }
        n += 1;
    }
    proof {
        if best is Some {
            assert(answers(model[best->0 as int], cwd@, task@, status));
        }
    }
    best
}

/// Whether the latest run of `dependency_task` in `cwd` has succeeded.
pub fn is_dependency_satisfied(runs: &Vec<Model>, cwd: &str, dependency_task: &str) -> (satisfied:
    bool)
    ensures
        satisfied == dependency_satisfied(runs_of(runs@), cwd@, dependency_task@),
{
    let ghost model = runs_of(runs@);
    match latest_task_run(runs, cwd, dependency_task, None) {
        Some(i) => {
            let satisfied = runs[i].status == TaskRunStatus::Success;
            proof {
                assert(model[i as int] == runs@[i as int]@);
                if dependency_satisfied(model, cwd@, dependency_task@) {
                    let k = choose|k: int|
                        is_latest(model, cwd@, dependency_task@, None, k) && (
                        #[trigger] model[k]).status == TaskRunStatus::Success;
                    lemma_latest_unique(model, cwd@, dependency_task@, None, i as int, k);
                }
            }
            satisfied
        },
        None => {
            proof {
                if dependency_satisfied(model, cwd@, dependency_task@) {
                    let k = choose|k: int|
                        is_latest(model, cwd@, dependency_task@, None, k) && (
                        #[trigger] model[k]).status == TaskRunStatus::Success;
                    assert(answers(model[k], cwd@, dependency_task@, None));
                }
            }
            false
        },
    }
}

/// The first task among those that `task` depends on whose latest run in
/// `cwd` has not succeeded.
pub fn next_unmet_dependency(runs: &Vec<Model>, cwd: &str, task: &Task) -> (waiting_on: Option<
    String,
>)
    ensures
        crate::text::opt_chars(waiting_on) == next_unmet(runs_of(runs@), cwd@, task@),
{
    let depends_on = match &task.depends_on {
        Some(depends_on) => depends_on,
        None => {
            return None;
        },
    };
    let ghost deps = names_of(depends_on@);
    let ghost model = runs_of(runs@);
    let mut i: usize = 0;
    while i < depends_on.len()
        invariant
            i <= depends_on.len(),
            deps == names_of(depends_on@),
            model == runs_of(runs@),
            task@.depends_on == Some(deps),
            first_unmet(model, cwd@, deps, i as int) == first_unmet(model, cwd@, deps, 0),
        decreases depends_on.len() - i,
    {
        let dependency = &depends_on[i];
        assert(deps[i as int] == dependency@);
        if !is_dependency_satisfied(runs, cwd, dependency.as_str()) {
            return Some(dependency.clone());
        }
        i += 1;
    }
    None
}

} // verus!
