//! What holds of the stored runs whatever the engine does, and the kind of
//! change that keeps it so.
use vstd::prelude::*;
use crate::api::model::{EngineSpec, has_run, lemma_run_index, run_index, unique_ids};
use crate::db::entities::task_run::{RunSpec, TaskRunStatus};

verus! {

/// A running run waits for nothing.
pub open spec fn running_unblocked(runs: Seq<RunSpec>) -> bool {
    forall|i: int|
        0 <= i < runs.len() && (#[trigger] runs[i]).status == TaskRunStatus::Running
            ==> runs[i].waiting_on is None
}

/// Of each task in each working directory at most one run is running.
pub open spec fn one_running_per_task(runs: Seq<RunSpec>) -> bool {
    forall|i: int, j: int|
        0 <= i < j < runs.len() && (#[trigger] runs[i]).status == TaskRunStatus::Running && (
        #[trigger] runs[j]).status == TaskRunStatus::Running ==> !(runs[i].cwd == runs[j].cwd
            && runs[i].task == runs[j].task)
}

/// A run has at most one child run per task.
pub open spec fn one_child_per_task(runs: Seq<RunSpec>) -> bool {
    forall|i: int, j: int|
        0 <= i < j < runs.len() && (#[trigger] runs[i]).parent_run_id is Some ==> !(
        runs[i].parent_run_id == (#[trigger] runs[j]).parent_run_id && runs[i].task
            == runs[j].task)
}

/// Whether a run of the given task in the given working directory is
/// running.
pub open spec fn task_is_running(runs: Seq<RunSpec>, cwd: Seq<char>, task: Seq<char>) -> bool {
    exists|i: int|
        0 <= i < runs.len() && (#[trigger] runs[i]).status == TaskRunStatus::Running
            && runs[i].cwd == cwd && runs[i].task == task
}

/// Whether a run with the given parent and task is stored.
pub open spec fn has_child(runs: Seq<RunSpec>, parent: Seq<char>, task: Seq<char>) -> bool {
    exists|i: int|
        0 <= i < runs.len() && (#[trigger] runs[i]).parent_run_id == Some(parent) && runs[i].task
            == task
}

/// `after` holds the runs of `before` and perhaps more. No run has changed
/// its id, task, working directory or parent, and every run that is new or
/// has changed is not running.
pub open spec fn settles(before: Seq<RunSpec>, after: Seq<RunSpec>) -> bool {
    &&& before.len() <= after.len()
    &&& forall|i: int|
        0 <= i < before.len() ==> {
            let a = #[trigger] before[i];
            let b = after[i];
            &&& b.id == a.id
            &&& b.task == a.task
            &&& b.cwd == a.cwd
            &&& b.parent_run_id == a.parent_run_id
            &&& b == a || b.status != TaskRunStatus::Running
        }
    &&& forall|i: int|
        before.len() <= i < after.len() ==> (#[trigger] after[i]).status
            != TaskRunStatus::Running
}

/// `after` has no run with a parent and a task that an earlier run of
/// `after` has too, unless both were in `before`.
pub open spec fn adds_no_twin(before: Seq<RunSpec>, after: Seq<RunSpec>) -> bool {
    forall|i: int, j: int|
        0 <= i < j < after.len() && before.len() <= j && (#[trigger] after[i]).parent_run_id
            is Some ==> !(after[i].parent_run_id == (#[trigger] after[j]).parent_run_id
            && after[i].task == after[j].task)
}

/// What every operation but the promotion of a run guarantees: the state
/// stays consistent, no run starts running, and no run gets a second child
/// for a task.
pub open spec fn keeps_order(before: EngineSpec, after: EngineSpec) -> bool {
    &&& after.wf()
    &&& settles(before.runs, after.runs)
    &&& adds_no_twin(before.runs, after.runs)
}

/// Nothing changes nothing.
pub proof fn lemma_settles_refl(runs: Seq<RunSpec>)
    ensures
        settles(runs, runs),
        adds_no_twin(runs, runs),
{
}

/// Changes of this kind can follow each other.
pub proof fn lemma_settles_trans(a: Seq<RunSpec>, b: Seq<RunSpec>, c: Seq<RunSpec>)
    requires
        settles(a, b),
        settles(b, c),
        adds_no_twin(a, b),
        adds_no_twin(b, c),
    ensures
        settles(a, c),
        adds_no_twin(a, c),
{
    assert forall|i: int| 0 <= i < a.len() implies {
        let x = #[trigger] a[i];
        let z = c[i];
        &&& z.id == x.id
        &&& z.task == x.task
        &&& z.cwd == x.cwd
        &&& z.parent_run_id == x.parent_run_id
        &&& z == x || z.status != TaskRunStatus::Running
    } by {
        let y = b[i];
        assert(y.id == a[i].id);
        assert(c[i].id == b[i].id);
    }
    assert forall|i: int| a.len() <= i < c.len() implies (#[trigger] c[i]).status
        != TaskRunStatus::Running by {
        if i < b.len() {
            assert(b[i].status != TaskRunStatus::Running);
            assert(c[i].id == b[i].id);
        }
    }
    assert forall|i: int, j: int|
        0 <= i < j < c.len() && a.len() <= j && (#[trigger] c[i]).parent_run_id is Some implies !(
    c[i].parent_run_id == (#[trigger] c[j]).parent_run_id && c[i].task == c[j].task) by {
        if j < b.len() {
            assert(c[i].id == b[i].id);
            assert(c[j].id == b[j].id);
            assert(b[i].parent_run_id is Some);
        }
    }
}

/// Changes of this kind keep a running run from waiting, keep at most one
/// run per task running, and keep at most one child per task.
pub proof fn lemma_settles_keeps(before: Seq<RunSpec>, after: Seq<RunSpec>)
    requires
        settles(before, after),
        adds_no_twin(before, after),
    ensures
        running_unblocked(before) ==> running_unblocked(after),
        one_running_per_task(before) ==> one_running_per_task(after),
        one_child_per_task(before) ==> one_child_per_task(after),
        forall|cwd: Seq<char>, task: Seq<char>|
            #[trigger] task_is_running(after, cwd, task) ==> task_is_running(before, cwd, task),
{
    if running_unblocked(before) {
        assert forall|i: int|
            0 <= i < after.len() && (#[trigger] after[i]).status
                == TaskRunStatus::Running implies after[i].waiting_on is None by {
            if i < before.len() {
                assert(after[i].id == before[i].id);
            }
        }
    }
    if one_running_per_task(before) {
        assert forall|i: int, j: int|
            0 <= i < j < after.len() && (#[trigger] after[i]).status == TaskRunStatus::Running && (
            #[trigger] after[j]).status == TaskRunStatus::Running implies !(after[i].cwd
            == after[j].cwd && after[i].task == after[j].task) by {
            if j < before.len() {
                assert(after[i].id == before[i].id);
                assert(after[j].id == before[j].id);
            }
        }
    }
    if one_child_per_task(before) {
        assert forall|i: int, j: int|
            0 <= i < j < after.len() && (#[trigger] after[i]).parent_run_id is Some implies !(
        after[i].parent_run_id == (#[trigger] after[j]).parent_run_id && after[i].task
            == after[j].task) by {
            if j < before.len() {
                assert(after[i].id == before[i].id);
                assert(after[j].id == before[j].id);
                assert(before[i].parent_run_id is Some);
            }
        }
    }
    assert forall|cwd: Seq<char>, task: Seq<char>| #[trigger]
        task_is_running(after, cwd, task) implies task_is_running(before, cwd, task) by {
        let i = choose|i: int|
            0 <= i < after.len() && (#[trigger] after[i]).status == TaskRunStatus::Running
                && after[i].cwd == cwd && after[i].task == task;
        if i < before.len() {
            assert(before[i].id == after[i].id);
            assert(before[i].status == TaskRunStatus::Running);
        }
    }
}

/// Changes of this kind keep every stored run stored, at its place.
pub proof fn lemma_settles_lookup(before: Seq<RunSpec>, after: Seq<RunSpec>, id: Seq<char>)
    requires
        unique_ids(before),
        unique_ids(after),
        settles(before, after),
        has_run(before, id),
    ensures
        has_run(after, id),
        run_index(after, id) == run_index(before, id),
{
    let i = run_index(before, id);
    assert(after[i].id == before[i].id);
    lemma_run_index(after, i);
}

} // verus!
