//! The steps in the life of a run: creation, promotion to running,
//! completion, and the log lines written on the way.
use vstd::prelude::*;
use crate::api::dependencies::{next_unmet, next_unmet_dependency};
use crate::api::events::{Effect, TaskRunLogLine, status_event_of};
use crate::api::invariants::{has_child, keeps_order, one_running_per_task, running_unblocked};
use crate::api::model::{EffectSpec, EngineSpec, has_run, lemma_run_index, line_of, run_index, run_of, status_event};
use crate::api::state::{AppState, lemma_set_run_wf};
use crate::config::{Task, TaskSpec};
use crate::db::entities::task_run::{Model, RunSpec, TaskRunStatus};
use crate::text::{opt_chars, opt_owned};

verus! {

/// The state after the run `id`, if it is stored, got a new status, a new
/// blocking dependency and a new time of change, and the change was
/// announced.
pub open spec fn update_status(
    s: EngineSpec,
    id: Seq<char>,
    status: TaskRunStatus,
    waiting_on: Option<Seq<char>>,
    now: i64,
) -> EngineSpec {
    if has_run(s.runs, id) {
        let i = run_index(s.runs, id);
        let changed = s.set_run(i, status, waiting_on, now);
        changed.emit(status_event(changed.runs[i]))
    } else {
        s
    }
}

/// The state after a log line was stored and announced. When the numbers
/// have run out the line is dropped.
pub open spec fn append_log(
    s: EngineSpec,
    run_id: Seq<char>,
    task: Seq<char>,
    line: Seq<char>,
    is_stderr: bool,
    now: i64,
) -> EngineSpec {
    if s.has_log_room() {
        let log = s.next_log(run_id, task, line, is_stderr, now);
        s.store_log(log).emit(EffectSpec::LogAppended(line_of(log)))
    } else {
        s
    }
}

/// A run as it is created: queued, and waiting for the first dependency of
/// its task that is not satisfied.
pub open spec fn new_run(
    s: EngineSpec,
    task_key: Seq<char>,
    task: TaskSpec,
    cwd: Seq<char>,
    parent_run_id: Option<Seq<char>>,
    id: Seq<char>,
    now: i64,
) -> RunSpec {
    RunSpec {
        id,
        task: task_key,
        cwd,
        parent_run_id,
        status: TaskRunStatus::Queued,
        updated_at: now,
        waiting_on: next_unmet(s.runs, cwd, task),
    }
}

/// The request to execute a run.
pub open spec fn execute_effect(run: RunSpec, command: Option<Seq<char>>) -> EffectSpec {
    EffectSpec::Execute { run_id: run.id, task: run.task, cwd: run.cwd, command }
}

/// The state after a run was created: stored, announced, and, if it waits
/// for nothing, sent off to execution. Nothing happens when the store does
/// not accept the run.
pub open spec fn create_run(
    s: EngineSpec,
    task_key: Seq<char>,
    task: TaskSpec,
    cwd: Seq<char>,
    parent_run_id: Option<Seq<char>>,
    id: Seq<char>,
    now: i64,
) -> EngineSpec {
    let run = new_run(s, task_key, task, cwd, parent_run_id, id, now);
    if s.accepts(run) {
        let stored = s.insert(run).emit(status_event(run));
        if run.waiting_on is None {
            stored.emit(execute_effect(run, task.command))
        } else {
            stored
        }
    } else {
        s
    }
}

/// The state after the run `id` was promoted to running.
pub open spec fn mark_running(s: EngineSpec, id: Seq<char>, now: i64) -> EngineSpec {
    update_status(s, id, TaskRunStatus::Running, None, now)
}

/// Whether the execution that promoted the run `id` at time `generation` may
/// still record how it ended: the run is stored, is running, and has not
/// changed since.
pub open spec fn is_current(s: EngineSpec, id: Seq<char>, generation: i64) -> bool {
    &&& has_run(s.runs, id)
    &&& run_of(s.runs, id).status == TaskRunStatus::Running
    &&& run_of(s.runs, id).updated_at == generation
}

/// The state after an execution of the run `id` ended with `outcome`. An
/// execution that is no longer the current one changes nothing.
pub open spec fn complete(
    s: EngineSpec,
    id: Seq<char>,
    generation: i64,
    outcome: TaskRunStatus,
    now: i64,
) -> EngineSpec {
    if is_current(s, id, generation) {
        update_status(s, id, outcome, None, now)
    } else {
        s
    }
}

/// A change of status keeps the state consistent and touches one run only.
/// Unless the new status is `Running`, it is a settling change.
#[verifier::rlimit(40)]
pub proof fn lemma_update_status(
    s: EngineSpec,
    id: Seq<char>,
    status: TaskRunStatus,
    waiting_on: Option<Seq<char>>,
    now: i64,
)
    requires
        s.wf(),
    ensures
        update_status(s, id, status, waiting_on, now).wf(),
        update_status(s, id, status, waiting_on, now).runs.len() == s.runs.len(),
        update_status(s, id, status, waiting_on, now).logs == s.logs,
        update_status(s, id, status, waiting_on, now).next_log_id == s.next_log_id,
        status != TaskRunStatus::Running ==> keeps_order(
            s,
            update_status(s, id, status, waiting_on, now),
        ),
        forall|k: int|
            0 <= k < s.runs.len() ==> {
                let r = #[trigger] update_status(s, id, status, waiting_on, now).runs[k];
                &&& r.id == s.runs[k].id
                &&& r.task == s.runs[k].task
                &&& r.cwd == s.runs[k].cwd
                &&& r.parent_run_id == s.runs[k].parent_run_id
                &&& s.runs[k].id != id ==> r == s.runs[k]
                &&& s.runs[k].id == id ==> r.status == status && r.waiting_on == waiting_on
                    && r.updated_at == now
            },
        forall|other: Seq<char>|
            has_run(s.runs, other) == #[trigger] has_run(
                update_status(s, id, status, waiting_on, now).runs,
                other,
            ),
        forall|other: Seq<char>|
            has_run(s.runs, other) ==> run_index(s.runs, other) == #[trigger] run_index(
                update_status(s, id, status, waiting_on, now).runs,
                other,
            ),
{
    if has_run(s.runs, id) {
        let i = run_index(s.runs, id);
        lemma_set_run_wf(s, i, status, waiting_on, now);
        let t = update_status(s, id, status, waiting_on, now);
        assert forall|k: int| 0 <= k < s.runs.len() implies {
            let r = #[trigger] t.runs[k];
            &&& s.runs[k].id != id ==> r == s.runs[k]
            &&& s.runs[k].id == id ==> r.status == status && r.waiting_on == waiting_on
                && r.updated_at == now
        } by {
            lemma_run_index(s.runs, k);
        }
    }
}

/// The promotion of a run leaves running runs without a blocking dependency.
/// It leaves at most one run per task running unless another run of the same
/// task in the same working directory is running already.
#[verifier::rlimit(40)]
pub proof fn lemma_mark_running(s: EngineSpec, id: Seq<char>, now: i64)
    requires
        s.wf(),
    ensures
        mark_running(s, id, now).wf(),
        running_unblocked(s.runs) ==> running_unblocked(mark_running(s, id, now).runs),
        one_running_per_task(s.runs) && has_run(s.runs, id) && (forall|k: int|
            0 <= k < s.runs.len() && (#[trigger] s.runs[k]).status == TaskRunStatus::Running
                && s.runs[k].cwd == run_of(s.runs, id).cwd && s.runs[k].task == run_of(
                s.runs,
                id,
            ).task ==> s.runs[k].id == id) ==> one_running_per_task(mark_running(s, id, now).runs),
        !has_run(s.runs, id) ==> mark_running(s, id, now) == s,
{
    lemma_update_status(s, id, TaskRunStatus::Running, None, now);
    let t = mark_running(s, id, now);
    if running_unblocked(s.runs) {
        assert forall|i: int|
            0 <= i < t.runs.len() && (#[trigger] t.runs[i]).status
                == TaskRunStatus::Running implies t.runs[i].waiting_on is None by {
            assert(t.runs[i].id == s.runs[i].id);
        }
    }
    if has_run(s.runs, id) {
        let m = run_index(s.runs, id);
        if one_running_per_task(s.runs) && (forall|k: int|
            0 <= k < s.runs.len() && (#[trigger] s.runs[k]).status == TaskRunStatus::Running
                && s.runs[k].cwd == run_of(s.runs, id).cwd && s.runs[k].task == run_of(
                s.runs,
                id,
            ).task ==> s.runs[k].id == id) {
            assert forall|i: int, j: int|
                0 <= i < j < t.runs.len() && (#[trigger] t.runs[i]).status
                    == TaskRunStatus::Running && (#[trigger] t.runs[j]).status
                    == TaskRunStatus::Running implies !(t.runs[i].cwd == t.runs[j].cwd
                && t.runs[i].task == t.runs[j].task) by {
                assert(t.runs[i].id == s.runs[i].id);
                assert(t.runs[j].id == s.runs[j].id);
                assert(t.runs[m].id == s.runs[m].id);
                lemma_run_index(s.runs, i);
                lemma_run_index(s.runs, j);
            }
        }
    }
}

/// The creation of a run keeps the state consistent, starts no run, and
/// gives no run a second child for a task as long as the parent has no child
/// for the task yet.
#[verifier::rlimit(40)]
pub proof fn lemma_create_run(
    s: EngineSpec,
    task_key: Seq<char>,
    task: TaskSpec,
    cwd: Seq<char>,
    parent_run_id: Option<Seq<char>>,
    id: Seq<char>,
    now: i64,
)
    requires
        s.wf(),
        parent_run_id matches Some(parent) ==> !has_child(s.runs, parent, task_key),
    ensures
        keeps_order(s, create_run(s, task_key, task, cwd, parent_run_id, id, now)),
        create_run(s, task_key, task, cwd, parent_run_id, id, now).logs == s.logs,
        create_run(s, task_key, task, cwd, parent_run_id, id, now).next_log_id == s.next_log_id,
{
    let run = new_run(s, task_key, task, cwd, parent_run_id, id, now);
    let t = create_run(s, task_key, task, cwd, parent_run_id, id, now);
    if s.accepts(run) {
        assert(t.runs == s.runs.push(run));
        assert forall|i: int| 0 <= i < t.runs.len() implies #[trigger] crate::api::model::parent_precedes(
            t.runs,
            i,
        ) by {
            if i < s.runs.len() {
                assert(crate::api::model::parent_precedes(s.runs, i));
                if s.runs[i].parent_run_id is Some {
                    let j = choose|j: int|
                        0 <= j < i && (#[trigger] s.runs[j]).id == s.runs[i].parent_run_id->0
                            && s.runs[j].cwd == s.runs[i].cwd;
                    assert(t.runs[j] == s.runs[j]);
                }
            } else if parent_run_id is Some {
                let j = run_index(s.runs, parent_run_id->0);
                assert(t.runs[j] == s.runs[j]);
            }
        }
        assert forall|i: int, j: int| 0 <= i < j < t.runs.len() implies (#[trigger] t.runs[i]).id
            != (#[trigger] t.runs[j]).id by {
            if j < s.runs.len() {
                assert(s.runs[i].id != s.runs[j].id);
            } else {
                assert(s.runs[i].id != id);
            }
        }
        assert forall|i: int, j: int|
            0 <= i < j < t.runs.len() && s.runs.len() <= j && (#[trigger] t.runs[i]).parent_run_id
                is Some implies !(t.runs[i].parent_run_id == (#[trigger] t.runs[j]).parent_run_id
            && t.runs[i].task == t.runs[j].task) by {
            if t.runs[i].parent_run_id == t.runs[j].parent_run_id && t.runs[i].task
                == t.runs[j].task {
                assert(s.runs[i].parent_run_id == Some(parent_run_id->0) && s.runs[i].task
                    == task_key);
            }
        }
    }
}

/// Appending a log line keeps the state consistent and leaves the runs as
/// they are. The new line gets a number above all stored ones.
pub proof fn lemma_append_log(
    s: EngineSpec,
    run_id: Seq<char>,
    task: Seq<char>,
    line: Seq<char>,
    is_stderr: bool,
    now: i64,
)
    requires
        s.wf(),
    ensures
        append_log(s, run_id, task, line, is_stderr, now).wf(),
        append_log(s, run_id, task, line, is_stderr, now).runs == s.runs,
        keeps_order(s, append_log(s, run_id, task, line, is_stderr, now)),
{
    let t = append_log(s, run_id, task, line, is_stderr, now);
    if s.has_log_room() {
        let log = s.next_log(run_id, task, line, is_stderr, now);
        assert forall|i: int, j: int| 0 <= i < j < t.logs.len() implies (#[trigger] t.logs[i]).id
            < (#[trigger] t.logs[j]).id by {
            if j < s.logs.len() {
                assert(s.logs[i].id < s.logs[j].id);
            } else {
                assert(s.logs[i].id < s.next_log_id);
            }
        }
        assert forall|i: int| 0 <= i < t.logs.len() implies 0 < (#[trigger] t.logs[i]).id
            < t.next_log_id by {
            if i < s.logs.len() {
                assert(0 < s.logs[i].id < s.next_log_id);
            }
        }
    }
}

/// Gives the run `run_id`, if it is stored, a new status, a new blocking
/// dependency and the time `now` as its time of change, and announces the
/// change to the subscribers. Unless the new status is `Running`, no run
/// starts running by it.
pub(crate) fn update_task_run_status(
    state: &mut AppState,
    run_id: &str,
    status: TaskRunStatus,
    waiting_on: Option<String>,
    now: i64,
)
    requires
        old(state)@.wf(),
    ensures
        final(state)@ == update_status(old(state)@, run_id@, status, opt_chars(waiting_on), now),
        final(state)@.wf(),
        status != TaskRunStatus::Running ==> keeps_order(old(state)@, final(state)@),
{
    proof {
        lemma_update_status(state@, run_id@, status, opt_chars(waiting_on), now);
    }
    match state.find_task_run_index(run_id) {
        Some(i) => {
            state.set_task_run(i, status, waiting_on, now);
            let event = status_event_of(&state.task_runs()[i]);
            state.emit(event);
        },
        None => {},
    }
}

/// Stores one log line of a run under the next number and announces it to
/// the subscribers. Returns the line as announced, or `None` when it could
/// not be stored; the run is not affected by that.
pub fn append_task_log_line(
    state: &mut AppState,
    run_id: String,
    task: String,
    line: String,
    is_stderr: bool,
    now: i64,
) -> (stored: Option<TaskRunLogLine>)
    requires
        old(state)@.wf(),
    ensures
        final(state)@ == append_log(old(state)@, run_id@, task@, line@, is_stderr, now),
        stored is Some == old(state)@.has_log_room(),
        stored matches Some(l) ==> l@ == line_of(
            old(state)@.next_log(run_id@, task@, line@, is_stderr, now),
        ),
        final(state)@.wf(),
        final(state)@.runs == old(state)@.runs,
        keeps_order(old(state)@, final(state)@),
{
    proof {
        lemma_append_log(state@, run_id@, task@, line@, is_stderr, now);
    }
    match state.store_log(run_id, task, line, is_stderr, now) {
        Some(row) => {
            let line = TaskRunLogLine::from_row(&row);
            state.emit(Effect::LogAppended(line.clone()));
            Some(line)
        },
        None => None,
    }
}

/// Creates a run of the task `task_key` in `cwd`: queued, waiting for the
/// first dependency of `task` that is not satisfied. The run is stored and
/// announced; if it waits for nothing it is sent off to execution. Returns
/// the run, or `None` when the store did not accept it: the id is taken, or
/// the parent is not stored in the same working directory.
#[verifier::rlimit(40)]
pub(crate) fn create_task_run(
    state: &mut AppState,
    task_key: String,
    task: &Task,
    cwd: String,
    parent_run_id: Option<String>,
    id: String,
    now: i64,
) -> (created: Option<Model>)
    requires
        old(state)@.wf(),
    ensures
        final(state)@ == create_run(
            old(state)@,
            task_key@,
            task@,
            cwd@,
            opt_chars(parent_run_id),
            id@,
            now,
        ),
        created is Some == old(state)@.accepts(
            new_run(old(state)@, task_key@, task@, cwd@, opt_chars(parent_run_id), id@, now),
        ),
        created matches Some(run) ==> run@ == new_run(
            old(state)@,
            task_key@,
            task@,
            cwd@,
            opt_chars(parent_run_id),
            id@,
            now,
        ),
        final(state)@.wf(),
        (opt_chars(parent_run_id) matches Some(parent) ==> !has_child(
            old(state)@.runs,
            parent,
            task_key@,
        )) ==> keeps_order(old(state)@, final(state)@),
{
    let waiting_on = next_unmet_dependency(state.task_runs(), cwd.as_str(), task);
    let run = Model {
        id,
        task: task_key,
        cwd,
        parent_run_id,
        status: TaskRunStatus::Queued,
        updated_at: now,
        waiting_on,
    };
    proof {
        if run@.parent_run_id matches Some(parent) ==> !has_child(state@.runs, parent, run@.task) {
            lemma_create_run(
                state@,
                run@.task,
                task@,
                run@.cwd,
                run@.parent_run_id,
                run@.id,
                now,
            );
        }
    }
    let ghost before = state@;
    if !state.insert_task_run(run.clone()) {
        return None;
    }
    proof {
        lemma_accepted_wf(before, run@);
    }
    state.emit(status_event_of(&run));
    if run.waiting_on.is_none() {
        start_task_run_execution(state, &run, opt_owned(&task.command));
    }
    Some(run)
}

/// A state that accepts a run stays consistent with it.
pub proof fn lemma_accepted_wf(s: EngineSpec, run: RunSpec)
    requires
        s.wf(),
        s.accepts(run),
    ensures
        s.insert(run).wf(),
{
    let t = s.insert(run);
    assert forall|i: int| 0 <= i < t.runs.len() implies #[trigger] crate::api::model::parent_precedes(
        t.runs,
        i,
    ) by {
        if i < s.runs.len() {
            assert(crate::api::model::parent_precedes(s.runs, i));
            if s.runs[i].parent_run_id is Some {
                let j = choose|j: int|
                    0 <= j < i && (#[trigger] s.runs[j]).id == s.runs[i].parent_run_id->0
                        && s.runs[j].cwd == s.runs[i].cwd;
                assert(t.runs[j] == s.runs[j]);
            }
        } else if run.parent_run_id is Some {
            let j = run_index(s.runs, run.parent_run_id->0);
            assert(t.runs[j] == s.runs[j]);
        }
    }
    assert forall|i: int, j: int| 0 <= i < j < t.runs.len() implies (#[trigger] t.runs[i]).id != (
    #[trigger] t.runs[j]).id by {
        if j < s.runs.len() {
            assert(s.runs[i].id != s.runs[j].id);
        } else {
            assert(s.runs[i].id != run.id);
        }
    }
}

/// Sends a run off to execution: whoever performs the effects marks it
/// running, runs `command`, and reports how it ended.
pub(crate) fn start_task_run_execution(state: &mut AppState, run: &Model, command: Option<String>)
    ensures
        final(state)@ == old(state)@.emit(execute_effect(run@, opt_chars(command))),
{
    state.emit(
        Effect::Execute {
            run_id: run.id.clone(),
            task: run.task.clone(),
            cwd: run.cwd.clone(),
            command,
        },
    );
}

/// Promotes the run `run_id` to running: it waits for nothing any more, and
/// `now` is its time of change. Returns that time, by which the execution
/// is known when it ends, or `None` when the run is not stored.
///
/// A running run never waits. At most one run per task stays running unless
/// another run of the same task in the same working directory is running
/// already.
pub fn mark_task_run_running_at(state: &mut AppState, run_id: &str, now: i64) -> (generation:
    Option<i64>)
    requires
        old(state)@.wf(),
    ensures
        final(state)@ == mark_running(old(state)@, run_id@, now),
        generation == (if has_run(old(state)@.runs, run_id@) {
            Some(now)
        } else {
            None
        }),
        final(state)@.wf(),
        running_unblocked(old(state)@.runs) ==> running_unblocked(final(state)@.runs),
        one_running_per_task(old(state)@.runs) && has_run(old(state)@.runs, run_id@) && (forall|
            k: int,
        |
            0 <= k < old(state)@.runs.len() && (#[trigger] old(state)@.runs[k]).status
                == TaskRunStatus::Running && old(state)@.runs[k].cwd == run_of(
                old(state)@.runs,
                run_id@,
            ).cwd && old(state)@.runs[k].task == run_of(old(state)@.runs, run_id@).task
                ==> old(state)@.runs[k].id == run_id@) ==> one_running_per_task(
            final(state)@.runs,
        ),
{
    proof {
        lemma_mark_running(state@, run_id@, now);
    }
    let found = state.find_task_run_index(run_id).is_some();
    update_task_run_status(state, run_id, TaskRunStatus::Running, None, now);
    if found {
        Some(now)
    } else {
        None
    }
}

/// Promotes the run `run_id` to running at the current time.
pub fn mark_task_run_running(state: &mut AppState, run_id: &str) -> (generation: Option<i64>)
    requires
        old(state)@.wf(),
    ensures
        generation is Some == has_run(old(state)@.runs, run_id@),
        generation matches Some(now) ==> final(state)@ == mark_running(old(state)@, run_id@, now),
        generation is None ==> final(state)@ == old(state)@,
        final(state)@.wf(),
        running_unblocked(old(state)@.runs) ==> running_unblocked(final(state)@.runs),
        one_running_per_task(old(state)@.runs) && has_run(old(state)@.runs, run_id@) && (forall|
            k: int,
        |
            0 <= k < old(state)@.runs.len() && (#[trigger] old(state)@.runs[k]).status
                == TaskRunStatus::Running && old(state)@.runs[k].cwd == run_of(
                old(state)@.runs,
                run_id@,
            ).cwd && old(state)@.runs[k].task == run_of(old(state)@.runs, run_id@).task
                ==> old(state)@.runs[k].id == run_id@) ==> one_running_per_task(
            final(state)@.runs,
        ),
{
    let now = crate::api::fresh::now_millis();
    mark_task_run_running_at(state, run_id, now)
}

/// Records how the execution that promoted the run at time `generation`
/// ended. Nothing is recorded when the run is gone, has been cancelled, or
/// has been taken over by another execution since. Returns whether the
/// outcome was recorded.
pub fn finish_task_run_execution_at(
    state: &mut AppState,
    run_id: &str,
    generation: i64,
    outcome: TaskRunStatus,
    now: i64,
) -> (recorded: bool)
    requires
        old(state)@.wf(),
        outcome.is_terminal(),
    ensures
        final(state)@ == complete(old(state)@, run_id@, generation, outcome, now),
        recorded == is_current(old(state)@, run_id@, generation),
        keeps_order(old(state)@, final(state)@),
{
    proof {
        crate::api::invariants::lemma_settles_refl(state@.runs);
    }
    let current = match state.find_task_run(run_id) {
        Some(run) => run.status == TaskRunStatus::Running && run.updated_at == generation,
        None => false,
    };
    if current {
        update_task_run_status(state, run_id, outcome, None, now);
    }
    current
}

/// Records at the current time how an execution ended.
pub fn finish_task_run_execution(
    state: &mut AppState,
    run_id: &str,
    generation: i64,
    outcome: TaskRunStatus,
) -> (recorded: bool)
    requires
        old(state)@.wf(),
        outcome.is_terminal(),
    ensures
        recorded == is_current(old(state)@, run_id@, generation),
        exists|now: i64|
            final(state)@ == complete(old(state)@, run_id@, generation, outcome, now),
        keeps_order(old(state)@, final(state)@),
{
    let now = crate::api::fresh::now_millis();
    finish_task_run_execution_at(state, run_id, generation, outcome, now)
}

} // verus!
