//! What follows from the success of a run: runs that waited for its task go
//! on, and its sub-tasks get their runs.
use vstd::prelude::*;
use crate::api::dependencies::{next_unmet, next_unmet_dependency};
use crate::api::events::TaskRunStatusChangedEvent;
use crate::api::invariants::{has_child, keeps_order, lemma_settles_refl, lemma_settles_trans};
use crate::api::lifecycle::{create_run, create_task_run, execute_effect, lemma_create_run, lemma_update_status, new_run, start_task_run_execution, update_status, update_task_run_status};
use crate::api::model::{EngineSpec, Outcome, has_run, run_of};
use crate::api::fresh::{is_task_run_id, new_task_run_id};
use crate::api::state::AppState;
use crate::config::{Config, TaskSpec, entries_of, resolve_task};
use crate::db::entities::task_run::{Model, RunSpec, TaskRunStatus, runs_of};
use crate::text::{names_of, opt_owned, opt_str_is, str_eq};

verus! {

/// Whether a run is queued in `cwd` and waits for `task`.
pub open spec fn waits_for(run: RunSpec, cwd: Seq<char>, task: Seq<char>) -> bool {
    run.cwd == cwd && run.status == TaskRunStatus::Queued && run.waiting_on == Some(task)
}

/// The ids of those among the first `n` runs that are queued in `cwd` and
/// wait for `task`, in their order.
pub open spec fn waiting_ids(runs: Seq<RunSpec>, cwd: Seq<char>, task: Seq<char>, n: int) -> Seq<
    Seq<char>,
>
    decreases n,
{
    if n <= 0 || n > runs.len() {
        Seq::empty()
    } else if waits_for(runs[n - 1], cwd, task) {
        waiting_ids(runs, cwd, task, n - 1).push(runs[n - 1].id)
    } else {
        waiting_ids(runs, cwd, task, n - 1)
    }
}

/// The state after the run `id`, which waited for a task that has
/// succeeded, was looked at again. It now waits for the first dependency of
/// its task that is still unmet; if there is none it waits for nothing and
/// is sent off to execution. A run that is not stored, or whose task the
/// configuration does not know, is left alone.
#[verifier::opaque]
pub open spec fn wake_one(
    s: EngineSpec,
    config: Seq<(Seq<char>, TaskSpec)>,
    id: Seq<char>,
    now: i64,
) -> EngineSpec {
    if !has_run(s.runs, id) {
        s
    } else {
        let run = run_of(s.runs, id);
        match resolve_task(config, run.task) {
            None => s,
            Some(task) => {
                let waiting_on = next_unmet(s.runs, run.cwd, task);
                let updated = update_status(s, id, TaskRunStatus::Queued, waiting_on, now);
                if waiting_on is Some {
                    updated
                } else {
                    updated.emit(execute_effect(run, task.command))
                }
            },
        }
    }
}

/// The state after the first `n` of the runs `ids` were looked at again, one
/// after the other.
pub open spec fn wake_all(
    s: EngineSpec,
    config: Seq<(Seq<char>, TaskSpec)>,
    ids: Seq<Seq<char>>,
    n: int,
    now: i64,
) -> EngineSpec
    decreases n,
{
    if n <= 0 || n > ids.len() {
        s
    } else {
        wake_one(wake_all(s, config, ids, n - 1, now), config, ids[n - 1], now)
    }
}

/// The state after the runs that waited for the task `task` in `cwd` were
/// looked at again.
pub open spec fn wake_waiting(
    s: EngineSpec,
    config: Seq<(Seq<char>, TaskSpec)>,
    cwd: Seq<char>,
    task: Seq<char>,
    now: i64,
) -> EngineSpec {
    let ids = waiting_ids(s.runs, cwd, task, s.runs.len() as int);
    wake_all(s, config, ids, ids.len() as int, now)
}

/// The full name of a sub-task: the name of its parent, a colon, its key.
pub open spec fn sub_task_name(parent: Seq<char>, key: Seq<char>) -> Seq<char> {
    parent.push(':') + key
}

/// The state after the sub-task `key` of a run that has succeeded was
/// looked at. Unless the configuration does not know the sub-task, or the
/// run has a child for it already, a child run is created under the id
/// `id`; it is a failure if the store does not accept it.
#[verifier::opaque]
pub open spec fn spawn_one(
    s: EngineSpec,
    config: Seq<(Seq<char>, TaskSpec)>,
    run_id: Seq<char>,
    task: Seq<char>,
    cwd: Seq<char>,
    key: Seq<char>,
    id: Seq<char>,
    now: i64,
) -> Outcome {
    let name = sub_task_name(task, key);
    match resolve_task(config, name) {
        None => Outcome { state: s, failed: false },
        Some(sub_task) => if has_child(s.runs, run_id, name) {
            Outcome { state: s, failed: false }
        } else if s.accepts(new_run(s, name, sub_task, cwd, Some(run_id), id, now)) {
            Outcome {
                state: create_run(s, name, sub_task, cwd, Some(run_id), id, now),
                failed: false,
            }
        } else {
            Outcome { state: s, failed: true }
        },
    }
}

/// The state after the first `n` sub-tasks were looked at, one after the
/// other, up to the first failure. The sub-task at `k` gets the id at `k`;
/// it is a failure if there is none.
pub open spec fn spawn_all(
    s: EngineSpec,
    config: Seq<(Seq<char>, TaskSpec)>,
    run_id: Seq<char>,
    task: Seq<char>,
    cwd: Seq<char>,
    children: Seq<(Seq<char>, TaskSpec)>,
    ids: Seq<Seq<char>>,
    n: int,
    now: i64,
) -> Outcome
    decreases n,
{
    if n <= 0 || n > children.len() {
        Outcome { state: s, failed: false }
    } else {
        let before = spawn_all(s, config, run_id, task, cwd, children, ids, n - 1, now);
        if before.failed {
            before
        } else if n > ids.len() {
            Outcome { state: before.state, failed: true }
        } else {
            spawn_one(before.state, config, run_id, task, cwd, children[n - 1].0, ids[n - 1], now)
        }
    }
}

/// The sub-tasks that the configuration states for a task; none for a task
/// that it does not know.
pub open spec fn sub_tasks(config: Seq<(Seq<char>, TaskSpec)>, task: Seq<char>) -> Seq<
    (Seq<char>, TaskSpec),
> {
    match resolve_task(config, task) {
        Some(parent) => match parent.tasks {
            Some(children) => children,
            None => Seq::empty(),
        },
        None => Seq::empty(),
    }
}

/// The state after the sub-tasks of the task of a run that has succeeded
/// were looked at, up to the first failure.
pub open spec fn spawn_children(
    s: EngineSpec,
    config: Seq<(Seq<char>, TaskSpec)>,
    run_id: Seq<char>,
    task: Seq<char>,
    cwd: Seq<char>,
    ids: Seq<Seq<char>>,
    now: i64,
) -> Outcome {
    let children = sub_tasks(config, task);
    spawn_all(s, config, run_id, task, cwd, children, ids, children.len() as int, now)
}

/// `after` holds the runs of `before` and, behind them, one queued child run
/// of the run `run_id` in `cwd` under the id `id`.
pub open spec fn child_added(
    before: Seq<RunSpec>,
    after: Seq<RunSpec>,
    run_id: Seq<char>,
    cwd: Seq<char>,
    id: Seq<char>,
) -> bool {
    &&& after.len() == before.len() + 1
    &&& after.drop_last() == before
    &&& after.last().id == id
    &&& after.last().parent_run_id == Some(run_id)
    &&& after.last().cwd == cwd
    &&& after.last().status == TaskRunStatus::Queued
}

/// `after` holds the runs of `before` unchanged and, behind them, queued
/// child runs of the run `run_id` in `cwd`, each under one of the ids `ids`.
pub open spec fn children_added(
    before: Seq<RunSpec>,
    after: Seq<RunSpec>,
    run_id: Seq<char>,
    cwd: Seq<char>,
    ids: Seq<Seq<char>>,
) -> bool {
    &&& before.len() <= after.len()
    &&& forall|i: int| 0 <= i < before.len() ==> #[trigger] after[i] == before[i]
    &&& forall|i: int|
        before.len() <= i < after.len() ==> {
            &&& ids.contains((#[trigger] after[i]).id)
            &&& after[i].parent_run_id == Some(run_id)
            &&& after[i].cwd == cwd
            &&& after[i].status == TaskRunStatus::Queued
        }
}

/// Every run of `after` behind those of `before` has an id of the shape
/// that fresh ids have.
pub open spec fn added_under_fresh_ids(before: Seq<RunSpec>, after: Seq<RunSpec>) -> bool {
    forall|i: int| before.len() <= i < after.len() ==> is_task_run_id((#[trigger] after[i]).id)
}

/// Looking at a waiting run again changes that run only, and starts none.
pub proof fn lemma_wake_one(
    s: EngineSpec,
    config: Seq<(Seq<char>, TaskSpec)>,
    id: Seq<char>,
    now: i64,
)
    requires
        s.wf(),
    ensures
        keeps_order(s, wake_one(s, config, id, now)),
        wake_one(s, config, id, now).runs.len() == s.runs.len(),
        wake_one(s, config, id, now).logs == s.logs,
{
    reveal(wake_one);
    lemma_settles_refl(s.runs);
    if has_run(s.runs, id) {
        let run = run_of(s.runs, id);
        if resolve_task(config, run.task) is Some {
            let task = resolve_task(config, run.task)->0;
            lemma_update_status(
                s,
                id,
                TaskRunStatus::Queued,
                next_unmet(s.runs, run.cwd, task),
                now,
            );
        }
    }
}

/// Looking at waiting runs again starts no run and keeps the state
/// consistent.
pub proof fn lemma_wake_all(
    s: EngineSpec,
    config: Seq<(Seq<char>, TaskSpec)>,
    ids: Seq<Seq<char>>,
    n: int,
    now: i64,
)
    requires
        s.wf(),
        0 <= n <= ids.len(),
    ensures
        keeps_order(s, wake_all(s, config, ids, n, now)),
        wake_all(s, config, ids, n, now).runs.len() == s.runs.len(),
        wake_all(s, config, ids, n, now).logs == s.logs,
    decreases n,
{
    lemma_settles_refl(s.runs);
    if n > 0 {
        let mid = wake_all(s, config, ids, n - 1, now);
        lemma_wake_all(s, config, ids, n - 1, now);
        lemma_wake_one(mid, config, ids[n - 1], now);
        lemma_settles_trans(s.runs, mid.runs, wake_all(s, config, ids, n, now).runs);
    }
}

/// The creation of a child run for a sub-task starts no run and gives no
/// run a second child for a task.
pub proof fn lemma_spawn_one(
    s: EngineSpec,
    config: Seq<(Seq<char>, TaskSpec)>,
    run_id: Seq<char>,
    task: Seq<char>,
    cwd: Seq<char>,
    key: Seq<char>,
    id: Seq<char>,
    now: i64,
)
    requires
        s.wf(),
    ensures
        keeps_order(s, spawn_one(s, config, run_id, task, cwd, key, id, now).state),
        spawn_one(s, config, run_id, task, cwd, key, id, now).state.logs == s.logs,
{
    reveal(spawn_one);
    lemma_settles_refl(s.runs);
    let name = sub_task_name(task, key);
    if resolve_task(config, name) is Some && !has_child(s.runs, run_id, name) {
        lemma_create_run(s, name, resolve_task(config, name)->0, cwd, Some(run_id), id, now);
    }
}

/// The creation of child runs starts no run and gives no run a second child
/// for a task.
pub proof fn lemma_spawn_all(
    s: EngineSpec,
    config: Seq<(Seq<char>, TaskSpec)>,
    run_id: Seq<char>,
    task: Seq<char>,
    cwd: Seq<char>,
    children: Seq<(Seq<char>, TaskSpec)>,
    ids: Seq<Seq<char>>,
    n: int,
    now: i64,
)
    requires
        s.wf(),
    ensures
        keeps_order(s, spawn_all(s, config, run_id, task, cwd, children, ids, n, now).state),
        spawn_all(s, config, run_id, task, cwd, children, ids, n, now).state.logs == s.logs,
    decreases n,
{
    lemma_settles_refl(s.runs);
    if 0 < n <= children.len() {
        let mid = spawn_all(s, config, run_id, task, cwd, children, ids, n - 1, now);
        lemma_spawn_all(s, config, run_id, task, cwd, children, ids, n - 1, now);
        if !mid.failed && n <= ids.len() {
            lemma_spawn_one(
                mid.state,
                config,
                run_id,
                task,
                cwd,
                children[n - 1].0,
                ids[n - 1],
                now,
            );
            lemma_settles_trans(
                s.runs,
                mid.state.runs,
                spawn_all(s, config, run_id, task, cwd, children, ids, n, now).state.runs,
            );
        }
    }
}

/// Once a failure has occurred nothing more happens.
pub proof fn lemma_spawn_stays_failed(
    s: EngineSpec,
    config: Seq<(Seq<char>, TaskSpec)>,
    run_id: Seq<char>,
    task: Seq<char>,
    cwd: Seq<char>,
    children: Seq<(Seq<char>, TaskSpec)>,
    ids: Seq<Seq<char>>,
    n: int,
    m: int,
    now: i64,
)
    requires
        0 <= n <= m <= children.len(),
        spawn_all(s, config, run_id, task, cwd, children, ids, n, now).failed,
    ensures
        spawn_all(s, config, run_id, task, cwd, children, ids, m, now) == spawn_all(
            s,
            config,
            run_id,
            task,
            cwd,
            children,
            ids,
            n,
            now,
        ),
    decreases m - n,
{
    if n < m {
        lemma_spawn_stays_failed(s, config, run_id, task, cwd, children, ids, n, m - 1, now);
    }
}

/// The ids of the runs that are queued in `cwd` and wait for `task`.
fn waiting_run_ids(runs: &Vec<Model>, cwd: &str, task: &str) -> (ids: Vec<String>)
    ensures
        names_of(ids@) == waiting_ids(runs_of(runs@), cwd@, task@, runs@.len() as int),
{
    let ghost model = runs_of(runs@);
    let mut ids: Vec<String> = Vec::new();
    let mut n: usize = 0;
    assert(names_of(ids@) =~= waiting_ids(model, cwd@, task@, 0));
    while n < runs.len()
        invariant
            n <= runs.len(),
            model == runs_of(runs@),
            names_of(ids@) == waiting_ids(model, cwd@, task@, n as int),
        decreases runs.len() - n,
    {
        let run = &runs[n];
        assert(model[n as int] == run@);
        let ghost before = names_of(ids@);
        if str_eq(run.cwd.as_str(), cwd) && run.status == TaskRunStatus::Queued && opt_str_is(
            &run.waiting_on,
            task,
        ) {
            ids.push(run.id.clone());
            assert(names_of(ids@) =~= before.push(run.id@));
        }
        n += 1;
    }
    ids
}

/// Looks again at the run `run_id`, which waited for a task that has
/// succeeded (see [`wake_one`]).
#[verifier::rlimit(40)]
fn wake_task_run(state: &mut AppState, config: &Config, run_id: &str, now: i64)
    requires
        old(state)@.wf(),
    ensures
        final(state)@ == wake_one(old(state)@, config.entries(), run_id@, now),
        final(state)@.wf(),
{
    proof {
        reveal(wake_one);
        lemma_wake_one(state@, config.entries(), run_id@, now);
    }
    let run = match state.find_task_run(run_id) {
        Some(run) => run.clone(),
        None => {
            return ;
        },
    };
    let task = match config.get_task(run.task.clone()) {
        Some(task) => task,
        None => {
            return ;
        },
    };
    let waiting_on = next_unmet_dependency(state.task_runs(), run.cwd.as_str(), &task);
    let ready = waiting_on.is_none();
    update_task_run_status(state, run_id, TaskRunStatus::Queued, waiting_on, now);
    if ready {
        start_task_run_execution(state, &run, opt_owned(&task.command));
    }
}

/// Unblocks the runs that waited for the task of a run that has succeeded.
/// Each run that is queued in the working directory of the event and waits
/// for its task is looked at again, in the order of creation: it waits for
/// the first dependency of its task that is still unmet, or, if there is
/// none, waits for nothing and is sent off to execution. No run starts
/// running by this.
#[verifier::rlimit(40)]
pub fn trigger_waiting_task_runs(
    state: &mut AppState,
    config: &Config,
    event: &TaskRunStatusChangedEvent,
    now: i64,
)
    requires
        old(state)@.wf(),
    ensures
        final(state)@ == wake_waiting(
            old(state)@,
            config.entries(),
            event.cwd@,
            event.task@,
            now,
        ),
        keeps_order(old(state)@, final(state)@),
        final(state)@.runs.len() == old(state)@.runs.len(),
        final(state)@.logs == old(state)@.logs,
{
    let ghost before = state@;
    let waiting = waiting_run_ids(state.task_runs(), event.cwd.as_str(), event.task.as_str());
    let ghost ids = names_of(waiting@);
    let mut n: usize = 0;
    while n < waiting.len()
        invariant
            n <= waiting.len(),
            ids == names_of(waiting@),
            state@ == wake_all(before, config.entries(), ids, n as int, now),
            state@.wf(),
        decreases waiting.len() - n,
    {
        assert(ids[n as int] == waiting@[n as int]@);
        wake_task_run(state, config, waiting[n].as_str(), now);
        n += 1;
    }
    proof {
        lemma_wake_all(before, config.entries(), ids, ids.len() as int, now);
    }
}

/// Whether a run with the given parent and task is stored.
fn child_exists(runs: &Vec<Model>, parent_run_id: &str, task: &str) -> (exists_: bool)
    ensures
        exists_ == has_child(runs_of(runs@), parent_run_id@, task@),
{
    let ghost model = runs_of(runs@);
    let mut n: usize = 0;
    while n < runs.len()
        invariant
            n <= runs.len(),
            model == runs_of(runs@),
            forall|j: int|
                0 <= j < n ==> !((#[trigger] model[j]).parent_run_id == Some(parent_run_id@)
                    && model[j].task == task@),
        decreases runs.len() - n,
    {
        let run = &runs[n];
        assert(model[n as int] == run@);
        if opt_str_is(&run.parent_run_id, parent_run_id) && str_eq(run.task.as_str(), task) {
            return true;
        }
        n += 1;
    }
    false
}

/// The sub-tasks that the configuration states for a task.
fn subtasks_of(config: &Config, task_key: &str) -> (subtasks: Vec<(String, crate::config::Task)>)
    ensures
        entries_of(subtasks@) == sub_tasks(config.entries(), task_key@),
{
    let none: Vec<(String, crate::config::Task)> = Vec::new();
    assert(entries_of(none@) =~= Seq::empty());
    match config.get_task(crate::text::owned(task_key)) {
        Some(parent_task) => {
            proof {
                crate::config::lemma_task_view(parent_task);
            }
            match parent_task.tasks {
                Some(subtasks) => subtasks,
                None => none,
            }
        },
        None => none,
    }
}

/// Looks at one sub-task of a run that has succeeded (see [`spawn_one`]).
/// Returns whether the store refused the child run.
#[verifier::rlimit(40)]
fn spawn_subtask_run(
    state: &mut AppState,
    config: &Config,
    event: &TaskRunStatusChangedEvent,
    subtask_key: &str,
    id: String,
    now: i64,
) -> (failed: bool)
    requires
        old(state)@.wf(),
    ensures
        final(state)@ == spawn_one(
            old(state)@,
            config.entries(),
            event.run_id@,
            event.task@,
            event.cwd@,
            subtask_key@,
            id@,
            now,
        ).state,
        failed == spawn_one(
            old(state)@,
            config.entries(),
            event.run_id@,
            event.task@,
            event.cwd@,
            subtask_key@,
            id@,
            now,
        ).failed,
        final(state)@.wf(),
        final(state)@.runs == old(state)@.runs || child_added(
            old(state)@.runs,
            final(state)@.runs,
            event.run_id@,
            event.cwd@,
            id@,
        ),
{
    proof {
        reveal(spawn_one);
        reveal_strlit(":");
    }
    let full_subtask_key = event.task.clone().concat(":").concat(subtask_key);
    assert(full_subtask_key@ =~= sub_task_name(event.task@, subtask_key@));
    let subtask = match config.get_task(full_subtask_key.clone()) {
        Some(subtask) => subtask,
        None => {
            return false;
        },
    };
    if child_exists(state.task_runs(), event.run_id.as_str(), full_subtask_key.as_str()) {
        return false;
    }
    let ghost before = state@;
    let created = create_task_run(
        state,
        full_subtask_key,
        &subtask,
        event.cwd.clone(),
        Some(event.run_id.clone()),
        id,
        now,
    );
    proof {
        if created is Some {
            assert(state@.runs.drop_last() =~= before.runs);
        }
    }
    created.is_none()
}

/// As many fresh ids as asked for.
fn fresh_ids(count: usize) -> (ids: Vec<String>)
    ensures
        ids@.len() == count,
        forall|k: int| 0 <= k < count ==> is_task_run_id(#[trigger] names_of(ids@)[k]),
{
    let mut ids: Vec<String> = Vec::new();
    let mut n: usize = 0;
    while n < count
        invariant
            n <= count,
            ids@.len() == n,
            forall|k: int| 0 <= k < n ==> is_task_run_id(#[trigger] names_of(ids@)[k]),
        decreases count - n,
    {
        let ghost before = names_of(ids@);
        ids.push(new_task_run_id());
        assert forall|k: int| 0 <= k < n + 1 implies is_task_run_id(
            #[trigger] names_of(ids@)[k],
        ) by {
            if k < n {
                assert(names_of(ids@)[k] == before[k]);
            }
        }
        n += 1;
    }
    ids
}

/// One more child behind children that were added leaves children added.
proof fn lemma_child_joins(
    before: Seq<RunSpec>,
    here: Seq<RunSpec>,
    after: Seq<RunSpec>,
    run_id: Seq<char>,
    cwd: Seq<char>,
    ids: Seq<Seq<char>>,
    id: Seq<char>,
)
    requires
        children_added(before, here, run_id, cwd, ids),
        after == here || child_added(here, after, run_id, cwd, id),
        ids.contains(id),
    ensures
        children_added(before, after, run_id, cwd, ids),
{
    if after != here {
        assert forall|i: int| 0 <= i < here.len() implies #[trigger] after[i] == here[i] by {
            assert(after.drop_last()[i] == here[i]);
        }
    }
}

/// Creates the runs of the sub-tasks of a run that has succeeded, under the
/// ids given. For each sub-task that the configuration states for the task
/// of the run, in the order of the configuration, a child run is created
/// unless the run has a child for the sub-task already; the sub-task at `k`
/// gets the id at `k`. Stops and returns `false` when the store refuses a
/// child run or the ids have run out.
///
/// No run starts running by this, and no run gets a second child for a
/// task.
#[verifier::rlimit(50)]
pub fn trigger_subtasks_with(
    state: &mut AppState,
    config: &Config,
    event: &TaskRunStatusChangedEvent,
    ids: &Vec<String>,
    now: i64,
) -> (done: bool)
    requires
        old(state)@.wf(),
    ensures
        final(state)@ == spawn_children(
            old(state)@,
            config.entries(),
            event.run_id@,
            event.task@,
            event.cwd@,
            names_of(ids@),
            now,
        ).state,
        done == !spawn_children(
            old(state)@,
            config.entries(),
            event.run_id@,
            event.task@,
            event.cwd@,
            names_of(ids@),
            now,
        ).failed,
        keeps_order(old(state)@, final(state)@),
        final(state)@.logs == old(state)@.logs,
        children_added(
            old(state)@.runs,
            final(state)@.runs,
            event.run_id@,
            event.cwd@,
            names_of(ids@),
        ),
{
    let ghost before = state@;
    let ghost entries = config.entries();
    let subtasks = subtasks_of(config, event.task.as_str());
    let ghost children = entries_of(subtasks@);
    let ghost names = names_of(ids@);
    proof {
        lemma_spawn_all(
            before,
            entries,
            event.run_id@,
            event.task@,
            event.cwd@,
            children,
            names,
            children.len() as int,
            now,
        );
    }
    let mut n: usize = 0;
    while n < subtasks.len()
        invariant
            n <= subtasks.len(),
            before == old(state)@,
            entries == config.entries(),
            children == entries_of(subtasks@),
            children == sub_tasks(entries, event.task@),
            names == names_of(ids@),
            state@ == spawn_all(
                before,
                entries,
                event.run_id@,
                event.task@,
                event.cwd@,
                children,
                names,
                n as int,
                now,
            ).state,
            !spawn_all(
                before,
                entries,
                event.run_id@,
                event.task@,
                event.cwd@,
                children,
                names,
                n as int,
                now,
            ).failed,
            state@.wf(),
            before.wf(),
            children_added(before.runs, state@.runs, event.run_id@, event.cwd@, names),
        decreases subtasks.len() - n,
    {
        let ghost here = state@;
        assert(children[n as int].0 == subtasks@[n as int].0@);
        let mut failed = true;
        if n < ids.len() {
            assert(names[n as int] == ids@[n as int]@);
            failed = spawn_subtask_run(
                state,
                config,
                event,
                subtasks[n].0.as_str(),
                ids[n].clone(),
                now,
            );
            proof {
                lemma_child_joins(
                    before.runs,
                    here.runs,
                    state@.runs,
                    event.run_id@,
                    event.cwd@,
                    names,
                    names[n as int],
                );
            }
        }
        if failed {
            proof {
                lemma_spawn_stays_failed(
                    before,
                    entries,
                    event.run_id@,
                    event.task@,
                    event.cwd@,
                    children,
                    names,
                    n as int + 1,
                    children.len() as int,
                    now,
                );
                lemma_spawn_all(
                    before,
                    entries,
                    event.run_id@,
                    event.task@,
                    event.cwd@,
                    children,
                    names,
                    children.len() as int,
                    now,
                );
            }
            return false;
        }
        n += 1;
    }
    true
}

/// Creates the runs of the sub-tasks of a run that has succeeded, each
/// under a fresh id (see [`trigger_subtasks_with`]).
pub fn trigger_subtasks(
    state: &mut AppState,
    config: &Config,
    event: &TaskRunStatusChangedEvent,
    now: i64,
) -> (done: bool)
    requires
        old(state)@.wf(),
    ensures
        exists|ids: Seq<Seq<char>>|
            #![trigger spawn_children(old(state)@, config.entries(), event.run_id@, event.task@, event.cwd@, ids, now)]
            ids.len() == sub_tasks(config.entries(), event.task@).len() && final(state)@
                == spawn_children(
                old(state)@,
                config.entries(),
                event.run_id@,
                event.task@,
                event.cwd@,
                ids,
                now,
            ).state && done == !spawn_children(
                old(state)@,
                config.entries(),
                event.run_id@,
                event.task@,
                event.cwd@,
                ids,
                now,
            ).failed && children_added(
                old(state)@.runs,
                final(state)@.runs,
                event.run_id@,
                event.cwd@,
                ids,
            ),
        keeps_order(old(state)@, final(state)@),
        final(state)@.logs == old(state)@.logs,
        added_under_fresh_ids(old(state)@.runs, final(state)@.runs),
{
    let ghost before = state@;
    let count = subtasks_of(config, event.task.as_str()).len();
    let ids = fresh_ids(count);
    let ghost names = names_of(ids@);
    let done = trigger_subtasks_with(state, config, event, &ids, now);
    proof {
        let end = spawn_children(
            before,
            config.entries(),
            event.run_id@,
            event.task@,
            event.cwd@,
            names,
            now,
        );
        assert(state@ == end.state);
        assert(names.len() == sub_tasks(config.entries(), event.task@).len());
        assert forall|i: int| before.runs.len() <= i < state@.runs.len() implies is_task_run_id(
            (#[trigger] state@.runs[i]).id,
        ) by {
            assert(names.contains(state@.runs[i].id));
            let k = choose|k: int| 0 <= k < names.len() && names[k] == state@.runs[i].id;
            assert(is_task_run_id(names[k]));
        }
    }
    done
}

/// What follows from a status event, with the ids for new child runs given:
/// nothing unless the run has succeeded; then the runs that waited for its
/// task are looked at again (see [`trigger_waiting_task_runs`]), and its
/// sub-tasks get their runs (see [`trigger_subtasks_with`]).
pub fn handle_status_event_with(
    state: &mut AppState,
    config: &Config,
    event: &TaskRunStatusChangedEvent,
    ids: &Vec<String>,
    now: i64,
) -> (done: bool)
    requires
        old(state)@.wf(),
    ensures
        event.status != TaskRunStatus::Success ==> done && final(state)@ == old(state)@,
        event.status == TaskRunStatus::Success ==> final(state)@ == spawn_children(
            wake_waiting(old(state)@, config.entries(), event.cwd@, event.task@, now),
            config.entries(),
            event.run_id@,
            event.task@,
            event.cwd@,
            names_of(ids@),
            now,
        ).state && done == !spawn_children(
            wake_waiting(old(state)@, config.entries(), event.cwd@, event.task@, now),
            config.entries(),
            event.run_id@,
            event.task@,
            event.cwd@,
            names_of(ids@),
            now,
        ).failed,
        keeps_order(old(state)@, final(state)@),
        final(state)@.logs == old(state)@.logs,
{
    let ghost before = state@;
    proof {
        lemma_settles_refl(before.runs);
    }
    if event.status != TaskRunStatus::Success {
        return true;
    }
    trigger_waiting_task_runs(state, config, event, now);
    let ghost woken = state@;
    let done = trigger_subtasks_with(state, config, event, ids, now);
    proof {
        lemma_settles_trans(before.runs, woken.runs, state@.runs);
    }
    done
}

/// What follows from a status event: nothing unless the run has succeeded;
/// then the runs that waited for its task are looked at again, and its
/// sub-tasks get their runs. Returns `false` when the store refused a child
/// run.
#[verifier::rlimit(40)]
pub fn handle_status_event_at(
    state: &mut AppState,
    config: &Config,
    event: &TaskRunStatusChangedEvent,
    now: i64,
) -> (done: bool)
    requires
        old(state)@.wf(),
    ensures
        event.status != TaskRunStatus::Success ==> done && final(state)@ == old(state)@,
        event.status == TaskRunStatus::Success ==> exists|ids: Seq<Seq<char>>|
            #![trigger spawn_children(wake_waiting(old(state)@, config.entries(), event.cwd@, event.task@, now), config.entries(), event.run_id@, event.task@, event.cwd@, ids, now)]
            ids.len() == sub_tasks(config.entries(), event.task@).len() && final(state)@
                == spawn_children(
                wake_waiting(old(state)@, config.entries(), event.cwd@, event.task@, now),
                config.entries(),
                event.run_id@,
                event.task@,
                event.cwd@,
                ids,
                now,
            ).state && done == !spawn_children(
                wake_waiting(old(state)@, config.entries(), event.cwd@, event.task@, now),
                config.entries(),
                event.run_id@,
                event.task@,
                event.cwd@,
                ids,
                now,
            ).failed,
        keeps_order(old(state)@, final(state)@),
        final(state)@.logs == old(state)@.logs,
{
    let ghost before = state@;
    proof {
        lemma_settles_refl(before.runs);
    }
    if event.status != TaskRunStatus::Success {
        return true;
    }
    trigger_waiting_task_runs(state, config, event, now);
    let ghost woken = state@;
    let done = trigger_subtasks(state, config, event, now);
    proof {
        lemma_settles_trans(before.runs, woken.runs, state@.runs);
    }
    done
}

/// What follows from a status event, at the current time.
pub fn handle_status_event(
    state: &mut AppState,
    config: &Config,
    event: &TaskRunStatusChangedEvent,
) -> (done: bool)
    requires
        old(state)@.wf(),
    ensures
        event.status != TaskRunStatus::Success ==> done && final(state)@ == old(state)@,
        event.status == TaskRunStatus::Success ==> exists|ids: Seq<Seq<char>>, now: i64|
            #![trigger spawn_children(wake_waiting(old(state)@, config.entries(), event.cwd@, event.task@, now), config.entries(), event.run_id@, event.task@, event.cwd@, ids, now)]
            ids.len() == sub_tasks(config.entries(), event.task@).len() && final(state)@
                == spawn_children(
                wake_waiting(old(state)@, config.entries(), event.cwd@, event.task@, now),
                config.entries(),
                event.run_id@,
                event.task@,
                event.cwd@,
                ids,
                now,
            ).state && done == !spawn_children(
                wake_waiting(old(state)@, config.entries(), event.cwd@, event.task@, now),
                config.entries(),
                event.run_id@,
                event.task@,
                event.cwd@,
                ids,
                now,
            ).failed,
        keeps_order(old(state)@, final(state)@),
        final(state)@.logs == old(state)@.logs,
{
    let now = crate::api::fresh::now_millis();
    handle_status_event_at(state, config, event, now)
}

} // verus!
