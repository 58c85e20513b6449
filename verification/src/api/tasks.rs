//! The requests that the task API answers, and how it answers them.
use vstd::prelude::*;
use crate::api::cancel::{cancel_all, cancel_task_runs, cancelled_as_asked, is_settled};
use crate::api::descendants::{collect_descendant_run_ids, descendants, descends_from, lemma_descendants_complete, lemma_descendants_sound, lemma_reaches_in_store};
use crate::api::error::ErrorResponse;
use crate::api::events::{TaskRunLogLine, lines_of};
use crate::api::invariants::{keeps_order, lemma_settles_lookup, lemma_settles_refl, lemma_settles_trans};
use crate::api::lifecycle::{create_run, create_task_run, execute_effect, new_run, start_task_run_execution};
use crate::api::logs::{included_runs, lines_within, load_task_run_logs};
use crate::api::model::{EngineSpec, LogLineSpec, Outcome, has_run, lemma_run_index, run_index, run_of};
use crate::api::fresh::{is_task_run_id, new_task_run_id, now_millis};
use crate::api::restart::{clear_logs, clear_task_run_logs_for_restart, parent_task, prepare_task_runs_for_restart, requeue_all, requeued_as_asked, restart_order};
use crate::api::start::{existing_run, find_existing_running_run_id};
use crate::api::state::AppState;
use crate::api::tree::{TaskRunTreeNode, TreeSpec, load_task_run_forest, load_task_run_tree, run_forest, tree_of, trees_of};
use crate::config::{Config, ConfigError, Task, TaskSpec, entries_of, flatten, resolve_task};
use crate::db::entities::task_run::TaskRunStatus;
use crate::text::{names_of, opt_owned};

verus! {

/// The request succeeded.
pub const OK: u16 = 200;

/// What the request names does not exist.
pub const NOT_FOUND: u16 = 404;

/// The request could not be served.
pub const INTERNAL_SERVER_ERROR: u16 = 500;

/// Asks for the tasks of a working directory.
pub struct ListTasksRequest {
    pub cwd: String,
}

/// Asks for the runs of a working directory.
pub struct ListTaskRunsRequest {
    pub cwd: String,
}

/// The tasks of a working directory.
pub struct ListTasksResponseBody {
    /// The tasks that the configuration of the working directory defines,
    /// each under its full name.
    pub tasks: Vec<(String, Task)>,
}

/// The runs of a working directory, as trees.
pub struct ListTaskRunsResponseBody {
    /// Root task runs for the cwd, each containing nested child runs.
    pub task_runs: Vec<TaskRunTreeNode>,
}

/// The answer to a request for the tasks of a working directory.
pub enum ListTasksResponse {
    Success(ListTasksResponseBody),
    Error(ErrorResponse),
}

/// The answer to a request for the runs of a working directory.
pub enum ListTaskRunsResponse {
    Success(ListTaskRunsResponseBody),
    Error(ErrorResponse),
}

/// A run with its child runs below it.
pub struct GetTaskRunResponseBody {
    pub task_run: TaskRunTreeNode,
}

/// The answer to a request for a run.
pub enum GetTaskRunResponse {
    Success(GetTaskRunResponseBody),
    Error(ErrorResponse),
}

/// Asks to start a task in a working directory.
pub struct StartTaskRequest {
    pub task: String,
    pub cwd: String,
}

/// The run that answers a request to start a task.
pub struct StartTaskResponseBody {
    pub run_id: String,
}

/// The answer to a request to start a task.
pub enum StartTaskResponse {
    Success(StartTaskResponseBody),
    Error(ErrorResponse),
}

/// Asks to cancel a run and all runs below it.
pub struct CancelTaskRequest {
    pub run_id: String,
}

/// Asks to restart a run and all runs below it.
pub struct RestartTaskRequest {
    pub run_id: String,
}

/// The runs that a cancellation covered.
pub struct CancelTaskResponseBody {
    pub cancelled_run_ids: Vec<String>,
}

/// The answer to a request to cancel a run.
pub enum CancelTaskResponse {
    Success(CancelTaskResponseBody),
    Error(ErrorResponse),
}

/// The run that was restarted.
pub struct RestartTaskResponseBody {
    pub run_id: String,
}

/// The answer to a request to restart a run.
pub enum RestartTaskResponse {
    Success(RestartTaskResponseBody),
    Error(ErrorResponse),
}

/// The log of a run.
pub struct GetTaskRunLogsResponseBody {
    pub run_id: String,
    pub logs: Vec<TaskRunLogLine>,
}

/// Says whether the log of a run is wanted with the lines of the runs
/// below it.
pub struct GetTaskRunLogsRequest {
    pub include_children: Option<bool>,
}

/// The answer to a request for the log of a run.
pub enum GetTaskRunLogsResponse {
    Success(GetTaskRunLogsResponseBody),
    Error(ErrorResponse),
}

impl ListTasksResponse {
    /// The tasks listed, or the message of the error.
    pub open spec fn outcome(self) -> Result<Seq<(Seq<char>, TaskSpec)>, Seq<char>> {
        match self {
            ListTasksResponse::Success(body) => Ok(entries_of(body.tasks@)),
            ListTasksResponse::Error(error) => Err(error.message@),
        }
    }
}

impl ListTaskRunsResponse {
    /// The trees listed, or the message of the error.
    pub open spec fn outcome(self) -> Result<Seq<TreeSpec>, Seq<char>> {
        match self {
            ListTaskRunsResponse::Success(body) => Ok(trees_of(body.task_runs@)),
            ListTaskRunsResponse::Error(error) => Err(error.message@),
        }
    }
}

impl GetTaskRunResponse {
    /// The tree of the run, or the message of the error.
    pub open spec fn outcome(self) -> Result<TreeSpec, Seq<char>> {
        match self {
            GetTaskRunResponse::Success(body) => Ok(body.task_run@),
            GetTaskRunResponse::Error(error) => Err(error.message@),
        }
    }
}

impl StartTaskResponse {
    /// The id of the run that answers the request, or the message of the
    /// error.
    pub open spec fn outcome(self) -> Result<Seq<char>, Seq<char>> {
        match self {
            StartTaskResponse::Success(body) => Ok(body.run_id@),
            StartTaskResponse::Error(error) => Err(error.message@),
        }
    }
}

impl CancelTaskResponse {
    /// The ids of the runs that the cancellation covered, or the message of
    /// the error.
    pub open spec fn outcome(self) -> Result<Seq<Seq<char>>, Seq<char>> {
        match self {
            CancelTaskResponse::Success(body) => Ok(names_of(body.cancelled_run_ids@)),
            CancelTaskResponse::Error(error) => Err(error.message@),
        }
    }
}

impl RestartTaskResponse {
    /// The id of the run that was restarted, or the message of the error.
    pub open spec fn outcome(self) -> Result<Seq<char>, Seq<char>> {
        match self {
            RestartTaskResponse::Success(body) => Ok(body.run_id@),
            RestartTaskResponse::Error(error) => Err(error.message@),
        }
    }
}

impl GetTaskRunLogsResponse {
    /// The id of the run and its log, or the message of the error.
    pub open spec fn outcome(self) -> Result<(Seq<char>, Seq<LogLineSpec>), Seq<char>> {
        match self {
            GetTaskRunLogsResponse::Success(body) => Ok((body.run_id@, lines_of(body.logs@))),
            GetTaskRunLogsResponse::Error(error) => Err(error.message@),
        }
    }
}

/// What loading the configuration gave: the task map, or whether the file
/// was missing.
pub open spec fn loaded(config: Result<Config, ConfigError>) -> Result<
    Seq<(Seq<char>, TaskSpec)>,
    bool,
> {
    match config {
        Ok(config) => Ok(config.entries()),
        Err(error) => Err(error == ConfigError::Io { not_found: true }),
    }
}

/// The status that tells a client that the configuration could not be
/// loaded.
pub open spec fn config_error_status(not_found: bool) -> u16 {
    if not_found {
        NOT_FOUND
    } else {
        INTERNAL_SERVER_ERROR
    }
}

/// The message that tells a client that the configuration could not be
/// loaded.
pub open spec fn config_error_message(not_found: bool) -> Seq<char> {
    if not_found {
        "Task config file not found"@
    } else {
        "Failed to load task config file"@
    }
}

/// Status and message for a configuration that could not be loaded: 404 for
/// a missing file, 500 for anything else.
pub fn config_error_reply(error: &ConfigError) -> (reply: (u16, ErrorResponse))
    ensures
        reply.0 == config_error_status(*error == ConfigError::Io { not_found: true }),
        reply.1.message@ == config_error_message(*error == ConfigError::Io { not_found: true }),
{
    if error.is_not_found() {
        (NOT_FOUND, ErrorResponse::new("Task config file not found"))
    } else {
        (INTERNAL_SERVER_ERROR, ErrorResponse::new("Failed to load task config file"))
    }
}

/// What could not be written to the store.
#[derive(Clone, Copy, Debug, PartialEq, Eq, Structural)]
pub enum StorageStep {
    /// The new run of a start request.
    InsertRun,
    /// The cancelled runs of a cancel request.
    CancelRuns,
    /// The requeued runs of a restart request.
    PrepareRestart,
}

/// The message that tells a client what could not be written to the store.
pub open spec fn storage_error_message(step: StorageStep) -> Seq<char> {
    match step {
        StorageStep::InsertRun => "Failed to insert task run"@,
        StorageStep::CancelRuns => "Failed to cancel task runs"@,
        StorageStep::PrepareRestart => "Failed to prepare task runs for restart"@,
    }
}

/// Status and message for a request whose changes could not be written to
/// the store: 500, with a message that names the step that failed.
pub fn storage_error_reply(step: StorageStep) -> (reply: (u16, ErrorResponse))
    ensures
        reply.0 == INTERNAL_SERVER_ERROR,
        reply.1.message@ == storage_error_message(step),
{
    match step {
        StorageStep::InsertRun => (
            INTERNAL_SERVER_ERROR,
            ErrorResponse::new("Failed to insert task run"),
        ),
        StorageStep::CancelRuns => (
            INTERNAL_SERVER_ERROR,
            ErrorResponse::new("Failed to cancel task runs"),
        ),
        StorageStep::PrepareRestart => (
            INTERNAL_SERVER_ERROR,
            ErrorResponse::new("Failed to prepare task runs for restart"),
        ),
    }
}

/// Lists the tasks of a working directory, given what loading its
/// configuration gave.
pub fn list_tasks(config: &Result<Config, ConfigError>) -> (reply: (u16, ListTasksResponse))
    ensures
        match loaded(*config) {
            Ok(entries) => reply.0 == OK && reply.1.outcome() == Ok::<_, Seq<char>>(
                flatten(entries, Seq::empty(), entries.len() as int),
            ),
            Err(not_found) => reply.0 == config_error_status(not_found) && reply.1.outcome()
                == Err::<Seq<(Seq<char>, TaskSpec)>, _>(config_error_message(not_found)),
        },
{
    match config {
        Ok(config) => (
            OK,
            ListTasksResponse::Success(ListTasksResponseBody { tasks: config.get_all_tasks() }),
        ),
        Err(error) => {
            let (status, response) = config_error_reply(error);
            (status, ListTasksResponse::Error(response))
        },
    }
}

/// Lists the runs of a working directory as trees: the runs without a
/// parent, the latest changed first, each with its child runs below it.
pub fn list_task_runs(state: &AppState, payload: &ListTaskRunsRequest) -> (reply: (
    u16,
    ListTaskRunsResponse,
))
    ensures
        reply.0 == OK,
        reply.1.outcome() == Ok::<_, Seq<char>>(run_forest(state@.runs, payload.cwd@)),
{
    let task_runs = load_task_run_forest(state, payload.cwd.as_str());
    (OK, ListTaskRunsResponse::Success(ListTaskRunsResponseBody { task_runs }))
}

/// Shows a run as a tree, with its child runs below it. A run that is not
/// stored is answered with 404.
pub fn get_task_run(state: &AppState, run_id: &str) -> (reply: (u16, GetTaskRunResponse))
    requires
        state@.wf(),
    ensures
        match tree_of(state@.runs, run_id@) {
            Some(tree) => reply.0 == OK && reply.1.outcome() == Ok::<_, Seq<char>>(tree),
            None => reply.0 == NOT_FOUND && reply.1.outcome() == Err::<TreeSpec, _>(
                "Task run not found"@,
            ),
        },
{
    match load_task_run_tree(state, run_id) {
        Some(task_run) => (OK, GetTaskRunResponse::Success(GetTaskRunResponseBody { task_run })),
        None => (NOT_FOUND, GetTaskRunResponse::Error(ErrorResponse::new("Task run not found"))),
    }
}

/// Whether a request for the log of a run asks for the runs below it too.
pub open spec fn wants_children(payload: GetTaskRunLogsRequest) -> bool {
    payload.include_children == Some(true)
}

/// Shows the log of a run, with the lines of the runs below it if the
/// request asks for them, in the order of their sequence numbers. A run that
/// is not stored is answered with 404.
pub fn get_task_run_logs(state: &AppState, run_id: String, payload: &GetTaskRunLogsRequest) -> (reply:
    (u16, GetTaskRunLogsResponse))
    requires
        state@.wf(),
    ensures
        match included_runs(state@.runs, run_id@, wants_children(*payload)) {
            Some(run_ids) => reply.0 == OK && reply.1.outcome() == Ok::<_, Seq<char>>(
                (run_id@, lines_within(state@.logs, run_ids)),
            ),
            None => reply.0 == NOT_FOUND && reply.1.outcome() == Err::<
                (Seq<char>, Seq<LogLineSpec>),
                _,
            >("Task run not found"@),
        },
{
    let include_children = match payload.include_children {
        Some(include_children) => include_children,
        None => false,
    };
    match load_task_run_logs(state, run_id.as_str(), include_children) {
        Some(logs) => (
            OK,
            GetTaskRunLogsResponse::Success(GetTaskRunLogsResponseBody { run_id, logs }),
        ),
        None => (
            NOT_FOUND,
            GetTaskRunLogsResponse::Error(ErrorResponse::new("Task run not found")),
        ),
    }
}

/// The state after a request to start a task: a new run is created unless
/// the configuration could not be loaded, does not know the task, or a run
/// that is under way answers the request.
pub open spec fn start_state(
    s: EngineSpec,
    config: Result<Seq<(Seq<char>, TaskSpec)>, bool>,
    task_key: Seq<char>,
    cwd: Seq<char>,
    id: Seq<char>,
    now: i64,
) -> EngineSpec {
    match config {
        Err(_) => s,
        Ok(entries) => match resolve_task(entries, task_key) {
            None => s,
            Some(task) => if existing_run(s.runs, cwd, task_key, task) is Some {
                s
            } else {
                create_run(s, task_key, task, cwd, None, id, now)
            },
        },
    }
}

/// The status that answers a request to start a task.
pub open spec fn start_status(
    s: EngineSpec,
    config: Result<Seq<(Seq<char>, TaskSpec)>, bool>,
    task_key: Seq<char>,
    cwd: Seq<char>,
    id: Seq<char>,
    now: i64,
) -> u16 {
    match config {
        Err(not_found) => config_error_status(not_found),
        Ok(entries) => match resolve_task(entries, task_key) {
            None => NOT_FOUND,
            Some(task) => if existing_run(s.runs, cwd, task_key, task) is Some {
                OK
            } else if s.accepts(new_run(s, task_key, task, cwd, None, id, now)) {
                OK
            } else {
                INTERNAL_SERVER_ERROR
            },
        },
    }
}

/// What answers a request to start a task: the id of the run that is under
/// way already, or of the new run.
pub open spec fn start_outcome(
    s: EngineSpec,
    config: Result<Seq<(Seq<char>, TaskSpec)>, bool>,
    task_key: Seq<char>,
    cwd: Seq<char>,
    id: Seq<char>,
    now: i64,
) -> Result<Seq<char>, Seq<char>> {
    match config {
        Err(not_found) => Err(config_error_message(not_found)),
        Ok(entries) => match resolve_task(entries, task_key) {
            None => Err("Task not found"@),
            Some(task) => match existing_run(s.runs, cwd, task_key, task) {
                Some(run_id) => Ok(run_id),
                None => if s.accepts(new_run(s, task_key, task, cwd, None, id, now)) {
                    Ok(id)
                } else {
                    Err("Failed to insert task run"@)
                },
            },
        },
    }
}

/// While a run of a task is running, and no other run of the task in the
/// same working directory is, every request to start the task is answered
/// with the id of that run and changes nothing.
pub proof fn lemma_start_while_running(
    s: EngineSpec,
    entries: Seq<(Seq<char>, TaskSpec)>,
    task_key: Seq<char>,
    cwd: Seq<char>,
    r: int,
    id: Seq<char>,
    now: i64,
)
    requires
        crate::api::invariants::one_running_per_task(s.runs),
        0 <= r < s.runs.len(),
        s.runs[r].status == TaskRunStatus::Running,
        s.runs[r].cwd == cwd,
        s.runs[r].task == task_key,
        resolve_task(entries, task_key) is Some,
    ensures
        start_state(s, Ok(entries), task_key, cwd, id, now) == s,
        start_status(s, Ok(entries), task_key, cwd, id, now) == OK,
        start_outcome(s, Ok(entries), task_key, cwd, id, now) == Ok::<_, Seq<char>>(s.runs[r].id),
{
    crate::api::start::lemma_start_idempotent(
        s.runs,
        cwd,
        task_key,
        resolve_task(entries, task_key)->0,
        r,
    );
}

/// Starts a task, given what loading the configuration of the working
/// directory gave, the id for a new run and the time. While a run of the
/// task is running in the working directory the request creates nothing and
/// is answered with the id of that run; so is, for a task without a command
/// of its own, a request while a run below a run of the task is queued or
/// running. Otherwise a run is created (see [`create_task_run`]).
#[verifier::rlimit(40)]
pub fn run_task_with(
    state: &mut AppState,
    config: &Result<Config, ConfigError>,
    payload: &StartTaskRequest,
    id: String,
    now: i64,
) -> (reply: (u16, StartTaskResponse))
    requires
        old(state)@.wf(),
    ensures
        final(state)@ == start_state(
            old(state)@,
            loaded(*config),
            payload.task@,
            payload.cwd@,
            id@,
            now,
        ),
        reply.0 == start_status(old(state)@, loaded(*config), payload.task@, payload.cwd@, id@, now),
        reply.1.outcome() == start_outcome(
            old(state)@,
            loaded(*config),
            payload.task@,
            payload.cwd@,
            id@,
            now,
        ),
        keeps_order(old(state)@, final(state)@),
        final(state)@.logs == old(state)@.logs,
{
    proof {
        lemma_settles_refl(state@.runs);
    }
    let config = match config {
        Ok(config) => config,
        Err(error) => {
            let (status, response) = config_error_reply(error);
            return (status, StartTaskResponse::Error(response));
        },
    };
    let task = match config.get_task(payload.task.clone()) {
        Some(task) => task,
        None => {
            return (NOT_FOUND, StartTaskResponse::Error(ErrorResponse::new("Task not found")));
        },
    };
    if let Some(run_id) = find_existing_running_run_id(
        state,
        payload.cwd.as_str(),
        payload.task.as_str(),
        &task,
    ) {
        return (OK, StartTaskResponse::Success(StartTaskResponseBody { run_id }));
    }
    proof {
        crate::api::lifecycle::lemma_create_run(
            state@,
            payload.task@,
            task@,
            payload.cwd@,
            None,
            id@,
            now,
        );
    }
    match create_task_run(state, payload.task.clone(), &task, payload.cwd.clone(), None, id, now) {
        Some(task_run) => (
            OK,
            StartTaskResponse::Success(StartTaskResponseBody { run_id: task_run.id }),
        ),
        None => (
            INTERNAL_SERVER_ERROR,
            StartTaskResponse::Error(ErrorResponse::new("Failed to insert task run")),
        ),
    }
}

/// Starts a task at the current time; a new run gets a fresh random id.
pub fn run_task(
    state: &mut AppState,
    config: &Result<Config, ConfigError>,
    payload: &StartTaskRequest,
) -> (reply: (u16, StartTaskResponse))
    requires
        old(state)@.wf(),
    ensures
        exists|id: Seq<char>, now: i64|
            {
                &&& is_task_run_id(id)
                &&& final(state)@ == #[trigger] start_state(
                    old(state)@,
                    loaded(*config),
                    payload.task@,
                    payload.cwd@,
                    id,
                    now,
                )
                &&& reply.0 == start_status(
                    old(state)@,
                    loaded(*config),
                    payload.task@,
                    payload.cwd@,
                    id,
                    now,
                )
                &&& reply.1.outcome() == start_outcome(
                    old(state)@,
                    loaded(*config),
                    payload.task@,
                    payload.cwd@,
                    id,
                    now,
                )
            },
        keeps_order(old(state)@, final(state)@),
        final(state)@.logs == old(state)@.logs,
{
    let id = new_task_run_id();
    let now = now_millis();
    let ghost chosen = id@;
    let ghost before = state@;
    let reply = run_task_with(state, config, payload, id, now);
    assert(state@ == start_state(before, loaded(*config), payload.task@, payload.cwd@, chosen, now));
    reply
}

/// The state after a request to cancel a run: the run and all runs below it
/// are cancelled, unless the run is not stored.
pub open spec fn cancel_state(s: EngineSpec, run_id: Seq<char>, now: i64) -> EngineSpec {
    if has_run(s.runs, run_id) {
        let ids = descendants(s.runs, run_id);
        cancel_all(s, ids, ids.len() as int, now)
    } else {
        s
    }
}

/// After the cancellation of a tree, none of its runs is queued or running.
pub proof fn lemma_cancel_reaches_all(s: EngineSpec, run_id: Seq<char>, now: i64, i: int)
    requires
        s.wf(),
        0 <= i < s.runs.len(),
        s.runs[i].id == run_id || descends_from(s.runs, i, run_id),
    ensures
        cancel_state(s, run_id, now).runs.len() == s.runs.len(),
        !cancel_state(s, run_id, now).runs[i].status.is_active(),
        !is_settled(s.runs[i].status) ==> cancel_state(s, run_id, now).runs[i].status
            == TaskRunStatus::Cancelled,
{
    let ids = descendants(s.runs, run_id);
    if s.runs[i].id == run_id {
        assert(ids[0] == run_id);
    } else {
        lemma_descendants_complete(s.runs, run_id, i);
        lemma_in_tree_has_root(s, run_id, i);
    }
    assert(ids.contains(s.runs[i].id));
    assert(has_run(s.runs, run_id)) by {
        if s.runs[i].id != run_id {
            lemma_in_tree_has_root(s, run_id, i);
        }
    }
    crate::api::cancel::lemma_cancel_all(s, ids, ids.len() as int, now);
    assert(ids.take(ids.len() as int) =~= ids);
    assert(cancelled_as_asked(s, cancel_state(s, run_id, now), ids, now, i));
}

/// In a consistent store, a run that has runs below it is stored.
pub proof fn lemma_in_tree_has_root(s: EngineSpec, run_id: Seq<char>, i: int)
    requires
        s.wf(),
        descends_from(s.runs, i, run_id),
    ensures
        has_run(s.runs, run_id),
{
    lemma_reaches_in_store(s.runs, i, run_id, s.runs.len());
}

/// Cancels a run and all runs below it (see [`cancel_task_runs`]), and
/// answers with the ids of the runs covered: the run first, then the runs
/// below it as a depth-first walk finds them. A run that is not stored is
/// answered with 404.
///
/// Afterwards neither the run nor any run below it is queued or running.
/// The row of a run that had ended before, cancelled or not, is as it was.
#[verifier::rlimit(40)]
pub fn cancel_task_at(state: &mut AppState, payload: &CancelTaskRequest, now: i64) -> (reply: (
    u16,
    CancelTaskResponse,
))
    requires
        old(state)@.wf(),
    ensures
        final(state)@ == cancel_state(old(state)@, payload.run_id@, now),
        has_run(old(state)@.runs, payload.run_id@) ==> reply.0 == OK && reply.1.outcome() == Ok::<
            _,
            Seq<char>,
        >(descendants(old(state)@.runs, payload.run_id@)),
        !has_run(old(state)@.runs, payload.run_id@) ==> reply.0 == NOT_FOUND && reply.1.outcome()
            == Err::<Seq<Seq<char>>, _>("Task run not found"@),
        keeps_order(old(state)@, final(state)@),
        final(state)@.runs.len() == old(state)@.runs.len(),
        forall|i: int|
            0 <= i < old(state)@.runs.len() && ((#[trigger] old(state)@.runs[i]).id
                == payload.run_id@ || descends_from(old(state)@.runs, i, payload.run_id@))
                ==> !final(state)@.runs[i].status.is_active(),
        forall|i: int|
            0 <= i < old(state)@.runs.len() && !(#[trigger] old(state)@.runs[i]).status.is_active()
                ==> final(state)@.runs[i] == old(state)@.runs[i],
{
    let ghost before = state@;
    proof {
        lemma_settles_refl(before.runs);
    }
    if state.find_task_run_index(payload.run_id.as_str()).is_none() {
        proof {
            assert forall|i: int|
                0 <= i < before.runs.len() && ((#[trigger] before.runs[i]).id == payload.run_id@
                    || descends_from(before.runs, i, payload.run_id@)) implies false by {
                if before.runs[i].id != payload.run_id@ {
                    lemma_in_tree_has_root(before, payload.run_id@, i);
                }
            }
        }
        return (
            NOT_FOUND,
            CancelTaskResponse::Error(ErrorResponse::new("Task run not found")),
        );
    }
    let run_ids_to_cancel = collect_descendant_run_ids(state.task_runs(), payload.run_id.as_str());
    cancel_task_runs(state, &run_ids_to_cancel, now);
    proof {
        assert forall|i: int|
            0 <= i < before.runs.len() && ((#[trigger] before.runs[i]).id == payload.run_id@
                || descends_from(before.runs, i, payload.run_id@)) implies !state@.runs[i].status.is_active() by {
            lemma_cancel_reaches_all(before, payload.run_id@, now, i);
        }
        assert forall|i: int|
            0 <= i < before.runs.len() && !(#[trigger] before.runs[i]).status.is_active() implies state@.runs[i]
            == before.runs[i] by {
            assert(cancelled_as_asked(
                before,
                state@,
                names_of(run_ids_to_cancel@),
                now,
                i,
            ));
        }
    }
    (
        OK,
        CancelTaskResponse::Success(CancelTaskResponseBody { cancelled_run_ids: run_ids_to_cancel }),
    )
}

/// Cancels a run and all runs below it at the current time.
pub fn cancel_task(state: &mut AppState, payload: &CancelTaskRequest) -> (reply: (
    u16,
    CancelTaskResponse,
))
    requires
        old(state)@.wf(),
    ensures
        exists|now: i64| final(state)@ == #[trigger] cancel_state(old(state)@, payload.run_id@, now),
        has_run(old(state)@.runs, payload.run_id@) ==> reply.0 == OK && reply.1.outcome() == Ok::<
            _,
            Seq<char>,
        >(descendants(old(state)@.runs, payload.run_id@)),
        !has_run(old(state)@.runs, payload.run_id@) ==> reply.0 == NOT_FOUND && reply.1.outcome()
            == Err::<Seq<Seq<char>>, _>("Task run not found"@),
        keeps_order(old(state)@, final(state)@),
        forall|i: int|
            0 <= i < old(state)@.runs.len() && ((#[trigger] old(state)@.runs[i]).id
                == payload.run_id@ || descends_from(old(state)@.runs, i, payload.run_id@))
                ==> !final(state)@.runs[i].status.is_active(),
{
    let now = now_millis();
    cancel_task_at(state, payload, now)
}

/// The state in the middle of a restart: the tree is cancelled, its log
/// lines are deleted, and its runs are back in the queue as far as no
/// failure occurred.
pub open spec fn requeued_tree(
    s: EngineSpec,
    entries: Seq<(Seq<char>, TaskSpec)>,
    run_id: Seq<char>,
    now: i64,
) -> Outcome {
    let ids = descendants(s.runs, run_id);
    let cancelled = cancel_all(s, ids, ids.len() as int, now);
    let cleared = clear_logs(cancelled, ids);
    let order = restart_order(cleared.runs, ids);
    requeue_all(cleared, entries, run_id, ids, order, order.len() as int, now)
}

/// The state after a request to restart a run. Nothing happens when the run
/// is not stored, the configuration could not be loaded, or it does not know
/// the task of the run. Otherwise the run and all runs below it are
/// cancelled, their log lines are deleted, and they go back into the queue;
/// the run itself is sent off to execution if it waits for nothing.
pub open spec fn restart_state(
    s: EngineSpec,
    config: Result<Seq<(Seq<char>, TaskSpec)>, bool>,
    run_id: Seq<char>,
    now: i64,
) -> EngineSpec {
    if !has_run(s.runs, run_id) {
        s
    } else {
        match config {
            Err(_) => s,
            Ok(entries) => match resolve_task(entries, run_of(s.runs, run_id).task) {
                None => s,
                Some(root_task) => {
                    let requeued = requeued_tree(s, entries, run_id, now).state;
                    if run_of(requeued.runs, run_id).waiting_on is None {
                        requeued.emit(execute_effect(run_of(s.runs, run_id), root_task.command))
                    } else {
                        requeued
                    }
                },
            },
        }
    }
}

/// The status that answers a request to restart a run.
pub open spec fn restart_status(
    s: EngineSpec,
    config: Result<Seq<(Seq<char>, TaskSpec)>, bool>,
    run_id: Seq<char>,
) -> u16 {
    if !has_run(s.runs, run_id) {
        NOT_FOUND
    } else {
        match config {
            Err(not_found) => config_error_status(not_found),
            Ok(entries) => if resolve_task(entries, run_of(s.runs, run_id).task) is None {
                NOT_FOUND
            } else {
                OK
            },
        }
    }
}

/// What answers a request to restart a run: its id, or the message of the
/// error.
pub open spec fn restart_outcome(
    s: EngineSpec,
    config: Result<Seq<(Seq<char>, TaskSpec)>, bool>,
    run_id: Seq<char>,
) -> Result<Seq<char>, Seq<char>> {
    if !has_run(s.runs, run_id) {
        Err("Task run not found"@)
    } else {
        match config {
            Err(not_found) => Err(config_error_message(not_found)),
            Ok(entries) => if resolve_task(entries, run_of(s.runs, run_id).task) is None {
                Err("Task not found"@)
            } else {
                Ok(run_id)
            },
        }
    }
}

/// What a restart leaves of the run at `i` when the run belongs to the
/// restarted tree: it is queued, and unless it is the root of the tree it
/// waits for the task of its parent.
pub open spec fn restarted(before: EngineSpec, after: EngineSpec, run_id: Seq<char>, i: int) -> bool {
    &&& after.runs[i].status == TaskRunStatus::Queued
    &&& before.runs[i].id != run_id ==> before.runs[i].parent_run_id is Some && has_run(
        before.runs,
        before.runs[i].parent_run_id->0,
    ) && after.runs[i].waiting_on == Some(
        run_of(before.runs, before.runs[i].parent_run_id->0).task,
    )
}

/// In a consistent store, a run of a tree that is not its root has its
/// parent in the tree.
#[verifier::rlimit(40)]
pub proof fn lemma_member_parent(s: EngineSpec, run_id: Seq<char>, i: int)
    requires
        s.wf(),
        0 <= i < s.runs.len(),
        descendants(s.runs, run_id).contains(s.runs[i].id),
        s.runs[i].id != run_id,
    ensures
        s.runs[i].parent_run_id is Some,
        descendants(s.runs, run_id).contains(s.runs[i].parent_run_id->0),
        has_run(s.runs, s.runs[i].parent_run_id->0),
        descends_from(s.runs, i, run_id),
{
    let runs = s.runs;
    let x = runs[i].id;
    lemma_descendants_sound(runs, run_id, x);
    let c = choose|c: int|
        0 <= c < runs.len() && (#[trigger] runs[c]).id == x && descends_from(runs, c, run_id);
    lemma_run_index(runs, c);
    lemma_run_index(runs, i);
    let parent = runs[i].parent_run_id->0;
    assert(crate::api::model::parent_precedes(runs, i));
    let p = choose|p: int|
        0 <= p < i && (#[trigger] runs[p]).id == parent && runs[p].cwd == runs[i].cwd;
    if parent == run_id {
        assert(descendants(runs, run_id)[0] == run_id);
    } else {
        let j = choose|j: int|
            0 <= j < runs.len() && (#[trigger] runs[j]).id == parent
                && crate::api::descendants::reaches(runs, j, run_id, (runs.len() - 1) as nat);
        crate::api::descendants::lemma_reaches_more(
            runs,
            j,
            run_id,
            (runs.len() - 1) as nat,
            runs.len(),
        );
        lemma_descendants_complete(runs, run_id, j);
    }
}

/// A restart of a run whose task the configuration knows does not fail. It
/// leaves every run of the tree queued, and every run of the tree but its
/// root waiting for the task of its parent. Runs outside the tree are as
/// they were.
#[verifier::rlimit(40)]
pub proof fn lemma_restart_requeues(
    s: EngineSpec,
    entries: Seq<(Seq<char>, TaskSpec)>,
    run_id: Seq<char>,
    now: i64,
)
    requires
        s.wf(),
        has_run(s.runs, run_id),
        resolve_task(entries, run_of(s.runs, run_id).task) is Some,
    ensures
        !requeued_tree(s, entries, run_id, now).failed,
        keeps_order(s, requeued_tree(s, entries, run_id, now).state),
        requeued_tree(s, entries, run_id, now).state.runs.len() == s.runs.len(),
        has_run(requeued_tree(s, entries, run_id, now).state.runs, run_id),
        run_index(requeued_tree(s, entries, run_id, now).state.runs, run_id) == run_index(
            s.runs,
            run_id,
        ),
        forall|i: int|
            0 <= i < s.runs.len() && descendants(s.runs, run_id).contains(
                (#[trigger] s.runs[i]).id,
            ) ==> restarted(s, requeued_tree(s, entries, run_id, now).state, run_id, i),
        forall|i: int|
            0 <= i < s.runs.len() && !descendants(s.runs, run_id).contains(
                (#[trigger] s.runs[i]).id,
            ) ==> requeued_tree(s, entries, run_id, now).state.runs[i] == s.runs[i],
{
    let ids = descendants(s.runs, run_id);
    let cancelled = cancel_all(s, ids, ids.len() as int, now);
    let cleared = clear_logs(cancelled, ids);
    let order = restart_order(cleared.runs, ids);
    let end = requeue_all(cleared, entries, run_id, ids, order, order.len() as int, now).state;
    crate::api::cancel::lemma_cancel_all(s, ids, ids.len() as int, now);
    assert(ids.take(ids.len() as int) =~= ids);
    assert(cleared.runs == cancelled.runs);
    assert(cleared.wf()) by {
        crate::api::model::lemma_select_logs_ordered(
            cancelled.logs,
            ids,
            false,
            cancelled.next_log_id,
            cancelled.logs.len() as int,
        );
    }
    assert(run_of(cleared.runs, run_id).task == run_of(s.runs, run_id).task) by {
        let r = run_index(s.runs, run_id);
        assert(cleared.runs[r].id == s.runs[r].id);
        lemma_run_index(cleared.runs, r);
    }
    crate::api::restart::lemma_requeue_never_fails(
        cleared,
        entries,
        run_id,
        ids,
        order,
        order.len() as int,
        now,
    );
    crate::api::restart::lemma_requeue_all(
        cleared,
        entries,
        run_id,
        ids,
        order,
        order.len() as int,
        now,
    );
    assert(order.take(order.len() as int) =~= order);
    lemma_settles_trans(s.runs, cleared.runs, end.runs);
    lemma_settles_lookup(s.runs, end.runs, run_id);
    assert forall|i: int| 0 <= i < s.runs.len() implies (if ids.contains((#[trigger] s.runs[i]).id) {
        restarted(s, end, run_id, i)
    } else {
        end.runs[i] == s.runs[i]
    }) by {
        assert(cancelled_as_asked(s, cancelled, ids, now, i));
        assert(requeued_as_asked(cleared, end, entries, run_id, ids, order, now, i));
        assert(cleared.runs[i].id == s.runs[i].id);
        crate::api::restart::lemma_restart_order(cleared.runs, ids, s.runs[i].id);
        if ids.contains(s.runs[i].id) {
            if s.runs[i].id == run_id {
                lemma_run_index(s.runs, i);
            } else {
                lemma_member_parent(s, run_id, i);
                let parent = s.runs[i].parent_run_id->0;
                lemma_settles_lookup(s.runs, cleared.runs, parent);
                let p = run_index(s.runs, parent);
                assert(cleared.runs[p].id == s.runs[p].id);
                assert(parent_task(cleared.runs, parent) == Some(run_of(s.runs, parent).task));
            }
        }
    }
}

/// Restarts a run, given what loading the configuration of its working
/// directory gave. The run and all runs below it are cancelled (see
/// [`cancel_task_runs`]), their log lines are deleted, and they go back into
/// the queue, parents first (see [`prepare_task_runs_for_restart`]); the run
/// itself is sent off to execution if it waits for nothing. The run keeps
/// its id. A run that is not stored, a configuration that could not be
/// loaded and a task that the configuration does not know are answered with
/// an error, and nothing happens.
///
/// After a restart every run of the tree is queued, and every run of the
/// tree but its root waits for the task of its parent. No run starts
/// running by a restart.
#[verifier::rlimit(40)]
pub fn restart_task_at(
    state: &mut AppState,
    config: &Result<Config, ConfigError>,
    payload: &RestartTaskRequest,
    now: i64,
) -> (reply: (u16, RestartTaskResponse))
    requires
        old(state)@.wf(),
    ensures
        final(state)@ == restart_state(old(state)@, loaded(*config), payload.run_id@, now),
        reply.0 == restart_status(old(state)@, loaded(*config), payload.run_id@),
        reply.1.outcome() == restart_outcome(old(state)@, loaded(*config), payload.run_id@),
        keeps_order(old(state)@, final(state)@),
        reply.0 == OK ==> final(state)@.runs.len() == old(state)@.runs.len() && forall|i: int|
            0 <= i < old(state)@.runs.len() && descendants(
                old(state)@.runs,
                payload.run_id@,
            ).contains((#[trigger] old(state)@.runs[i]).id) ==> restarted(
                old(state)@,
                final(state)@,
                payload.run_id@,
                i,
            ),
{
    let ghost before = state@;
    let ghost run_id = payload.run_id@;
    proof {
        lemma_settles_refl(before.runs);
    }
    let task_run = match state.find_task_run(payload.run_id.as_str()) {
        Some(task_run) => task_run.clone(),
        None => {
            return (
                NOT_FOUND,
                RestartTaskResponse::Error(ErrorResponse::new("Task run not found")),
            );
        },
    };
    let config = match config {
        Ok(config) => config,
        Err(error) => {
            let (status, response) = config_error_reply(error);
            return (status, RestartTaskResponse::Error(response));
        },
    };
    let ghost entries = config.entries();
    let root_task = match config.get_task(task_run.task.clone()) {
        Some(task) => task,
        None => {
            return (NOT_FOUND, RestartTaskResponse::Error(ErrorResponse::new("Task not found")));
        },
    };
    let run_ids = collect_descendant_run_ids(state.task_runs(), payload.run_id.as_str());
    cancel_task_runs(state, &run_ids, now);
    let ghost cancelled = state@;
    clear_task_run_logs_for_restart(state, &run_ids);
    let ghost cleared = state@;
    let prepared = prepare_task_runs_for_restart(
        state,
        config,
        payload.run_id.as_str(),
        &run_ids,
        now,
    );
    proof {
        assert(state@ == requeued_tree(before, entries, run_id, now).state);
        lemma_settles_trans(before.runs, cancelled.runs, cleared.runs);
        lemma_settles_trans(before.runs, cleared.runs, state@.runs);
        lemma_restart_requeues(before, entries, run_id, now);
    }
    if prepared.is_err() {
        // Not reached: the configuration knows the task of the run.
        return (
            INTERNAL_SERVER_ERROR,
            RestartTaskResponse::Error(
                ErrorResponse::new("Failed to prepare task runs for restart"),
            ),
        );
    }
    let waits = match state.find_task_run(payload.run_id.as_str()) {
        Some(run) => run.waiting_on.is_some(),
        None => true,
    };
    if !waits {
        let ghost requeued = state@;
        start_task_run_execution(state, &task_run, opt_owned(&root_task.command));
        proof {
            lemma_settles_trans(before.runs, requeued.runs, state@.runs);
        }
    }
    (OK, RestartTaskResponse::Success(RestartTaskResponseBody { run_id: task_run.id }))
}

/// Restarts a run at the current time.
pub fn restart_task(
    state: &mut AppState,
    config: &Result<Config, ConfigError>,
    payload: &RestartTaskRequest,
) -> (reply: (u16, RestartTaskResponse))
    requires
        old(state)@.wf(),
    ensures
        exists|now: i64|
            {
                &&& final(state)@ == #[trigger] restart_state(
                    old(state)@,
                    loaded(*config),
                    payload.run_id@,
                    now,
                )
                &&& reply.0 == restart_status(old(state)@, loaded(*config), payload.run_id@)
                &&& reply.1.outcome() == restart_outcome(
                    old(state)@,
                    loaded(*config),
                    payload.run_id@,
                )
            },
        keeps_order(old(state)@, final(state)@),
        reply.0 == OK ==> final(state)@.runs.len() == old(state)@.runs.len() && forall|i: int|
            0 <= i < old(state)@.runs.len() && descendants(
                old(state)@.runs,
                payload.run_id@,
            ).contains((#[trigger] old(state)@.runs[i]).id) ==> restarted(
                old(state)@,
                final(state)@,
                payload.run_id@,
                i,
            ),
{
    let now = now_millis();
    let ghost before = state@;
    let reply = restart_task_at(state, config, payload, now);
    assert(state@ == restart_state(before, loaded(*config), payload.run_id@, now));
    reply
}

} // verus!
