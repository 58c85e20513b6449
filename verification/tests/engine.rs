use bizi::api::events::{Effect, TaskRunStatusChangedEvent};
use bizi::api::lifecycle::{
    append_task_log_line, finish_task_run_execution, finish_task_run_execution_at,
    mark_task_run_running, mark_task_run_running_at,
};
use bizi::api::fresh::new_task_run_id;
use bizi::api::state::{create_app_state, restore_app_state, AppState};
use bizi::api::supervisor::{
    cancel_all_running_processes, final_status, run_command, run_command_at, stream_task_logs,
    stream_task_logs_at, CommandStart, ProcessExit,
};
use bizi::api::tasks::{
    cancel_task, cancel_task_at, get_task_run, get_task_run_logs, list_task_runs, list_tasks,
    restart_task, restart_task_at, run_task, run_task_with, storage_error_reply, CancelTaskRequest, CancelTaskResponse,
    GetTaskRunLogsRequest, GetTaskRunLogsResponse, GetTaskRunResponse, ListTaskRunsRequest,
    ListTaskRunsResponse, ListTasksResponse, RestartTaskRequest, RestartTaskResponse,
    StartTaskRequest, StartTaskResponse, StorageStep,
};
use bizi::api::waiter::{
    handle_status_event, handle_status_event_at, handle_status_event_with, trigger_subtasks,
    trigger_subtasks_with,
};
use bizi::config::{Config, ConfigError, Task};
use bizi::db::entities::task_run::{Model, TaskRunStatus};
use bizi::db::entities::task_run_log;

fn task(command: Option<&str>, depends_on: &[&str], tasks: Vec<(&str, Task)>) -> Task {
    Task {
        title: None,
        command: command.map(|c| c.to_string()),
        depends_on: if depends_on.is_empty() {
            None
        } else {
            Some(depends_on.iter().map(|d| d.to_string()).collect())
        },
        optional: None,
        tasks: if tasks.is_empty() {
            None
        } else {
            Some(tasks.into_iter().map(|(k, t)| (k.to_string(), t)).collect())
        },
        depends_on_tasks: None,
    }
}

fn config() -> Result<Config, ConfigError> {
    Ok(Config {
        tasks: vec![
            ("build".to_string(), task(Some("echo hello"), &[], vec![])),
            ("a".to_string(), task(Some("echo a"), &[], vec![])),
            ("b".to_string(), task(Some("echo b"), &["a"], vec![])),
            ("c".to_string(), task(Some("echo c"), &["a", "build"], vec![])),
            (
                "dev".to_string(),
                task(
                    Some("echo dev"),
                    &[],
                    vec![
                        ("server".to_string().as_str(), task(Some("echo server"), &[], vec![])),
                        ("web".to_string().as_str(), task(Some("echo web"), &[], vec![])),
                    ],
                ),
            ),
            (
                "group".to_string(),
                task(None, &[], vec![("one", task(Some("echo one"), &[], vec![]))]),
            ),
            ("broken".to_string(), task(Some("fail"), &[], vec![])),
            ("blank".to_string(), task(Some("  \t "), &[], vec![])),
        ],
    })
}

fn start(state: &mut AppState, name: &str, id: &str, now: i64) -> (u16, StartTaskResponse) {
    let payload = StartTaskRequest { task: name.to_string(), cwd: "/w".to_string() };
    run_task_with(state, &config(), &payload, id.to_string(), now)
}

fn started_id(reply: (u16, StartTaskResponse)) -> String {
    assert_eq!(reply.0, 200);
    match reply.1 {
        StartTaskResponse::Success(body) => body.run_id,
        StartTaskResponse::Error(error) => panic!("{}", error.message),
    }
}

fn status_of(state: &AppState, id: &str) -> TaskRunStatus {
    state.find_task_run(id).unwrap().status
}

fn waiting_on(state: &AppState, id: &str) -> Option<String> {
    state.find_task_run(id).unwrap().waiting_on.clone()
}

/// Performs the effects as the server would, with commands that print what
/// follows `echo` and fail when they are `fail`. Returns the status events
/// in the order in which they were published.
fn drive(state: &mut AppState, clock: &mut i64) -> Vec<TaskRunStatusChangedEvent> {
    let cfg = config().ok().unwrap();
    let mut published = Vec::new();
    loop {
        let effects = state.take_effects();
        if effects.is_empty() {
            return published;
        }
        for effect in effects {
            match effect {
                Effect::StatusChanged(run) => {
                    let event = TaskRunStatusChangedEvent::of(&run);
                    *clock += 1;
                    assert!(handle_status_event_at(state, &cfg, &event, *clock));
                    published.push(event);
                }
                Effect::Execute { run_id, task, cwd: _, command } => {
                    *clock += 1;
                    let generation = match mark_task_run_running_at(state, &run_id, *clock) {
                        Some(generation) => generation,
                        None => continue,
                    };
                    *clock += 1;
                    let outcome = match run_command_at(state, run_id.clone(), task.clone(), command, *clock) {
                        CommandStart::Done(status) => status,
                        CommandStart::Run(text) if text == "fail" => {
                            final_status(ProcessExit::Exited { success: false })
                        }
                        CommandStart::Run(text) => {
                            let output = format!("{}\n", text.trim_start_matches("echo "));
                            stream_task_logs_at(state, run_id.clone(), task.clone(), output.as_bytes(), false, *clock);
                            final_status(ProcessExit::Exited { success: true })
                        }
                    };
                    *clock += 1;
                    finish_task_run_execution_at(state, &run_id, generation, outcome, *clock);
                }
                Effect::LogAppended(_) | Effect::LogsCleared(_) | Effect::Cancel(_) => {}
            }
        }
    }
}

/// The state with status, blocking dependency and time of one run replaced
/// behind the back of the engine.
fn with_run(state: &AppState, id: &str, status: TaskRunStatus, waiting_on: Option<&str>, updated_at: i64) -> AppState {
    let mut runs: Vec<Model> = state.task_runs().clone();
    for run in runs.iter_mut() {
        if run.id == id {
            run.status = status;
            run.waiting_on = waiting_on.map(|w| w.to_string());
            run.updated_at = updated_at;
        }
    }
    restore_app_state(runs, state.task_run_logs().clone(), 0).unwrap()
}

fn statuses_of(events: &[TaskRunStatusChangedEvent], id: &str) -> Vec<TaskRunStatus> {
    events.iter().filter(|e| e.run_id == id).map(|e| e.status).collect()
}

fn log_lines(state: &AppState, id: &str, include_children: bool) -> Vec<String> {
    let payload = GetTaskRunLogsRequest { include_children: Some(include_children) };
    match get_task_run_logs(state, id.to_string(), &payload) {
        (200, GetTaskRunLogsResponse::Success(body)) => {
            assert_eq!(body.run_id, id);
            body.logs.into_iter().map(|l| l.line).collect()
        }
        _ => panic!("no logs"),
    }
}

#[test]
fn a_simple_run_succeeds_and_logs_its_command() {
    let mut state = create_app_state();
    let mut clock = 100;
    let id = started_id(start(&mut state, "build", "run-x", clock));
    assert_eq!(id, "run-x");
    assert_eq!(status_of(&state, &id), TaskRunStatus::Queued);
    assert_eq!(state.find_task_run(&id).unwrap().updated_at, 100);
    let events = drive(&mut state, &mut clock);
    assert_eq!(status_of(&state, &id), TaskRunStatus::Success);
    assert_eq!(
        statuses_of(&events, &id),
        vec![TaskRunStatus::Queued, TaskRunStatus::Running, TaskRunStatus::Success]
    );
    assert_eq!(log_lines(&state, &id, false), vec!["$ echo hello", "hello"]);
}

#[test]
fn a_run_waits_for_its_dependency() {
    let mut state = create_app_state();
    let mut clock = 0;
    let y = started_id(start(&mut state, "b", "run-y", clock));
    assert_eq!(waiting_on(&state, &y).as_deref(), Some("a"));
    let events = drive(&mut state, &mut clock);
    assert_eq!(status_of(&state, &y), TaskRunStatus::Queued);
    assert_eq!(statuses_of(&events, &y), vec![TaskRunStatus::Queued]);

    clock += 1;
    let z = started_id(start(&mut state, "a", "run-z", clock));
    let events = drive(&mut state, &mut clock);
    assert_eq!(status_of(&state, &z), TaskRunStatus::Success);
    assert_eq!(status_of(&state, &y), TaskRunStatus::Success);
    assert_eq!(waiting_on(&state, &y), None);
    assert_eq!(
        statuses_of(&events, &y),
        vec![TaskRunStatus::Queued, TaskRunStatus::Running, TaskRunStatus::Success]
    );
}

#[test]
fn a_run_moves_on_to_its_next_unmet_dependency() {
    let mut state = create_app_state();
    let mut clock = 0;
    let c = started_id(start(&mut state, "c", "run-c", clock));
    assert_eq!(waiting_on(&state, &c).as_deref(), Some("a"));
    drive(&mut state, &mut clock);
    started_id(start(&mut state, "a", "run-a", clock));
    drive(&mut state, &mut clock);
    assert_eq!(status_of(&state, &c), TaskRunStatus::Queued);
    assert_eq!(waiting_on(&state, &c).as_deref(), Some("build"));
    started_id(start(&mut state, "build", "run-build", clock));
    drive(&mut state, &mut clock);
    assert_eq!(status_of(&state, &c), TaskRunStatus::Success);
}

#[test]
fn a_dependency_that_failed_last_is_not_satisfied() {
    let mut state = create_app_state();
    let mut clock = 0;
    started_id(start(&mut state, "a", "a1", clock));
    drive(&mut state, &mut clock);
    let b1 = started_id(start(&mut state, "b", "b1", clock));
    assert_eq!(waiting_on(&state, &b1), None);
    drive(&mut state, &mut clock);
    // a later run of a that is cancelled makes the dependency unmet again
    clock += 1;
    started_id(start(&mut state, "a", "a2", clock));
    clock += 1;
    cancel_task_at(&mut state, &CancelTaskRequest { run_id: "a2".to_string() }, clock);
    state.take_effects();
    let b2 = started_id(start(&mut state, "b", "b2", clock));
    assert_eq!(waiting_on(&state, &b2).as_deref(), Some("a"));
}

#[test]
fn sub_tasks_get_their_runs_once() {
    let mut state = create_app_state();
    let mut clock = 0;
    let r = started_id(start(&mut state, "dev", "run-r", clock));
    drive(&mut state, &mut clock);
    assert_eq!(status_of(&state, &r), TaskRunStatus::Success);
    let children: Vec<Model> = state
        .task_runs()
        .iter()
        .filter(|run| run.parent_run_id.as_deref() == Some("run-r"))
        .cloned()
        .collect();
    assert_eq!(children.len(), 2);
    assert_eq!(children[0].task, "dev:server");
    assert_eq!(children[1].task, "dev:web");
    assert!(children.iter().all(|c| c.status == TaskRunStatus::Success && c.cwd == "/w"));
    assert!(children.iter().all(|c| c.id.len() == 21));

    // restart: the children are reused and wait for their parent
    clock += 1;
    let reply = restart_task_at(
        &mut state,
        &config(),
        &RestartTaskRequest { run_id: r.clone() },
        clock,
    );
    assert_eq!(reply.0, 200);
    assert!(matches!(reply.1, RestartTaskResponse::Success(body) if body.run_id == r));
    assert_eq!(state.task_runs().len(), 3);
    assert_eq!(status_of(&state, &r), TaskRunStatus::Queued);
    for child in &children {
        assert_eq!(status_of(&state, &child.id), TaskRunStatus::Queued);
        assert_eq!(waiting_on(&state, &child.id).as_deref(), Some("dev"));
    }
    assert_eq!(log_lines(&state, &r, true), Vec::<String>::new());
    drive(&mut state, &mut clock);
    assert_eq!(state.task_runs().len(), 3);
    assert!(state.task_runs().iter().all(|run| run.status == TaskRunStatus::Success));
    assert_eq!(
        log_lines(&state, &r, true),
        vec!["$ echo dev", "dev", "$ echo server", "server", "$ echo web", "web"]
    );
}

#[test]
fn cancelling_reaches_the_whole_tree() {
    let mut state = create_app_state();
    let mut clock = 0;
    let r = started_id(start(&mut state, "dev", "run-r", clock));
    drive(&mut state, &mut clock);
    let cfg = config().ok().unwrap();
    let server = state.task_runs()[1].id.clone();
    let web = state.task_runs()[2].id.clone();
    // bring the tree back to life: parent running, one child queued
    let mut state = with_run(&state, &server, TaskRunStatus::Queued, Some("dev"), 50);
    assert_eq!(mark_task_run_running_at(&mut state, &r, 51), Some(51));
    state.register_process(r.clone());
    state.take_effects();
    let before_logs = log_lines(&state, &r, true).len();

    let reply = cancel_task_at(&mut state, &CancelTaskRequest { run_id: r.clone() }, 60);
    assert_eq!(reply.0, 200);
    match reply.1 {
        CancelTaskResponse::Success(body) => {
            assert_eq!(body.cancelled_run_ids, vec![r.clone(), web.clone(), server.clone()]);
        }
        CancelTaskResponse::Error(error) => panic!("{}", error.message),
    }
    assert_eq!(status_of(&state, &r), TaskRunStatus::Cancelled);
    assert_eq!(status_of(&state, &server), TaskRunStatus::Cancelled);
    // a run that succeeded stays what it is
    assert_eq!(status_of(&state, &web), TaskRunStatus::Success);
    assert_eq!(waiting_on(&state, &server), None);
    assert_eq!(state.find_task_run(&r).unwrap().updated_at, 60);
    let effects = state.take_effects();
    let kills: Vec<&String> = effects
        .iter()
        .filter_map(|e| match e {
            Effect::Cancel(id) => Some(id),
            _ => None,
        })
        .collect();
    // only the run with a process has one to kill
    assert_eq!(kills, vec![&r]);
    assert!(state.running_processes().is_empty());
    let lines = log_lines(&state, &r, true);
    assert_eq!(lines.len(), before_logs + 2);
    assert_eq!(lines[lines.len() - 1], "canceled");
    assert_eq!(lines[lines.len() - 2], "canceled");
    assert!(handle_status_event_at(
        &mut state,
        &cfg,
        &TaskRunStatusChangedEvent {
            run_id: r.clone(),
            task: "dev".to_string(),
            cwd: "/w".to_string(),
            status: TaskRunStatus::Cancelled,
        },
        61
    ));
    assert!(state.take_effects().is_empty());
}

#[test]
fn cancelling_a_cancelled_run_keeps_it_cancelled() {
    let mut state = create_app_state();
    started_id(start(&mut state, "build", "x", 1));
    let request = CancelTaskRequest { run_id: "x".to_string() };
    assert_eq!(cancel_task_at(&mut state, &request, 2).0, 200);
    assert_eq!(status_of(&state, "x"), TaskRunStatus::Cancelled);
    assert_eq!(state.find_task_run("x").unwrap().updated_at, 2);
    state.take_effects();
    assert_eq!(cancel_task_at(&mut state, &request, 3).0, 200);
    assert_eq!(status_of(&state, "x"), TaskRunStatus::Cancelled);
    // the row is as it was, and no change is announced
    assert_eq!(state.find_task_run("x").unwrap().updated_at, 2);
    let effects = state.take_effects();
    assert!(effects.iter().all(|e| !matches!(e, Effect::StatusChanged(_) | Effect::Cancel(_))));
    assert_eq!(log_lines(&state, "x", false), vec!["canceled", "canceled"]);
    assert_eq!(cancel_task(&mut state, &request).0, 200);
    assert_eq!(status_of(&state, "x"), TaskRunStatus::Cancelled);
}

#[test]
fn cancelling_an_unknown_run_is_not_found() {
    let mut state = create_app_state();
    let reply = cancel_task_at(&mut state, &CancelTaskRequest { run_id: "nope".to_string() }, 1);
    assert_eq!(reply.0, 404);
    assert!(matches!(reply.1, CancelTaskResponse::Error(e) if e.message == "Task run not found"));
    assert!(state.take_effects().is_empty());
}

#[test]
fn a_stale_execution_records_nothing() {
    let mut state = create_app_state();
    started_id(start(&mut state, "build", "x", 1));
    let first = mark_task_run_running_at(&mut state, "x", 2).unwrap();
    // cancelled in the meantime
    cancel_task_at(&mut state, &CancelTaskRequest { run_id: "x".to_string() }, 3);
    assert!(!finish_task_run_execution_at(&mut state, "x", first, TaskRunStatus::Success, 4));
    assert_eq!(status_of(&state, "x"), TaskRunStatus::Cancelled);
    // taken over by another execution
    let second = mark_task_run_running_at(&mut state, "x", 5).unwrap();
    assert!(!finish_task_run_execution_at(&mut state, "x", first, TaskRunStatus::Failed, 6));
    assert_eq!(status_of(&state, "x"), TaskRunStatus::Running);
    assert!(finish_task_run_execution_at(&mut state, "x", second, TaskRunStatus::Failed, 7));
    assert_eq!(status_of(&state, "x"), TaskRunStatus::Failed);
    assert_eq!(state.find_task_run("x").unwrap().updated_at, 7);
    assert!(!finish_task_run_execution_at(&mut state, "gone", 0, TaskRunStatus::Failed, 8));
    assert_eq!(mark_task_run_running_at(&mut state, "gone", 9), None);
}

#[test]
fn a_failed_run_is_restarted_in_place() {
    let mut state = create_app_state();
    let mut clock = 0;
    let r = started_id(start(&mut state, "broken", "r", clock));
    drive(&mut state, &mut clock);
    assert_eq!(status_of(&state, &r), TaskRunStatus::Failed);
    assert_eq!(log_lines(&state, &r, false), vec!["$ fail"]);
    clock += 1;
    let reply = restart_task_at(&mut state, &config(), &RestartTaskRequest { run_id: r.clone() }, clock);
    assert_eq!(reply.0, 200);
    assert_eq!(status_of(&state, &r), TaskRunStatus::Queued);
    assert_eq!(state.find_task_run(&r).unwrap().updated_at, clock);
    assert!(log_lines(&state, &r, false).is_empty());
    let effects = state.take_effects();
    assert!(effects.iter().any(|e| matches!(e, Effect::LogsCleared(ids) if ids == &vec![r.clone()])));
    assert!(matches!(
        effects.last(),
        Some(Effect::Execute { run_id, command, .. }) if run_id == &r && command.as_deref() == Some("fail")
    ));
    assert_eq!(state.task_runs().len(), 1);
}

#[test]
fn a_restart_answers_errors_without_touching_anything() {
    let mut state = create_app_state();
    started_id(start(&mut state, "build", "r", 1));
    state.take_effects();
    let request = RestartTaskRequest { run_id: "r".to_string() };

    let reply = restart_task_at(&mut state, &config(), &RestartTaskRequest { run_id: "nope".to_string() }, 2);
    assert_eq!(reply.0, 404);
    assert!(matches!(reply.1, RestartTaskResponse::Error(e) if e.message == "Task run not found"));

    let reply = restart_task_at(&mut state, &Err(ConfigError::Io { not_found: true }), &request, 2);
    assert_eq!(reply.0, 404);
    assert!(matches!(reply.1, RestartTaskResponse::Error(e) if e.message == "Task config file not found"));

    let reply = restart_task_at(&mut state, &Err(ConfigError::Json), &request, 2);
    assert_eq!(reply.0, 500);
    assert!(matches!(reply.1, RestartTaskResponse::Error(e) if e.message == "Failed to load task config file"));

    let empty = Ok(Config { tasks: Vec::new() });
    let reply = restart_task_at(&mut state, &empty, &request, 2);
    assert_eq!(reply.0, 404);
    assert!(matches!(reply.1, RestartTaskResponse::Error(e) if e.message == "Task not found"));

    assert!(state.take_effects().is_empty());
    assert_eq!(status_of(&state, "r"), TaskRunStatus::Queued);
    assert_eq!(state.find_task_run("r").unwrap().updated_at, 1);
    assert_eq!(restart_task(&mut state, &config(), &request).0, 200);
}

#[test]
fn a_start_answers_errors_without_touching_anything() {
    let mut state = create_app_state();
    let payload = StartTaskRequest { task: "build".to_string(), cwd: "/w".to_string() };
    let reply = run_task_with(&mut state, &Err(ConfigError::Io { not_found: true }), &payload, "x".to_string(), 1);
    assert_eq!(reply.0, 404);
    assert!(matches!(reply.1, StartTaskResponse::Error(e) if e.message == "Task config file not found"));
    let reply = run_task_with(&mut state, &Err(ConfigError::Io { not_found: false }), &payload, "x".to_string(), 1);
    assert_eq!(reply.0, 500);
    assert!(matches!(reply.1, StartTaskResponse::Error(e) if e.message == "Failed to load task config file"));
    let reply = start(&mut state, "unknown", "x", 1);
    assert_eq!(reply.0, 404);
    assert!(matches!(reply.1, StartTaskResponse::Error(e) if e.message == "Task not found"));
    assert!(state.task_runs().is_empty());
    // an id that is taken cannot be stored again
    started_id(start(&mut state, "build", "x", 1));
    let reply = start(&mut state, "a", "x", 2);
    assert_eq!(reply.0, 500);
    assert!(matches!(reply.1, StartTaskResponse::Error(e) if e.message == "Failed to insert task run"));
    assert_eq!(state.task_runs().len(), 1);
}

#[test]
fn starting_a_running_task_answers_with_the_running_run() {
    let mut state = create_app_state();
    started_id(start(&mut state, "build", "first", 1));
    mark_task_run_running_at(&mut state, "first", 2);
    state.take_effects();
    assert_eq!(started_id(start(&mut state, "build", "second", 3)), "first");
    assert_eq!(started_id(start(&mut state, "build", "third", 4)), "first");
    assert_eq!(state.task_runs().len(), 1);
    assert!(state.take_effects().is_empty());
    // another working directory is another matter
    let payload = StartTaskRequest { task: "build".to_string(), cwd: "/other".to_string() };
    let reply = run_task_with(&mut state, &config(), &payload, "fourth".to_string(), 5);
    assert_eq!(started_id(reply), "fourth");
}

#[test]
fn starting_a_queued_task_again_creates_a_second_run() {
    let mut state = create_app_state();
    assert_eq!(started_id(start(&mut state, "build", "first", 1)), "first");
    assert_eq!(started_id(start(&mut state, "build", "second", 2)), "second");
    assert_eq!(state.task_runs().len(), 2);
}

#[test]
fn a_group_with_work_under_way_answers_for_itself() {
    let mut state = create_app_state();
    let mut clock = 0;
    let g = started_id(start(&mut state, "group", "g", clock));
    // the group succeeds at once; its child is created and queued
    let effects = state.take_effects();
    assert_eq!(effects.len(), 2);
    mark_task_run_running_at(&mut state, &g, 1);
    assert!(matches!(
        run_command_at(&mut state, g.clone(), "group".to_string(), None, 2),
        CommandStart::Done(TaskRunStatus::Success)
    ));
    assert!(finish_task_run_execution_at(&mut state, &g, 1, TaskRunStatus::Success, 3));
    let cfg = config().ok().unwrap();
    let event = TaskRunStatusChangedEvent {
        run_id: g.clone(),
        task: "group".to_string(),
        cwd: "/w".to_string(),
        status: TaskRunStatus::Success,
    };
    assert!(trigger_subtasks(&mut state, &cfg, &event, 4));
    assert_eq!(state.task_runs().len(), 2);
    assert_eq!(state.task_runs()[1].task, "group:one");
    assert_eq!(state.task_runs()[1].status, TaskRunStatus::Queued);
    state.take_effects();
    // while the child is queued, the group answers
    assert_eq!(started_id(start(&mut state, "group", "g2", 5)), "g");
    assert_eq!(state.task_runs().len(), 2);
    // once everything is through, a new run is created
    clock = 10;
    let child = state.task_runs()[1].id.clone();
    let generation = mark_task_run_running_at(&mut state, &child, clock).unwrap();
    finish_task_run_execution_at(&mut state, &child, generation, TaskRunStatus::Success, 11);
    assert_eq!(started_id(start(&mut state, "group", "g2", 12)), "g2");
}

#[test]
fn a_blank_command_needs_no_process() {
    let mut state = create_app_state();
    let done = |start: CommandStart| matches!(start, CommandStart::Done(TaskRunStatus::Success));
    assert!(done(run_command_at(&mut state, "r".to_string(), "t".to_string(), None, 1)));
    assert!(done(run_command_at(&mut state, "r".to_string(), "t".to_string(), Some(" \t\n ".to_string()), 1)));
    assert!(done(run_command_at(
        &mut state,
        "r".to_string(),
        "t".to_string(),
        Some("\u{a0}\u{3000}".to_string()),
        1
    )));
    assert!(done(run_command(&mut state, "r".to_string(), "t".to_string(), Some("".to_string()))));
    assert!(state.task_run_logs().is_empty());
    let start = run_command_at(&mut state, "r".to_string(), "t".to_string(), Some(" ls ".to_string()), 7);
    assert!(matches!(start, CommandStart::Run(text) if text == " ls "));
    let start = run_command(&mut state, "r".to_string(), "t".to_string(), Some("pwd".to_string()));
    assert!(matches!(start, CommandStart::Run(text) if text == "pwd"));
    let logs = state.task_run_logs();
    assert_eq!(logs.len(), 2);
    assert_eq!(logs[0].line, "$  ls ");
    assert_eq!(logs[0].id, 1);
    assert_eq!(logs[0].timestamp, 7);
    assert_eq!(logs[0].run_id, "r");
    assert_eq!(logs[0].task, "t");
    assert!(!logs[0].is_stderr);
    assert_eq!(logs[1].line, "$ pwd");
}

#[test]
fn output_is_cleaned_before_it_is_stored() {
    let mut state = create_app_state();
    let stored = stream_task_logs_at(&mut state, "r".to_string(), "t".to_string(), b"a\rb\rc\n", true, 3).unwrap();
    assert_eq!(stored.line, "c");
    assert_eq!(stored.sequence, 1);
    assert!(stored.is_stderr);
    assert_eq!(stored.timestamp, 3);
    // nothing is left of this line
    assert!(stream_task_logs_at(&mut state, "r".to_string(), "t".to_string(), b"\x1b[2K\r\n", false, 4).is_none());
    // an empty line is a line
    assert_eq!(stream_task_logs(&mut state, "r".to_string(), "t".to_string(), b"\n", false).unwrap().sequence, 2);
    assert_eq!(state.task_run_logs().len(), 2);
    let effects = state.take_effects();
    assert_eq!(effects.len(), 2);
    assert!(matches!(&effects[0], Effect::LogAppended(line) if line.line == "c"));
}

#[test]
fn the_end_of_a_process_decides_the_status() {
    assert_eq!(final_status(ProcessExit::Exited { success: true }), TaskRunStatus::Success);
    assert_eq!(final_status(ProcessExit::Exited { success: false }), TaskRunStatus::Failed);
    assert_eq!(final_status(ProcessExit::SpawnFailed), TaskRunStatus::Failed);
    assert_eq!(final_status(ProcessExit::WaitFailed), TaskRunStatus::Failed);
    assert_eq!(final_status(ProcessExit::Cancelled), TaskRunStatus::Cancelled);
}

#[test]
fn log_lines_are_numbered_in_order() {
    let mut state = create_app_state();
    let first = append_task_log_line(&mut state, "r".to_string(), "t".to_string(), "one".to_string(), false, 5).unwrap();
    let second = append_task_log_line(&mut state, "s".to_string(), "t".to_string(), "two".to_string(), true, 6).unwrap();
    let third = append_task_log_line(&mut state, "r".to_string(), "t".to_string(), "three".to_string(), false, 6).unwrap();
    assert_eq!((first.sequence, second.sequence, third.sequence), (1, 2, 3));
    assert!(second.is_stderr);
    assert_eq!(third.timestamp, 6);
    let effects = state.take_effects();
    assert_eq!(effects.len(), 3);
    assert!(matches!(&effects[1], Effect::LogAppended(line) if line.line == "two" && line.sequence == 2));
}

#[test]
fn fresh_ids_have_the_right_shape() {
    let first = new_task_run_id();
    let second = new_task_run_id();
    for id in [&first, &second] {
        assert_eq!(id.chars().count(), 21);
        assert!(id.chars().all(|c| c == '_' || c.is_ascii_alphanumeric()));
    }
    assert_ne!(first, second);
}

#[test]
fn a_start_without_an_id_draws_one() {
    let mut state = create_app_state();
    let payload = StartTaskRequest { task: "build".to_string(), cwd: "/w".to_string() };
    let id = started_id(run_task(&mut state, &config(), &payload));
    assert_eq!(id.len(), 21);
    assert_eq!(status_of(&state, &id), TaskRunStatus::Queued);
    let generation = mark_task_run_running(&mut state, &id).unwrap();
    assert_eq!(state.find_task_run(&id).unwrap().updated_at, generation);
    assert_eq!(status_of(&state, &id), TaskRunStatus::Running);
    let cfg = config().ok().unwrap();
    let event = TaskRunStatusChangedEvent {
        run_id: id,
        task: "build".to_string(),
        cwd: "/w".to_string(),
        status: TaskRunStatus::Running,
    };
    assert!(handle_status_event(&mut state, &cfg, &event));
}

#[test]
fn a_child_needs_its_parent() {
    let cfg = config().ok().unwrap();
    let mut state = create_app_state();
    let event = |run_id: &str, cwd: &str| TaskRunStatusChangedEvent {
        run_id: run_id.to_string(),
        task: "dev".to_string(),
        cwd: cwd.to_string(),
        status: TaskRunStatus::Success,
    };
    // no run of that id: the store refuses the child
    assert!(!trigger_subtasks(&mut state, &cfg, &event("nobody", "/w"), 1));
    assert!(state.task_runs().is_empty());
    started_id(start(&mut state, "dev", "p1", 1));
    // the parent lives in another working directory
    assert!(!trigger_subtasks(&mut state, &cfg, &event("p1", "/other"), 2));
    assert_eq!(state.task_runs().len(), 1);
    assert!(trigger_subtasks(&mut state, &cfg, &event("p1", "/w"), 3));
    assert_eq!(state.task_runs().len(), 3);
    let child = &state.task_runs()[1];
    assert_eq!(child.parent_run_id.as_deref(), Some("p1"));
    assert_eq!(child.task, "dev:server");
    assert_eq!(child.status, TaskRunStatus::Queued);
    assert_eq!(child.updated_at, 3);
    // a second look creates nothing
    assert!(trigger_subtasks(&mut state, &cfg, &event("p1", "/w"), 4));
    assert_eq!(state.task_runs().len(), 3);
    assert!(finish_task_run_execution(&mut state, "p1", 0, TaskRunStatus::Failed) == false);
}

#[test]
fn runs_are_shown_as_trees() {
    let mut state = create_app_state();
    let mut clock = 0;
    started_id(start(&mut state, "dev", "r", clock));
    drive(&mut state, &mut clock);
    started_id(start(&mut state, "build", "later", clock + 1));
    let server = state.task_runs()[1].id.clone();
    let web = state.task_runs()[2].id.clone();
    // the server run changes last and moves behind its sibling
    let state = with_run(&state, &server, TaskRunStatus::Failed, None, 1000);

    match get_task_run(&state, "r") {
        (200, GetTaskRunResponse::Success(body)) => {
            let tree = body.task_run;
            assert_eq!(tree.id, "r");
            assert_eq!(tree.task, "dev");
            assert_eq!(tree.status, TaskRunStatus::Success);
            assert_eq!(tree.children.len(), 2);
            assert_eq!(tree.children[0].id, web);
            assert_eq!(tree.children[1].id, server);
            assert_eq!(tree.children[1].status, TaskRunStatus::Failed);
            assert_eq!(tree.children[1].parent_run_id.as_deref(), Some("r"));
            assert!(tree.children[0].children.is_empty());
        }
        _ => panic!("no tree"),
    }
    match get_task_run(&state, "nope") {
        (404, GetTaskRunResponse::Error(error)) => assert_eq!(error.message, "Task run not found"),
        _ => panic!("found"),
    }
    match list_task_runs(&state, &ListTaskRunsRequest { cwd: "/w".to_string() }) {
        (200, ListTaskRunsResponse::Success(body)) => {
            let ids: Vec<&str> = body.task_runs.iter().map(|t| t.id.as_str()).collect();
            assert_eq!(ids, vec!["later", "r"]);
            assert_eq!(body.task_runs[1].children.len(), 2);
        }
        _ => panic!("no list"),
    }
    match list_task_runs(&state, &ListTaskRunsRequest { cwd: "/elsewhere".to_string() }) {
        (200, ListTaskRunsResponse::Success(body)) => assert!(body.task_runs.is_empty()),
        _ => panic!("no list"),
    }
}

#[test]
fn logs_are_read_with_or_without_children() {
    let mut state = create_app_state();
    let mut clock = 0;
    started_id(start(&mut state, "dev", "r", clock));
    drive(&mut state, &mut clock);
    assert_eq!(log_lines(&state, "r", false), vec!["$ echo dev", "dev"]);
    assert_eq!(log_lines(&state, "r", true).len(), 6);
    let payload = GetTaskRunLogsRequest { include_children: None };
    match get_task_run_logs(&state, "r".to_string(), &payload) {
        (200, GetTaskRunLogsResponse::Success(body)) => {
            assert_eq!(body.logs.len(), 2);
            assert_eq!(body.logs[0].sequence, 1);
            assert_eq!(body.logs[1].sequence, 2);
        }
        _ => panic!("no logs"),
    }
    match get_task_run_logs(&state, "nope".to_string(), &payload) {
        (404, GetTaskRunLogsResponse::Error(error)) => assert_eq!(error.message, "Task run not found"),
        _ => panic!("found"),
    }
}

#[test]
fn tasks_are_listed() {
    match list_tasks(&config()) {
        (200, ListTasksResponse::Success(body)) => {
            assert_eq!(body.tasks.len(), 11);
            assert_eq!(body.tasks[5].0, "dev:server");
        }
        _ => panic!("no list"),
    }
    match list_tasks(&Err(ConfigError::Io { not_found: true })) {
        (404, ListTasksResponse::Error(error)) => assert_eq!(error.message, "Task config file not found"),
        _ => panic!("listed"),
    }
    match list_tasks(&Err(ConfigError::Json)) {
        (500, ListTasksResponse::Error(error)) => assert_eq!(error.message, "Failed to load task config file"),
        _ => panic!("listed"),
    }
}

#[test]
fn a_store_is_restored_from_its_rows() {
    let mut state = create_app_state();
    let mut clock = 0;
    started_id(start(&mut state, "dev", "r", clock));
    drive(&mut state, &mut clock);
    let runs: Vec<Model> = state.task_runs().clone();
    let logs: Vec<task_run_log::Model> = state.task_run_logs().clone();
    let mut restored = restore_app_state(runs.clone(), logs.clone(), 0).unwrap();
    assert_eq!(restored.task_runs().len(), 3);
    assert_eq!(restored.task_run_logs().len(), 6);
    assert!(restored.take_effects().is_empty());
    assert!(restored.running_processes().is_empty());
    let next = append_task_log_line(&mut restored, "r".to_string(), "dev".to_string(), "x".to_string(), false, 1).unwrap();
    assert_eq!(next.sequence, 7);

    // a child listed before its parent is refused
    let mut swapped = runs.clone();
    swapped.swap(0, 1);
    assert!(restore_app_state(swapped, Vec::new(), 0).is_none());
    // so are two runs with one id
    let twice = vec![runs[0].clone(), runs[0].clone()];
    assert!(restore_app_state(twice, Vec::new(), 0).is_none());
    // and log lines out of order
    let mut unordered = logs.clone();
    unordered.swap(0, 1);
    assert!(restore_app_state(runs, unordered, 0).is_none());
}

#[test]
fn no_log_number_is_given_twice() {
    // the lines up to number 9 were stored once and have been deleted since
    let mut state = restore_app_state(Vec::new(), Vec::new(), 9).unwrap();
    let next = append_task_log_line(&mut state, "r".to_string(), "t".to_string(), "x".to_string(), false, 1).unwrap();
    assert_eq!(next.sequence, 10);
    let rows = state.task_run_logs().clone();
    // a number that lags behind the rows does not count
    let mut state = restore_app_state(Vec::new(), rows.clone(), 3).unwrap();
    let next = append_task_log_line(&mut state, "r".to_string(), "t".to_string(), "y".to_string(), false, 1).unwrap();
    assert_eq!(next.sequence, 11);
    assert!(restore_app_state(Vec::new(), rows, i64::MAX).is_none());
    assert_eq!(
        append_task_log_line(
            &mut restore_app_state(Vec::new(), Vec::new(), -5).unwrap(),
            "r".to_string(),
            "t".to_string(),
            "z".to_string(),
            false,
            1
        )
        .unwrap()
        .sequence,
        1
    );
}

#[test]
fn sub_tasks_get_the_ids_given() {
    let cfg = config().ok().unwrap();
    let mut state = create_app_state();
    started_id(start(&mut state, "dev", "p", 1));
    state.take_effects();
    let event = TaskRunStatusChangedEvent {
        run_id: "p".to_string(),
        task: "dev".to_string(),
        cwd: "/w".to_string(),
        status: TaskRunStatus::Success,
    };
    // one id is not enough for two sub-tasks
    assert!(!trigger_subtasks_with(&mut state, &cfg, &event, &vec!["one".to_string()], 2));
    assert_eq!(state.task_runs().len(), 2);
    assert_eq!(state.task_runs()[1].id, "one");
    assert_eq!(state.task_runs()[1].task, "dev:server");
    // the first sub-task has its run; the second gets the second id
    let ids = vec!["unused".to_string(), "two".to_string()];
    assert!(handle_status_event_with(&mut state, &cfg, &event, &ids, 3));
    assert_eq!(state.task_runs().len(), 3);
    assert_eq!(state.task_runs()[2].id, "two");
    assert_eq!(state.task_runs()[2].task, "dev:web");
    assert_eq!(state.task_runs()[2].parent_run_id.as_deref(), Some("p"));
    assert_eq!(state.task_runs()[2].updated_at, 3);
    // an id that is taken is refused
    let mut other = create_app_state();
    started_id(start(&mut other, "dev", "p", 1));
    assert!(!trigger_subtasks_with(&mut other, &cfg, &event, &vec!["p".to_string(), "q".to_string()], 2));
    assert_eq!(other.task_runs().len(), 1);
}

#[test]
fn statuses_have_their_names() {
    assert_eq!(TaskRunStatus::Queued.as_str(), "queued");
    assert_eq!(TaskRunStatus::Running.as_str(), "running");
    assert_eq!(TaskRunStatus::Success.as_str(), "success");
    assert_eq!(TaskRunStatus::Cancelled.as_str(), "cancelled");
    assert_eq!(TaskRunStatus::Failed.as_str(), "failed");
}

#[test]
fn the_process_table_knows_what_can_be_killed() {
    let mut state = create_app_state();
    state.register_process("a".to_string());
    state.register_process("b".to_string());
    state.register_process("a".to_string());
    state.register_process("c".to_string());
    assert_eq!(state.running_processes(), &vec!["a".to_string(), "b".to_string(), "c".to_string()]);
    state.release_process("b");
    state.release_process("unknown");
    assert_eq!(state.running_processes(), &vec!["a".to_string(), "c".to_string()]);
    assert!(state.take_effects().is_empty());
    cancel_all_running_processes(&mut state);
    assert!(state.running_processes().is_empty());
    let effects = state.take_effects();
    assert_eq!(effects.len(), 2);
    assert!(matches!(&effects[0], Effect::Cancel(id) if id == "a"));
    assert!(matches!(&effects[1], Effect::Cancel(id) if id == "c"));
    cancel_all_running_processes(&mut state);
    assert!(state.take_effects().is_empty());
}

fn running(state: &AppState, task: &str) -> usize {
    state
        .task_runs()
        .iter()
        .filter(|run| run.task == task && run.cwd == "/w" && run.status == TaskRunStatus::Running)
        .count()
}

#[test]
fn a_running_run_waits_for_nothing() {
    let mut state = create_app_state();
    started_id(start(&mut state, "b", "y", 1));
    assert_eq!(waiting_on(&state, "y").as_deref(), Some("a"));
    assert_eq!(mark_task_run_running_at(&mut state, "y", 2), Some(2));
    assert_eq!(status_of(&state, "y"), TaskRunStatus::Running);
    assert_eq!(waiting_on(&state, "y"), None);
    assert!(state
        .task_runs()
        .iter()
        .all(|run| run.status != TaskRunStatus::Running || run.waiting_on.is_none()));
}

#[test]
fn one_run_of_a_task_runs_at_a_time() {
    let mut state = create_app_state();
    let mut clock = 0;
    started_id(start(&mut state, "build", "first", clock));
    mark_task_run_running_at(&mut state, "first", 1);
    // requests that arrive while the run is running create nothing
    started_id(start(&mut state, "build", "second", 2));
    started_id(start(&mut state, "build", "third", 3));
    assert_eq!(running(&state, "build"), 1);
    state.take_effects();
    finish_task_run_execution_at(&mut state, "first", 1, TaskRunStatus::Success, 4);
    // once it is through, the next request gets a run of its own
    assert_eq!(started_id(start(&mut state, "build", "fourth", 5)), "fourth");
    drive(&mut state, &mut clock);
    assert_eq!(running(&state, "build"), 0);
    assert_eq!(status_of(&state, "fourth"), TaskRunStatus::Success);
}

#[test]
fn two_queued_runs_of_a_task_can_both_be_promoted() {
    let mut state = create_app_state();
    started_id(start(&mut state, "build", "first", 1));
    started_id(start(&mut state, "build", "second", 2));
    mark_task_run_running_at(&mut state, "first", 3);
    mark_task_run_running_at(&mut state, "second", 4);
    assert_eq!(running(&state, "build"), 2);
}

#[test]
fn a_failed_write_is_answered_with_500() {
    let cases = [
        (StorageStep::InsertRun, "Failed to insert task run"),
        (StorageStep::CancelRuns, "Failed to cancel task runs"),
        (StorageStep::PrepareRestart, "Failed to prepare task runs for restart"),
    ];
    for (step, message) in cases {
        let (status, error) = storage_error_reply(step);
        assert_eq!(status, 500);
        assert_eq!(error.message, message);
    }
}
