use bizi::api::events::{TaskRunLogLine, TaskRunStatusChangedEvent};
use bizi::api::state::{restore_app_state, AppState};
use bizi::api::streams::{
    answer_socket, open_log_stream, send_task_run_snapshot, stream_task_run_logs,
    stream_task_run_updates, LogStreamStep, Received, SocketInput, SocketStep,
    TaskRunLogsStreamMessage, TreeStreamStep,
};
use bizi::api::tasks::GetTaskRunResponse;
use bizi::db::entities::task_run::{Model, TaskRunStatus};
use bizi::db::entities::task_run_log;

fn run(id: &str, parent: Option<&str>) -> Model {
    Model {
        id: id.to_string(),
        task: "t".to_string(),
        cwd: "/w".to_string(),
        parent_run_id: parent.map(|p| p.to_string()),
        status: TaskRunStatus::Running,
        updated_at: 1,
        waiting_on: None,
    }
}

fn row(id: i64, run_id: &str) -> task_run_log::Model {
    task_run_log::Model {
        id,
        run_id: run_id.to_string(),
        task: "t".to_string(),
        line: format!("line {}", id),
        is_stderr: false,
        timestamp: 0,
    }
}

fn line(sequence: u64, run_id: &str) -> TaskRunLogLine {
    TaskRunLogLine {
        run_id: run_id.to_string(),
        task: "t".to_string(),
        line: format!("line {}", sequence),
        is_stderr: false,
        timestamp: 0,
        sequence,
    }
}

fn state(runs: Vec<Model>, logs: Vec<task_run_log::Model>) -> AppState {
    restore_app_state(runs, logs, 0).unwrap()
}

#[test]
fn a_ping_gets_a_pong() {
    assert!(matches!(answer_socket(SocketInput::Ping(vec![1, 2, 3])), SocketStep::Pong(p) if p == vec![1, 2, 3]));
    assert!(matches!(answer_socket(SocketInput::Other), SocketStep::Continue));
    assert!(matches!(answer_socket(SocketInput::Closed), SocketStep::Stop));
    assert!(matches!(answer_socket(SocketInput::Failed), SocketStep::Stop));
}

#[test]
fn the_tree_is_sent_anew_on_every_event() {
    let state = state(vec![run("r", None), run("c", Some("r"))], Vec::new());
    let event = TaskRunStatusChangedEvent {
        run_id: "whatever".to_string(),
        task: "t".to_string(),
        cwd: "/w".to_string(),
        status: TaskRunStatus::Queued,
    };
    for received in [Received::Event(event), Received::Lagged] {
        match stream_task_run_updates(&state, "r", &received) {
            TreeStreamStep::Send(GetTaskRunResponse::Success(body)) => {
                assert_eq!(body.task_run.id, "r");
                assert_eq!(body.task_run.children.len(), 1);
            }
            _ => panic!("no snapshot"),
        }
    }
    assert!(matches!(stream_task_run_updates(&state, "r", &Received::Closed), TreeStreamStep::Stop));
    assert!(matches!(send_task_run_snapshot(&state, "r"), TreeStreamStep::Send(_)));
    match send_task_run_snapshot(&state, "gone") {
        TreeStreamStep::SendAndClose(GetTaskRunResponse::Error(error)) => {
            assert_eq!(error.message, "Task run not found")
        }
        _ => panic!("found"),
    }
}

#[test]
fn a_log_stream_opens_with_the_stored_log() {
    let state = state(vec![run("r", None), run("c", Some("r"))], vec![row(1, "r"), row(2, "c"), row(4, "r")]);
    let (stream, message) = open_log_stream(&state, "r".to_string(), false);
    let stream = stream.unwrap();
    assert_eq!(stream.run_id, "r");
    assert_eq!(stream.included_run_ids, vec!["r".to_string()]);
    assert_eq!(stream.latest_sequence, 4);
    match message {
        TaskRunLogsStreamMessage::Snapshot { run_id, logs } => {
            assert_eq!(run_id, "r");
            assert_eq!(logs.iter().map(|l| l.sequence).collect::<Vec<u64>>(), vec![1, 4]);
        }
        _ => panic!("no snapshot"),
    }
    let (stream, _) = open_log_stream(&state, "c".to_string(), true);
    assert_eq!(stream.unwrap().latest_sequence, 2);
    let (stream, message) = open_log_stream(&state, "gone".to_string(), true);
    assert!(stream.is_none());
    assert!(matches!(message, TaskRunLogsStreamMessage::Error { message } if message == "Task run not found"));
    let empty = restore_app_state(vec![run("r", None)], Vec::new(), 0).unwrap();
    assert_eq!(open_log_stream(&empty, "r".to_string(), true).0.unwrap().latest_sequence, 0);
}

#[test]
fn only_new_lines_of_included_runs_are_passed_on() {
    let before = state(vec![run("r", None)], vec![row(3, "r")]);
    let (stream, _) = open_log_stream(&before, "r".to_string(), true);
    let mut stream = stream.unwrap();
    // old and repeated lines are skipped
    assert!(matches!(stream_task_run_logs(&mut stream, &before, Received::Event(line(3, "r"))), LogStreamStep::Skip));
    assert!(matches!(stream_task_run_logs(&mut stream, &before, Received::Event(line(2, "r"))), LogStreamStep::Skip));
    match stream_task_run_logs(&mut stream, &before, Received::Event(line(5, "r"))) {
        LogStreamStep::Send(TaskRunLogsStreamMessage::Log { log }) => assert_eq!(log.sequence, 5),
        _ => panic!("not passed on"),
    }
    assert_eq!(stream.latest_sequence, 5);
    // a line of a run that does not belong to the tree
    assert!(matches!(stream_task_run_logs(&mut stream, &before, Received::Event(line(6, "x"))), LogStreamStep::Skip));
    assert_eq!(stream.latest_sequence, 5);
    // a child that was created since is found when its first line arrives
    let after = state(vec![run("r", None), run("c", Some("r"))], vec![row(3, "r")]);
    match stream_task_run_logs(&mut stream, &after, Received::Event(line(7, "c"))) {
        LogStreamStep::Send(TaskRunLogsStreamMessage::Log { log }) => assert_eq!(log.run_id, "c"),
        _ => panic!("not passed on"),
    }
    assert_eq!(stream.included_run_ids, vec!["r".to_string(), "c".to_string()]);
    assert_eq!(stream.latest_sequence, 7);
    assert!(matches!(stream_task_run_logs(&mut stream, &after, Received::Closed), LogStreamStep::Stop));
}

#[test]
fn a_stream_without_children_never_looks_for_them() {
    let both = state(vec![run("r", None), run("c", Some("r"))], Vec::new());
    let (stream, _) = open_log_stream(&both, "r".to_string(), false);
    let mut stream = stream.unwrap();
    assert!(matches!(stream_task_run_logs(&mut stream, &both, Received::Event(line(1, "c"))), LogStreamStep::Skip));
    assert_eq!(stream.included_run_ids, vec!["r".to_string()]);
    assert!(matches!(stream_task_run_logs(&mut stream, &both, Received::Event(line(2, "r"))), LogStreamStep::Send(_)));
}

#[test]
fn a_stream_that_lagged_sends_the_log_anew() {
    let before = state(vec![run("r", None)], vec![row(1, "r")]);
    let (stream, _) = open_log_stream(&before, "r".to_string(), true);
    let mut stream = stream.unwrap();
    let after = state(vec![run("r", None), run("c", Some("r"))], vec![row(1, "r"), row(2, "c"), row(9, "r")]);
    match stream_task_run_logs(&mut stream, &after, Received::Lagged) {
        LogStreamStep::Send(TaskRunLogsStreamMessage::Snapshot { run_id, logs }) => {
            assert_eq!(run_id, "r");
            assert_eq!(logs.len(), 3);
        }
        _ => panic!("no snapshot"),
    }
    assert_eq!(stream.latest_sequence, 9);
    assert_eq!(stream.included_run_ids.len(), 2);
    // with the log cleared the stream goes on from where it was
    let cleared = state(vec![run("r", None)], Vec::new());
    assert!(matches!(stream_task_run_logs(&mut stream, &cleared, Received::Lagged), LogStreamStep::Send(_)));
    assert_eq!(stream.latest_sequence, 9);
    // the run is gone
    let gone = state(Vec::new(), Vec::new());
    assert!(matches!(stream_task_run_logs(&mut stream, &gone, Received::Lagged), LogStreamStep::Stop));
    assert!(matches!(stream_task_run_logs(&mut stream, &gone, Received::Event(line(10, "zzz"))), LogStreamStep::Stop));
}
