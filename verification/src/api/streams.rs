//! What the streams that follow a run decide: when to send a snapshot, when
//! to pass a log line on, and when to stop.
use vstd::prelude::*;
use crate::api::error::ErrorResponse;
use crate::api::events::{TaskRunLogLine, TaskRunStatusChangedEvent, lines_of};
use crate::api::logs::{included_runs, last_sequence, lines_within, load_included_run_ids, logs_of_runs, sequences_increase};
use crate::api::model::LogLineSpec;
use crate::api::state::AppState;
use crate::api::tasks::{GetTaskRunResponse, GetTaskRunResponseBody};
use crate::api::tree::{TreeSpec, load_task_run_tree, tree_of};
use crate::text::{contains_name, names_of, owned};

verus! {

/// What came in from the socket of a client.
pub enum SocketInput {
    /// The client closed the connection, or the connection ended.
    Closed,
    /// The client sent a ping with this payload.
    Ping(Vec<u8>),
    /// The client sent something else.
    Other,
    /// Reading from the socket failed.
    Failed,
}

/// What a stream does in answer to its client.
pub enum SocketStep {
    /// End the stream.
    Stop,
    /// Answer with a pong that carries this payload.
    Pong(Vec<u8>),
    /// Go on.
    Continue,
}

/// What a subscriber got from a channel of events.
pub enum Received<T> {
    /// The next event.
    Event(T),
    /// Events were missed: what was shown has to be rebuilt from the store.
    Lagged,
    /// The channel was closed.
    Closed,
}

/// Answers what came in from the socket of a client: a ping gets a pong
/// with the same payload, a closed or failed connection ends the stream,
/// anything else is passed over.
pub fn answer_socket(input: SocketInput) -> (step: SocketStep)
    ensures
        match input {
            SocketInput::Closed => step is Stop,
            SocketInput::Failed => step is Stop,
            SocketInput::Ping(payload) => step == SocketStep::Pong(payload),
            SocketInput::Other => step is Continue,
        },
{
    match input {
        SocketInput::Closed => SocketStep::Stop,
        SocketInput::Failed => SocketStep::Stop,
        SocketInput::Ping(payload) => SocketStep::Pong(payload),
        SocketInput::Other => SocketStep::Continue,
    }
}

/// What the stream of a run tree does next.
pub enum TreeStreamStep {
    /// End the stream.
    Stop,
    /// Send the snapshot and go on.
    Send(GetTaskRunResponse),
    /// Send the message, close the connection and end the stream.
    SendAndClose(GetTaskRunResponse),
}

/// The snapshot of a run tree: the tree of the run, or, when the run is not
/// stored, an error after which the stream ends.
pub fn send_task_run_snapshot(state: &AppState, run_id: &str) -> (step: TreeStreamStep)
    requires
        state@.wf(),
    ensures
        match tree_of(state@.runs, run_id@) {
            Some(tree) => step matches TreeStreamStep::Send(message) && message.outcome() == Ok::<
                _,
                Seq<char>,
            >(tree),
            None => step matches TreeStreamStep::SendAndClose(message) && message.outcome()
                == Err::<TreeSpec, _>("Task run not found"@),
        },
{
    match load_task_run_tree(state, run_id) {
        Some(task_run) => TreeStreamStep::Send(
            GetTaskRunResponse::Success(GetTaskRunResponseBody { task_run }),
        ),
        None => TreeStreamStep::SendAndClose(
            GetTaskRunResponse::Error(ErrorResponse::new("Task run not found")),
        ),
    }
}

/// What the stream of a run tree does when its subscription to the status
/// events gives something: on any event, and when events were missed, it
/// sends the tree anew; when the channel is closed it ends.
pub fn stream_task_run_updates(
    state: &AppState,
    run_id: &str,
    received: &Received<TaskRunStatusChangedEvent>,
) -> (step: TreeStreamStep)
    requires
        state@.wf(),
    ensures
        received is Closed ==> step is Stop,
        !(received is Closed) ==> match tree_of(state@.runs, run_id@) {
            Some(tree) => step matches TreeStreamStep::Send(message) && message.outcome() == Ok::<
                _,
                Seq<char>,
            >(tree),
            None => step matches TreeStreamStep::SendAndClose(message) && message.outcome()
                == Err::<TreeSpec, _>("Task run not found"@),
        },
{
    match received {
        Received::Closed => TreeStreamStep::Stop,
        _ => send_task_run_snapshot(state, run_id),
    }
}

/// What a stream of log lines sends.
pub enum TaskRunLogsStreamMessage {
    /// The stored log, in the order of the sequence numbers.
    Snapshot { run_id: String, logs: Vec<TaskRunLogLine> },
    /// One new line.
    Log { log: TaskRunLogLine },
    /// The stream cannot be served.
    Error { message: String },
}

/// The content of a message of a stream of log lines.
pub enum StreamMessageSpec {
    Snapshot { run_id: Seq<char>, logs: Seq<LogLineSpec> },
    Log { log: LogLineSpec },
    Error { message: Seq<char> },
}

impl View for TaskRunLogsStreamMessage {
    type V = StreamMessageSpec;

    open spec fn view(&self) -> StreamMessageSpec {
        match self {
            TaskRunLogsStreamMessage::Snapshot { run_id, logs } => StreamMessageSpec::Snapshot {
                run_id: run_id@,
                logs: lines_of(logs@),
            },
            TaskRunLogsStreamMessage::Log { log } => StreamMessageSpec::Log { log: log@ },
            TaskRunLogsStreamMessage::Error { message } => StreamMessageSpec::Error {
                message: message@,
            },
        }
    }
}

/// A stream that follows the log of a run.
pub struct LogStream {
    /// The run that is followed.
    pub run_id: String,
    /// Whether the lines of the runs below it are followed too.
    pub include_children: bool,
    /// The runs whose lines are passed on; no run is named twice.
    pub included_run_ids: Vec<String>,
    /// The sequence number of the latest line that was sent.
    pub latest_sequence: u64,
}

/// The content of a stream that follows the log of a run.
pub struct LogStreamSpec {
    pub run_id: Seq<char>,
    pub include_children: bool,
    pub included_run_ids: Seq<Seq<char>>,
    pub latest_sequence: u64,
}

impl View for LogStream {
    type V = LogStreamSpec;

    open spec fn view(&self) -> LogStreamSpec {
        LogStreamSpec {
            run_id: self.run_id@,
            include_children: self.include_children,
            included_run_ids: names_of(self.included_run_ids@),
            latest_sequence: self.latest_sequence,
        }
    }
}

/// What a stream of log lines does next.
pub enum LogStreamStep {
    /// End the stream.
    Stop,
    /// Send nothing and go on.
    Skip,
    /// Send the message and go on.
    Send(TaskRunLogsStreamMessage),
}

/// The content of what a stream of log lines does next.
pub enum LogStepSpec {
    Stop,
    Skip,
    Send(StreamMessageSpec),
}

impl View for LogStreamStep {
    type V = LogStepSpec;

    open spec fn view(&self) -> LogStepSpec {
        match self {
            LogStreamStep::Stop => LogStepSpec::Stop,
            LogStreamStep::Skip => LogStepSpec::Skip,
            LogStreamStep::Send(message) => LogStepSpec::Send(message@),
        }
    }
}

/// Whether the stream names no run twice among those whose lines it passes
/// on.
pub open spec fn named_once(stream: LogStreamSpec) -> bool {
    stream.included_run_ids.no_duplicates()
}

/// The runs whose lines the stream passes on once it has seen a line of the
/// run `line_run_id`: a stream that follows the runs below its run looks
/// for them anew when the line belongs to a run it does not know. `None`
/// when the run of the stream is no longer stored.
pub open spec fn refreshed_runs(
    stream: LogStreamSpec,
    runs: Seq<crate::db::entities::task_run::RunSpec>,
    line_run_id: Seq<char>,
) -> Option<Seq<Seq<char>>> {
    if stream.include_children && !stream.included_run_ids.contains(line_run_id) {
        included_runs(runs, stream.run_id, true)
    } else {
        Some(stream.included_run_ids)
    }
}

/// Whether the stream passes a line on: the line belongs to one of its
/// runs and is newer than all it has sent.
pub open spec fn passes_on(stream: LogStreamSpec, included: Seq<Seq<char>>, line: LogLineSpec) -> bool {
    included.contains(line.run_id) && line.sequence > stream.latest_sequence
}

/// Opens a stream that follows the log of a run. The first message is the
/// stored log, and the stream goes on from its last line; when the run is
/// not stored the message is an error, after which the connection is
/// closed.
pub fn open_log_stream(state: &AppState, run_id: String, include_children: bool) -> (opened: (
    Option<LogStream>,
    TaskRunLogsStreamMessage,
))
    requires
        state@.wf(),
    ensures
        match included_runs(state@.runs, run_id@, include_children) {
            Some(included) => {
                let lines = lines_within(state@.logs, included);
                &&& opened.0 matches Some(stream) && stream@ == (LogStreamSpec {
                    run_id: run_id@,
                    include_children,
                    included_run_ids: included,
                    latest_sequence: last_sequence(lines, 0),
                })
                &&& opened.1@ == (StreamMessageSpec::Snapshot { run_id: run_id@, logs: lines })
                &&& sequences_increase(lines)
                &&& included.no_duplicates()
            },
            None => opened.0 is None && opened.1@ == (StreamMessageSpec::Error {
                message: "Task run not found"@,
            }),
        },
{
    let included_run_ids = match load_included_run_ids(state, run_id.as_str(), include_children) {
        Some(run_ids) => run_ids,
        None => {
            return (None, TaskRunLogsStreamMessage::Error { message: owned("Task run not found") });
        },
    };
    let logs = logs_of_runs(state, &included_run_ids);
    let latest_sequence = latest_of(&logs, 0);
    let stream = LogStream {
        run_id: run_id.clone(),
        include_children,
        included_run_ids,
        latest_sequence,
    };
    (Some(stream), TaskRunLogsStreamMessage::Snapshot { run_id, logs })
}

/// The sequence number of the last of the lines, or `otherwise`.
fn latest_of(logs: &Vec<TaskRunLogLine>, otherwise: u64) -> (latest: u64)
    ensures
        latest == last_sequence(lines_of(logs@), otherwise),
{
    if logs.len() == 0 {
        otherwise
    } else {
        assert(lines_of(logs@).last() == logs@[logs@.len() - 1]@);
        logs[logs.len() - 1].sequence
    }
}

/// What a stream of log lines does when its subscription to the log events
/// gives something.
///
/// A line is passed on if it belongs to one of the runs of the stream and
/// is newer than all that was sent; a stream that follows the runs below
/// its run looks for them anew when a line of a run arrives that it does not
/// know. When events were missed the stream sends the stored log anew and
/// goes on from its last line. The stream ends when the channel is closed
/// or its run is no longer stored.
#[verifier::rlimit(40)]
pub fn stream_task_run_logs(
    stream: &mut LogStream,
    state: &AppState,
    received: Received<TaskRunLogLine>,
) -> (step: LogStreamStep)
    requires
        state@.wf(),
    ensures
        final(stream)@.run_id == old(stream)@.run_id,
        final(stream)@.include_children == old(stream)@.include_children,
        named_once(old(stream)@) ==> named_once(final(stream)@),
        match received {
            Received::Closed => step@ == LogStepSpec::Stop && final(stream)@ == old(stream)@,
            Received::Event(log) => match refreshed_runs(old(stream)@, state@.runs, log@.run_id) {
                None => step@ == LogStepSpec::Stop && final(stream)@ == old(stream)@,
                Some(included) => final(stream)@.included_run_ids == included && (if passes_on(
                    old(stream)@,
                    included,
                    log@,
                ) {
                    &&& step@ == LogStepSpec::Send(StreamMessageSpec::Log { log: log@ })
                    &&& final(stream)@.latest_sequence == log@.sequence
                } else {
                    &&& step@ == LogStepSpec::Skip
                    &&& final(stream)@.latest_sequence == old(stream)@.latest_sequence
                }),
            },
            Received::Lagged => match included_runs(
                state@.runs,
                old(stream)@.run_id,
                old(stream)@.include_children,
            ) {
                None => step@ == LogStepSpec::Stop && final(stream)@ == old(stream)@,
                Some(included) => {
                    let lines = lines_within(state@.logs, included);
                    &&& step@ == LogStepSpec::Send(
                        StreamMessageSpec::Snapshot { run_id: old(stream)@.run_id, logs: lines },
                    )
                    &&& final(stream)@.latest_sequence == last_sequence(
                        lines,
                        old(stream)@.latest_sequence,
                    )
                    &&& final(stream)@.included_run_ids == (if old(stream)@.include_children {
                        included
                    } else {
                        old(stream)@.included_run_ids
                    })
                },
            },
        },
{
    match received {
        Received::Closed => LogStreamStep::Stop,
        Received::Event(log) => {
            if stream.include_children && !contains_name(
                &stream.included_run_ids,
                log.run_id.as_str(),
            ) {
                match load_included_run_ids(state, stream.run_id.as_str(), true) {
                    Some(run_ids) => {
                        stream.included_run_ids = run_ids;
                    },
                    None => {
                        return LogStreamStep::Stop;
                    },
                }
            }
            if !contains_name(&stream.included_run_ids, log.run_id.as_str()) || log.sequence
                <= stream.latest_sequence {
                return LogStreamStep::Skip;
            }
            stream.latest_sequence = log.sequence;
            LogStreamStep::Send(TaskRunLogsStreamMessage::Log { log })
        },
        Received::Lagged => {
            let run_ids = match load_included_run_ids(
                state,
                stream.run_id.as_str(),
                stream.include_children,
            ) {
                Some(run_ids) => run_ids,
                None => {
                    return LogStreamStep::Stop;
                },
            };
            let logs = logs_of_runs(state, &run_ids);
            if stream.include_children {
                stream.included_run_ids = run_ids;
            }
            stream.latest_sequence = latest_of(&logs, stream.latest_sequence);
            LogStreamStep::Send(
                TaskRunLogsStreamMessage::Snapshot { run_id: stream.run_id.clone(), logs },
            )
        },
    }
}

} // verus!
