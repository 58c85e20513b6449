//! What the supervisor of a process decides: whether a command needs a
//! process at all, and what the end of the process means for the run.
use vstd::prelude::*;
use crate::api::events::TaskRunLogLine;
use crate::api::invariants::{keeps_order, lemma_settles_refl};
use crate::api::lifecycle::{append_log, append_task_log_line};
use crate::api::state::AppState;
use crate::db::entities::task_run::TaskRunStatus;
use crate::sanitize::{clean_log_line, log_line_of};
use crate::text::{is_blank, is_blank_str, opt_chars};

verus! {

/// How the process of a run ended.
#[derive(Clone, Copy, Debug, PartialEq, Eq, Structural)]
pub enum ProcessExit {
    /// The process could not be started.
    SpawnFailed,
    /// The process ran to its end; `success` tells whether it reported
    /// success.
    Exited { success: bool },
    /// Waiting for the process failed.
    WaitFailed,
    /// The run was cancelled and the process killed.
    Cancelled,
}

/// What the end of a process means for the run: a cancelled run is
/// cancelled whatever the process reported, a process that reported success
/// makes the run a success, and everything else is a failure.
pub open spec fn exit_status(exit: ProcessExit) -> TaskRunStatus {
    match exit {
        ProcessExit::Cancelled => TaskRunStatus::Cancelled,
        ProcessExit::Exited { success: true } => TaskRunStatus::Success,
        _ => TaskRunStatus::Failed,
    }
}

/// The status with which a run ends when its process has ended.
pub fn final_status(exit: ProcessExit) -> (status: TaskRunStatus)
    ensures
        status == exit_status(exit),
        status.is_terminal(),
{
    match exit {
        ProcessExit::Cancelled => TaskRunStatus::Cancelled,
        ProcessExit::Exited { success } => if success {
            TaskRunStatus::Success
        } else {
            TaskRunStatus::Failed
        },
        ProcessExit::SpawnFailed => TaskRunStatus::Failed,
        ProcessExit::WaitFailed => TaskRunStatus::Failed,
    }
}

/// Whether a command needs a process: it is present and not blank.
pub open spec fn needs_process(command: Option<Seq<char>>) -> bool {
    command matches Some(text) && !is_blank(text)
}

/// The line that shows the invocation of a command in the log of its run.
pub open spec fn invocation_line(command: Seq<char>) -> Seq<char> {
    "$ "@ + command
}

/// How the execution of a command starts.
pub enum CommandStart {
    /// The command is to be run by `sh -lc` in the working directory of the
    /// run.
    Run(String),
    /// No process is needed: the run ends with this status at once.
    Done(TaskRunStatus),
}

/// Prepares the execution of the command of a run. A run without a command,
/// or with a blank one, succeeds at once: nothing is logged. Otherwise the
/// line `$ <command>` is written to the log of the run and the command is
/// handed out to be run.
pub fn run_command_at(
    state: &mut AppState,
    run_id: String,
    task_key: String,
    command: Option<String>,
    now: i64,
) -> (start: CommandStart)
    requires
        old(state)@.wf(),
    ensures
        needs_process(opt_chars(command)) ==> (start matches CommandStart::Run(text) && Some(text@)
            == opt_chars(command) && final(state)@ == append_log(
            old(state)@,
            run_id@,
            task_key@,
            invocation_line(text@),
            false,
            now,
        )),
        !needs_process(opt_chars(command)) ==> (start matches CommandStart::Done(status) && status
            == TaskRunStatus::Success && final(state)@ == old(state)@),
        final(state)@.wf(),
        keeps_order(old(state)@, final(state)@),
{
    proof {
        lemma_settles_refl(state@.runs);
    }
    let command = match command {
        Some(command) => command,
        None => {
            return CommandStart::Done(TaskRunStatus::Success);
        },
    };
    if is_blank_str(command.as_str()) {
        return CommandStart::Done(TaskRunStatus::Success);
    }
    proof {
        reveal_strlit("$ ");
    }
    let line = "$ ".to_string().concat(command.as_str());
    let _ = append_task_log_line(state, run_id, task_key, line, false, now);
    CommandStart::Run(command)
}

/// Prepares the execution of the command of a run at the current time.
pub fn run_command(state: &mut AppState, run_id: String, task_key: String, command: Option<String>) -> (start:
    CommandStart)
    requires
        old(state)@.wf(),
    ensures
        needs_process(opt_chars(command)) ==> (start matches CommandStart::Run(text) && Some(text@)
            == opt_chars(command) && exists|now: i64|
            final(state)@ == #[trigger] append_log(
                old(state)@,
                run_id@,
                task_key@,
                invocation_line(text@),
                false,
                now,
            )),
        !needs_process(opt_chars(command)) ==> (start matches CommandStart::Done(status) && status
            == TaskRunStatus::Success && final(state)@ == old(state)@),
        final(state)@.wf(),
        keeps_order(old(state)@, final(state)@),
{
    let now = crate::api::fresh::now_millis();
    let ghost before = state@;
    let start = run_command_at(state, run_id, task_key, command, now);
    proof {
        if start is Run {
            assert(state@ == append_log(
                before,
                run_id@,
                task_key@,
                invocation_line(start->Run_0@),
                false,
                now,
            ));
        }
    }
    start
}

/// The state after one raw line of the output of a run was taken in: the
/// line is cleaned and, unless nothing is left of a line that had content,
/// stored and announced.
pub open spec fn take_line(
    s: crate::api::model::EngineSpec,
    run_id: Seq<char>,
    task: Seq<char>,
    raw: Seq<u8>,
    is_stderr: bool,
    now: i64,
) -> crate::api::model::EngineSpec {
    match log_line_of(raw) {
        Some(line) => append_log(s, run_id, task, line, is_stderr, now),
        None => s,
    }
}

/// Takes in one raw line of the output of a run, as read up to and
/// including its line feed: the line is cleaned (see
/// [`clean_log_line`]) and, unless it is dropped, stored under the next
/// number and announced. Returns the line as announced, if it was stored.
pub fn stream_task_logs_at(
    state: &mut AppState,
    run_id: String,
    task_key: String,
    raw: &[u8],
    is_stderr: bool,
    now: i64,
) -> (stored: Option<TaskRunLogLine>)
    requires
        old(state)@.wf(),
    ensures
        final(state)@ == take_line(old(state)@, run_id@, task_key@, raw@, is_stderr, now),
        stored is Some == (log_line_of(raw@) is Some && old(state)@.has_log_room()),
        stored matches Some(l) ==> l@ == crate::api::model::line_of(
            old(state)@.next_log(run_id@, task_key@, log_line_of(raw@)->0, is_stderr, now),
        ),
        final(state)@.wf(),
        final(state)@.runs == old(state)@.runs,
        keeps_order(old(state)@, final(state)@),
{
    proof {
        lemma_settles_refl(state@.runs);
    }
    match clean_log_line(raw) {
        Some(line) => append_task_log_line(state, run_id, task_key, line, is_stderr, now),
        None => None,
    }
}

/// Takes in one raw line of the output of a run at the current time.
pub fn stream_task_logs(
    state: &mut AppState,
    run_id: String,
    task_key: String,
    raw: &[u8],
    is_stderr: bool,
) -> (stored: Option<TaskRunLogLine>)
    requires
        old(state)@.wf(),
    ensures
        exists|now: i64|
            final(state)@ == #[trigger] take_line(
                old(state)@,
                run_id@,
                task_key@,
                raw@,
                is_stderr,
                now,
            ),
        stored is Some == (log_line_of(raw@) is Some && old(state)@.has_log_room()),
        final(state)@.wf(),
        final(state)@.runs == old(state)@.runs,
        keeps_order(old(state)@, final(state)@),
{
    let now = crate::api::fresh::now_millis();
    let ghost before = state@;
    let stored = stream_task_logs_at(state, run_id, task_key, raw, is_stderr, now);
    assert(state@ == take_line(before, run_id@, task_key@, raw@, is_stderr, now));
    stored
}

/// Tells every process to end: the process table is emptied, and the kill
/// of each process that stood in it is requested.
pub fn cancel_all_running_processes(state: &mut AppState)
    ensures
        final(state)@ == old(state)@.signal_all(),
        old(state)@.wf() ==> final(state)@.wf(),
{
    let ghost before = state@;
    let run_ids = state.take_processes();
    let ghost emptied = state@;
    let mut n: usize = 0;
    assert(emptied.effects + crate::api::model::kill_requests(before.processes).take(0)
        =~= emptied.effects);
    while n < run_ids.len()
        invariant
            n <= run_ids.len(),
            crate::text::names_of(run_ids@) == before.processes,
            state@ == (crate::api::model::EngineSpec {
                effects: emptied.effects + crate::api::model::kill_requests(before.processes).take(
                    n as int,
                ),
                ..emptied
            }),
        decreases run_ids.len() - n,
    {
        let ghost sofar = state@.effects;
        assert(before.processes[n as int] == run_ids@[n as int]@);
        state.emit(crate::api::events::Effect::Cancel(run_ids[n].clone()));
        assert(sofar.push(crate::api::model::EffectSpec::Cancel(before.processes[n as int]))
            =~= emptied.effects + crate::api::model::kill_requests(before.processes).take(
            n + 1,
        ));
        n += 1;
    }
    assert(crate::api::model::kill_requests(before.processes).take(run_ids@.len() as int)
        =~= crate::api::model::kill_requests(before.processes));
}

} // verus!
