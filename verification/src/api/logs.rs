//! Reading the log of a run, once or as a stream that follows it.
use vstd::prelude::*;
use crate::api::descendants::{collect_descendant_run_ids, descendants};
use crate::api::events::{TaskRunLogLine, lines_of};
use crate::api::model::{LogLineSpec, has_run, lemma_select_logs_ordered, line_of, select_logs};
use crate::api::state::AppState;
use crate::db::entities::task_run::RunSpec;
use crate::db::entities::task_run_log::{LogSpec, logs_of};
use crate::text::{contains_name, names_of, owned};

verus! {

/// The log lines that subscribers see of stored lines.
pub open spec fn lines_from(logs: Seq<LogSpec>) -> Seq<LogLineSpec> {
    Seq::new(logs.len(), |i: int| line_of(logs[i]))
}

/// The runs whose lines a reader of the log of `run_id` sees: the run
/// alone, or the run with all runs below it. `None` when the run is not
/// stored.
pub open spec fn included_runs(runs: Seq<RunSpec>, run_id: Seq<char>, include_children: bool) -> Option<
    Seq<Seq<char>>,
> {
    if !has_run(runs, run_id) {
        None
    } else if include_children {
        Some(descendants(runs, run_id))
    } else {
        Some(seq![run_id])
    }
}

/// The stored lines of the given runs, in the order of their numbers.
pub open spec fn lines_within(logs: Seq<LogSpec>, run_ids: Seq<Seq<char>>) -> Seq<LogLineSpec> {
    lines_from(select_logs(logs, run_ids, true, logs.len() as int))
}

/// The sequence number of the last of the lines, or `otherwise` when there
/// is none.
pub open spec fn last_sequence(lines: Seq<LogLineSpec>, otherwise: u64) -> u64 {
    if lines.len() == 0 {
        otherwise
    } else {
        lines.last().sequence
    }
}

/// Whether the sequence numbers of the lines increase strictly.
pub open spec fn sequences_increase(lines: Seq<LogLineSpec>) -> bool {
    forall|i: int, j: int|
        0 <= i < j < lines.len() ==> (#[trigger] lines[i]).sequence < (
        #[trigger] lines[j]).sequence
}

/// The id of the run `root_run_id` and the ids of all runs below it, or
/// `None` when the run is not stored.
pub fn load_descendant_run_ids(state: &AppState, root_run_id: &str) -> (run_ids: Option<
    Vec<String>,
>)
    requires
        state@.wf(),
    ensures
        run_ids is Some == has_run(state@.runs, root_run_id@),
        run_ids matches Some(ids) ==> names_of(ids@) == descendants(state@.runs, root_run_id@)
            && names_of(ids@).no_duplicates(),
{
    if state.find_task_run_index(root_run_id).is_none() {
        return None;
    }
    proof {
        crate::api::descendants::lemma_store_acyclic(state@.runs);
    }
    Some(collect_descendant_run_ids(state.task_runs(), root_run_id))
}

/// The runs whose lines a reader of the log of `run_id` sees.
pub fn load_included_run_ids(state: &AppState, run_id: &str, include_children: bool) -> (run_ids:
    Option<Vec<String>>)
    requires
        state@.wf(),
    ensures
        crate::text::opt_names_of(run_ids) == included_runs(
            state@.runs,
            run_id@,
            include_children,
        ),
        run_ids matches Some(ids) ==> names_of(ids@).no_duplicates(),
{
    if include_children {
        load_descendant_run_ids(state, run_id)
    } else {
        if state.find_task_run_index(run_id).is_none() {
            return None;
        }
        let mut run_ids: Vec<String> = Vec::new();
        run_ids.push(owned(run_id));
        assert(names_of(run_ids@) =~= seq![run_id@]);
        Some(run_ids)
    }
}

/// The stored lines of the given runs, in the order of their numbers.
pub fn logs_of_runs(state: &AppState, run_ids: &Vec<String>) -> (lines: Vec<TaskRunLogLine>)
    requires
        state@.wf(),
    ensures
        lines_of(lines@) == lines_within(state@.logs, names_of(run_ids@)),
        sequences_increase(lines_of(lines@)),
{
    let rows = state.task_run_logs();
    let ghost logs = state@.logs;
    let ghost ids = names_of(run_ids@);
    let mut lines: Vec<TaskRunLogLine> = Vec::new();
    let mut n: usize = 0;
    assert(lines_of(lines@) =~= lines_from(select_logs(logs, ids, true, 0)));
    while n < rows.len()
        invariant
            n <= rows.len(),
            state@.wf(),
            logs == state@.logs,
            logs == logs_of(rows@),
            ids == names_of(run_ids@),
            lines_of(lines@) == lines_from(select_logs(logs, ids, true, n as int)),
        decreases rows.len() - n,
    {
        let row = &rows[n];
        assert(logs[n as int] == row@);
        let ghost before = lines_of(lines@);
        if contains_name(run_ids, row.run_id.as_str()) {
            lines.push(TaskRunLogLine::from_row(row));
            assert(lines_of(lines@) =~= before.push(line_of(row@)));
            assert(before.push(line_of(row@)) =~= lines_from(
                select_logs(logs, ids, true, n as int).push(row@),
            ));
        }
        n += 1;
    }
    proof {
        lemma_lines_increase(logs, ids, state@.next_log_id);
    }
    lines
}

/// The lines of runs come with strictly increasing sequence numbers.
pub proof fn lemma_lines_increase(logs: Seq<LogSpec>, run_ids: Seq<Seq<char>>, next: i64)
    requires
        crate::api::model::logs_ordered(logs, next),
    ensures
        sequences_increase(lines_within(logs, run_ids)),
{
    let chosen = select_logs(logs, run_ids, true, logs.len() as int);
    lemma_select_logs_ordered(logs, run_ids, true, next, logs.len() as int);
    let lines = lines_within(logs, run_ids);
    assert forall|i: int, j: int| 0 <= i < j < lines.len() implies (#[trigger] lines[i]).sequence
        < (#[trigger] lines[j]).sequence by {
        assert(0 < chosen[i].id < chosen[j].id);
    }
}

/// The log of the run `run_id`, with the lines of the runs below it if
/// `include_children` is set, in the order of their sequence numbers, which
/// increase strictly. `None` when the run is not stored.
pub fn load_task_run_logs(state: &AppState, run_id: &str, include_children: bool) -> (logs: Option<
    Vec<TaskRunLogLine>,
>)
    requires
        state@.wf(),
    ensures
        logs is Some == has_run(state@.runs, run_id@),
        logs matches Some(lines) ==> lines_of(lines@) == lines_within(
            state@.logs,
            included_runs(state@.runs, run_id@, include_children)->0,
        ) && sequences_increase(lines_of(lines@)),
{
    match load_included_run_ids(state, run_id, include_children) {
        Some(run_ids) => Some(logs_of_runs(state, &run_ids)),
        None => None,
    }
}

} // verus!
