//! Cancellation of runs.
use vstd::prelude::*;
use crate::api::invariants::{keeps_order, lemma_settles_refl, lemma_settles_trans};
use crate::api::lifecycle::{append_log, append_task_log_line, lemma_append_log, lemma_update_status, update_status, update_task_run_status};
use crate::api::model::{EngineSpec, has_run, lemma_run_index, run_of};
use crate::api::state::AppState;
use crate::db::entities::task_run::TaskRunStatus;
use crate::text::names_of;

verus! {

/// Whether cancelling leaves a run with this status alone: a run that has
/// succeeded or failed stays what it is.
pub open spec fn is_settled(status: TaskRunStatus) -> bool {
    status == TaskRunStatus::Success || status == TaskRunStatus::Failed
}

/// The state after the run `id` was cancelled. A run that is not stored, or
/// has succeeded or failed, is left alone. For any other run its process,
/// if it stands in the process table, is told to end, and the line
/// `canceled` is logged. A queued or running run becomes `Cancelled`; the
/// row of a run that is cancelled already stays as it is, and no change is
/// announced.
pub open spec fn cancel_one(s: EngineSpec, id: Seq<char>, now: i64) -> EngineSpec {
    if !has_run(s.runs, id) || is_settled(run_of(s.runs, id).status) {
        s
    } else {
        let task = run_of(s.runs, id).task;
        let signalled = s.signal(id);
        let logged = append_log(signalled, id, task, "canceled"@, false, now);
        if run_of(s.runs, id).status == TaskRunStatus::Cancelled {
            logged
        } else {
            update_status(logged, id, TaskRunStatus::Cancelled, None, now)
        }
    }
}

/// The state after the first `n` of `ids` were cancelled, one after the
/// other.
pub open spec fn cancel_all(s: EngineSpec, ids: Seq<Seq<char>>, n: int, now: i64) -> EngineSpec
    decreases n,
{
    if n <= 0 || n > ids.len() {
        s
    } else {
        cancel_one(cancel_all(s, ids, n - 1, now), ids[n - 1], now)
    }
}

/// What cancelling does to the run at `i`: a run among `ids` that was
/// queued or running is cancelled at `now` and waits for nothing; every
/// other run, a cancelled one too, is as it was.
pub open spec fn cancelled_as_asked(
    before: EngineSpec,
    after: EngineSpec,
    ids: Seq<Seq<char>>,
    now: i64,
    i: int,
) -> bool {
    let old_run = before.runs[i];
    let new_run = after.runs[i];
    if ids.contains(old_run.id) && old_run.status.is_active() {
        &&& new_run.status == TaskRunStatus::Cancelled
        &&& new_run.waiting_on is None
        &&& new_run.updated_at == now
    } else {
        new_run == old_run
    }
}

/// Cancelling one run changes that run only, and leaves it cancelled unless
/// it had succeeded or failed.
#[verifier::rlimit(40)]
pub proof fn lemma_cancel_one(s: EngineSpec, id: Seq<char>, now: i64)
    requires
        s.wf(),
    ensures
        keeps_order(s, cancel_one(s, id, now)),
        cancel_one(s, id, now).runs.len() == s.runs.len(),
        forall|i: int|
            0 <= i < s.runs.len() ==> #[trigger] cancelled_as_asked(
                s,
                cancel_one(s, id, now),
                seq![id],
                now,
                i,
            ),
{
    let t = cancel_one(s, id, now);
    lemma_settles_refl(s.runs);
    if has_run(s.runs, id) && !is_settled(run_of(s.runs, id).status) {
        let task = run_of(s.runs, id).task;
        let signalled = s.signal(id);
        crate::api::model::lemma_process_table(s, id);
        lemma_append_log(signalled, id, task, "canceled"@, false, now);
        let logged = append_log(signalled, id, task, "canceled"@, false, now);
        lemma_update_status(logged, id, TaskRunStatus::Cancelled, None, now);
    }
    assert forall|i: int| 0 <= i < s.runs.len() implies #[trigger] cancelled_as_asked(
        s,
        t,
        seq![id],
        now,
        i,
    ) by {
        lemma_run_index(s.runs, i);
        if s.runs[i].id == id {
            assert(seq![id][0] == id);
        }
    }
}

/// Cancelling runs changes those runs only, and leaves each of them
/// cancelled unless it had succeeded or failed.
#[verifier::rlimit(40)]
pub proof fn lemma_cancel_all(s: EngineSpec, ids: Seq<Seq<char>>, n: int, now: i64)
    requires
        s.wf(),
        0 <= n <= ids.len(),
    ensures
        keeps_order(s, cancel_all(s, ids, n, now)),
        cancel_all(s, ids, n, now).runs.len() == s.runs.len(),
        forall|i: int|
            0 <= i < s.runs.len() ==> #[trigger] cancelled_as_asked(
                s,
                cancel_all(s, ids, n, now),
                ids.take(n),
                now,
                i,
            ),
    decreases n,
{
    lemma_settles_refl(s.runs);
    if n > 0 {
        let mid = cancel_all(s, ids, n - 1, now);
        let t = cancel_all(s, ids, n, now);
        lemma_cancel_all(s, ids, n - 1, now);
        lemma_cancel_one(mid, ids[n - 1], now);
        lemma_settles_trans(s.runs, mid.runs, t.runs);
        assert forall|i: int| 0 <= i < s.runs.len() implies #[trigger] cancelled_as_asked(
            s,
            t,
            ids.take(n),
            now,
            i,
        ) by {
            assert(cancelled_as_asked(s, mid, ids.take(n - 1), now, i));
            assert(cancelled_as_asked(mid, t, seq![ids[n - 1]], now, i));
            assert(mid.runs[i].id == s.runs[i].id);
            let id = s.runs[i].id;
            let head = ids.take(n - 1);
            let all = ids.take(n);
            let last = seq![ids[n - 1]];
            assert(all =~= head + last);
            crate::text::lemma_concat_contains(head, last, id);
        }
    } else {
        assert forall|i: int| 0 <= i < s.runs.len() implies #[trigger] cancelled_as_asked(
            s,
            s,
            ids.take(0),
            now,
            i,
        ) by {
            assert(ids.take(0) =~= Seq::<Seq<char>>::empty());
        }
    }
}

/// Cancels the runs `run_ids`, one after the other. A run that is not
/// stored, or has succeeded or failed, is left alone. For any other run its
/// process, if it stands in the process table, is struck from the table and
/// told to end, and the line `canceled` is written to its log. A queued or
/// running run becomes `Cancelled`; the row of a run that is cancelled
/// already is not touched, and no change of it is announced.
///
/// Afterwards none of the runs `run_ids` is queued or running, and every run
/// that is not among them is as it was.
#[verifier::rlimit(40)]
pub fn cancel_task_runs(state: &mut AppState, run_ids: &Vec<String>, now: i64)
    requires
        old(state)@.wf(),
    ensures
        final(state)@ == cancel_all(
            old(state)@,
            names_of(run_ids@),
            run_ids@.len() as int,
            now,
        ),
        keeps_order(old(state)@, final(state)@),
        final(state)@.runs.len() == old(state)@.runs.len(),
        forall|i: int|
            0 <= i < old(state)@.runs.len() ==> #[trigger] cancelled_as_asked(
                old(state)@,
                final(state)@,
                names_of(run_ids@),
                now,
                i,
            ),
{
    let ghost before = state@;
    let ghost ids = names_of(run_ids@);
    let mut n: usize = 0;
    while n < run_ids.len()
        invariant
            n <= run_ids.len(),
            before.wf(),
            ids == names_of(run_ids@),
            state@ == cancel_all(before, ids, n as int, now),
            state@.wf(),
        decreases run_ids.len() - n,
    {
        let run_id = &run_ids[n];
        assert(ids[n as int] == run_id@);
        proof {
            lemma_cancel_one(state@, run_id@, now);
        }
        let found = match state.find_task_run(run_id.as_str()) {
            Some(run) => {
                if run.status == TaskRunStatus::Success || run.status == TaskRunStatus::Failed {
                    None
                } else {
                    Some((run.task.clone(), run.status == TaskRunStatus::Cancelled))
                }
            },
            None => None,
        };
        if let Some((task, cancelled)) = found {
            state.signal_process(run_id.as_str());
            proof {
                reveal_strlit("canceled");
            }
            let _ = append_task_log_line(
                state,
                run_id.clone(),
                task,
                "canceled".to_string(),
                false,
                now,
            );
            if !cancelled {
                update_task_run_status(state, run_id.as_str(), TaskRunStatus::Cancelled, None, now);
            }
        }
        n += 1;
    }
    proof {
        lemma_cancel_all(before, ids, ids.len() as int, now);
        assert(ids.take(ids.len() as int) =~= ids);
    }
}

} // verus!
