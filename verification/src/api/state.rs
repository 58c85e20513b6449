//! The engine's state and the elementary operations on it.
use vstd::prelude::*;
use crate::api::events::{Effect, effects_of};
use crate::api::model::{
    EngineSpec, has_run, lemma_run_index, lemma_select_logs_ordered, parent_precedes, run_index,
    select_logs,
};
use crate::db::entities::task_run::{Model, RunSpec, TaskRunStatus, runs_of};
use crate::db::entities::task_run_log;
use crate::db::entities::task_run_log::logs_of;
use crate::text::{contains_name, names_of, opt_chars, str_eq};

verus! {

/// The runs and log lines that the engine stores, and the effects that it
/// has produced and not yet handed out.
pub struct AppState {
    runs: Vec<Model>,
    logs: Vec<task_run_log::Model>,
    next_log_id: i64,
    processes: Vec<String>,
    outbox: Vec<Effect>,
}

impl View for AppState {
    type V = EngineSpec;

    closed spec fn view(&self) -> EngineSpec {
        EngineSpec {
            runs: runs_of(self.runs@),
            logs: logs_of(self.logs@),
            next_log_id: self.next_log_id,
            processes: names_of(self.processes@),
            effects: effects_of(self.outbox@),
        }
    }
}

/// An engine that stores nothing yet. The first log line gets the number 1.
pub fn create_app_state() -> (state: AppState)
    ensures
        state@ == (EngineSpec {
            runs: Seq::empty(),
            logs: Seq::empty(),
            next_log_id: 1,
            processes: Seq::empty(),
            effects: Seq::empty(),
        }),
        state@.wf(),
{
    let state = AppState {
        runs: Vec::new(),
        logs: Vec::new(),
        next_log_id: 1,
        processes: Vec::new(),
        outbox: Vec::new(),
    };
    assert(state@.processes =~= Seq::empty());
    assert(state@.runs =~= Seq::empty());
    assert(state@.logs =~= Seq::empty());
    assert(state@.effects =~= Seq::empty());
    state
}

/// The number of the last log line that was ever stored: that of the last
/// row, or the number remembered where that is greater, since lines may have
/// been deleted.
pub open spec fn last_number(logs: Seq<task_run_log::LogSpec>, last_log_id: i64) -> i64 {
    let last = if logs.len() == 0 {
        0
    } else {
        logs.last().id
    };
    if last_log_id > last {
        last_log_id
    } else {
        last
    }
}

/// The state that holds the given rows, an empty process table and no
/// effects; the next log line gets the number after the last that was ever
/// stored.
pub open spec fn restored(
    runs: Seq<RunSpec>,
    logs: Seq<task_run_log::LogSpec>,
    last_log_id: i64,
) -> EngineSpec {
    EngineSpec {
        runs,
        logs,
        next_log_id: (last_number(logs, last_log_id) + 1) as i64,
        processes: Seq::empty(),
        effects: Seq::empty(),
    }
}

/// Whether rows can be taken over as the state of an engine: they are
/// consistent, and there is a number left for the next log line.
pub open spec fn restorable(
    runs: Seq<RunSpec>,
    logs: Seq<task_run_log::LogSpec>,
    last_log_id: i64,
) -> bool {
    &&& last_number(logs, last_log_id) < i64::MAX
    &&& restored(runs, logs, last_log_id).wf()
}

/// An engine that holds the rows given: runs in the order of their
/// creation, log lines in the order of their numbers. `last_log_id` is the
/// number of the last log line that was ever stored, 0 if it is not known:
/// no number is given a second time, also when the newest lines have been
/// deleted. `None` when the rows are not consistent: two runs share an id, a
/// run names a parent that is not listed before it in the same working
/// directory, the numbers of the log lines are not positive and strictly
/// increasing, or no number is left.
#[verifier::rlimit(40)]
pub fn restore_app_state(
    runs: Vec<Model>,
    logs: Vec<task_run_log::Model>,
    last_log_id: i64,
) -> (state: Option<AppState>)
    ensures
        state is Some == restorable(runs_of(runs@), logs_of(logs@), last_log_id),
        state matches Some(restored_state) ==> restored_state@ == restored(
            runs_of(runs@),
            logs_of(logs@),
            last_log_id,
        ) && restored_state@.wf(),
{
    let ghost run_rows = runs_of(runs@);
    let ghost log_rows = logs_of(logs@);
    let mut state = create_app_state();
    let mut n: usize = 0;
    while n < runs.len()
        invariant
            n <= runs.len(),
            run_rows == runs_of(runs@),
            log_rows == logs_of(logs@),
            state@.wf(),
            state@.runs == run_rows.take(n as int),
            state@.logs == Seq::<task_run_log::LogSpec>::empty(),
            state@.next_log_id == 1,
            state@.processes == Seq::<Seq<char>>::empty(),
            state@.effects == Seq::<crate::api::model::EffectSpec>::empty(),
        decreases runs.len() - n,
    {
        let ghost before = state@;
        assert(run_rows[n as int] == runs@[n as int]@);
        let stored = state.insert_task_run(runs[n].clone());
        if !stored {
            proof {
                lemma_not_restorable(run_rows, log_rows, last_log_id, n as int);
            }
            return None;
        }
        assert(state@.runs =~= run_rows.take(n + 1));
        n += 1;
    }
    assert(run_rows.take(n as int) =~= run_rows);
    let mut next: i64 = 1;
    let mut k: usize = 0;
    while k < logs.len()
        invariant
            k <= logs.len(),
            log_rows == logs_of(logs@),
            next >= 1,
            k == 0 ==> next == 1,
            k > 0 ==> next == log_rows[k - 1].id + 1,
            crate::api::model::logs_ordered(log_rows.take(k as int), next),
        decreases logs.len() - k,
    {
        assert(log_rows[k as int] == logs@[k as int]@);
        let id = logs[k].id;
        if id < next || id == i64::MAX {
            proof {
                let all = restored(run_rows, log_rows, last_log_id);
                if restorable(run_rows, log_rows, last_log_id) {
                    assert(log_rows.last().id <= last_number(log_rows, last_log_id));
                    assert(0 < log_rows[k as int].id < all.next_log_id);
                    if k > 0 {
                        assert(log_rows[k - 1].id < log_rows[k as int].id);
                    }
                    if k + 1 < log_rows.len() {
                        assert(log_rows[k as int].id < log_rows[log_rows.len() - 1].id);
                    }
                }
            }
            return None;
        }
        proof {
            let head = log_rows.take(k as int);
            let more = log_rows.take(k + 1);
            assert forall|i: int, j: int| 0 <= i < j < more.len() implies (#[trigger] more[i]).id < (
            #[trigger] more[j]).id by {
                if j < k {
                    assert(head[i].id < head[j].id);
                } else {
                    assert(0 < head[i].id < next);
                }
            }
            assert forall|i: int| 0 <= i < more.len() implies 0 < (#[trigger] more[i]).id < id
                + 1 by {
                if i < k {
                    assert(0 < head[i].id < next);
                }
            }
        }
        next = id + 1;
        k += 1;
    }
    assert(log_rows.take(k as int) =~= log_rows);
    let last = next - 1;
    let base = if last_log_id > last {
        last_log_id
    } else {
        last
    };
    assert(base == last_number(log_rows, last_log_id));
    if base == i64::MAX {
        return None;
    }
    proof {
        assert forall|i: int| 0 <= i < log_rows.len() implies 0 < (#[trigger] log_rows[i]).id < base
            + 1 by {
            assert(0 < log_rows[i].id < next);
        }
    }
    let restored_state = AppState {
        runs: state.runs,
        logs,
        next_log_id: base + 1,
        processes: Vec::new(),
        outbox: Vec::new(),
    };
    assert(restored_state@.effects =~= Seq::empty());
    assert(restored_state@.processes =~= Seq::empty());
    Some(restored_state)
}

/// Rows whose run at `n` the store does not accept after the runs before it
/// are not consistent.
proof fn lemma_not_restorable(
    runs: Seq<RunSpec>,
    logs: Seq<task_run_log::LogSpec>,
    last_log_id: i64,
    n: int,
)
    requires
        0 <= n < runs.len(),
        !(EngineSpec {
            runs: runs.take(n),
            logs: Seq::empty(),
            next_log_id: 1,
            processes: Seq::empty(),
            effects: Seq::empty(),
        }).accepts(runs[n]),
    ensures
        !restorable(runs, logs, last_log_id),
{
    let head = runs.take(n);
    if restorable(runs, logs, last_log_id) {
        if has_run(head, runs[n].id) {
            let k = run_index(head, runs[n].id);
            assert(runs[k].id == head[k].id);
            assert(runs[k].id != runs[n].id);
        } else {
            let parent = runs[n].parent_run_id->0;
            assert(parent_precedes(runs, n));
            let j = choose|j: int|
                0 <= j < n && (#[trigger] runs[j]).id == parent && runs[j].cwd == runs[n].cwd;
            assert(head[j].id == parent);
            assert forall|a: int, b: int| 0 <= a < b < head.len() implies (#[trigger] head[a]).id
                != (#[trigger] head[b]).id by {
                assert(runs[a].id != runs[b].id);
            }
            lemma_run_index(head, j);
        }
    }
}

impl AppState {
    /// All stored runs, in the order of their creation.
    pub fn task_runs(&self) -> (runs: &Vec<Model>)
        ensures
            runs_of(runs@) == self@.runs,
    {
        &self.runs
    }

    /// All stored log lines, in the order of their numbers.
    pub fn task_run_logs(&self) -> (logs: &Vec<task_run_log::Model>)
        ensures
            logs_of(logs@) == self@.logs,
    {
        &self.logs
    }

    /// The place of the run with the given id among [`Self::task_runs`].
    pub fn find_task_run_index(&self, run_id: &str) -> (found: Option<usize>)
        requires
            self@.wf(),
        ensures
            found is Some == has_run(self@.runs, run_id@),
            found matches Some(i) ==> i as int == run_index(self@.runs, run_id@),
    {
        let mut i: usize = 0;
        while i < self.runs.len()
            invariant
                i <= self.runs.len(),
                self@.wf(),
                forall|k: int| 0 <= k < i ==> (#[trigger] self@.runs[k]).id != run_id@,
            decreases self.runs.len() - i,
        {
            if str_eq(self.runs[i].id.as_str(), run_id) {
                proof {
                    assert(self@.runs[i as int].id == run_id@);
                    lemma_run_index(self@.runs, i as int);
                }
                return Some(i);
            }
            i += 1;
        }
        None
    }

    /// The stored run with the given id, if there is one.
    pub fn find_task_run(&self, run_id: &str) -> (found: Option<&Model>)
        requires
            self@.wf(),
        ensures
            found is Some == has_run(self@.runs, run_id@),
            found matches Some(run) ==> run@ == self@.runs[run_index(self@.runs, run_id@)],
    {
        match self.find_task_run_index(run_id) {
            Some(i) => Some(&self.runs[i]),
            None => None,
        }
    }

    /// Stores a new run after all others, unless its id is taken or the
    /// parent it names is not stored in the same working directory.
    #[verifier::rlimit(40)]
    pub(crate) fn insert_task_run(&mut self, run: Model) -> (stored: bool)
        requires
            old(self)@.wf(),
        ensures
            stored == old(self)@.accepts(run@),
            stored ==> final(self)@ == old(self)@.insert(run@),
            !stored ==> final(self)@ == old(self)@,
            final(self)@.wf(),
    {
        if self.find_task_run_index(run.id.as_str()).is_some() {
            return false;
        }
        if let Some(parent) = &run.parent_run_id {
            match self.find_task_run_index(parent.as_str()) {
                Some(j) => {
                    if !str_eq(self.runs[j].cwd.as_str(), run.cwd.as_str()) {
                        return false;
                    }
                },
                None => {
                    return false;
                },
            }
        }
        let ghost before = self@;
        let ghost added = run@;
        self.runs.push(run);
        proof {
            let after = self@;
            assert(after.runs =~= before.runs.push(added));
            assert forall|i: int| 0 <= i < after.runs.len() implies #[trigger] parent_precedes(
                after.runs,
                i,
            ) by {
                if i < before.runs.len() {
                    assert(parent_precedes(before.runs, i));
                    if before.runs[i].parent_run_id is Some {
                        let j = choose|j: int|
                            0 <= j < i && (#[trigger] before.runs[j]).id
                                == before.runs[i].parent_run_id->0 && before.runs[j].cwd
                                == before.runs[i].cwd;
                        assert(after.runs[j] == before.runs[j]);
                    }
                } else if added.parent_run_id is Some {
                    let j = run_index(before.runs, added.parent_run_id->0);
                    assert(after.runs[j] == before.runs[j]);
                }
            }
            assert forall|i: int, j: int| 0 <= i < j < after.runs.len() implies (
            #[trigger] after.runs[i]).id != (#[trigger] after.runs[j]).id by {
                if j < before.runs.len() {
                    assert(before.runs[i].id != before.runs[j].id);
                } else {
                    assert(before.runs[i].id != added.id);
                }
            }
        }
        true
    }

    /// Replaces status, blocking dependency and time of change of the run at
    /// `index`.
    pub(crate) fn set_task_run(
        &mut self,
        index: usize,
        status: TaskRunStatus,
        waiting_on: Option<String>,
        now: i64,
    )
        requires
            old(self)@.wf(),
            index < old(self)@.runs.len(),
        ensures
            final(self)@ == old(self)@.set_run(index as int, status, opt_chars(waiting_on), now),
            final(self)@.wf(),
    {
        let ghost before = self@;
        let ghost wanted = opt_chars(waiting_on);
        self.runs[index].status = status;
        self.runs[index].waiting_on = waiting_on;
        self.runs[index].updated_at = now;
        proof {
            let after = self@;
            assert(after.runs =~= before.set_run(index as int, status, wanted, now).runs);
            lemma_set_run_wf(before, index as int, status, wanted, now);
        }
    }

    /// Stores a log line under the next number, if there is a number left.
    pub(crate) fn store_log(
        &mut self,
        run_id: String,
        task: String,
        line: String,
        is_stderr: bool,
        now: i64,
    ) -> (stored: Option<task_run_log::Model>)
        requires
            old(self)@.wf(),
        ensures
            stored is Some == old(self)@.has_log_room(),
            stored matches Some(log) ==> log@ == old(self)@.next_log(
                run_id@,
                task@,
                line@,
                is_stderr,
                now,
            ) && final(self)@ == old(self)@.store_log(log@),
            stored is None ==> final(self)@ == old(self)@,
            final(self)@.wf(),
    {
        if self.next_log_id == i64::MAX {
            return None;
        }
        let ghost before = self@;
        let log = task_run_log::Model {
            id: self.next_log_id,
            run_id,
            task,
            line,
            is_stderr,
            timestamp: now,
        };
        self.logs.push(log.clone());
        self.next_log_id = self.next_log_id + 1;
        proof {
            assert(self@.logs =~= before.logs.push(log@));
            assert forall|i: int, j: int| 0 <= i < j < self@.logs.len() implies (
            #[trigger] self@.logs[i]).id < (#[trigger] self@.logs[j]).id by {
                if j < before.logs.len() {
                    assert(before.logs[i].id < before.logs[j].id);
                } else {
                    assert(before.logs[i].id < before.next_log_id);
                }
            }
            assert forall|i: int| 0 <= i < self@.logs.len() implies 0 < (
            #[trigger] self@.logs[i]).id < self@.next_log_id by {
                if i < before.logs.len() {
                    assert(0 < before.logs[i].id < before.next_log_id);
                }
            }
        }
        Some(log)
    }

    /// Deletes the log lines of the given runs.
    pub(crate) fn delete_logs(&mut self, run_ids: &Vec<String>)
        requires
            old(self)@.wf(),
        ensures
            final(self)@ == old(self)@.drop_logs(names_of(run_ids@)),
            final(self)@.wf(),
    {
        let ghost before = self@;
        let ghost ids = names_of(run_ids@);
        let mut kept: Vec<task_run_log::Model> = Vec::new();
        let mut i: usize = 0;
        while i < self.logs.len()
            invariant
                i <= self.logs.len(),
                self@ == before,
                ids == names_of(run_ids@),
                logs_of(kept@) == select_logs(before.logs, ids, false, i as int),
            decreases self.logs.len() - i,
        {
            let ghost sofar = logs_of(kept@);
            if !contains_name(run_ids, self.logs[i].run_id.as_str()) {
                kept.push(self.logs[i].clone());
                assert(logs_of(kept@) =~= sofar.push(before.logs[i as int]));
            }
            i += 1;
        }
        self.logs = kept;
        proof {
            lemma_select_logs_ordered(
                before.logs,
                ids,
                false,
                before.next_log_id,
                before.logs.len() as int,
            );
        }
    }

    /// Enters the run `run_id` in the process table: its process has been
    /// started and can be killed. A run that stands in the table already is
    /// not entered again.
    pub fn register_process(&mut self, run_id: String)
        ensures
            final(self)@ == old(self)@.register(run_id@),
            old(self)@.wf() ==> final(self)@.wf(),
    {
        let ghost before = self@;
        proof {
            if before.wf() {
                crate::api::model::lemma_process_table(before, run_id@);
            }
        }
        if !contains_name(&self.processes, run_id.as_str()) {
            self.processes.push(run_id);
            assert(self@.processes =~= before.processes.push(run_id@));
        }
    }

    /// Strikes the run `run_id` from the process table: its process has
    /// ended.
    pub fn release_process(&mut self, run_id: &str)
        ensures
            final(self)@ == old(self)@.release(run_id@),
            old(self)@.wf() ==> final(self)@.wf(),
    {
        let ghost before = self@;
        proof {
            if before.wf() {
                crate::api::model::lemma_process_table(before, run_id@);
            }
        }
        let mut kept: Vec<String> = Vec::new();
        let mut n: usize = 0;
        assert(names_of(kept@) =~= crate::api::model::without_name(before.processes, run_id@, 0));
        while n < self.processes.len()
            invariant
                n <= self.processes.len(),
                self@ == before,
                names_of(kept@) == crate::api::model::without_name(
                    before.processes,
                    run_id@,
                    n as int,
                ),
            decreases self.processes.len() - n,
        {
            let ghost sofar = names_of(kept@);
            assert(before.processes[n as int] == self.processes@[n as int]@);
            if !str_eq(self.processes[n].as_str(), run_id) {
                kept.push(self.processes[n].clone());
                assert(names_of(kept@) =~= sofar.push(before.processes[n as int]));
            }
            n += 1;
        }
        self.processes = kept;
    }

    /// Tells the process of the run `run_id` to end, if the run stands in
    /// the process table: the run is struck from the table and the kill of
    /// its process is requested.
    pub(crate) fn signal_process(&mut self, run_id: &str)
        ensures
            final(self)@ == old(self)@.signal(run_id@),
            old(self)@.wf() ==> final(self)@.wf(),
    {
        proof {
            if self@.wf() {
                crate::api::model::lemma_process_table(self@, run_id@);
            }
        }
        if contains_name(&self.processes, run_id) {
            self.release_process(run_id);
            self.emit(Effect::Cancel(crate::text::owned(run_id)));
        }
    }

    /// Empties the process table and hands out the runs that stood in it.
    pub(crate) fn take_processes(&mut self) -> (run_ids: Vec<String>)
        ensures
            names_of(run_ids@) == old(self)@.processes,
            final(self)@ == (EngineSpec { processes: Seq::empty(), ..old(self)@ }),
    {
        let mut run_ids: Vec<String> = Vec::new();
        std::mem::swap(&mut run_ids, &mut self.processes);
        assert(self@.processes =~= Seq::empty());
        run_ids
    }

    /// The runs that stand in the process table.
    pub fn running_processes(&self) -> (run_ids: &Vec<String>)
        ensures
            names_of(run_ids@) == self@.processes,
    {
        &self.processes
    }

    /// Adds an effect to those to be handed out.
    pub(crate) fn emit(&mut self, effect: Effect)
        ensures
            final(self)@ == old(self)@.emit(effect@),
    {
        let ghost before = self@;
        self.outbox.push(effect);
        assert(self@.effects =~= before.effects.push(effect@));
    }

    /// Hands out the effects produced since the last call, oldest first.
    pub fn take_effects(&mut self) -> (effects: Vec<Effect>)
        ensures
            effects_of(effects@) == old(self)@.effects,
            final(self)@ == old(self)@.drained(),
    {
        let mut effects: Vec<Effect> = Vec::new();
        std::mem::swap(&mut effects, &mut self.outbox);
        assert(self@.effects =~= Seq::empty());
        effects
    }
}

/// Replacing status, blocking dependency and time of a run keeps the state
/// consistent: ids, parents and working directories stay as they are.
pub proof fn lemma_set_run_wf(
    s: EngineSpec,
    i: int,
    status: TaskRunStatus,
    waiting_on: Option<Seq<char>>,
    now: i64,
)
    requires
        s.wf(),
        0 <= i < s.runs.len(),
    ensures
        s.set_run(i, status, waiting_on, now).wf(),
        s.set_run(i, status, waiting_on, now).runs.len() == s.runs.len(),
        forall|k: int|
            0 <= k < s.runs.len() ==> {
                let r = #[trigger] s.set_run(i, status, waiting_on, now).runs[k];
                &&& r.id == s.runs[k].id
                &&& r.task == s.runs[k].task
                &&& r.cwd == s.runs[k].cwd
                &&& r.parent_run_id == s.runs[k].parent_run_id
                &&& k != i ==> r == s.runs[k]
            },
        forall|id: Seq<char>|
            has_run(s.runs, id) == #[trigger] has_run(s.set_run(i, status, waiting_on, now).runs, id),
        forall|id: Seq<char>|
            has_run(s.runs, id) ==> run_index(s.runs, id) == #[trigger] run_index(
                s.set_run(i, status, waiting_on, now).runs,
                id,
            ),
{
    let t = s.set_run(i, status, waiting_on, now);
    assert forall|k: int| 0 <= k < t.runs.len() implies #[trigger] parent_precedes(t.runs, k) by {
        assert(parent_precedes(s.runs, k));
        if s.runs[k].parent_run_id is Some {
            let j = choose|j: int|
                0 <= j < k && (#[trigger] s.runs[j]).id == s.runs[k].parent_run_id->0
                    && s.runs[j].cwd == s.runs[k].cwd;
            assert(t.runs[j].id == s.runs[j].id);
        }
    }
    assert forall|a: int, b: int| 0 <= a < b < t.runs.len() implies (#[trigger] t.runs[a]).id != (
    #[trigger] t.runs[b]).id by {
        assert(s.runs[a].id != s.runs[b].id);
    }
    assert forall|id: Seq<char>| has_run(s.runs, id) == #[trigger] has_run(t.runs, id) by {
        if has_run(s.runs, id) {
            let k = run_index(s.runs, id);
            assert(t.runs[k].id == id);
        }
        if has_run(t.runs, id) {
            let k = run_index(t.runs, id);
            assert(s.runs[k].id == id);
        }
    }
    assert forall|id: Seq<char>| has_run(s.runs, id) implies run_index(s.runs, id)
        == #[trigger] run_index(t.runs, id) by {
        let k = run_index(s.runs, id);
        assert(t.runs[k].id == id);
        lemma_run_index(t.runs, k);
    }
}

} // verus!
