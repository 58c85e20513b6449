//! The mathematical model of the engine: what it stores, what it asks its
//! surroundings to do, and the elementary changes that every operation is
//! made of.
use vstd::prelude::*;
use crate::db::entities::task_run::{RunSpec, TaskRunStatus};
use crate::db::entities::task_run_log::LogSpec;

verus! {

/// The content of a log line as handed to subscribers.
pub struct LogLineSpec {
    pub run_id: Seq<char>,
    pub task: Seq<char>,
    pub line: Seq<char>,
    pub is_stderr: bool,
    pub timestamp: i64,
    pub sequence: u64,
}

/// The log line that subscribers see of a stored line.
pub open spec fn line_of(log: LogSpec) -> LogLineSpec {
    LogLineSpec {
        run_id: log.run_id,
        task: log.task,
        line: log.line,
        is_stderr: log.is_stderr,
        timestamp: log.timestamp,
        sequence: log.id as u64,
    }
}

/// The content of an effect: something the engine's surroundings have to do.
pub enum EffectSpec {
    /// A run was stored or changed: persist the row as it is given here,
    /// then tell the subscribers of its status.
    StatusChanged(RunSpec),
    /// A log line was stored: persist it, then tell the subscribers.
    LogAppended(LogLineSpec),
    /// The log lines of these runs were deleted.
    LogsCleared(Seq<Seq<char>>),
    /// A run is ready to be executed.
    Execute { run_id: Seq<char>, task: Seq<char>, cwd: Seq<char>, command: Option<Seq<char>> },
    /// The process group of a run is to be killed.
    Cancel(Seq<char>),
}

/// The status event that announces the state of a run.
pub open spec fn status_event(run: RunSpec) -> EffectSpec {
    EffectSpec::StatusChanged(run)
}

/// Whether one of the runs has the given id.
pub open spec fn has_run(runs: Seq<RunSpec>, id: Seq<char>) -> bool {
    exists|i: int| 0 <= i < runs.len() && (#[trigger] runs[i]).id == id
}

/// The position of a run with the given id.
pub open spec fn run_index(runs: Seq<RunSpec>, id: Seq<char>) -> int {
    choose|i: int| 0 <= i < runs.len() && (#[trigger] runs[i]).id == id
}

/// The run with the given id.
pub open spec fn run_of(runs: Seq<RunSpec>, id: Seq<char>) -> RunSpec {
    runs[run_index(runs, id)]
}

/// No two runs share an id.
pub open spec fn unique_ids(runs: Seq<RunSpec>) -> bool {
    forall|i: int, j: int|
        0 <= i < j < runs.len() ==> (#[trigger] runs[i]).id != (#[trigger] runs[j]).id
}

/// Whether the run at `i` has its parent, if any, somewhere before it and in
/// the same working directory.
pub open spec fn parent_precedes(runs: Seq<RunSpec>, i: int) -> bool {
    runs[i].parent_run_id matches Some(parent) ==> exists|j: int|
        0 <= j < i && (#[trigger] runs[j]).id == parent && runs[j].cwd == runs[i].cwd
}

/// Every run that names a parent was stored after it, and shares its working
/// directory.
pub open spec fn parents_precede(runs: Seq<RunSpec>) -> bool {
    forall|i: int| 0 <= i < runs.len() ==> #[trigger] parent_precedes(runs, i)
}

/// The stored log lines carry strictly increasing numbers, all of them
/// positive and below the next number to be given.
pub open spec fn logs_ordered(logs: Seq<LogSpec>, next: i64) -> bool {
    &&& next >= 1
    &&& forall|i: int| 0 <= i < logs.len() ==> 0 < (#[trigger] logs[i]).id < next
    &&& forall|i: int, j: int|
        0 <= i < j < logs.len() ==> (#[trigger] logs[i]).id < (#[trigger] logs[j]).id
}

/// The stored log lines up to `n` whose run is (`inside`) or is not among
/// `run_ids`, in their order.
pub open spec fn select_logs(
    logs: Seq<LogSpec>,
    run_ids: Seq<Seq<char>>,
    inside: bool,
    n: int,
) -> Seq<LogSpec>
    decreases n,
{
    if n <= 0 || n > logs.len() {
        Seq::empty()
    } else {
        let before = select_logs(logs, run_ids, inside, n - 1);
        if run_ids.contains(logs[n - 1].run_id) == inside {
            before.push(logs[n - 1])
        } else {
            before
        }
    }
}

/// The names among the first `n` that differ from `name`, in their order.
pub open spec fn without_name(names: Seq<Seq<char>>, name: Seq<char>, n: int) -> Seq<Seq<char>>
    decreases n,
{
    if n <= 0 || n > names.len() {
        Seq::empty()
    } else if names[n - 1] == name {
        without_name(names, name, n - 1)
    } else {
        without_name(names, name, n - 1).push(names[n - 1])
    }
}

/// The requests to kill the processes of the given runs, in order.
pub open spec fn kill_requests(run_ids: Seq<Seq<char>>) -> Seq<EffectSpec> {
    Seq::new(run_ids.len(), |i: int| EffectSpec::Cancel(run_ids[i]))
}

/// The engine's state: the stored runs in the order of their creation, the
/// stored log lines in the order of their numbers, the number that the next
/// log line gets, the runs whose processes can be killed (the process
/// table), and the effects not yet handed out.
pub struct EngineSpec {
    pub runs: Seq<RunSpec>,
    pub logs: Seq<LogSpec>,
    pub next_log_id: i64,
    pub processes: Seq<Seq<char>>,
    pub effects: Seq<EffectSpec>,
}

impl EngineSpec {
    /// The state is consistent.
    pub open spec fn wf(self) -> bool {
        &&& unique_ids(self.runs)
        &&& parents_precede(self.runs)
        &&& logs_ordered(self.logs, self.next_log_id)
        &&& self.processes.no_duplicates()
    }

    /// The state with one more effect to hand out.
    pub open spec fn emit(self, effect: EffectSpec) -> EngineSpec {
        EngineSpec { effects: self.effects.push(effect), ..self }
    }

    /// Whether `run` can be stored: its id is new, and its parent, if it
    /// names one, is stored and of the same working directory.
    pub open spec fn accepts(self, run: RunSpec) -> bool {
        &&& !has_run(self.runs, run.id)
        &&& run.parent_run_id matches Some(parent) ==> has_run(self.runs, parent) && run_of(
            self.runs,
            parent,
        ).cwd == run.cwd
    }

    /// The state with `run` stored after all others.
    pub open spec fn insert(self, run: RunSpec) -> EngineSpec {
        EngineSpec { runs: self.runs.push(run), ..self }
    }

    /// The state with status, blocking dependency and time of change of the
    /// run at `i` replaced.
    pub open spec fn set_run(
        self,
        i: int,
        status: TaskRunStatus,
        waiting_on: Option<Seq<char>>,
        now: i64,
    ) -> EngineSpec {
        EngineSpec {
            runs: self.runs.update(
                i,
                RunSpec { status, waiting_on, updated_at: now, ..self.runs[i] },
            ),
            ..self
        }
    }

    /// Whether one more log line can be stored.
    pub open spec fn has_log_room(self) -> bool {
        self.next_log_id < i64::MAX
    }

    /// The stored form of a new log line.
    pub open spec fn next_log(
        self,
        run_id: Seq<char>,
        task: Seq<char>,
        line: Seq<char>,
        is_stderr: bool,
        now: i64,
    ) -> LogSpec {
        LogSpec { id: self.next_log_id, run_id, task, line, is_stderr, timestamp: now }
    }

    /// The state with `log` stored under the next number.
    pub open spec fn store_log(self, log: LogSpec) -> EngineSpec {
        EngineSpec { logs: self.logs.push(log), next_log_id: (self.next_log_id + 1) as i64, ..self }
    }

    /// The state without the log lines of the given runs.
    pub open spec fn drop_logs(self, run_ids: Seq<Seq<char>>) -> EngineSpec {
        EngineSpec { logs: select_logs(self.logs, run_ids, false, self.logs.len() as int), ..self }
    }

    /// The state with the process of the run `id` entered in the process
    /// table.
    pub open spec fn register(self, id: Seq<char>) -> EngineSpec {
        if self.processes.contains(id) {
            self
        } else {
            EngineSpec { processes: self.processes.push(id), ..self }
        }
    }

    /// The state with the run `id` struck from the process table.
    pub open spec fn release(self, id: Seq<char>) -> EngineSpec {
        EngineSpec {
            processes: without_name(self.processes, id, self.processes.len() as int),
            ..self
        }
    }

    /// The state after the process of the run `id` was told to end: if the
    /// run stands in the process table it is struck from it and the kill of
    /// its process is requested; otherwise nothing happens.
    pub open spec fn signal(self, id: Seq<char>) -> EngineSpec {
        if self.processes.contains(id) {
            self.release(id).emit(EffectSpec::Cancel(id))
        } else {
            self
        }
    }

    /// The state after all processes were told to end: the process table is
    /// empty, and the kill of each process that stood in it is requested.
    pub open spec fn signal_all(self) -> EngineSpec {
        EngineSpec {
            processes: Seq::empty(),
            effects: self.effects + kill_requests(self.processes),
            ..self
        }
    }

    /// The state with no effect left to hand out.
    pub open spec fn drained(self) -> EngineSpec {
        EngineSpec { effects: Seq::empty(), ..self }
    }
}

/// The state that an operation leaves, together with the mark of a failure
/// that has cut it short.
pub struct Outcome {
    pub state: EngineSpec,
    pub failed: bool,
}

/// Striking a name from names without a repetition leaves the other names,
/// without a repetition.
pub proof fn lemma_without_name(names: Seq<Seq<char>>, name: Seq<char>, n: int)
    requires
        names.no_duplicates(),
        0 <= n <= names.len(),
    ensures
        without_name(names, name, n).no_duplicates(),
        forall|x: Seq<char>|
            #[trigger] without_name(names, name, n).contains(x) <==> names.take(n).contains(x) && x
                != name,
    decreases n,
{
    if n > 0 {
        lemma_without_name(names, name, n - 1);
        let head = names.take(n - 1);
        let last = names[n - 1];
        let before = without_name(names, name, n - 1);
        let after = without_name(names, name, n);
        assert(names.take(n) =~= head + seq![last]);
        assert(!head.contains(last)) by {
            if head.contains(last) {
                let k = choose|k: int| 0 <= k < head.len() && head[k] == last;
                assert(names[k] == names[n - 1]);
            }
        }
        assert(seq![last].no_duplicates());
        assert forall|x: Seq<char>| #[trigger]
            after.contains(x) <==> names.take(n).contains(x) && x != name by {
            crate::text::lemma_concat_contains(head, seq![last], x);
            if seq![last].contains(x) {
                assert(x == last);
            }
            if x == last {
                assert(seq![last][0] == x);
            }
            if last != name {
                assert(after =~= before + seq![last]);
                crate::text::lemma_concat_contains(before, seq![last], x);
            }
        }
        if last != name {
            assert(after =~= before + seq![last]);
            assert forall|x: Seq<char>| !(before.contains(x) && seq![last].contains(x)) by {
                if seq![last].contains(x) {
                    assert(x == last);
                }
            }
            crate::text::lemma_concat_no_duplicates(before, seq![last]);
        }
    } else {
        assert(names.take(0) =~= Seq::<Seq<char>>::empty());
    }
}

/// The elementary changes of the process table keep a consistent state
/// consistent.
pub proof fn lemma_process_table(s: EngineSpec, id: Seq<char>)
    requires
        s.wf(),
    ensures
        s.register(id).wf(),
        s.release(id).wf(),
        s.signal(id).wf(),
        s.signal_all().wf(),
        !s.release(id).processes.contains(id),
        !s.signal(id).processes.contains(id),
{
    lemma_without_name(s.processes, id, s.processes.len() as int);
    assert(s.processes.take(s.processes.len() as int) =~= s.processes);
    if !s.processes.contains(id) {
        let more = s.processes.push(id);
        assert(more =~= s.processes + seq![id]);
        assert forall|x: Seq<char>| !(s.processes.contains(x) && seq![id].contains(x)) by {
            if seq![id].contains(x) {
                assert(x == id);
            }
        }
        assert(seq![id].no_duplicates());
        crate::text::lemma_concat_no_duplicates(s.processes, seq![id]);
    }
}

/// With unique ids, a run is found at the one place where its id stands.
pub proof fn lemma_run_index(runs: Seq<RunSpec>, i: int)
    requires
        unique_ids(runs),
        0 <= i < runs.len(),
    ensures
        has_run(runs, runs[i].id),
        run_index(runs, runs[i].id) == i,
        run_of(runs, runs[i].id) == runs[i],
{
    let id = runs[i].id;
    let k = run_index(runs, id);
    assert(0 <= k < runs.len() && runs[k].id == id);
    if k < i {
        assert(runs[k].id != runs[i].id);
    } else if i < k {
        assert(runs[i].id != runs[k].id);
    }
}

/// Selecting among ordered log lines leaves them ordered.
pub proof fn lemma_select_logs_ordered(
    logs: Seq<LogSpec>,
    run_ids: Seq<Seq<char>>,
    inside: bool,
    next: i64,
    n: int,
)
    requires
        0 <= n <= logs.len(),
        logs_ordered(logs, next),
    ensures
        logs_ordered(select_logs(logs, run_ids, inside, n), next),
        forall|k: int|
            0 <= k < select_logs(logs, run_ids, inside, n).len() && n > 0 ==> (
            #[trigger] select_logs(logs, run_ids, inside, n)[k]).id <= logs[n - 1].id,
    decreases n,
{
    if n > 0 {
        lemma_select_logs_ordered(logs, run_ids, inside, next, n - 1);
        let before = select_logs(logs, run_ids, inside, n - 1);
        let now = select_logs(logs, run_ids, inside, n);
        if n > 1 {
            assert(logs[n - 2].id < logs[n - 1].id);
        }
        assert forall|k: int| 0 <= k < now.len() implies (#[trigger] now[k]).id <= logs[n - 1].id by {
            if k < before.len() {
                assert(now[k] == before[k]);
            }
        }
        assert forall|i: int, j: int| 0 <= i < j < now.len() implies (#[trigger] now[i]).id < (
        #[trigger] now[j]).id by {
            if j < before.len() {
                assert(now[i] == before[i] && now[j] == before[j]);
            } else {
                assert(now[i] == before[i]);
                assert(now[j] == logs[n - 1]);
                assert(before[i].id <= logs[n - 2].id);
            }
        }
        assert forall|i: int| 0 <= i < now.len() implies 0 < (#[trigger] now[i]).id < next by {
            if i < before.len() {
                assert(now[i] == before[i]);
            } else {
                assert(now[i] == logs[n - 1]);
            }
        }
    }
}

} // verus!
