//! Putting the runs of a restarted tree back into the queue.
use vstd::prelude::*;
use crate::api::dependencies::{next_unmet, next_unmet_dependency};
use crate::api::events::Effect;
use crate::api::invariants::{keeps_order, lemma_settles_refl, lemma_settles_trans};
use crate::api::lifecycle::{lemma_update_status, update_status, update_task_run_status};
use crate::api::model::{EffectSpec, EngineSpec, Outcome, has_run, lemma_run_index, parent_precedes, run_index, run_of};
use crate::api::state::AppState;
use crate::config::{Config, TaskSpec, resolve_task};
use crate::db::entities::task_run::{RunSpec, TaskRunStatus};
use crate::text::{clone_names, contains_name, lemma_concat_contains, names_of, str_eq};

verus! {

/// How far the run at `i` lies below the top of a set of runs: the number
/// of steps from parent to parent that stay within the set.
pub open spec fn depth_in(runs: Seq<RunSpec>, set: Seq<Seq<char>>, i: int) -> nat
    decreases i,
{
    if i < 0 || i >= runs.len() {
        0
    } else {
        match runs[i].parent_run_id {
            None => 0,
            Some(parent) => if !set.contains(parent) {
                0
            } else if has_run(runs, parent) && run_index(runs, parent) < i {
                1 + depth_in(runs, set, run_index(runs, parent))
            } else {
                1
            },
        }
    }
}

/// How far the run `id` lies below the top of a set of runs; 0 for a run
/// that is not stored.
pub open spec fn depth_of(runs: Seq<RunSpec>, set: Seq<Seq<char>>, id: Seq<char>) -> nat {
    if has_run(runs, id) {
        depth_in(runs, set, run_index(runs, id))
    } else {
        0
    }
}

/// Those of the first `n` ids that lie at depth `d`, in their order.
pub open spec fn at_depth(
    runs: Seq<RunSpec>,
    set: Seq<Seq<char>>,
    ids: Seq<Seq<char>>,
    d: nat,
    n: int,
) -> Seq<Seq<char>>
    decreases n,
{
    if n <= 0 || n > ids.len() {
        Seq::empty()
    } else if depth_of(runs, set, ids[n - 1]) == d {
        at_depth(runs, set, ids, d, n - 1).push(ids[n - 1])
    } else {
        at_depth(runs, set, ids, d, n - 1)
    }
}

/// The ids that lie at a depth below `d`, by depth; ids of the same depth
/// keep their order.
pub open spec fn below_depth(
    runs: Seq<RunSpec>,
    set: Seq<Seq<char>>,
    ids: Seq<Seq<char>>,
    d: nat,
) -> Seq<Seq<char>>
    decreases d,
{
    if d == 0 {
        Seq::empty()
    } else {
        below_depth(runs, set, ids, (d - 1) as nat) + at_depth(
            runs,
            set,
            ids,
            (d - 1) as nat,
            ids.len() as int,
        )
    }
}

/// The order in which the runs of a restarted tree go back into the queue:
/// parents first. The ids are sorted by their depth within the set; ids of
/// the same depth keep their order.
pub open spec fn restart_order(runs: Seq<RunSpec>, ids: Seq<Seq<char>>) -> Seq<Seq<char>> {
    below_depth(runs, ids, ids, runs.len() + 1)
}

/// The blocking dependency of a restarted run whose parent is restarted with
/// it: the task of the parent.
pub open spec fn parent_task(runs: Seq<RunSpec>, parent: Seq<char>) -> Option<Seq<char>> {
    if has_run(runs, parent) {
        Some(run_of(runs, parent).task)
    } else {
        None
    }
}

/// The state after the run `id` went back into the queue. The root waits
/// for the first unmet dependency of its task, and it is a failure if the
/// configuration does not know the task. A run whose parent is restarted
/// with it waits for the task of the parent. Any other run is treated like
/// the root, but is left alone if the configuration does not know its task.
/// A run that is not stored is passed over.
#[verifier::opaque]
pub open spec fn requeue_one(
    s: EngineSpec,
    config: Seq<(Seq<char>, TaskSpec)>,
    root: Seq<char>,
    set: Seq<Seq<char>>,
    id: Seq<char>,
    now: i64,
) -> Outcome {
    if !has_run(s.runs, id) {
        Outcome { state: s, failed: false }
    } else {
        let run = run_of(s.runs, id);
        let with_parent = id != root && run.parent_run_id is Some && set.contains(
            run.parent_run_id->0,
        );
        if with_parent {
            Outcome {
                state: update_status(
                    s,
                    id,
                    TaskRunStatus::Queued,
                    parent_task(s.runs, run.parent_run_id->0),
                    now,
                ),
                failed: false,
            }
        } else {
            match resolve_task(config, run.task) {
                Some(task) => Outcome {
                    state: update_status(
                        s,
                        id,
                        TaskRunStatus::Queued,
                        next_unmet(s.runs, run.cwd, task),
                        now,
                    ),
                    failed: false,
                },
                None => Outcome { state: s, failed: id == root },
            }
        }
    }
}

/// The state after the first `n` runs of `order` went back into the queue,
/// one after the other, up to the first failure.
pub open spec fn requeue_all(
    s: EngineSpec,
    config: Seq<(Seq<char>, TaskSpec)>,
    root: Seq<char>,
    set: Seq<Seq<char>>,
    order: Seq<Seq<char>>,
    n: int,
    now: i64,
) -> Outcome
    decreases n,
{
    if n <= 0 || n > order.len() {
        Outcome { state: s, failed: false }
    } else {
        let before = requeue_all(s, config, root, set, order, n - 1, now);
        if before.failed {
            before
        } else {
            requeue_one(before.state, config, root, set, order[n - 1], now)
        }
    }
}

/// The state after the log lines of the given runs were deleted.
pub open spec fn clear_logs(s: EngineSpec, run_ids: Seq<Seq<char>>) -> EngineSpec {
    if run_ids.len() == 0 {
        s
    } else {
        s.drop_logs(run_ids).emit(EffectSpec::LogsCleared(run_ids))
    }
}

/// What going back into the queue does to the run at `i`, where it is among
/// the runs asked for: it is queued; with its parent in the set it waits for
/// the task of the parent. A run that is not the root, has no parent in the
/// set and a task unknown to the configuration is as it was. A run that was
/// not asked for is as it was.
pub open spec fn requeued_as_asked(
    before: EngineSpec,
    after: EngineSpec,
    config: Seq<(Seq<char>, TaskSpec)>,
    root: Seq<char>,
    set: Seq<Seq<char>>,
    asked: Seq<Seq<char>>,
    now: i64,
    i: int,
) -> bool {
    let old_run = before.runs[i];
    let new_run = after.runs[i];
    if !asked.contains(old_run.id) {
        new_run == old_run
    } else if old_run.id != root && old_run.parent_run_id is Some && set.contains(
        old_run.parent_run_id->0,
    ) {
        &&& new_run.status == TaskRunStatus::Queued
        &&& new_run.waiting_on == parent_task(before.runs, old_run.parent_run_id->0)
        &&& new_run.updated_at == now
    } else if resolve_task(config, old_run.task) is Some {
        &&& new_run.status == TaskRunStatus::Queued
        &&& new_run.updated_at == now
    } else {
        new_run == old_run
    }
}

/// The depth of a run is at most the number of runs stored up to it.
pub proof fn lemma_depth_bound(runs: Seq<RunSpec>, set: Seq<Seq<char>>, i: int)
    requires
        0 <= i < runs.len(),
    ensures
        depth_in(runs, set, i) <= i + 1,
    decreases i,
{
    if runs[i].parent_run_id is Some {
        let parent = runs[i].parent_run_id->0;
        if set.contains(parent) && has_run(runs, parent) && run_index(runs, parent) < i {
            lemma_depth_bound(runs, set, run_index(runs, parent));
        }
    }
}

/// The ids at one depth are ids that were given, and every id that was
/// given is among those at its depth.
pub proof fn lemma_at_depth(
    runs: Seq<RunSpec>,
    set: Seq<Seq<char>>,
    ids: Seq<Seq<char>>,
    d: nat,
    n: int,
    x: Seq<char>,
)
    requires
        0 <= n <= ids.len(),
    ensures
        at_depth(runs, set, ids, d, n).contains(x) == (ids.take(n).contains(x) && depth_of(
            runs,
            set,
            x,
        ) == d),
    decreases n,
{
    if n > 0 {
        lemma_at_depth(runs, set, ids, d, n - 1, x);
        let head = ids.take(n - 1);
        let last = seq![ids[n - 1]];
        assert(ids.take(n) =~= head + last);
        lemma_concat_contains(head, last, x);
        assert(last.contains(x) == (x == ids[n - 1])) by {
            if x == ids[n - 1] {
                assert(last[0] == x);
            }
        }
        let before = at_depth(runs, set, ids, d, n - 1);
        if depth_of(runs, set, ids[n - 1]) == d {
            assert(before.push(ids[n - 1]) =~= before + last);
            lemma_concat_contains(before, last, x);
        }
    } else {
        assert(ids.take(0) =~= Seq::<Seq<char>>::empty());
    }
}

/// The ids below a depth are the ids given whose depth is less.
pub proof fn lemma_below_depth(
    runs: Seq<RunSpec>,
    set: Seq<Seq<char>>,
    ids: Seq<Seq<char>>,
    d: nat,
    x: Seq<char>,
)
    ensures
        below_depth(runs, set, ids, d).contains(x) == (ids.contains(x) && depth_of(runs, set, x)
            < d),
    decreases d,
{
    if d > 0 {
        let lower = below_depth(runs, set, ids, (d - 1) as nat);
        let level = at_depth(runs, set, ids, (d - 1) as nat, ids.len() as int);
        lemma_below_depth(runs, set, ids, (d - 1) as nat, x);
        lemma_at_depth(runs, set, ids, (d - 1) as nat, ids.len() as int, x);
        assert(ids.take(ids.len() as int) =~= ids);
        lemma_concat_contains(lower, level, x);
    }
}

/// The restart order holds exactly the ids that were given.
pub proof fn lemma_restart_order(runs: Seq<RunSpec>, ids: Seq<Seq<char>>, x: Seq<char>)
    requires
        crate::api::model::unique_ids(runs),
    ensures
        restart_order(runs, ids).contains(x) == ids.contains(x),
{
    lemma_below_depth(runs, ids, ids, runs.len() + 1, x);
    if has_run(runs, x) {
        lemma_depth_bound(runs, ids, run_index(runs, x));
    }
}

/// One run going back into the queue changes that run only, as asked.
#[verifier::rlimit(40)]
pub proof fn lemma_requeue_one(
    s: EngineSpec,
    config: Seq<(Seq<char>, TaskSpec)>,
    root: Seq<char>,
    set: Seq<Seq<char>>,
    id: Seq<char>,
    now: i64,
)
    requires
        s.wf(),
    ensures
        keeps_order(s, requeue_one(s, config, root, set, id, now).state),
        requeue_one(s, config, root, set, id, now).state.runs.len() == s.runs.len(),
        requeue_one(s, config, root, set, id, now).state.logs == s.logs,
        requeue_one(s, config, root, set, id, now).state.next_log_id == s.next_log_id,
        !requeue_one(s, config, root, set, id, now).failed ==> forall|i: int|
            0 <= i < s.runs.len() ==> #[trigger] requeued_as_asked(
                s,
                requeue_one(s, config, root, set, id, now).state,
                config,
                root,
                set,
                seq![id],
                now,
                i,
            ),
{
    reveal(requeue_one);
    let r = requeue_one(s, config, root, set, id, now);
    lemma_settles_refl(s.runs);
    if has_run(s.runs, id) {
        let run = run_of(s.runs, id);
        lemma_update_status(
            s,
            id,
            TaskRunStatus::Queued,
            parent_task(s.runs, run.parent_run_id->0),
            now,
        );
        if resolve_task(config, run.task) is Some {
            lemma_update_status(
                s,
                id,
                TaskRunStatus::Queued,
                next_unmet(s.runs, run.cwd, resolve_task(config, run.task)->0),
                now,
            );
        }
    }
    if !r.failed {
        assert forall|i: int| 0 <= i < s.runs.len() implies #[trigger] requeued_as_asked(
            s,
            r.state,
            config,
            root,
            set,
            seq![id],
            now,
            i,
        ) by {
            lemma_run_index(s.runs, i);
            if s.runs[i].id == id {
                assert(seq![id][0] == id);
            }
        }
    }
}

/// Runs going back into the queue change those runs only, as asked, as long
/// as no failure occurs.
#[verifier::rlimit(40)]
pub proof fn lemma_requeue_all(
    s: EngineSpec,
    config: Seq<(Seq<char>, TaskSpec)>,
    root: Seq<char>,
    set: Seq<Seq<char>>,
    order: Seq<Seq<char>>,
    n: int,
    now: i64,
)
    requires
        s.wf(),
        0 <= n <= order.len(),
    ensures
        keeps_order(s, requeue_all(s, config, root, set, order, n, now).state),
        requeue_all(s, config, root, set, order, n, now).state.runs.len() == s.runs.len(),
        requeue_all(s, config, root, set, order, n, now).state.logs == s.logs,
        requeue_all(s, config, root, set, order, n, now).state.next_log_id == s.next_log_id,
        !requeue_all(s, config, root, set, order, n, now).failed ==> forall|i: int|
            0 <= i < s.runs.len() ==> #[trigger] requeued_as_asked(
                s,
                requeue_all(s, config, root, set, order, n, now).state,
                config,
                root,
                set,
                order.take(n),
                now,
                i,
            ),
    decreases n,
{
    lemma_settles_refl(s.runs);
    if n > 0 {
        let mid = requeue_all(s, config, root, set, order, n - 1, now);
        let end = requeue_all(s, config, root, set, order, n, now);
        lemma_requeue_all(s, config, root, set, order, n - 1, now);
        if !mid.failed {
            let id = order[n - 1];
            lemma_requeue_one(mid.state, config, root, set, id, now);
            lemma_settles_trans(s.runs, mid.state.runs, end.state.runs);
            if !end.failed {
                assert forall|i: int| 0 <= i < s.runs.len() implies #[trigger] requeued_as_asked(
                    s,
                    end.state,
                    config,
                    root,
                    set,
                    order.take(n),
                    now,
                    i,
                ) by {
                    assert(requeued_as_asked(
                        s,
                        mid.state,
                        config,
                        root,
                        set,
                        order.take(n - 1),
                        now,
                        i,
                    ));
                    assert(requeued_as_asked(
                        mid.state,
                        end.state,
                        config,
                        root,
                        set,
                        seq![id],
                        now,
                        i,
                    ));
                    assert(mid.state.runs[i].id == s.runs[i].id);
                    let head = order.take(n - 1);
                    let last = seq![id];
                    assert(order.take(n) =~= head + last);
                    lemma_concat_contains(head, last, s.runs[i].id);
                    let run = s.runs[i];
                    if run.parent_run_id is Some {
                        let parent = run.parent_run_id->0;
                        if has_run(s.runs, parent) {
                            crate::api::invariants::lemma_settles_lookup(
                                s.runs,
                                mid.state.runs,
                                parent,
                            );
                            let p = run_index(s.runs, parent);
                            assert(mid.state.runs[p].id == s.runs[p].id);
                        } else if has_run(mid.state.runs, parent) {
                            let p = run_index(mid.state.runs, parent);
                            assert(mid.state.runs[p].id == s.runs[p].id);
                        }
                    }
                }
            }
        }
    } else {
        assert(order.take(0) =~= Seq::<Seq<char>>::empty());
    }
}

/// Once a failure has occurred nothing more happens.
pub proof fn lemma_requeue_stays_failed(
    s: EngineSpec,
    config: Seq<(Seq<char>, TaskSpec)>,
    root: Seq<char>,
    set: Seq<Seq<char>>,
    order: Seq<Seq<char>>,
    n: int,
    m: int,
    now: i64,
)
    requires
        0 <= n <= m <= order.len(),
        requeue_all(s, config, root, set, order, n, now).failed,
    ensures
        requeue_all(s, config, root, set, order, m, now) == requeue_all(
            s,
            config,
            root,
            set,
            order,
            n,
            now,
        ),
    decreases m - n,
{
    if n < m {
        lemma_requeue_stays_failed(s, config, root, set, order, n, m - 1, now);
    }
}

/// No failure occurs as long as the configuration knows the task of the
/// root.
pub proof fn lemma_requeue_never_fails(
    s: EngineSpec,
    config: Seq<(Seq<char>, TaskSpec)>,
    root: Seq<char>,
    set: Seq<Seq<char>>,
    order: Seq<Seq<char>>,
    n: int,
    now: i64,
)
    requires
        s.wf(),
        0 <= n <= order.len(),
        has_run(s.runs, root) ==> resolve_task(config, run_of(s.runs, root).task) is Some,
    ensures
        !requeue_all(s, config, root, set, order, n, now).failed,
    decreases n,
{
    if n > 0 {
        lemma_requeue_never_fails(s, config, root, set, order, n - 1, now);
        lemma_requeue_all(s, config, root, set, order, n - 1, now);
        let mid = requeue_all(s, config, root, set, order, n - 1, now).state;
        reveal(requeue_one);
        if has_run(mid.runs, root) {
            let i = run_index(mid.runs, root);
            assert(s.runs[i].id == mid.runs[i].id);
            lemma_run_index(s.runs, i);
            lemma_run_index(mid.runs, i);
        }
    }
}

/// The configuration does not know the task of the run that is restarted.
pub struct MissingTask {
    pub task: String,
}

/// The depth of the run at `index` within the set `run_ids`.
fn run_depth(state: &AppState, run_ids: &Vec<String>, index: usize) -> (depth: usize)
    requires
        state@.wf(),
        index < state@.runs.len(),
    ensures
        depth as nat == depth_in(state@.runs, names_of(run_ids@), index as int),
{
    let runs = state.task_runs();
    let ghost model = state@.runs;
    let ghost set = names_of(run_ids@);
    let mut depth: usize = 0;
    let mut cursor: usize = index;
    assert(model.len() == runs@.len());
    loop
        invariant
            state@.wf(),
            model == state@.runs,
            model == crate::db::entities::task_run::runs_of(runs@),
            set == names_of(run_ids@),
            cursor < model.len(),
            depth + depth_in(model, set, cursor as int) == depth_in(model, set, index as int),
            depth + cursor <= index,
            index < runs@.len(),
        decreases cursor,
    {
        assert(model[cursor as int] == runs@[cursor as int]@);
        match &runs[cursor].parent_run_id {
            None => {
                return depth;
            },
            Some(parent) => {
                if !contains_name(run_ids, parent.as_str()) {
                    return depth;
                }
                proof {
                    assert(parent_precedes(model, cursor as int));
                    let j = choose|j: int|
                        0 <= j < cursor && (#[trigger] model[j]).id == parent@ && model[j].cwd
                            == model[cursor as int].cwd;
                    lemma_run_index(model, j);
                }
                match state.find_task_run_index(parent.as_str()) {
                    Some(next) => {
                        depth += 1;
                        cursor = next;
                    },
                    None => {
                        return depth + 1;
                    },
                }
            },
        }
    }
}

/// The depth of the run `run_id` within the set `run_ids`.
fn id_depth(state: &AppState, run_ids: &Vec<String>, run_id: &str) -> (depth: usize)
    requires
        state@.wf(),
    ensures
        depth as nat == depth_of(state@.runs, names_of(run_ids@), run_id@),
        depth <= state@.runs.len(),
{
    match state.find_task_run_index(run_id) {
        Some(index) => {
            proof {
                lemma_depth_bound(state@.runs, names_of(run_ids@), index as int);
            }
            run_depth(state, run_ids, index)
        },
        None => 0,
    }
}

/// The runs `run_ids` in the order in which they go back into the queue:
/// parents first.
#[verifier::rlimit(40)]
pub fn order_for_restart(state: &AppState, run_ids: &Vec<String>) -> (ordered: Vec<String>)
    requires
        state@.wf(),
    ensures
        names_of(ordered@) == restart_order(state@.runs, names_of(run_ids@)),
{
    let ghost model = state@.runs;
    let ghost ids = names_of(run_ids@);
    let mut depths: Vec<usize> = Vec::new();
    let mut k: usize = 0;
    while k < run_ids.len()
        invariant
            k <= run_ids.len(),
            state@.wf(),
            model == state@.runs,
            ids == names_of(run_ids@),
            depths@.len() == k,
            forall|j: int| 0 <= j < k ==> (#[trigger] depths@[j]) as nat == depth_of(model, ids, ids[j]),
        decreases run_ids.len() - k,
    {
        assert(ids[k as int] == run_ids@[k as int]@);
        let depth = id_depth(state, run_ids, run_ids[k].as_str());
        depths.push(depth);
        k += 1;
    }
    let levels = state.task_runs().len();
    assert(levels == model.len());
    let mut ordered: Vec<String> = Vec::new();
    let mut d: usize = 0;
    let mut done = false;
    assert(names_of(ordered@) =~= below_depth(model, ids, ids, 0));
    while !done
        invariant
            d <= levels,
            levels == model.len(),
            ids == names_of(run_ids@),
            depths@.len() == run_ids@.len(),
            forall|j: int|
                0 <= j < depths@.len() ==> (#[trigger] depths@[j]) as nat == depth_of(
                    model,
                    ids,
                    ids[j],
                ),
            !done ==> names_of(ordered@) == below_depth(model, ids, ids, d as nat),
            done ==> names_of(ordered@) == below_depth(model, ids, ids, (levels + 1) as nat),
        decreases levels - d + (if done { 0int } else { 1int }),
    {
        let ghost lower = names_of(ordered@);
        let mut n: usize = 0;
        assert(lower + at_depth(model, ids, ids, d as nat, 0) =~= lower);
        while n < run_ids.len()
            invariant
                n <= run_ids.len(),
                ids == names_of(run_ids@),
                depths@.len() == run_ids@.len(),
                forall|j: int|
                    0 <= j < depths@.len() ==> (#[trigger] depths@[j]) as nat == depth_of(
                        model,
                        ids,
                        ids[j],
                    ),
                names_of(ordered@) == lower + at_depth(model, ids, ids, d as nat, n as int),
            decreases run_ids.len() - n,
        {
            assert(ids[n as int] == run_ids@[n as int]@);
            let ghost sofar = names_of(ordered@);
            if depths[n] == d {
                ordered.push(run_ids[n].clone());
                assert(names_of(ordered@) =~= sofar.push(ids[n as int]));
                assert(sofar.push(ids[n as int]) =~= lower + at_depth(
                    model,
                    ids,
                    ids,
                    d as nat,
                    n as int,
                ).push(ids[n as int]));
            }
            n += 1;
        }
        assert(names_of(ordered@) == below_depth(model, ids, ids, (d + 1) as nat));
        if d == levels {
            done = true;
        } else {
            d += 1;
        }
    }
    ordered
}

/// Deletes the log lines of the runs `run_ids` and tells the surroundings to
/// do the same. With no run given nothing happens.
pub fn clear_task_run_logs_for_restart(state: &mut AppState, run_ids: &Vec<String>)
    requires
        old(state)@.wf(),
    ensures
        final(state)@ == clear_logs(old(state)@, names_of(run_ids@)),
        final(state)@.runs == old(state)@.runs,
        keeps_order(old(state)@, final(state)@),
{
    proof {
        lemma_settles_refl(state@.runs);
    }
    if run_ids.len() == 0 {
        return ;
    }
    state.delete_logs(run_ids);
    state.emit(Effect::LogsCleared(clone_names(run_ids)));
}

/// Puts the run `run_id` back into the queue (see [`requeue_one`]).
#[verifier::rlimit(40)]
fn requeue_task_run(
    state: &mut AppState,
    config: &Config,
    root_run_id: &str,
    run_ids_to_restart: &Vec<String>,
    run_id: &str,
    now: i64,
) -> (requeued: Result<(), MissingTask>)
    requires
        old(state)@.wf(),
    ensures
        final(state)@ == requeue_one(
            old(state)@,
            config.entries(),
            root_run_id@,
            names_of(run_ids_to_restart@),
            run_id@,
            now,
        ).state,
        requeued is Err == requeue_one(
            old(state)@,
            config.entries(),
            root_run_id@,
            names_of(run_ids_to_restart@),
            run_id@,
            now,
        ).failed,
        requeued matches Err(missing) ==> has_run(old(state)@.runs, root_run_id@)
            && missing.task@ == run_of(old(state)@.runs, root_run_id@).task,
        final(state)@.wf(),
{
    proof {
        reveal(requeue_one);
        lemma_requeue_one(
            state@,
            config.entries(),
            root_run_id@,
            names_of(run_ids_to_restart@),
            run_id@,
            now,
        );
    }
    let (task_key, cwd, parent_run_id) = match state.find_task_run(run_id) {
        Some(run) => (run.task.clone(), run.cwd.clone(), crate::text::opt_owned(&run.parent_run_id)),
        None => {
            return Ok(());
        },
    };
    let is_root = str_eq(run_id, root_run_id);
    let parent_in_set = match &parent_run_id {
        Some(parent) => contains_name(run_ids_to_restart, parent.as_str()),
        None => false,
    };
    if !is_root && parent_in_set {
        let waiting_on = match &parent_run_id {
            Some(parent) => match state.find_task_run(parent.as_str()) {
                Some(parent_run) => Some(parent_run.task.clone()),
                None => None,
            },
            None => None,
        };
        update_task_run_status(state, run_id, TaskRunStatus::Queued, waiting_on, now);
        return Ok(());
    }
    match config.get_task(task_key.clone()) {
        Some(task) => {
            let waiting_on = next_unmet_dependency(state.task_runs(), cwd.as_str(), &task);
            update_task_run_status(state, run_id, TaskRunStatus::Queued, waiting_on, now);
            Ok(())
        },
        None => {
            if is_root {
                Err(MissingTask { task: task_key })
            } else {
                Ok(())
            }
        },
    }
}

/// A failure at step `n` is the outcome of the whole; it occurs at the root,
/// which was stored all along.
#[verifier::rlimit(40)]
proof fn lemma_prepare_failed(
    before: EngineSpec,
    here: EngineSpec,
    config: Seq<(Seq<char>, TaskSpec)>,
    root: Seq<char>,
    set: Seq<Seq<char>>,
    order: Seq<Seq<char>>,
    n: int,
    now: i64,
)
    requires
        before.wf(),
        0 < n <= order.len(),
        here == requeue_all(before, config, root, set, order, n - 1, now).state,
        !requeue_all(before, config, root, set, order, n - 1, now).failed,
        requeue_all(before, config, root, set, order, n, now).failed,
        has_run(here.runs, root),
    ensures
        requeue_all(before, config, root, set, order, order.len() as int, now) == requeue_all(
            before,
            config,
            root,
            set,
            order,
            n,
            now,
        ),
        requeue_all(before, config, root, set, order, n, now).state == here,
        keeps_order(before, here),
        here.runs.len() == before.runs.len(),
        here.logs == before.logs,
        has_run(before.runs, root),
        run_of(before.runs, root).task == run_of(here.runs, root).task,
{
    reveal(requeue_one);
    lemma_requeue_stays_failed(before, config, root, set, order, n, order.len() as int, now);
    lemma_requeue_all(before, config, root, set, order, n - 1, now);
    let i = run_index(here.runs, root);
    assert(before.runs[i].id == here.runs[i].id);
    lemma_run_index(before.runs, i);
    lemma_run_index(here.runs, i);
}

/// When all runs went back into the queue without a failure, each of the
/// runs asked for was treated as asked.
#[verifier::rlimit(40)]
proof fn lemma_prepare_done(
    before: EngineSpec,
    config: Seq<(Seq<char>, TaskSpec)>,
    root: Seq<char>,
    set: Seq<Seq<char>>,
    now: i64,
)
    requires
        before.wf(),
        !requeue_all(
            before,
            config,
            root,
            set,
            restart_order(before.runs, set),
            restart_order(before.runs, set).len() as int,
            now,
        ).failed,
    ensures
        ({
            let order = restart_order(before.runs, set);
            let end = requeue_all(before, config, root, set, order, order.len() as int, now).state;
            &&& keeps_order(before, end)
            &&& end.runs.len() == before.runs.len()
            &&& end.logs == before.logs
            &&& forall|i: int|
                0 <= i < before.runs.len() ==> #[trigger] requeued_as_asked(
                    before,
                    end,
                    config,
                    root,
                    set,
                    set,
                    now,
                    i,
                )
        }),
{
    let order = restart_order(before.runs, set);
    let end = requeue_all(before, config, root, set, order, order.len() as int, now).state;
    lemma_requeue_all(before, config, root, set, order, order.len() as int, now);
    assert(order.take(order.len() as int) =~= order);
    assert forall|i: int| 0 <= i < before.runs.len() implies #[trigger] requeued_as_asked(
        before,
        end,
        config,
        root,
        set,
        set,
        now,
        i,
    ) by {
        assert(requeued_as_asked(before, end, config, root, set, order, now, i));
        lemma_restart_order(before.runs, set, before.runs[i].id);
    }
}

/// Puts the runs `run_ids_to_restart` back into the queue, parents first
/// (see [`restart_order`]). The run `root_run_id` waits for the first unmet
/// dependency of its task; a run whose parent is among the runs waits for
/// the task of its parent; any other run is treated like the root. Fails,
/// leaving the runs after the root as they were, when the configuration
/// does not know the task of the root.
#[verifier::rlimit(40)]
pub fn prepare_task_runs_for_restart(
    state: &mut AppState,
    config: &Config,
    root_run_id: &str,
    run_ids_to_restart: &Vec<String>,
    now: i64,
) -> (prepared: Result<(), MissingTask>)
    requires
        old(state)@.wf(),
    ensures
        ({
            let set = names_of(run_ids_to_restart@);
            let order = restart_order(old(state)@.runs, set);
            let end = requeue_all(
                old(state)@,
                config.entries(),
                root_run_id@,
                set,
                order,
                order.len() as int,
                now,
            );
            &&& final(state)@ == end.state
            &&& prepared is Err == end.failed
            &&& prepared is Ok ==> forall|i: int|
                0 <= i < old(state)@.runs.len() ==> #[trigger] requeued_as_asked(
                    old(state)@,
                    final(state)@,
                    config.entries(),
                    root_run_id@,
                    set,
                    set,
                    now,
                    i,
                )
        }),
        prepared matches Err(missing) ==> has_run(old(state)@.runs, root_run_id@)
            && missing.task@ == run_of(old(state)@.runs, root_run_id@).task,
        keeps_order(old(state)@, final(state)@),
        final(state)@.runs.len() == old(state)@.runs.len(),
        final(state)@.logs == old(state)@.logs,
{
    let ghost before = state@;
    let ghost set = names_of(run_ids_to_restart@);
    let ghost entries = config.entries();
    let ordered = order_for_restart(state, run_ids_to_restart);
    let ghost order = names_of(ordered@);
    let mut n: usize = 0;
    while n < ordered.len()
        invariant
            n <= ordered.len(),
            before == old(state)@,
            before.wf(),
            order == names_of(ordered@),
            order == restart_order(before.runs, set),
            state@ == requeue_all(before, entries, root_run_id@, set, order, n as int, now).state,
            !requeue_all(before, entries, root_run_id@, set, order, n as int, now).failed,
            state@.wf(),
            set == names_of(run_ids_to_restart@),
            entries == config.entries(),
        decreases ordered.len() - n,
    {
        let run_id = &ordered[n];
        assert(order[n as int] == run_id@);
        let ghost here = state@;
        let requeued = requeue_task_run(
            state,
            config,
            root_run_id,
            run_ids_to_restart,
            run_id.as_str(),
            now,
        );
        assert(requeue_all(before, entries, root_run_id@, set, order, n as int + 1, now)
            == requeue_one(here, entries, root_run_id@, set, order[n as int], now));
        match requeued {
            Ok(()) => {},
            Err(missing) => {
                proof {
                    lemma_prepare_failed(
                        before,
                        here,
                        entries,
                        root_run_id@,
                        set,
                        order,
                        n as int + 1,
                        now,
                    );
                }
                return Err(missing);
            },
        }
        n += 1;
    }
    proof {
        lemma_prepare_done(before, entries, root_run_id@, set, now);
    }
    Ok(())
}

} // verus!
