//! Runs as trees: a run with the runs created for its sub-tasks below it.
use vstd::prelude::*;
use crate::api::model::{has_run, run_index};
use crate::api::state::AppState;
use crate::db::entities::task_run::{Model, RunSpec, TaskRunStatus, runs_of};
use crate::text::{opt_chars, opt_owned, opt_str_is, str_eq};

verus! {

/// A run together with its child runs, each a tree of its own.
pub struct TaskRunTreeNode {
    pub id: String,
    pub task: String,
    pub cwd: String,
    pub parent_run_id: Option<String>,
    pub status: TaskRunStatus,
    pub updated_at: i64,
    pub waiting_on: Option<String>,
    pub children: Vec<TaskRunTreeNode>,
}

/// The mathematical content of a tree of runs.
pub struct TreeSpec {
    pub run: RunSpec,
    pub children: Seq<TreeSpec>,
}

impl TaskRunTreeNode {
    /// The run at the top of the tree.
    pub open spec fn run(self) -> RunSpec {
        RunSpec {
            id: self.id@,
            task: self.task@,
            cwd: self.cwd@,
            parent_run_id: opt_chars(self.parent_run_id),
            status: self.status,
            updated_at: self.updated_at,
            waiting_on: opt_chars(self.waiting_on),
        }
    }

    /// What the tree holds.
    pub open spec fn content(self) -> TreeSpec
        decreases self,
    {
        TreeSpec {
            run: self.run(),
            children: Seq::new(
                self.children@.len(),
                |i: int|
                    if 0 <= i < self.children@.len() {
                        self.children@[i].content()
                    } else {
                        arbitrary()
                    },
            ),
        }
    }
}

impl View for TaskRunTreeNode {
    type V = TreeSpec;

    open spec fn view(&self) -> TreeSpec {
        self.content()
    }
}

/// The content of a list of trees, in order.
pub open spec fn trees_of(trees: Seq<TaskRunTreeNode>) -> Seq<TreeSpec> {
    Seq::new(trees.len(), |i: int| trees[i]@)
}

/// The view of a tree lists its children one by one.
pub proof fn lemma_tree_view(tree: TaskRunTreeNode)
    ensures
        tree@.run == tree.run(),
        tree@.children == trees_of(tree.children@),
{
    assert(tree@.children =~= trees_of(tree.children@));
}

/// Whether `a` may stand before `b` when `b` comes later in the listing:
/// with ascending times `a` did not change later than `b`, with descending
/// times not earlier.
pub open spec fn may_precede(a: TreeSpec, b: TreeSpec, descending: bool) -> bool {
    if descending {
        a.run.updated_at >= b.run.updated_at
    } else {
        a.run.updated_at <= b.run.updated_at
    }
}

/// An ordered list with one more tree put in: behind the last tree that may
/// stand before it.
pub open spec fn insert_by_time(sorted: Seq<TreeSpec>, tree: TreeSpec, descending: bool) -> Seq<
    TreeSpec,
>
    decreases sorted.len(),
{
    if sorted.len() == 0 {
        seq![tree]
    } else if may_precede(sorted.last(), tree, descending) {
        sorted.push(tree)
    } else {
        insert_by_time(sorted.drop_last(), tree, descending).push(sorted.last())
    }
}

/// The first `n` trees ordered by the time of change of their top runs;
/// trees of the same time keep their order.
pub open spec fn sort_by_time(trees: Seq<TreeSpec>, descending: bool, n: int) -> Seq<TreeSpec>
    decreases n,
{
    if n <= 0 || n > trees.len() {
        Seq::empty()
    } else {
        insert_by_time(sort_by_time(trees, descending, n - 1), trees[n - 1], descending)
    }
}

/// Whether each tree may stand before the next.
pub open spec fn ordered_by_time(trees: Seq<TreeSpec>, descending: bool) -> bool {
    forall|i: int, j: int|
        0 <= i < j < trees.len() ==> may_precede(#[trigger] trees[i], #[trigger] trees[j], descending)
}

/// The trees of the children of the run `id` among the first `hi` runs, in
/// the order of the listing, each with its own children below it, down to
/// `fuel` levels. The children of a tree are ordered by the time of their
/// last change.
pub open spec fn child_trees(runs: Seq<RunSpec>, id: Seq<char>, fuel: nat, hi: int) -> Seq<
    TreeSpec,
>
    decreases fuel, hi,
{
    if fuel == 0 || hi <= 0 || hi > runs.len() {
        Seq::empty()
    } else {
        let before = child_trees(runs, id, fuel, hi - 1);
        if runs[hi - 1].parent_run_id == Some(id) {
            before.push(
                TreeSpec {
                    run: runs[hi - 1],
                    children: sorted_children(
                        child_trees(runs, runs[hi - 1].id, (fuel - 1) as nat, runs.len() as int),
                    ),
                },
            )
        } else {
            before
        }
    }
}

/// Child trees in the order in which a tree shows them: by the time of
/// their last change, the earliest first.
pub open spec fn sorted_children(children: Seq<TreeSpec>) -> Seq<TreeSpec> {
    sort_by_time(children, false, children.len() as int)
}

/// The tree of a run that goes `fuel` levels deep.
pub open spec fn tree_below(runs: Seq<RunSpec>, run: RunSpec, fuel: nat) -> TreeSpec {
    TreeSpec {
        run,
        children: sorted_children(child_trees(runs, run.id, fuel, runs.len() as int)),
    }
}

/// The tree of the run at `i`: the run with the trees of all runs that name
/// it as their parent below it, wherever in the listing they stand. The
/// tree goes at most as deep as there are runs.
pub open spec fn tree_at(runs: Seq<RunSpec>, i: int) -> TreeSpec {
    tree_below(runs, runs[i], runs.len())
}

/// Whether one of the trees has the given run at its top.
pub open spec fn has_tree_of(trees: Seq<TreeSpec>, run: RunSpec) -> bool {
    exists|k: int| 0 <= k < trees.len() && (#[trigger] trees[k]).run == run
}

/// Every run among those searched that names the run as its parent has its
/// tree listed.
pub proof fn lemma_child_has_tree(runs: Seq<RunSpec>, id: Seq<char>, fuel: nat, hi: int, c: int)
    requires
        fuel > 0,
        0 <= c < hi <= runs.len(),
        runs[c].parent_run_id == Some(id),
    ensures
        has_tree_of(child_trees(runs, id, fuel, hi), runs[c]),
    decreases hi,
{
    let trees = child_trees(runs, id, fuel, hi);
    if c == hi - 1 {
        assert(trees[trees.len() - 1].run == runs[c]);
    } else {
        lemma_child_has_tree(runs, id, fuel, hi - 1, c);
        let before = child_trees(runs, id, fuel, hi - 1);
        let k = choose|k: int| 0 <= k < before.len() && (#[trigger] before[k]).run == runs[c];
        assert(trees[k] == before[k]);
    }
}

/// Every tree listed below a run is the tree of a run that names it as its
/// parent.
pub proof fn lemma_trees_are_children(runs: Seq<RunSpec>, id: Seq<char>, fuel: nat, hi: int, k: int)
    requires
        0 <= hi <= runs.len(),
        0 <= k < child_trees(runs, id, fuel, hi).len(),
    ensures
        child_trees(runs, id, fuel, hi)[k].run.parent_run_id == Some(id),
        exists|c: int| 0 <= c < hi && #[trigger] runs[c] == child_trees(runs, id, fuel, hi)[k].run,
    decreases hi,
{
    if fuel > 0 && hi > 0 {
        let before = child_trees(runs, id, fuel, hi - 1);
        if k < before.len() {
            lemma_trees_are_children(runs, id, fuel, hi - 1, k);
            let c = choose|c: int| 0 <= c < hi - 1 && #[trigger] runs[c] == before[k].run;
            assert(runs[c] == child_trees(runs, id, fuel, hi)[k].run);
        } else {
            assert(runs[hi - 1] == child_trees(runs, id, fuel, hi)[k].run);
        }
    }
}

/// The children of the tree of a run are runs that name it as their parent.
pub proof fn lemma_tree_shows_only_children(runs: Seq<RunSpec>, i: int, k: int)
    requires
        0 <= i < runs.len(),
        0 <= k < tree_at(runs, i).children.len(),
    ensures
        tree_at(runs, i).children[k].run.parent_run_id == Some(runs[i].id),
        exists|c: int| 0 <= c < runs.len() && #[trigger] runs[c] == tree_at(runs, i).children[k].run,
{
    broadcast use vstd::seq_lib::group_to_multiset_ensures;

    let listed = child_trees(runs, runs[i].id, runs.len(), runs.len() as int);
    let sorted = sorted_children(listed);
    lemma_sort_by_time(listed, false, listed.len() as int);
    assert(listed.take(listed.len() as int) =~= listed);
    assert(sorted.to_multiset().count(sorted[k]) > 0);
    assert(listed.to_multiset().count(sorted[k]) > 0);
    assert(listed.contains(sorted[k]));
    let m = choose|m: int| 0 <= m < listed.len() && listed[m] == sorted[k];
    lemma_trees_are_children(runs, runs[i].id, runs.len(), runs.len() as int, m);
    let c = choose|c: int| 0 <= c < runs.len() && #[trigger] runs[c] == listed[m].run;
    assert(runs[c] == sorted[k].run);
}

/// The tree of a run shows every run that names it as its parent among its
/// children, whatever the order of the listing.
pub proof fn lemma_tree_shows_children(runs: Seq<RunSpec>, i: int, c: int)
    requires
        0 <= i < runs.len(),
        0 <= c < runs.len(),
        runs[c].parent_run_id == Some(runs[i].id),
    ensures
        has_tree_of(tree_at(runs, i).children, runs[c]),
{
    broadcast use vstd::seq_lib::group_to_multiset_ensures;

    let listed = child_trees(runs, runs[i].id, runs.len(), runs.len() as int);
    lemma_child_has_tree(runs, runs[i].id, runs.len(), runs.len() as int, c);
    let k = choose|k: int| 0 <= k < listed.len() && (#[trigger] listed[k]).run == runs[c];
    lemma_sort_by_time(listed, false, listed.len() as int);
    assert(listed.take(listed.len() as int) =~= listed);
    let sorted = sorted_children(listed);
    assert(listed.to_multiset().count(listed[k]) > 0);
    assert(sorted.to_multiset().count(listed[k]) > 0);
    assert(sorted.contains(listed[k]));
    let m = choose|m: int| 0 <= m < sorted.len() && sorted[m] == listed[k];
    assert(sorted[m].run == runs[c]);
}

/// The tree of the run `id`, if it is stored.
pub open spec fn tree_of(runs: Seq<RunSpec>, id: Seq<char>) -> Option<TreeSpec> {
    if has_run(runs, id) {
        Some(tree_at(runs, run_index(runs, id)))
    } else {
        None
    }
}

/// The trees of those among the first `n` runs that belong to `cwd` and have
/// no parent, in the order of their creation.
pub open spec fn root_trees(runs: Seq<RunSpec>, cwd: Seq<char>, n: int) -> Seq<TreeSpec>
    decreases n,
{
    if n <= 0 || n > runs.len() {
        Seq::empty()
    } else if runs[n - 1].cwd == cwd && runs[n - 1].parent_run_id is None {
        root_trees(runs, cwd, n - 1).push(tree_at(runs, n - 1))
    } else {
        root_trees(runs, cwd, n - 1)
    }
}

/// The trees of the runs of a working directory that have no parent, the
/// latest changed first.
pub open spec fn run_forest(runs: Seq<RunSpec>, cwd: Seq<char>) -> Seq<TreeSpec> {
    let roots = root_trees(runs, cwd, runs.len() as int);
    sort_by_time(roots, true, roots.len() as int)
}

/// Putting a tree into an ordered list leaves the list ordered, with the
/// same trees and the new one.
#[verifier::rlimit(40)]
pub proof fn lemma_insert_by_time(sorted: Seq<TreeSpec>, tree: TreeSpec, descending: bool)
    requires
        ordered_by_time(sorted, descending),
    ensures
        ordered_by_time(insert_by_time(sorted, tree, descending), descending),
        insert_by_time(sorted, tree, descending).len() == sorted.len() + 1,
        insert_by_time(sorted, tree, descending).to_multiset() == sorted.to_multiset().insert(tree),
    decreases sorted.len(),
{
    broadcast use vstd::seq_lib::group_to_multiset_ensures;

    let result = insert_by_time(sorted, tree, descending);
    if sorted.len() == 0 {
        assert(sorted =~= Seq::empty());
        assert(result =~= Seq::<TreeSpec>::empty().push(tree));
    } else if may_precede(sorted.last(), tree, descending) {
        assert forall|i: int, j: int| 0 <= i < j < result.len() implies may_precede(
            #[trigger] result[i],
            #[trigger] result[j],
            descending,
        ) by {
            if j < sorted.len() {
                assert(may_precede(sorted[i], sorted[j], descending));
            } else if i < sorted.len() - 1 {
                assert(may_precede(sorted[i], sorted[sorted.len() - 1], descending));
            }
        }
    } else {
        let front = sorted.drop_last();
        let last = sorted.last();
        assert forall|i: int, j: int| 0 <= i < j < front.len() implies may_precede(
            #[trigger] front[i],
            #[trigger] front[j],
            descending,
        ) by {
            assert(may_precede(sorted[i], sorted[j], descending));
        }
        lemma_insert_by_time(front, tree, descending);
        let inner = insert_by_time(front, tree, descending);
        assert(sorted =~= front.push(last));
        assert forall|i: int, j: int| 0 <= i < j < result.len() implies may_precede(
            #[trigger] result[i],
            #[trigger] result[j],
            descending,
        ) by {
            if j < inner.len() {
                assert(may_precede(inner[i], inner[j], descending));
            } else {
                // result[j] is the old last tree; result[i] is an old tree or the new one
                assert(inner.to_multiset().count(inner[i]) > 0);
                if inner[i] != tree {
                    assert(front.to_multiset().count(inner[i]) > 0);
                    assert(front.contains(inner[i]));
                    let k = choose|k: int| 0 <= k < front.len() && front[k] == inner[i];
                    assert(may_precede(sorted[k], sorted[sorted.len() - 1], descending));
                }
            }
        }
        assert(result.to_multiset() =~= sorted.to_multiset().insert(tree));
    }
}

/// An ordered list is ordered and holds the trees that were given.
pub proof fn lemma_sort_by_time(trees: Seq<TreeSpec>, descending: bool, n: int)
    requires
        0 <= n <= trees.len(),
    ensures
        ordered_by_time(sort_by_time(trees, descending, n), descending),
        sort_by_time(trees, descending, n).len() == n,
        sort_by_time(trees, descending, n).to_multiset() == trees.take(n).to_multiset(),
    decreases n,
{
    broadcast use vstd::seq_lib::group_to_multiset_ensures;

    if n > 0 {
        lemma_sort_by_time(trees, descending, n - 1);
        lemma_insert_by_time(sort_by_time(trees, descending, n - 1), trees[n - 1], descending);
        assert(trees.take(n) =~= trees.take(n - 1).push(trees[n - 1]));
    } else {
        assert(trees.take(0) =~= Seq::<TreeSpec>::empty());
    }
}

/// Whether `a` may stand before a tree `b` that comes later in the listing.
fn stands_before(a: &TaskRunTreeNode, b: &TaskRunTreeNode, descending: bool) -> (may: bool)
    ensures
        may == may_precede(a@, b@, descending),
{
    if descending {
        a.updated_at >= b.updated_at
    } else {
        a.updated_at <= b.updated_at
    }
}

/// Puts a tree into an ordered list, behind the last tree that may stand
/// before it.
#[verifier::rlimit(40)]
fn insert_tree(sorted: &mut Vec<TaskRunTreeNode>, tree: TaskRunTreeNode, descending: bool)
    ensures
        trees_of(final(sorted)@) == insert_by_time(trees_of(old(sorted)@), tree@, descending),
{
    let ghost before = trees_of(sorted@);
    let mut at: usize = sorted.len();
    proof {
        assert(before.take(at as int) =~= before);
        assert(before.skip(at as int) =~= Seq::<TreeSpec>::empty());
        assert(insert_by_time(before, tree@, descending) + Seq::<TreeSpec>::empty()
            =~= insert_by_time(before, tree@, descending));
    }
    while at > 0 && !stands_before(&sorted[at - 1], &tree, descending)
        invariant
            at <= sorted.len(),
            before == trees_of(sorted@),
            insert_by_time(before, tree@, descending) == insert_by_time(
                before.take(at as int),
                tree@,
                descending,
            ) + before.skip(at as int),
        decreases at,
    {
        proof {
            let head = before.take(at as int);
            assert(head.last() == before[at - 1]);
            assert(before[at - 1] == sorted@[at - 1]@);
            assert(head.drop_last() =~= before.take(at - 1));
            assert(insert_by_time(head.drop_last(), tree@, descending).push(head.last())
                + before.skip(at as int) =~= insert_by_time(
                before.take(at - 1),
                tree@,
                descending,
            ) + before.skip(at - 1));
        }
        at -= 1;
    }
    proof {
        let head = before.take(at as int);
        if at > 0 {
            assert(head.last() == before[at - 1]);
            assert(before[at - 1] == sorted@[at - 1]@);
        }
        assert(insert_by_time(head, tree@, descending) =~= head.push(tree@));
        assert(before.take(0) =~= Seq::<TreeSpec>::empty());
    }
    let ghost inserted = tree@;
    sorted.insert(at, tree);
    assert(trees_of(sorted@) =~= before.take(at as int).push(inserted) + before.skip(at as int));
}

/// The tree of a run that goes `fuel` levels deep.
#[verifier::rlimit(40)]
fn build_tree_below(runs: &Vec<Model>, run: &Model, fuel: usize) -> (tree: TaskRunTreeNode)
    ensures
        tree@ == tree_below(runs_of(runs@), run@, fuel as nat),
        ordered_by_time(tree@.children, false),
    decreases fuel,
{
    let ghost model = runs_of(runs@);
    let mut children: Vec<TaskRunTreeNode> = Vec::new();
    assert(trees_of(children@) =~= sort_by_time(Seq::<TreeSpec>::empty(), false, 0));
    if fuel > 0 {
        let mut hi: usize = 0;
        assert(trees_of(children@) =~= sorted_children(
            child_trees(model, run@.id, fuel as nat, 0),
        ));
        while hi < runs.len()
            invariant
                fuel > 0,
                hi <= runs.len(),
                model == runs_of(runs@),
                trees_of(children@) == sorted_children(
                    child_trees(model, run@.id, fuel as nat, hi as int),
                ),
            decreases runs.len() - hi,
        {
            let child = &runs[hi];
            assert(model[hi as int] == child@);
            if opt_str_is(&child.parent_run_id, run.id.as_str()) {
                let tree = build_tree_below(runs, child, fuel - 1);
                insert_tree(&mut children, tree, false);
                proof {
                    let before = child_trees(model, run@.id, fuel as nat, hi as int);
                    let after = child_trees(model, run@.id, fuel as nat, hi + 1);
                    assert(after == before.push(tree_below(model, child@, (fuel - 1) as nat)));
                    lemma_sort_prefix(after, false, before.len() as int);
                    assert(after.take(before.len() as int) =~= before);
                }
            }
            hi += 1;
        }
    }
    let tree = TaskRunTreeNode {
        id: run.id.clone(),
        task: run.task.clone(),
        cwd: run.cwd.clone(),
        parent_run_id: opt_owned(&run.parent_run_id),
        status: run.status,
        updated_at: run.updated_at,
        waiting_on: opt_owned(&run.waiting_on),
        children,
    };
    proof {
        lemma_tree_view(tree);
        let listed = child_trees(model, run@.id, fuel as nat, model.len() as int);
        lemma_sort_by_time(listed, false, listed.len() as int);
    }
    tree
}

/// The tree of the run at `index`: the run with the trees of its child runs
/// below it, ordered by the time of their last change, the earliest first;
/// children of the same time keep the order of the listing. Every run that
/// names the run as its parent is among its children, wherever in the
/// listing it stands. The tree goes at most as deep as there are runs.
pub fn build_task_run_tree(runs: &Vec<Model>, index: usize) -> (tree: TaskRunTreeNode)
    requires
        index < runs.len(),
    ensures
        tree@ == tree_at(runs_of(runs@), index as int),
        ordered_by_time(tree@.children, false),
        forall|c: int|
            0 <= c < runs@.len() && (#[trigger] runs_of(runs@)[c]).parent_run_id == Some(
                runs_of(runs@)[index as int].id,
            ) ==> has_tree_of(tree@.children, runs_of(runs@)[c]),
        forall|k: int|
            0 <= k < tree@.children.len() ==> (#[trigger] tree@.children[k]).run.parent_run_id
                == Some(runs_of(runs@)[index as int].id),
{
    let ghost model = runs_of(runs@);
    assert(model[index as int] == runs@[index as int]@);
    let tree = build_tree_below(runs, &runs[index], runs.len());
    proof {
        assert forall|c: int|
            0 <= c < runs@.len() && (#[trigger] model[c]).parent_run_id == Some(
                model[index as int].id,
            ) implies has_tree_of(tree@.children, model[c]) by {
            lemma_tree_shows_children(model, index as int, c);
        }
        assert forall|k: int| 0 <= k < tree@.children.len() implies (
        #[trigger] tree@.children[k]).run.parent_run_id == Some(model[index as int].id) by {
            lemma_tree_shows_only_children(model, index as int, k);
        }
    }
    tree
}

/// Ordering the first `n` trees of a list looks at those trees only.
pub proof fn lemma_sort_prefix(trees: Seq<TreeSpec>, descending: bool, n: int)
    requires
        0 <= n <= trees.len(),
    ensures
        sort_by_time(trees, descending, n) == sort_by_time(trees.take(n), descending, n),
    decreases n,
{
    if n > 0 {
        lemma_sort_prefix(trees, descending, n - 1);
        lemma_sort_prefix(trees.take(n), descending, n - 1);
        assert(trees.take(n).take(n - 1) =~= trees.take(n - 1));
    }
}

/// The tree of the run `run_id`, if it is stored.
pub fn load_task_run_tree(state: &AppState, run_id: &str) -> (tree: Option<TaskRunTreeNode>)
    requires
        state@.wf(),
    ensures
        opt_tree_of(tree) == tree_of(state@.runs, run_id@),
{
    match state.find_task_run_index(run_id) {
        Some(index) => Some(build_task_run_tree(state.task_runs(), index)),
        None => None,
    }
}

/// The content of an optional tree.
pub open spec fn opt_tree_of(tree: Option<TaskRunTreeNode>) -> Option<TreeSpec> {
    match tree {
        Some(tree) => Some(tree@),
        None => None,
    }
}

/// The trees of the runs of `cwd` that have no parent, the latest changed
/// first; trees of the same time keep the order of their creation.
#[verifier::rlimit(40)]
pub fn load_task_run_forest(state: &AppState, cwd: &str) -> (forest: Vec<TaskRunTreeNode>)
    ensures
        trees_of(forest@) == run_forest(state@.runs, cwd@),
{
    let runs = state.task_runs();
    let ghost model = state@.runs;
    let mut forest: Vec<TaskRunTreeNode> = Vec::new();
    let mut n: usize = 0;
    assert(trees_of(forest@) =~= sort_by_time(root_trees(model, cwd@, 0), true, 0));
    while n < runs.len()
        invariant
            n <= runs.len(),
            model == runs_of(runs@),
            trees_of(forest@) == sort_by_time(
                root_trees(model, cwd@, n as int),
                true,
                root_trees(model, cwd@, n as int).len() as int,
            ),
        decreases runs.len() - n,
    {
        let run = &runs[n];
        assert(model[n as int] == run@);
        if str_eq(run.cwd.as_str(), cwd) && run.parent_run_id.is_none() {
            let tree = build_task_run_tree(runs, n);
            insert_tree(&mut forest, tree, true);
            proof {
                let before = root_trees(model, cwd@, n as int);
                let after = root_trees(model, cwd@, n + 1);
                assert(after == before.push(tree_at(model, n as int)));
                lemma_sort_prefix(after, true, before.len() as int);
                assert(after.take(before.len() as int) =~= before);
            }
        }
        n += 1;
    }
    forest
}

} // verus!
