//! The runs below a run.
//!
//! A run names its parent. The runs below a run are found by a walk from
//! parent to children, wherever in the listing the children stand. The walk
//! goes at most as deep as there are runs, so it ends on any listing.
use vstd::prelude::*;
use crate::api::model::{has_run, lemma_run_index, parent_precedes, parents_precede, run_of, unique_ids};
use crate::db::entities::task_run::{Model, RunSpec, runs_of};
use crate::text::{lemma_concat_contains, lemma_concat_no_duplicates, names_of, opt_str_is, owned};

verus! {

/// The ids of the runs among the first `hi` that name `id` as their parent,
/// last one first, each followed by what lies below it, down to `fuel`
/// levels.
pub open spec fn walk_below(runs: Seq<RunSpec>, id: Seq<char>, fuel: nat, hi: int) -> Seq<
    Seq<char>,
>
    decreases fuel, hi,
{
    if fuel == 0 || hi <= 0 || hi > runs.len() {
        Seq::empty()
    } else {
        let child = runs[hi - 1];
        let here = if child.parent_run_id == Some(id) {
            seq![child.id] + walk_below(runs, child.id, (fuel - 1) as nat, runs.len() as int)
        } else {
            Seq::empty()
        };
        here + walk_below(runs, id, fuel, hi - 1)
    }
}

/// The id of a run followed by the ids of all runs below it: a depth-first
/// walk that visits the children of a run from the last listed to the
/// first.
pub open spec fn descendants(runs: Seq<RunSpec>, root: Seq<char>) -> Seq<Seq<char>> {
    seq![root] + walk_below(runs, root, runs.len(), runs.len() as int)
}

/// Whether the run at `i` reaches the run `root` by going from parent to
/// parent at most `steps` times.
pub open spec fn reaches(runs: Seq<RunSpec>, i: int, root: Seq<char>, steps: nat) -> bool
    decreases steps,
{
    steps > 0 && 0 <= i < runs.len() && match runs[i].parent_run_id {
        None => false,
        Some(parent) => parent == root || exists|j: int|
            0 <= j < runs.len() && (#[trigger] runs[j]).id == parent && reaches(
                runs,
                j,
                root,
                (steps - 1) as nat,
            ),
    }
}

/// Whether the run at `i` lies below the run `root`: its chain of parents
/// reaches `root`. No chain needs more steps than there are runs, unless it
/// passes a run twice (see [`lemma_reaches_within`]).
pub open spec fn descends_from(runs: Seq<RunSpec>, i: int, root: Seq<char>) -> bool {
    reaches(runs, i, root, runs.len())
}

/// No run lies below itself.
pub open spec fn acyclic(runs: Seq<RunSpec>) -> bool {
    forall|i: int| 0 <= i < runs.len() ==> !#[trigger] descends_from(runs, i, runs[i].id)
}

/// What is reached in some steps is reached in more.
pub proof fn lemma_reaches_more(runs: Seq<RunSpec>, i: int, root: Seq<char>, n: nat, m: nat)
    requires
        reaches(runs, i, root, n),
        n <= m,
    ensures
        reaches(runs, i, root, m),
    decreases n,
{
    let parent = runs[i].parent_run_id->0;
    if parent != root {
        let j = choose|j: int|
            0 <= j < runs.len() && (#[trigger] runs[j]).id == parent && reaches(
                runs,
                j,
                root,
                (n - 1) as nat,
            );
        lemma_reaches_more(runs, j, root, (n - 1) as nat, (m - 1) as nat);
    }
}

/// What reaches a run reaches the parent of that run with one step more.
pub proof fn lemma_reaches_parent(
    runs: Seq<RunSpec>,
    c: int,
    m: int,
    id: Seq<char>,
    n: nat,
)
    requires
        0 <= m < runs.len(),
        runs[m].parent_run_id == Some(id),
        reaches(runs, c, runs[m].id, n),
    ensures
        reaches(runs, c, id, n + 1),
    decreases n,
{
    let parent = runs[c].parent_run_id->0;
    if parent == id {
    } else if parent == runs[m].id {
        assert(reaches(runs, m, id, 1));
        lemma_reaches_more(runs, m, id, 1, n);
        assert(runs[m].id == parent && reaches(runs, m, id, n));
    } else {
        let j = choose|j: int|
            0 <= j < runs.len() && (#[trigger] runs[j]).id == parent && reaches(
                runs,
                j,
                runs[m].id,
                (n - 1) as nat,
            );
        lemma_reaches_parent(runs, j, m, id, (n - 1) as nat);
        assert(runs[j].id == parent && reaches(runs, j, id, n));
    }
}

/// A chain of parents that reaches a run ends in a child of that run.
pub proof fn lemma_reaches_child(runs: Seq<RunSpec>, i: int, id: Seq<char>, n: nat)
    requires
        reaches(runs, i, id, n),
    ensures
        runs[i].parent_run_id == Some(id) || exists|c: int|
            0 <= c < runs.len() && (#[trigger] runs[c]).parent_run_id == Some(id) && reaches(
                runs,
                i,
                runs[c].id,
                (n - 1) as nat,
            ),
    decreases n,
{
    let parent = runs[i].parent_run_id->0;
    if parent != id {
        let j = choose|j: int|
            0 <= j < runs.len() && (#[trigger] runs[j]).id == parent && reaches(
                runs,
                j,
                id,
                (n - 1) as nat,
            );
        lemma_reaches_child(runs, j, id, (n - 1) as nat);
        if runs[j].parent_run_id == Some(id) {
            assert(reaches(runs, i, runs[j].id, 1));
            lemma_reaches_more(runs, i, runs[j].id, 1, (n - 1) as nat);
        } else {
            let c = choose|c: int|
                0 <= c < runs.len() && (#[trigger] runs[c]).parent_run_id == Some(id) && reaches(
                    runs,
                    j,
                    runs[c].id,
                    (n - 2) as nat,
                );
            assert(runs[j].id == parent && reaches(runs, j, runs[c].id, (n - 2) as nat));
            assert(reaches(runs, i, runs[c].id, (n - 1) as nat));
        }
    }
}

/// A child among the runs that are searched is found, with all that the walk
/// finds below it.
pub proof fn lemma_child_listed(
    runs: Seq<RunSpec>,
    id: Seq<char>,
    fuel: nat,
    hi: int,
    c: int,
    x: Seq<char>,
)
    requires
        fuel > 0,
        0 <= c < hi <= runs.len(),
        runs[c].parent_run_id == Some(id),
        x == runs[c].id || walk_below(runs, runs[c].id, (fuel - 1) as nat, runs.len() as int).contains(
            x,
        ),
    ensures
        walk_below(runs, id, fuel, hi).contains(x),
    decreases hi,
{
    let child = runs[hi - 1];
    let below = walk_below(runs, child.id, (fuel - 1) as nat, runs.len() as int);
    let here = if child.parent_run_id == Some(id) {
        seq![child.id] + below
    } else {
        Seq::empty()
    };
    let rest = walk_below(runs, id, fuel, hi - 1);
    if c == hi - 1 {
        lemma_concat_contains(seq![child.id], below, x);
        if x == child.id {
            assert(seq![child.id][0] == x);
        }
    } else {
        lemma_child_listed(runs, id, fuel, hi - 1, c, x);
    }
    lemma_concat_contains(here, rest, x);
}

/// What the walk finds below a run is a child of the run, or is found below
/// a child of the run.
pub proof fn lemma_walk_element(runs: Seq<RunSpec>, id: Seq<char>, fuel: nat, hi: int, x: Seq<char>)
    requires
        0 <= hi <= runs.len(),
        walk_below(runs, id, fuel, hi).contains(x),
    ensures
        fuel > 0,
        exists|c: int|
            0 <= c < hi && (#[trigger] runs[c]).parent_run_id == Some(id) && (x == runs[c].id
                || walk_below(runs, runs[c].id, (fuel - 1) as nat, runs.len() as int).contains(x)),
    decreases hi,
{
    if fuel > 0 && hi > 0 {
        let child = runs[hi - 1];
        let below = walk_below(runs, child.id, (fuel - 1) as nat, runs.len() as int);
        let here = if child.parent_run_id == Some(id) {
            seq![child.id] + below
        } else {
            Seq::empty()
        };
        let rest = walk_below(runs, id, fuel, hi - 1);
        lemma_concat_contains(here, rest, x);
        if rest.contains(x) {
            lemma_walk_element(runs, id, fuel, hi - 1, x);
        } else {
            lemma_concat_contains(seq![child.id], below, x);
            if seq![child.id].contains(x) {
                assert(x == child.id);
            }
            assert(runs[hi - 1].parent_run_id == Some(id));
        }
    }
}

/// The walk finds every run whose chain of parents reaches the run within
/// the depth of the walk.
pub proof fn lemma_walk_complete(runs: Seq<RunSpec>, id: Seq<char>, i: int, fuel: nat, n: nat)
    requires
        reaches(runs, i, id, n),
        n <= fuel,
    ensures
        walk_below(runs, id, fuel, runs.len() as int).contains(runs[i].id),
    decreases n,
{
    let len = runs.len() as int;
    lemma_reaches_child(runs, i, id, n);
    if runs[i].parent_run_id == Some(id) {
        lemma_child_listed(runs, id, fuel, len, i, runs[i].id);
    } else {
        let c = choose|c: int|
            0 <= c < runs.len() && (#[trigger] runs[c]).parent_run_id == Some(id) && reaches(
                runs,
                i,
                runs[c].id,
                (n - 1) as nat,
            );
        lemma_walk_complete(runs, runs[c].id, i, (fuel - 1) as nat, (n - 1) as nat);
        lemma_child_listed(runs, id, fuel, len, c, runs[i].id);
    }
}

/// Every id that the walk finds below a run belongs to a run whose chain of
/// parents reaches that run.
pub proof fn lemma_walk_sound(runs: Seq<RunSpec>, id: Seq<char>, fuel: nat, hi: int, x: Seq<char>)
    requires
        0 <= hi <= runs.len(),
        walk_below(runs, id, fuel, hi).contains(x),
    ensures
        exists|c: int| 0 <= c < runs.len() && (#[trigger] runs[c]).id == x && reaches(runs, c, id, fuel),
    decreases fuel,
{
    lemma_walk_element(runs, id, fuel, hi, x);
    let m = choose|m: int|
        0 <= m < hi && (#[trigger] runs[m]).parent_run_id == Some(id) && (x == runs[m].id
            || walk_below(runs, runs[m].id, (fuel - 1) as nat, runs.len() as int).contains(x));
    if x == runs[m].id {
        assert(reaches(runs, m, id, 1));
        lemma_reaches_more(runs, m, id, 1, fuel);
    } else {
        lemma_walk_sound(runs, runs[m].id, (fuel - 1) as nat, runs.len() as int, x);
        let c = choose|c: int|
            0 <= c < runs.len() && (#[trigger] runs[c]).id == x && reaches(
                runs,
                c,
                runs[m].id,
                (fuel - 1) as nat,
            );
        lemma_reaches_parent(runs, c, m, id, (fuel - 1) as nat);
    }
}

/// Where no run lies below itself, a chain of parents passes no run twice:
/// what it reaches, it reaches within as many steps as there are runs less
/// those that lie below its start.
proof fn lemma_reaches_short(runs: Seq<RunSpec>, i: int, root: Seq<char>, n: nat, seen: Set<int>)
    requires
        acyclic(runs),
        reaches(runs, i, root, n),
        seen.finite(),
        !seen.contains(i),
        forall|v: int|
            seen.contains(v) ==> 0 <= v < runs.len() && #[trigger] reaches(
                runs,
                v,
                runs[i].id,
                seen.len(),
            ),
    ensures
        seen.len() < runs.len(),
        reaches(runs, i, root, (runs.len() - seen.len()) as nat),
    decreases n,
{
    let len = runs.len() as int;
    let more = seen.insert(i);
    let range = vstd::set_lib::set_int_range(0, len);
    vstd::set_lib::lemma_int_range(0, len);
    assert forall|v: int| more.contains(v) implies range.contains(v) by {
        if v != i {
            assert(seen.contains(v));
            assert(reaches(runs, v, runs[i].id, seen.len()));
        }
    }
    assert(more.subset_of(range));
    vstd::set_lib::lemma_len_subset(more, range);
    assert(more.len() == seen.len() + 1);
    let parent = runs[i].parent_run_id->0;
    if parent == root {
        assert(reaches(runs, i, root, 1));
        lemma_reaches_more(runs, i, root, 1, (len - seen.len()) as nat);
    } else {
        let j = choose|j: int|
            0 <= j < runs.len() && (#[trigger] runs[j]).id == parent && reaches(
                runs,
                j,
                root,
                (n - 1) as nat,
            );
        if j == i {
            assert(reaches(runs, i, runs[i].id, 1));
            lemma_reaches_more(runs, i, runs[i].id, 1, runs.len());
            assert(descends_from(runs, i, runs[i].id));
        }
        if seen.contains(j) {
            assert(reaches(runs, j, runs[i].id, seen.len()));
            assert(reaches(runs, i, runs[i].id, seen.len() + 1));
            lemma_reaches_more(runs, i, runs[i].id, seen.len() + 1, runs.len());
            assert(descends_from(runs, i, runs[i].id));
        }
        assert forall|v: int| more.contains(v) implies 0 <= v < runs.len() && #[trigger] reaches(
            runs,
            v,
            runs[j].id,
            more.len(),
        ) by {
            if v == i {
                assert(reaches(runs, i, runs[j].id, 1));
                lemma_reaches_more(runs, i, runs[j].id, 1, more.len());
            } else {
                lemma_reaches_parent(runs, v, i, runs[j].id, seen.len());
            }
        }
        lemma_reaches_short(runs, j, root, (n - 1) as nat, more);
        assert(runs[j].id == parent && reaches(runs, j, root, (len - more.len()) as nat));
        assert(reaches(runs, i, root, (len - seen.len()) as nat));
    }
}

/// Where no run lies below itself, a run whose chain of parents reaches a
/// run at all, after however many steps, lies below it: no such chain is
/// longer than there are runs.
pub proof fn lemma_reaches_within(runs: Seq<RunSpec>, i: int, root: Seq<char>, n: nat)
    requires
        acyclic(runs),
        reaches(runs, i, root, n),
    ensures
        descends_from(runs, i, root),
{
    lemma_reaches_short(runs, i, root, n, Set::empty());
}

/// A run that reaches two runs has the one of them below the other.
pub proof fn lemma_two_ancestors(runs: Seq<RunSpec>, x: int, a: int, b: int, n: nat, m: nat)
    requires
        unique_ids(runs),
        0 <= a < runs.len(),
        0 <= b < runs.len(),
        runs[a].id != runs[b].id,
        reaches(runs, x, runs[a].id, n),
        reaches(runs, x, runs[b].id, m),
    ensures
        reaches(runs, a, runs[b].id, m) || reaches(runs, b, runs[a].id, n),
    decreases n,
{
    let parent = runs[x].parent_run_id->0;
    if parent == runs[a].id {
        let j = choose|j: int|
            0 <= j < runs.len() && (#[trigger] runs[j]).id == parent && reaches(
                runs,
                j,
                runs[b].id,
                (m - 1) as nat,
            );
        lemma_run_index(runs, j);
        lemma_run_index(runs, a);
        lemma_reaches_more(runs, a, runs[b].id, (m - 1) as nat, m);
    } else if parent == runs[b].id {
        let j = choose|j: int|
            0 <= j < runs.len() && (#[trigger] runs[j]).id == parent && reaches(
                runs,
                j,
                runs[a].id,
                (n - 1) as nat,
            );
        lemma_run_index(runs, j);
        lemma_run_index(runs, b);
        lemma_reaches_more(runs, b, runs[a].id, (n - 1) as nat, n);
    } else {
        let j = choose|j: int|
            0 <= j < runs.len() && (#[trigger] runs[j]).id == parent && reaches(
                runs,
                j,
                runs[a].id,
                (n - 1) as nat,
            );
        let k = choose|k: int|
            0 <= k < runs.len() && (#[trigger] runs[k]).id == parent && reaches(
                runs,
                k,
                runs[b].id,
                (m - 1) as nat,
            );
        lemma_run_index(runs, j);
        lemma_run_index(runs, k);
        lemma_two_ancestors(runs, j, a, b, (n - 1) as nat, (m - 1) as nat);
        if reaches(runs, a, runs[b].id, (m - 1) as nat) {
            lemma_reaches_more(runs, a, runs[b].id, (m - 1) as nat, m);
        } else {
            lemma_reaches_more(runs, b, runs[a].id, (n - 1) as nat, n);
        }
    }
}

/// A run that lies below a run with the same parent makes that run lie
/// below itself.
pub proof fn lemma_siblings_apart(runs: Seq<RunSpec>, c: int, d: int, id: Seq<char>, n: nat)
    requires
        0 <= d < runs.len(),
        runs[c].parent_run_id == Some(id),
        runs[d].parent_run_id == Some(id),
        reaches(runs, c, runs[d].id, n),
    ensures
        reaches(runs, d, runs[d].id, n + 1),
{
    if id == runs[d].id {
        assert(reaches(runs, d, runs[d].id, 1));
        lemma_reaches_more(runs, d, runs[d].id, 1, n + 1);
    } else {
        let j = choose|j: int|
            0 <= j < runs.len() && (#[trigger] runs[j]).id == id && reaches(
                runs,
                j,
                runs[d].id,
                (n - 1) as nat,
            );
        assert(reaches(runs, d, runs[d].id, n));
        lemma_reaches_more(runs, d, runs[d].id, n, n + 1);
    }
}

/// Where ids are distinct and no run lies below itself, the walk finds no id
/// twice.
#[verifier::rlimit(60)]
pub proof fn lemma_walk_no_duplicates(runs: Seq<RunSpec>, id: Seq<char>, fuel: nat, hi: int)
    requires
        unique_ids(runs),
        acyclic(runs),
        fuel <= runs.len(),
        0 <= hi <= runs.len(),
    ensures
        walk_below(runs, id, fuel, hi).no_duplicates(),
    decreases fuel, hi,
{
    if fuel > 0 && hi > 0 {
        let len = runs.len() as int;
        let top = hi - 1;
        let child = runs[top];
        let below = walk_below(runs, child.id, (fuel - 1) as nat, len);
        let rest = walk_below(runs, id, fuel, hi - 1);
        lemma_walk_no_duplicates(runs, id, fuel, hi - 1);
        if child.parent_run_id == Some(id) {
            let first = seq![child.id];
            let here = first + below;
            lemma_walk_no_duplicates(runs, child.id, (fuel - 1) as nat, len);
            assert forall|x: Seq<char>| !(first.contains(x) && below.contains(x)) by {
                if first.contains(x) && below.contains(x) {
                    assert(x == child.id);
                    lemma_below_has_not(runs, top, top, (fuel - 1) as nat);
                }
            }
            lemma_concat_no_duplicates(first, below);
            assert forall|x: Seq<char>| !(here.contains(x) && rest.contains(x)) by {
                if here.contains(x) && rest.contains(x) {
                    lemma_walk_element(runs, id, fuel, hi - 1, x);
                    let d = choose|d: int|
                        0 <= d < hi - 1 && (#[trigger] runs[d]).parent_run_id == Some(id) && (x
                            == runs[d].id || walk_below(
                            runs,
                            runs[d].id,
                            (fuel - 1) as nat,
                            len,
                        ).contains(x));
                    assert(runs[d].id != runs[top].id);
                    lemma_concat_contains(first, below, x);
                    if first.contains(x) {
                        assert(x == child.id);
                        // the child would lie below its sibling
                        lemma_below_has_not(runs, top, d, (fuel - 1) as nat);
                    } else if x == runs[d].id {
                        // the sibling would lie below the child
                        lemma_below_has_not(runs, d, top, (fuel - 1) as nat);
                    } else {
                        lemma_walk_sound(runs, child.id, (fuel - 1) as nat, len, x);
                        let a = choose|a: int|
                            0 <= a < runs.len() && (#[trigger] runs[a]).id == x && reaches(
                                runs,
                                a,
                                child.id,
                                (fuel - 1) as nat,
                            );
                        lemma_walk_sound(runs, runs[d].id, (fuel - 1) as nat, len, x);
                        let b = choose|b: int|
                            0 <= b < runs.len() && (#[trigger] runs[b]).id == x && reaches(
                                runs,
                                b,
                                runs[d].id,
                                (fuel - 1) as nat,
                            );
                        lemma_run_index(runs, a);
                        lemma_run_index(runs, b);
                        lemma_two_ancestors(
                            runs,
                            a,
                            top,
                            d,
                            (fuel - 1) as nat,
                            (fuel - 1) as nat,
                        );
                        if reaches(runs, top, runs[d].id, (fuel - 1) as nat) {
                            lemma_siblings_apart(runs, top, d, id, (fuel - 1) as nat);
                            lemma_reaches_more(runs, d, runs[d].id, fuel, runs.len());
                            assert(descends_from(runs, d, runs[d].id));
                        } else {
                            lemma_siblings_apart(runs, d, top, id, (fuel - 1) as nat);
                            lemma_reaches_more(runs, top, runs[top].id, fuel, runs.len());
                            assert(descends_from(runs, top, runs[top].id));
                        }
                    }
                }
            }
            lemma_concat_no_duplicates(here, rest);
        } else {
            assert(Seq::<Seq<char>>::empty() + rest =~= rest);
        }
    }
}

/// Where ids are distinct and no run lies below itself, the walk below a
/// run does not find a run with the same parent, nor the run itself.
proof fn lemma_below_has_not(runs: Seq<RunSpec>, c: int, d: int, fuel: nat)
    requires
        unique_ids(runs),
        acyclic(runs),
        fuel < runs.len(),
        0 <= c < runs.len(),
        0 <= d < runs.len(),
        c == d || (runs[c].parent_run_id is Some && runs[c].parent_run_id
            == runs[d].parent_run_id),
    ensures
        !walk_below(runs, runs[d].id, fuel, runs.len() as int).contains(runs[c].id),
{
    let len = runs.len() as int;
    if walk_below(runs, runs[d].id, fuel, len).contains(runs[c].id) {
        lemma_walk_sound(runs, runs[d].id, fuel, len, runs[c].id);
        let a = choose|a: int|
            0 <= a < runs.len() && (#[trigger] runs[a]).id == runs[c].id && reaches(
                runs,
                a,
                runs[d].id,
                fuel,
            );
        lemma_run_index(runs, a);
        lemma_run_index(runs, c);
        if c == d {
            lemma_reaches_more(runs, c, runs[c].id, fuel, runs.len());
            assert(descends_from(runs, c, runs[c].id));
        } else {
            lemma_siblings_apart(runs, c, d, runs[c].parent_run_id->0, fuel);
            lemma_reaches_more(runs, d, runs[d].id, fuel + 1, runs.len());
            assert(descends_from(runs, d, runs[d].id));
        }
    }
}

/// Where ids are distinct and no run lies below itself, the walk from a run
/// names no run twice.
pub proof fn lemma_descendants_distinct(runs: Seq<RunSpec>, root: Seq<char>)
    requires
        unique_ids(runs),
        acyclic(runs),
    ensures
        descendants(runs, root).no_duplicates(),
{
    let len = runs.len() as int;
    let walk = walk_below(runs, root, runs.len(), len);
    let first = seq![root];
    lemma_walk_no_duplicates(runs, root, runs.len(), len);
    assert forall|x: Seq<char>| !(first.contains(x) && walk.contains(x)) by {
        if first.contains(x) && walk.contains(x) {
            assert(x == root);
            lemma_walk_sound(runs, root, runs.len(), len, x);
            let c = choose|c: int|
                0 <= c < runs.len() && (#[trigger] runs[c]).id == x && reaches(
                    runs,
                    c,
                    root,
                    runs.len(),
                );
            assert(descends_from(runs, c, runs[c].id));
        }
    }
    lemma_concat_no_duplicates(first, walk);
}

/// The walk from a run finds every run below it.
pub proof fn lemma_descendants_complete(runs: Seq<RunSpec>, root: Seq<char>, i: int)
    requires
        descends_from(runs, i, root),
    ensures
        descendants(runs, root).contains(runs[i].id),
{
    let walk = walk_below(runs, root, runs.len(), runs.len() as int);
    lemma_walk_complete(runs, root, i, runs.len(), runs.len());
    lemma_concat_contains(seq![root], walk, runs[i].id);
}

/// The walk from a run finds that run and runs below it, nothing else.
pub proof fn lemma_descendants_sound(runs: Seq<RunSpec>, root: Seq<char>, x: Seq<char>)
    requires
        descendants(runs, root).contains(x),
    ensures
        x == root || exists|c: int|
            0 <= c < runs.len() && (#[trigger] runs[c]).id == x && descends_from(runs, c, root),
{
    let walk = walk_below(runs, root, runs.len(), runs.len() as int);
    lemma_concat_contains(seq![root], walk, x);
    if walk.contains(x) {
        lemma_walk_sound(runs, root, runs.len(), runs.len() as int, x);
    } else {
        assert(seq![root].contains(x));
    }
}

/// In a consistent store a run that reaches another was stored after it,
/// shares its working directory, and the other is stored.
pub proof fn lemma_reaches_in_store(runs: Seq<RunSpec>, i: int, root: Seq<char>, n: nat)
    requires
        unique_ids(runs),
        parents_precede(runs),
        reaches(runs, i, root, n),
    ensures
        has_run(runs, root),
        crate::api::model::run_index(runs, root) < i,
        runs[i].cwd == run_of(runs, root).cwd,
    decreases n,
{
    let parent = runs[i].parent_run_id->0;
    assert(parent_precedes(runs, i));
    let p = choose|p: int|
        0 <= p < i && (#[trigger] runs[p]).id == parent && runs[p].cwd == runs[i].cwd;
    lemma_run_index(runs, p);
    if parent != root {
        let j = choose|j: int|
            0 <= j < runs.len() && (#[trigger] runs[j]).id == parent && reaches(
                runs,
                j,
                root,
                (n - 1) as nat,
            );
        lemma_run_index(runs, j);
        lemma_reaches_in_store(runs, j, root, (n - 1) as nat);
    }
}

/// In a consistent store no run lies below itself.
pub proof fn lemma_store_acyclic(runs: Seq<RunSpec>)
    requires
        unique_ids(runs),
        parents_precede(runs),
    ensures
        acyclic(runs),
{
    assert forall|i: int| 0 <= i < runs.len() implies !#[trigger] descends_from(
        runs,
        i,
        runs[i].id,
    ) by {
        if descends_from(runs, i, runs[i].id) {
            lemma_reaches_in_store(runs, i, runs[i].id, runs.len());
            lemma_run_index(runs, i);
        }
    }
}

/// In a consistent store, every run below a stored run shares its working
/// directory.
pub proof fn lemma_descendant_cwd(runs: Seq<RunSpec>, root: Seq<char>, i: int)
    requires
        unique_ids(runs),
        parents_precede(runs),
        descends_from(runs, i, root),
    ensures
        has_run(runs, root),
        runs[i].cwd == run_of(runs, root).cwd,
{
    lemma_reaches_in_store(runs, i, root, runs.len());
}

/// Appends to `out` what the walk finds below the run `run_id`, down to
/// `fuel` levels.
#[verifier::rlimit(40)]
fn collect_below(all_runs: &Vec<Model>, run_id: &str, fuel: usize, out: &mut Vec<String>)
    ensures
        names_of(final(out)@) == names_of(old(out)@) + walk_below(
            runs_of(all_runs@),
            run_id@,
            fuel as nat,
            all_runs@.len() as int,
        ),
    decreases fuel,
{
    let ghost runs = runs_of(all_runs@);
    let ghost len = all_runs@.len() as int;
    let ghost start = names_of(out@);
    assert(start + Seq::<Seq<char>>::empty() =~= start);
    if fuel == 0 {
        return ;
    }
    let mut hi: usize = all_runs.len();
    let ghost mut done: Seq<Seq<char>> = Seq::empty();
    while hi > 0
        invariant
            fuel > 0,
            hi <= all_runs.len(),
            runs == runs_of(all_runs@),
            len == all_runs@.len(),
            names_of(out@) == start + done,
            done + walk_below(runs, run_id@, fuel as nat, hi as int) == walk_below(
                runs,
                run_id@,
                fuel as nat,
                len,
            ),
        decreases hi,
    {
        let run = &all_runs[hi - 1];
        let ghost rest = walk_below(runs, run_id@, fuel as nat, hi - 1);
        assert(runs[hi - 1] == run@);
        if opt_str_is(&run.parent_run_id, run_id) {
            let ghost before = names_of(out@);
            out.push(run.id.clone());
            assert(names_of(out@) =~= before.push(run.id@));
            collect_below(all_runs, run.id.as_str(), fuel - 1, out);
            proof {
                let below = walk_below(runs, run.id@, (fuel - 1) as nat, len);
                let here = seq![run.id@] + below;
                assert(names_of(out@) =~= start + (done + here));
                assert((done + here) + rest =~= done + (here + rest));
                done = done + here;
            }
        } else {
            assert(Seq::<Seq<char>>::empty() + rest =~= rest);
        }
        hi -= 1;
    }
    assert(done + Seq::<Seq<char>>::empty() =~= done);
}

/// The id of a run and the ids of all runs below it, found by a depth-first
/// walk over `all_runs`: after a run come its children, the last listed
/// first, each with what lies below it. The order of the listing does not
/// decide what is found: the result holds the id given, first, and beside
/// it exactly the ids of the runs whose chain of parents reaches it. The
/// walk goes at most as deep as there are runs.
pub fn collect_descendant_run_ids(all_runs: &Vec<Model>, root_run_id: &str) -> (run_ids: Vec<String>)
    ensures
        names_of(run_ids@) == descendants(runs_of(all_runs@), root_run_id@),
        run_ids@.len() >= 1,
        run_ids@[0]@ == root_run_id@,
        forall|i: int|
            0 <= i < all_runs@.len() && #[trigger] descends_from(
                runs_of(all_runs@),
                i,
                root_run_id@,
            ) ==> names_of(run_ids@).contains(runs_of(all_runs@)[i].id),
        unique_ids(runs_of(all_runs@)) && acyclic(runs_of(all_runs@)) ==> names_of(
            run_ids@,
        ).no_duplicates(),
        forall|k: int|
            0 <= k < run_ids@.len() ==> (#[trigger] names_of(run_ids@)[k]) == root_run_id@
                || exists|c: int|
                0 <= c < all_runs@.len() && (#[trigger] runs_of(all_runs@)[c]).id == names_of(
                    run_ids@,
                )[k] && descends_from(runs_of(all_runs@), c, root_run_id@),
{
    let mut run_ids: Vec<String> = Vec::new();
    run_ids.push(owned(root_run_id));
    assert(names_of(run_ids@) =~= seq![root_run_id@]);
    collect_below(all_runs, root_run_id, all_runs.len(), &mut run_ids);
    proof {
        let runs = runs_of(all_runs@);
        let found = names_of(run_ids@);
        assert(found.len() == run_ids@.len());
        assert(found.len() >= 1);
        assert(found[0] == root_run_id@);
        if unique_ids(runs) && acyclic(runs) {
            lemma_descendants_distinct(runs, root_run_id@);
        }
        assert forall|i: int|
            0 <= i < all_runs@.len() && #[trigger] descends_from(runs, i, root_run_id@) implies found.contains(
            runs[i].id,
        ) by {
            lemma_descendants_complete(runs, root_run_id@, i);
        }
        assert forall|k: int| 0 <= k < run_ids@.len() implies (#[trigger] found[k]) == root_run_id@
            || exists|c: int|
            0 <= c < all_runs@.len() && (#[trigger] runs[c]).id == found[k] && descends_from(
                runs,
                c,
                root_run_id@,
            ) by {
            assert(found.contains(found[k]));
            lemma_descendants_sound(runs, root_run_id@, found[k]);
        }
    }
    run_ids
}

} // verus!
