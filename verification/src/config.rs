//! The task definitions of a working directory.
//!
//! Tasks form a tree. A task is named by the keys on the way to it, joined by
//! colons: `dev:server` is the task `server` among the sub-tasks of `dev`.
//! A task map is a list of keyed entries; a key is looked up from the front.
use vstd::prelude::*;
use crate::text::{clone_names, names_of, opt_chars, opt_names_of, opt_owned, str_eq};

verus! {

/// One task definition.
pub struct Task {
    /// The title of the task.
    pub title: Option<String>,
    /// The command that the task will run.
    pub command: Option<String>,
    /// Names of the tasks that must have succeeded before this one runs.
    pub depends_on: Option<Vec<String>>,
    /// An optional task only runs when started by hand.
    pub optional: Option<bool>,
    /// The sub-tasks, by key.
    pub tasks: Option<Vec<(String, Task)>>,
    /// The definitions of the tasks named in `depends_on`, once resolved.
    pub depends_on_tasks: Option<Vec<(String, Task)>>,
}

/// The task definitions loaded for one working directory.
pub struct Config {
    pub tasks: Vec<(String, Task)>,
}

/// Why loading a configuration failed.
pub enum ConfigError {
    /// The file could not be read; `not_found` tells a missing file apart.
    Io { not_found: bool },
    /// The file is not a valid task configuration.
    Json,
}

/// The mathematical content of a [`Task`].
pub struct TaskSpec {
    pub title: Option<Seq<char>>,
    pub command: Option<Seq<char>>,
    pub depends_on: Option<Seq<Seq<char>>>,
    pub optional: Option<bool>,
    pub tasks: Option<Seq<(Seq<char>, TaskSpec)>>,
    pub depends_on_tasks: Option<Seq<(Seq<char>, TaskSpec)>>,
}

impl View for Task {
    type V = TaskSpec;

    open spec fn view(&self) -> TaskSpec {
        self.content()
    }
}

impl Task {
    /// What the task holds, with everything below it.
    pub open spec fn content(self) -> TaskSpec
        decreases self,
    {
        TaskSpec {
            title: opt_chars(self.title),
            command: opt_chars(self.command),
            depends_on: opt_names_of(self.depends_on),
            optional: self.optional,
            tasks: match self.tasks {
                Some(v) => Some(
                    Seq::new(
                        v@.len(),
                        |i: int|
                            if 0 <= i < v@.len() {
                                (v@[i].0@, v@[i].1.content())
                            } else {
                                (Seq::empty(), arbitrary())
                            },
                    ),
                ),
                None => None,
            },
            depends_on_tasks: match self.depends_on_tasks {
                Some(v) => Some(
                    Seq::new(
                        v@.len(),
                        |i: int|
                            if 0 <= i < v@.len() {
                                (v@[i].0@, v@[i].1.content())
                            } else {
                                (Seq::empty(), arbitrary())
                            },
                    ),
                ),
                None => None,
            },
        }
    }
}

/// The content of a task map: its keys and tasks, in order.
pub open spec fn entries_of(entries: Seq<(String, Task)>) -> Seq<(Seq<char>, TaskSpec)> {
    Seq::new(entries.len(), |i: int| (entries[i].0@, entries[i].1@))
}

/// The content of an optional task map.
pub open spec fn opt_entries_of(entries: Option<Vec<(String, Task)>>) -> Option<
    Seq<(Seq<char>, TaskSpec)>,
> {
    match entries {
        Some(v) => Some(entries_of(v@)),
        None => None,
    }
}

/// The content of an optional task.
pub open spec fn opt_task_of(task: Option<Task>) -> Option<TaskSpec> {
    match task {
        Some(t) => Some(t@),
        None => None,
    }
}

/// The view of a task lists its maps entry by entry.
pub proof fn lemma_task_view(task: Task)
    ensures
        task@.tasks == opt_entries_of(task.tasks),
        task@.depends_on_tasks == opt_entries_of(task.depends_on_tasks),
{
    if task.tasks is Some {
        let v = task.tasks->0;
        assert(task@.tasks is Some);
        assert(task@.tasks->0.len() == v@.len());
        assert forall|i: int| 0 <= i < v@.len() implies task@.tasks->0[i] == entries_of(v@)[i] by {}
        assert(task@.tasks->0 =~= entries_of(v@));
    }
    if task.depends_on_tasks is Some {
        let v = task.depends_on_tasks->0;
        assert(task@.depends_on_tasks is Some);
        assert(task@.depends_on_tasks->0.len() == v@.len());
        assert forall|i: int| 0 <= i < v@.len() implies task@.depends_on_tasks->0[i] == entries_of(
            v@,
        )[i] by {}
        assert(task@.depends_on_tasks->0 =~= entries_of(v@));
    }
}

/// The task stored under `key`: that of the first entry with this key.
pub open spec fn lookup(entries: Seq<(Seq<char>, TaskSpec)>, key: Seq<char>) -> Option<TaskSpec> {
    if exists|i: int| 0 <= i < entries.len() && entries[i].0 == key {
        let i = choose|i: int|
            0 <= i < entries.len() && entries[i].0 == key && forall|j: int|
                0 <= j < i ==> entries[j].0 != key;
        Some(entries[i].1)
    } else {
        None
    }
}

/// Length of the first segment of a task name: the number of characters
/// before its first colon, counted from `from`.
pub open spec fn segment_len(key: Seq<char>, from: int) -> int
    decreases key.len() - from,
{
    if from < 0 || from >= key.len() || key[from] == ':' {
        0
    } else {
        1 + segment_len(key, from + 1)
    }
}

/// The task that a colon-joined name leads to. The first segment is looked up
/// in `entries`; further segments are looked up among the sub-tasks of what
/// was found. A name that goes on below a task without sub-tasks leads
/// nowhere.
pub open spec fn find_task(entries: Seq<(Seq<char>, TaskSpec)>, key: Seq<char>) -> Option<
    TaskSpec,
>
    decreases key.len(),
{
    let head = segment_len(key, 0);
    if head < 0 || head > key.len() {
        None
    } else {
        match lookup(entries, key.take(head)) {
            None => None,
            Some(task) => if head == key.len() {
                Some(task)
            } else {
                match task.tasks {
                    Some(children) => find_task(children, key.skip(head + 1)),
                    None => None,
                }
            },
        }
    }
}

/// No key occurs twice among the entries.
pub open spec fn distinct_keys(entries: Seq<(Seq<char>, TaskSpec)>) -> bool {
    forall|i: int, j: int|
        0 <= i < j < entries.len() ==> (#[trigger] entries[i]).0 != (#[trigger] entries[j]).0
}

/// Whether no key occurs twice among the first `n` entries, nor in the map
/// of sub-tasks of any of them, at any depth.
pub open spec fn valid_entries(entries: Seq<(Seq<char>, TaskSpec)>, n: int) -> bool
    decreases entries, n,
{
    if n <= 0 || n > entries.len() {
        true
    } else {
        &&& valid_entries(entries, n - 1)
        &&& forall|j: int| 0 <= j < n - 1 ==> (#[trigger] entries[j]).0 != entries[n - 1].0
        &&& match entries[n - 1].1.tasks {
            Some(children) => valid_entries(children, children.len() as int),
            None => true,
        }
    }
}

/// A valid task map has no key twice.
pub proof fn lemma_valid_entries(entries: Seq<(Seq<char>, TaskSpec)>, n: int)
    requires
        0 <= n <= entries.len(),
        valid_entries(entries, n),
    ensures
        distinct_keys(entries.take(n)),
        forall|i: int|
            0 <= i < n ==> ((#[trigger] entries[i]).1.tasks matches Some(children)
                ==> valid_entries(children, children.len() as int)),
    decreases n,
{
    if n > 0 {
        lemma_valid_entries(entries, n - 1);
        let head = entries.take(n - 1);
        let all = entries.take(n);
        assert forall|i: int, j: int| 0 <= i < j < all.len() implies (#[trigger] all[i]).0 != (
        #[trigger] all[j]).0 by {
            if j < n - 1 {
                assert(head[i].0 != head[j].0);
            } else {
                assert(entries[i].0 != entries[n - 1].0);
            }
        }
    }
}

/// In a map without a key twice, every entry is found under its key.
pub proof fn lemma_lookup_entry(entries: Seq<(Seq<char>, TaskSpec)>, i: int)
    requires
        distinct_keys(entries),
        0 <= i < entries.len(),
    ensures
        lookup(entries, entries[i].0) == Some(entries[i].1),
{
    let key = entries[i].0;
    assert(forall|j: int| 0 <= j < i ==> entries[j].0 != key) by {
        assert forall|j: int| 0 <= j < i implies entries[j].0 != key by {
            assert(entries[j].0 != entries[i].0);
        }
    }
    let c = choose|c: int|
        0 <= c < entries.len() && entries[c].0 == key && forall|j: int|
            0 <= j < c ==> entries[j].0 != key;
    if c < i {
        assert(entries[c].0 != entries[i].0);
    } else if i < c {
        assert(entries[i].0 != entries[c].0);
    }
}

/// Whether one of the entries has the given key.
pub open spec fn has_key(entries: Seq<(Seq<char>, TaskSpec)>, key: Seq<char>) -> bool {
    exists|i: int| 0 <= i < entries.len() && entries[i].0 == key
}

/// The definitions of the first `n` names of `deps`, as far as the
/// configuration has them: one entry per name, in the order of first mention.
pub open spec fn resolved_deps(
    entries: Seq<(Seq<char>, TaskSpec)>,
    deps: Seq<Seq<char>>,
    n: int,
) -> Seq<(Seq<char>, TaskSpec)>
    decreases n,
{
    if n <= 0 || n > deps.len() {
        Seq::empty()
    } else {
        let before = resolved_deps(entries, deps, n - 1);
        match find_task(entries, deps[n - 1]) {
            Some(task) => if has_key(before, deps[n - 1]) {
                before
            } else {
                before.push((deps[n - 1], task))
            },
            None => before,
        }
    }
}

/// The task named `key` together with the definitions of its dependencies.
pub open spec fn resolve_task(entries: Seq<(Seq<char>, TaskSpec)>, key: Seq<char>) -> Option<
    TaskSpec,
> {
    match find_task(entries, key) {
        None => None,
        Some(task) => match task.depends_on {
            None => Some(task),
            Some(deps) => Some(
                TaskSpec {
                    depends_on_tasks: Some(resolved_deps(entries, deps, deps.len() as int)),
                    ..task
                },
            ),
        },
    }
}

/// The first `n` entries of a task map and all that lies below them, each
/// under its full name: an entry, then its sub-tasks, then the next entry.
pub open spec fn flatten(entries: Seq<(Seq<char>, TaskSpec)>, prefix: Seq<char>, n: int) -> Seq<
    (Seq<char>, TaskSpec),
>
    decreases entries, n,
{
    if n <= 0 || n > entries.len() {
        Seq::empty()
    } else {
        let entry = entries[n - 1];
        let name = prefix + entry.0;
        let below = match entry.1.tasks {
            Some(children) => flatten(children, name.push(':'), children.len() as int),
            None => Seq::empty(),
        };
        flatten(entries, prefix, n - 1).push((name, entry.1)) + below
    }
}

/// What a base name contributes to the names below it.
pub open spec fn prefix_of(base_key: Option<Seq<char>>) -> Seq<char> {
    match base_key {
        Some(base) => base.push(':'),
        None => Seq::empty(),
    }
}

impl ConfigError {
    /// Whether loading failed because the file does not exist.
    pub fn is_not_found(&self) -> (r: bool)
        ensures
            r == (*self == ConfigError::Io { not_found: true }),
    {
        match self {
            ConfigError::Io { not_found } => *not_found,
            ConfigError::Json => false,
        }
    }
}

/// The characters of a string, one by one.
pub fn chars_of(s: &str) -> (v: Vec<char>)
    ensures
        v@ == s@,
{
    let mut v: Vec<char> = Vec::new();
    for c in it: s.chars()
        invariant
            v@ == it.seq().subrange(0, it.index() as int),
    {
        v.push(c);
    }
    v
}

/// A copy of a task map.
pub fn clone_entries(entries: &Vec<(String, Task)>) -> (copy: Vec<(String, Task)>)
    ensures
        entries_of(copy@) == entries_of(entries@),
    decreases entries,
{
    let mut copy: Vec<(String, Task)> = Vec::new();
    let mut i: usize = 0;
    while i < entries.len()
        invariant
            i <= entries.len(),
            copy@.len() == i,
            forall|k: int|
                0 <= k < i ==> copy@[k].0@ == entries@[k].0@ && copy@[k].1@ == entries@[k].1@,
        decreases entries.len() - i,
    {
        assert(decreases_to!(*entries => entries[i as int]));
        assert(decreases_to!(entries[i as int] => entries[i as int].1));
        assert(decreases_to!(entries => entries[i as int].1));
        let task = clone_task(&entries[i].1);
        copy.push((entries[i].0.clone(), task));
        i += 1;
    }
    assert(entries_of(copy@) =~= entries_of(entries@));
    copy
}

/// A copy of a task with everything below it.
pub fn clone_task(task: &Task) -> (copy: Task)
    ensures
        copy@ == task@,
    decreases task,
{
    let depends_on = match &task.depends_on {
        Some(names) => Some(clone_names(names)),
        None => None,
    };
    let tasks = match &task.tasks {
        Some(entries) => {
            assert(decreases_to!(task => task.tasks));
            assert(decreases_to!(task.tasks => task.tasks->0));
            assert(decreases_to!(task => *entries));
            Some(clone_entries(entries))
        },
        None => None,
    };
    let depends_on_tasks = match &task.depends_on_tasks {
        Some(entries) => {
            assert(decreases_to!(task => task.depends_on_tasks));
            assert(decreases_to!(task.depends_on_tasks => task.depends_on_tasks->0));
            assert(decreases_to!(task => *entries));
            Some(clone_entries(entries))
        },
        None => None,
    };
    let copy = Task {
        title: opt_owned(&task.title),
        command: opt_owned(&task.command),
        depends_on,
        optional: task.optional,
        tasks,
        depends_on_tasks,
    };
    proof {
        lemma_task_view(copy);
        lemma_task_view(*task);
    }
    copy
}

/// Whether a string holds exactly the characters `key[from..to]`.
fn matches_segment(name: &str, key: &Vec<char>, from: usize, to: usize) -> (same: bool)
    requires
        from <= to <= key.len(),
    ensures
        same == (name@ == key@.subrange(from as int, to as int)),
{
    let chars = chars_of(name);
    if chars.len() != to - from {
        return false;
    }
    let mut i: usize = 0;
    while i < chars.len()
        invariant
            i <= chars.len(),
            chars.len() == to - from,
            from <= to <= key.len(),
            chars@ == name@,
            forall|k: int| 0 <= k < i ==> chars@[k] == key@[from + k],
        decreases chars.len() - i,
    {
        if chars[i] != key[from + i] {
            assert(name@[i as int] != key@.subrange(from as int, to as int)[i as int]);
            return false;
        }
        i += 1;
    }
    assert(name@ =~= key@.subrange(from as int, to as int));
    true
}

/// Index of the first entry with the key `key[from..to]`, if there is one.
fn find_entry(entries: &Vec<(String, Task)>, key: &Vec<char>, from: usize, to: usize) -> (found:
    Option<usize>)
    requires
        from <= to <= key.len(),
    ensures
        match found {
            Some(i) => i < entries.len() && lookup(
                entries_of(entries@),
                key@.subrange(from as int, to as int),
            ) == Some(entries@[i as int].1@),
            None => lookup(entries_of(entries@), key@.subrange(from as int, to as int)) is None,
        },
{
    let ghost wanted = key@.subrange(from as int, to as int);
    let ghost model = entries_of(entries@);
    let mut i: usize = 0;
    while i < entries.len()
        invariant
            i <= entries.len(),
            from <= to <= key.len(),
            wanted == key@.subrange(from as int, to as int),
            model == entries_of(entries@),
            forall|j: int| 0 <= j < i ==> model[j].0 != wanted,
        decreases entries.len() - i,
    {
        if matches_segment(entries[i].0.as_str(), key, from, to) {
            proof {
                assert(model[i as int].0 == wanted);
                let c = choose|c: int|
                    0 <= c < model.len() && model[c].0 == wanted && forall|j: int|
                        0 <= j < c ==> model[j].0 != wanted;
                assert(c == i);
            }
            return Some(i);
        }
        i += 1;
    }
    None
}

/// Handles getting nested tasks like `dev:packages` or `dev:server`.
#[verifier::rlimit(40)]
pub fn get_task(tasks: &Vec<(String, Task)>, task_key: String) -> (found: Option<&Task>)
    ensures
        match found {
            Some(task) => find_task(entries_of(tasks@), task_key@) == Some(task@),
            None => find_task(entries_of(tasks@), task_key@) is None,
        },
{
    let key = chars_of(task_key.as_str());
    let mut current: &Vec<(String, Task)> = tasks;
    let mut pos: usize = 0;
    assert(key@.skip(0) =~= key@);
    loop
        invariant
            key@ == task_key@,
            pos <= key.len(),
            find_task(entries_of(current@), key@.skip(pos as int)) == find_task(
                entries_of(tasks@),
                task_key@,
            ),
        decreases key.len() - pos,
    {
        let ghost rest = key@.skip(pos as int);
        let mut end: usize = pos;
        while end < key.len() && key[end] != ':'
            invariant
                pos <= end <= key.len(),
                rest == key@.skip(pos as int),
                segment_len(rest, end - pos) + (end - pos) == segment_len(rest, 0),
            decreases key.len() - end,
        {
            end += 1;
        }
        assert(segment_len(rest, 0) == end - pos);
        assert(rest.take(end - pos) =~= key@.subrange(pos as int, end as int));
        match find_entry(current, &key, pos, end) {
            None => {
                return None;
            },
            Some(i) => {
                let task = &current[i].1;
                if end == key.len() {
                    return Some(task);
                }
                match &task.tasks {
                    Some(children) => {
                        proof {
                            lemma_task_view(*task);
                            assert(rest.skip(end - pos + 1) =~= key@.skip(end + 1));
                        }
                        current = children;
                        pos = end + 1;
                    },
                    None => {
                        proof {
                            lemma_task_view(*task);
                        }
                        return None;
                    },
                }
            },
        }
    }
}

/// Whether one of the entries has the key `name`.
fn contains_key(entries: &Vec<(String, Task)>, name: &str) -> (found: bool)
    ensures
        found == has_key(entries_of(entries@), name@),
{
    let mut i: usize = 0;
    while i < entries.len()
        invariant
            i <= entries.len(),
            forall|j: int| 0 <= j < i ==> entries_of(entries@)[j].0 != name@,
        decreases entries.len() - i,
    {
        if str_eq(entries[i].0.as_str(), name) {
            assert(entries_of(entries@)[i as int].0 == name@);
            return true;
        }
        i += 1;
    }
    false
}

/// Lists every task below `tasks` under its full name. With a base name,
/// each name starts with the base and a colon.
#[verifier::rlimit(40)]
pub fn get_all_tasks(tasks: &Vec<(String, Task)>, base_key: Option<String>) -> (all: Vec<
    (String, Task),
>)
    ensures
        entries_of(all@) == flatten(
            entries_of(tasks@),
            prefix_of(opt_chars(base_key)),
            tasks@.len() as int,
        ),
    decreases tasks,
{
    let base = match base_key {
        Some(k) => k.concat(":"),
        None => String::new(),
    };
    proof {
        reveal_strlit(":");
        assert(":"@ =~= seq![':']);
        if base_key is Some {
            assert(base@ =~= base_key->0@.push(':'));
        }
    }
    let ghost model = entries_of(tasks@);
    let ghost prefix = prefix_of(opt_chars(base_key));
    let mut all: Vec<(String, Task)> = Vec::new();
    let mut i: usize = 0;
    while i < tasks.len()
        invariant
            i <= tasks.len(),
            base@ == prefix,
            model == entries_of(tasks@),
            entries_of(all@) == flatten(model, prefix, i as int),
        decreases tasks.len() - i,
    {
        let name = base.clone().concat(tasks[i].0.as_str());
        let task = &tasks[i].1;
        let ghost before = entries_of(all@);
        all.push((name.clone(), clone_task(task)));
        assert(entries_of(all@) =~= before.push((name@, task@)));
        match &task.tasks {
            Some(children) => {
                assert(decreases_to!(*tasks => tasks[i as int]));
                assert(decreases_to!(tasks[i as int] => tasks[i as int].1));
                assert(decreases_to!(tasks[i as int].1 => tasks[i as int].1.tasks));
                assert(decreases_to!(tasks[i as int].1.tasks => tasks[i as int].1.tasks->0));
                assert(decreases_to!(tasks => *children));
                let mut below = get_all_tasks(children, Some(name));
                let ghost below_model = entries_of(below@);
                let ghost upto = entries_of(all@);
                proof {
                    lemma_task_view(*task);
                }
                all.append(&mut below);
                assert(entries_of(all@) =~= upto + below_model);
            },
            None => {
                proof {
                    lemma_task_view(*task);
                    assert(entries_of(all@) + Seq::<(Seq<char>, TaskSpec)>::empty() =~= entries_of(
                        all@,
                    ));
                }
            },
        }
        i += 1;
    }
    all
}

/// The definitions of the tasks named in `depends_on`, as far as `tasks`
/// has them.
#[verifier::rlimit(40)]
fn resolve_dependencies(tasks: &Vec<(String, Task)>, depends_on: &Vec<String>) -> (resolved: Vec<
    (String, Task),
>)
    ensures
        entries_of(resolved@) == resolved_deps(
            entries_of(tasks@),
            names_of(depends_on@),
            depends_on@.len() as int,
        ),
{
    let ghost deps = names_of(depends_on@);
    let ghost model = entries_of(tasks@);
    let mut resolved: Vec<(String, Task)> = Vec::new();
    let mut i: usize = 0;
    assert(entries_of(resolved@) =~= resolved_deps(model, deps, 0));
    while i < depends_on.len()
        invariant
            i <= depends_on.len(),
            deps == names_of(depends_on@),
            model == entries_of(tasks@),
            entries_of(resolved@) == resolved_deps(model, deps, i as int),
        decreases depends_on.len() - i,
    {
        let key = &depends_on[i];
        let ghost before = entries_of(resolved@);
        assert(deps[i as int] == key@);
        match get_task(tasks, key.clone()) {
            Some(found) => {
                if !contains_key(&resolved, key.as_str()) {
                    resolved.push((key.clone(), clone_task(found)));
                    assert(entries_of(resolved@) =~= before.push((key@, found@)));
                }
            },
            None => {},
        }
        i += 1;
    }
    resolved
}

/// Whether no key occurs twice in a task map, nor in the map of sub-tasks of
/// any task in it.
#[verifier::rlimit(40)]
fn entries_are_valid(entries: &Vec<(String, Task)>) -> (valid: bool)
    ensures
        valid == valid_entries(entries_of(entries@), entries@.len() as int),
    decreases entries,
{
    let ghost model = entries_of(entries@);
    let mut n: usize = 0;
    while n < entries.len()
        invariant
            n <= entries.len(),
            model == entries_of(entries@),
            valid_entries(model, n as int),
        decreases entries.len() - n,
    {
        let mut j: usize = 0;
        while j < n
            invariant
                j <= n < entries.len(),
                model == entries_of(entries@),
                forall|k: int| 0 <= k < j ==> (#[trigger] model[k]).0 != model[n as int].0,
            decreases n - j,
        {
            assert(model[j as int].0 == entries@[j as int].0@);
            assert(model[n as int].0 == entries@[n as int].0@);
            if str_eq(entries[j].0.as_str(), entries[n].0.as_str()) {
                proof {
                    lemma_invalid_from(model, n as int + 1, model.len() as int);
                }
                return false;
            }
            j += 1;
        }
        let task = &entries[n].1;
        proof {
            lemma_task_view(*task);
            assert(model[n as int].1 == task@);
        }
        if let Some(children) = &task.tasks {
            assert(decreases_to!(*entries => entries[n as int]));
            assert(decreases_to!(entries[n as int] => entries[n as int].1));
            assert(decreases_to!(entries[n as int].1 => entries[n as int].1.tasks));
            assert(decreases_to!(entries[n as int].1.tasks => entries[n as int].1.tasks->0));
            assert(decreases_to!(entries => *children));
            if !entries_are_valid(children) {
                proof {
                    lemma_invalid_from(model, n as int + 1, model.len() as int);
                }
                return false;
            }
        }
        n += 1;
    }
    true
}

/// A task map that is not valid up to some entry is not valid as a whole.
proof fn lemma_invalid_from(entries: Seq<(Seq<char>, TaskSpec)>, n: int, m: int)
    requires
        0 <= n <= m <= entries.len(),
        !valid_entries(entries, n),
    ensures
        !valid_entries(entries, m),
    decreases m - n,
{
    if n < m {
        lemma_invalid_from(entries, n, m - 1);
    }
}

impl Config {
    /// A configuration is valid when it is a map of maps: no key occurs
    /// twice among its tasks, nor among the sub-tasks of any task.
    pub open spec fn wf(&self) -> bool {
        valid_entries(self.entries(), self.tasks@.len() as int)
    }

    /// Whether the configuration is valid.
    pub fn is_valid(&self) -> (valid: bool)
        ensures
            valid == self.wf(),
    {
        entries_are_valid(&self.tasks)
    }

    /// The content of the configuration: its top-level task map.
    pub open spec fn entries(&self) -> Seq<(Seq<char>, TaskSpec)> {
        entries_of(self.tasks@)
    }

    /// The task named `task_key`, with the definitions of the tasks it
    /// depends on filled in. `None` when the name leads nowhere.
    #[verifier::rlimit(40)]
    pub fn get_task(&self, task_key: String) -> (found: Option<Task>)
        ensures
            opt_task_of(found) == resolve_task(self.entries(), task_key@),
    {
        let task = match get_task(&self.tasks, task_key) {
            Some(task) => task,
            None => {
                return None;
            },
        };
        let mut copy = clone_task(task);
        if let Some(depends_on) = &task.depends_on {
            let resolved = resolve_dependencies(&self.tasks, depends_on);
            proof {
                lemma_task_view(copy);
            }
            copy.depends_on_tasks = Some(resolved);
            proof {
                lemma_task_view(copy);
            }
        }
        Some(copy)
    }

    /// Every task of the configuration under its full name.
    pub fn get_all_tasks(&self) -> (all: Vec<(String, Task)>)
        ensures
            entries_of(all@) == flatten(self.entries(), Seq::empty(), self.tasks@.len() as int),
    {
        get_all_tasks(&self.tasks, None)
    }
}

} // verus!
