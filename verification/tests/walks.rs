use bizi::api::cancel::cancel_task_runs;
use bizi::api::dependencies::{is_dependency_satisfied, latest_task_run, next_unmet_dependency};
use bizi::api::descendants::collect_descendant_run_ids;
use bizi::api::events::{Effect, TaskRunStatusChangedEvent};
use bizi::api::logs::{load_descendant_run_ids, load_task_run_logs};
use bizi::api::restart::{
    clear_task_run_logs_for_restart, order_for_restart, prepare_task_runs_for_restart,
};
use bizi::api::start::{find_existing_running_run_id, task_has_no_command};
use bizi::api::state::{restore_app_state, AppState};
use bizi::api::tree::{build_task_run_tree, load_task_run_tree};
use bizi::api::waiter::trigger_waiting_task_runs;
use bizi::config::{Config, Task};
use bizi::db::entities::task_run::TaskRunStatus::{Cancelled, Failed, Queued, Running, Success};
use bizi::db::entities::task_run::{Model, TaskRunStatus};
use bizi::db::entities::task_run_log;

fn run(id: &str, task: &str, parent: Option<&str>, status: TaskRunStatus, updated_at: i64) -> Model {
    Model {
        id: id.to_string(),
        task: task.to_string(),
        cwd: "/w".to_string(),
        parent_run_id: parent.map(|p| p.to_string()),
        status,
        updated_at,
        waiting_on: None,
    }
}

fn waiting(id: &str, task: &str, on: &str) -> Model {
    let mut model = run(id, task, None, TaskRunStatus::Queued, 1);
    model.waiting_on = Some(on.to_string());
    model
}

fn log(id: i64, run_id: &str, line: &str) -> task_run_log::Model {
    task_run_log::Model {
        id,
        run_id: run_id.to_string(),
        task: "t".to_string(),
        line: line.to_string(),
        is_stderr: false,
        timestamp: id,
    }
}

fn task(command: Option<&str>, depends_on: &[&str]) -> Task {
    Task {
        title: None,
        command: command.map(|c| c.to_string()),
        depends_on: if depends_on.is_empty() {
            None
        } else {
            Some(depends_on.iter().map(|d| d.to_string()).collect())
        },
        optional: None,
        tasks: None,
        depends_on_tasks: None,
    }
}

fn ids(list: &[&str]) -> Vec<String> {
    list.iter().map(|s| s.to_string()).collect()
}

/// root
/// |- a
/// |  |- a1
/// |  `- a2
/// `- b
///    `- b1
/// other (no parent)
fn family() -> Vec<Model> {
    vec![
        run("root", "top", None, Success, 10),
        run("a", "top:a", Some("root"), Running, 30),
        run("other", "top", None, Queued, 5),
        run("b", "top:b", Some("root"), Failed, 20),
        run("a1", "top:a:1", Some("a"), Queued, 40),
        run("b1", "top:b:1", Some("b"), Success, 50),
        run("a2", "top:a:2", Some("a"), Cancelled, 35),
    ]
}

fn state_of(runs: Vec<Model>, logs: Vec<task_run_log::Model>) -> AppState {
    restore_app_state(runs, logs, 0).unwrap()
}

#[test]
fn the_walk_goes_depth_first_from_the_last_child() {
    let runs = family();
    assert_eq!(collect_descendant_run_ids(&runs, "root"), ids(&["root", "b", "b1", "a", "a2", "a1"]));
    assert_eq!(collect_descendant_run_ids(&runs, "a"), ids(&["a", "a2", "a1"]));
    assert_eq!(collect_descendant_run_ids(&runs, "b1"), ids(&["b1"]));
    assert_eq!(collect_descendant_run_ids(&runs, "other"), ids(&["other"]));
    assert_eq!(collect_descendant_run_ids(&runs, "unknown"), ids(&["unknown"]));
    assert_eq!(collect_descendant_run_ids(&Vec::new(), "x"), ids(&["x"]));
}

#[test]
fn the_walk_does_not_depend_on_the_order_of_the_listing() {
    let listing = vec![
        run("c", "t", Some("b"), TaskRunStatus::Queued, 1),
        run("b", "t", Some("a"), TaskRunStatus::Queued, 1),
    ];
    assert_eq!(collect_descendant_run_ids(&listing, "a"), ids(&["a", "b", "c"]));
    let mut reversed = family();
    reversed.reverse();
    let mut found = collect_descendant_run_ids(&reversed, "root");
    assert_eq!(found[0], "root");
    found.sort();
    assert_eq!(found, ids(&["a", "a1", "a2", "b", "b1", "root"]));
}

#[test]
fn the_walk_ends_on_runs_that_lie_below_themselves() {
    let circle = vec![
        run("x", "t", Some("y"), TaskRunStatus::Queued, 1),
        run("y", "t", Some("x"), TaskRunStatus::Queued, 1),
    ];
    // the walk goes no deeper than there are runs
    assert_eq!(collect_descendant_run_ids(&circle, "x"), ids(&["x", "y", "x"]));
    let own = vec![run("z", "t", Some("z"), TaskRunStatus::Queued, 1)];
    assert_eq!(collect_descendant_run_ids(&own, "z"), ids(&["z", "z"]));
}

#[test]
fn descendants_are_loaded_for_stored_runs_only() {
    let state = state_of(family(), Vec::new());
    assert_eq!(load_descendant_run_ids(&state, "b"), Some(ids(&["b", "b1"])));
    assert_eq!(load_descendant_run_ids(&state, "unknown"), None);
}

#[test]
fn the_latest_run_decides_whether_a_dependency_is_met() {
    let runs = vec![
        run("1", "lint", None, Success, 10),
        run("2", "lint", None, Failed, 30),
        run("3", "lint", None, Success, 20),
        run("4", "fmt", None, Failed, 5),
        run("5", "fmt", None, Success, 6),
        run("6", "tie", None, Failed, 7),
        run("7", "tie", None, Success, 7),
    ];
    assert_eq!(latest_task_run(&runs, "/w", "lint", None), Some(1));
    assert_eq!(latest_task_run(&runs, "/w", "lint", Some(Success)), Some(2));
    assert_eq!(latest_task_run(&runs, "/w", "lint", Some(Running)), None);
    assert_eq!(latest_task_run(&runs, "/elsewhere", "lint", None), None);
    // of two runs that changed at the same time the one stored first counts
    assert_eq!(latest_task_run(&runs, "/w", "tie", None), Some(5));
    assert!(!is_dependency_satisfied(&runs, "/w", "lint"));
    assert!(is_dependency_satisfied(&runs, "/w", "fmt"));
    assert!(!is_dependency_satisfied(&runs, "/w", "tie"));
    assert!(!is_dependency_satisfied(&runs, "/w", "never-ran"));
    assert!(!is_dependency_satisfied(&runs, "/elsewhere", "fmt"));
}

#[test]
fn the_first_unmet_dependency_blocks() {
    let runs = vec![run("1", "fmt", None, Success, 1), run("2", "lint", None, Failed, 2)];
    assert_eq!(next_unmet_dependency(&runs, "/w", &task(Some("x"), &[])), None);
    assert_eq!(next_unmet_dependency(&runs, "/w", &task(Some("x"), &["fmt"])), None);
    assert_eq!(
        next_unmet_dependency(&runs, "/w", &task(Some("x"), &["fmt", "lint", "test"])),
        Some("lint".to_string())
    );
    assert_eq!(
        next_unmet_dependency(&runs, "/w", &task(Some("x"), &["test", "lint"])),
        Some("test".to_string())
    );
    assert_eq!(
        next_unmet_dependency(&runs, "/elsewhere", &task(Some("x"), &["fmt"])),
        Some("fmt".to_string())
    );
}

#[test]
fn a_task_without_text_in_its_command_has_none() {
    assert!(task_has_no_command(&task(None, &[])));
    assert!(task_has_no_command(&task(Some(""), &[])));
    assert!(task_has_no_command(&task(Some(" \t\r\n"), &[])));
    assert!(task_has_no_command(&task(Some("\u{2003}\u{85}\u{1680}\u{2028}\u{202f}\u{205f}"), &[])));
    assert!(!task_has_no_command(&task(Some(" x "), &[])));
    // a zero-width space is no white space
    assert!(!task_has_no_command(&task(Some("\u{200b}"), &[])));
}

#[test]
fn the_running_run_answers_before_a_busy_group() {
    let state = state_of(family(), Vec::new());
    let plain = task(Some("make"), &[]);
    let group = task(None, &[]);
    assert_eq!(find_existing_running_run_id(&state, "/w", "top:a", &plain), Some("a".to_string()));
    assert_eq!(find_existing_running_run_id(&state, "/w", "top:a", &group), Some("a".to_string()));
    // root has a running and a queued run below it
    assert_eq!(find_existing_running_run_id(&state, "/w", "top", &group), Some("root".to_string()));
    assert_eq!(find_existing_running_run_id(&state, "/w", "top", &plain), None);
    // b has nothing under way below it
    assert_eq!(find_existing_running_run_id(&state, "/w", "top:b", &group), None);
    assert_eq!(find_existing_running_run_id(&state, "/elsewhere", "top", &group), None);
}

#[test]
fn of_two_busy_groups_the_latest_answers() {
    let runs = vec![
        run("g1", "g", None, Success, 10),
        run("g2", "g", None, Success, 20),
        run("g3", "g", None, Success, 30),
        run("c1", "g:x", Some("g1"), Queued, 1),
        run("c2", "g:x", Some("g2"), Running, 1),
        run("c3", "g:x", Some("g3"), Success, 1),
    ];
    let state = state_of(runs, Vec::new());
    assert_eq!(find_existing_running_run_id(&state, "/w", "g", &task(None, &[])), Some("g2".to_string()));
}

#[test]
fn runs_are_requeued_parents_first() {
    let state = state_of(family(), Vec::new());
    let walk = collect_descendant_run_ids(state.task_runs(), "root");
    assert_eq!(order_for_restart(&state, &walk), ids(&["root", "b", "a", "b1", "a2", "a1"]));
    // depth counts the steps that stay within the set
    assert_eq!(order_for_restart(&state, &ids(&["a1", "b", "a", "gone"])), ids(&["b", "a", "gone", "a1"]));
    assert_eq!(order_for_restart(&state, &ids(&[])), ids(&[]));
}

#[test]
fn requeued_runs_wait_for_their_parents() {
    let mut state = state_of(family(), Vec::new());
    let config = Config {
        tasks: vec![("top".to_string(), task(Some("make"), &["dep"]))],
    };
    let set = ids(&["root", "a", "a1", "b1", "missing"]);
    assert!(prepare_task_runs_for_restart(&mut state, &config, "root", &set, 99).is_ok());
    let of = |id: &str| state.find_task_run(id).unwrap().clone();
    // the root waits for its unmet dependency
    assert_eq!(of("root").status, TaskRunStatus::Queued);
    assert_eq!(of("root").waiting_on.as_deref(), Some("dep"));
    assert_eq!(of("root").updated_at, 99);
    // runs with their parent in the set wait for the task of the parent
    assert_eq!(of("a").waiting_on.as_deref(), Some("top"));
    assert_eq!(of("a1").waiting_on.as_deref(), Some("top:a"));
    assert_eq!(of("a1").status, TaskRunStatus::Queued);
    // b1 has its parent outside the set and a task that the configuration
    // does not know: it is left alone
    assert_eq!(of("b1").status, TaskRunStatus::Success);
    assert_eq!(of("b1").updated_at, 50);
    // runs outside the set are as they were
    assert_eq!(of("b").status, TaskRunStatus::Failed);
    assert_eq!(of("b").updated_at, 20);
    assert_eq!(of("a2").status, TaskRunStatus::Cancelled);
    let changed: Vec<String> = state
        .take_effects()
        .into_iter()
        .filter_map(|e| match e {
            Effect::StatusChanged(run) => Some(run.id),
            _ => None,
        })
        .collect();
    assert_eq!(changed, ids(&["root", "a", "a1"]));
}

#[test]
fn a_root_without_a_task_fails_the_restart() {
    let mut state = state_of(family(), Vec::new());
    let config = Config { tasks: Vec::new() };
    let failed = prepare_task_runs_for_restart(&mut state, &config, "root", &ids(&["root", "a"]), 99);
    assert_eq!(failed.err().map(|m| m.task), Some("top".to_string()));
    assert_eq!(state.find_task_run("a").unwrap().status, TaskRunStatus::Running);
    // a run with neither parent in the set nor a known task is passed over
    let mut state = state_of(family(), Vec::new());
    assert!(prepare_task_runs_for_restart(&mut state, &config, "none", &ids(&["b1"]), 99).is_ok());
    assert_eq!(state.find_task_run("b1").unwrap().status, TaskRunStatus::Success);
    assert!(state.take_effects().is_empty());
}

#[test]
fn logs_of_restarted_runs_are_cleared() {
    let logs = vec![log(1, "a", "one"), log(2, "b", "two"), log(5, "a", "three"), log(6, "a1", "four")];
    let mut state = state_of(family(), logs);
    clear_task_run_logs_for_restart(&mut state, &ids(&[]));
    assert!(state.take_effects().is_empty());
    clear_task_run_logs_for_restart(&mut state, &ids(&["a", "a1"]));
    let left: Vec<i64> = state.task_run_logs().iter().map(|l| l.id).collect();
    assert_eq!(left, vec![2]);
    let effects = state.take_effects();
    assert_eq!(effects.len(), 1);
    assert!(matches!(&effects[0], Effect::LogsCleared(run_ids) if run_ids == &ids(&["a", "a1"])));
}

#[test]
fn logs_come_in_the_order_of_their_numbers() {
    let logs = vec![log(1, "a", "one"), log(2, "b", "two"), log(5, "a", "three"), log(6, "a1", "four")];
    let state = state_of(family(), logs);
    let own: Vec<u64> = load_task_run_logs(&state, "a", false).unwrap().iter().map(|l| l.sequence).collect();
    assert_eq!(own, vec![1, 5]);
    let all = load_task_run_logs(&state, "a", true).unwrap();
    assert_eq!(all.iter().map(|l| l.sequence).collect::<Vec<u64>>(), vec![1, 5, 6]);
    assert_eq!(all[2].line, "four");
    assert_eq!(all[2].run_id, "a1");
    assert_eq!(all[2].timestamp, 6);
    assert!(load_task_run_logs(&state, "b1", true).unwrap().is_empty());
    assert!(load_task_run_logs(&state, "unknown", true).is_none());
}

#[test]
fn cancelling_leaves_settled_runs_alone() {
    let mut state = state_of(family(), Vec::new());
    state.register_process("a".to_string());
    state.register_process("root".to_string());
    cancel_task_runs(&mut state, &ids(&["root", "a", "a2", "unknown", "a1"]), 77);
    let of = |id: &str| state.find_task_run(id).unwrap().clone();
    assert_eq!(of("root").status, TaskRunStatus::Success);
    assert_eq!(of("root").updated_at, 10);
    assert_eq!(of("a").status, TaskRunStatus::Cancelled);
    assert_eq!(of("a").updated_at, 77);
    // a run that is cancelled already keeps its row
    assert_eq!(of("a2").status, TaskRunStatus::Cancelled);
    assert_eq!(of("a2").updated_at, 35);
    assert_eq!(of("a1").status, TaskRunStatus::Cancelled);
    assert_eq!(of("b").status, TaskRunStatus::Failed);
    assert_eq!(of("other").status, TaskRunStatus::Queued);
    let lines: Vec<(&str, &str)> = state.task_run_logs().iter().map(|l| (l.run_id.as_str(), l.line.as_str())).collect();
    assert_eq!(lines, vec![("a", "canceled"), ("a2", "canceled"), ("a1", "canceled")]);
    assert_eq!(state.task_run_logs()[0].task, "top:a");
    // the process of a run that has succeeded is left alone
    assert_eq!(state.running_processes(), &vec!["root".to_string()]);
    let effects = state.take_effects();
    assert_eq!(effects.len(), 6);
    assert!(matches!(&effects[0], Effect::Cancel(id) if id == "a"));
    assert!(matches!(&effects[1], Effect::LogAppended(line) if line.line == "canceled" && line.sequence == 1));
    assert!(matches!(
        &effects[2],
        Effect::StatusChanged(row) if row.id == "a" && row.status == TaskRunStatus::Cancelled && row.updated_at == 77
    ));
    // the run that was cancelled before gets its line and nothing else
    assert!(matches!(&effects[3], Effect::LogAppended(line) if line.run_id == "a2"));
    assert!(matches!(&effects[4], Effect::LogAppended(line) if line.run_id == "a1"));
}

#[test]
fn waiting_runs_are_looked_at_in_the_order_of_creation() {
    let runs = vec![
        run("dep", "lint", None, Success, 1),
        waiting("w1", "build", "lint"),
        waiting("w2", "deploy", "lint"),
        waiting("w3", "unknown", "lint"),
        waiting("w4", "build", "other"),
        run("w5", "build", None, Running, 1),
    ];
    let mut state = state_of(runs, Vec::new());
    let config = Config {
        tasks: vec![
            ("build".to_string(), task(Some("make"), &["lint"])),
            ("deploy".to_string(), task(Some("ship"), &["lint", "build"])),
        ],
    };
    let event = TaskRunStatusChangedEvent {
        run_id: "dep".to_string(),
        task: "lint".to_string(),
        cwd: "/w".to_string(),
        status: Success,
    };
    trigger_waiting_task_runs(&mut state, &config, &event, 9);
    let of = |id: &str| state.find_task_run(id).unwrap().clone();
    assert_eq!((of("w1").status, of("w1").waiting_on, of("w1").updated_at), (Queued, None, 9));
    // w5 is a running run of build, not a successful one
    assert_eq!(of("w2").waiting_on.as_deref(), Some("build"));
    assert_eq!(of("w3").waiting_on.as_deref(), Some("lint"));
    assert_eq!(of("w3").updated_at, 1);
    assert_eq!(of("w4").waiting_on.as_deref(), Some("other"));
    let effects = state.take_effects();
    assert_eq!(effects.len(), 3);
    assert!(matches!(
        &effects[0],
        Effect::StatusChanged(row) if row.id == "w1" && row.status == Queued && row.waiting_on.is_none()
    ));
    assert!(matches!(
        &effects[1],
        Effect::Execute { run_id, task, cwd, command }
            if run_id == "w1" && task == "build" && cwd == "/w" && command.as_deref() == Some("make")
    ));
    assert!(matches!(
        &effects[2],
        Effect::StatusChanged(row) if row.id == "w2" && row.waiting_on.as_deref() == Some("build")
    ));
}

#[test]
fn children_are_ordered_by_their_time_of_change() {
    let runs = family();
    let tree = build_task_run_tree(&runs, 0);
    assert_eq!(tree.id, "root");
    let children: Vec<&str> = tree.children.iter().map(|c| c.id.as_str()).collect();
    assert_eq!(children, vec!["b", "a"]);
    let below_a: Vec<&str> = tree.children[1].children.iter().map(|c| c.id.as_str()).collect();
    assert_eq!(below_a, vec!["a2", "a1"]);
    assert_eq!(tree.children[0].children[0].id, "b1");
    assert_eq!(tree.children[1].waiting_on, None);
    assert_eq!(tree.children[1].updated_at, 30);
    let state = state_of(runs, Vec::new());
    assert_eq!(load_task_run_tree(&state, "a").unwrap().children.len(), 2);
    assert!(load_task_run_tree(&state, "unknown").is_none());
}

#[test]
fn children_of_the_same_time_keep_their_order() {
    let runs = vec![
        run("p", "t", None, Success, 1),
        run("c1", "t:1", Some("p"), Success, 5),
        run("c2", "t:2", Some("p"), Success, 3),
        run("c3", "t:3", Some("p"), Success, 5),
        run("c4", "t:4", Some("p"), Success, 3),
    ];
    let tree = build_task_run_tree(&runs, 0);
    let children: Vec<&str> = tree.children.iter().map(|c| c.id.as_str()).collect();
    assert_eq!(children, vec!["c2", "c4", "c1", "c3"]);
}

#[test]
fn a_child_listed_before_its_parent_is_shown_below_it() {
    let runs = vec![
        run("grandchild", "t:c:g", Some("child"), Success, 3),
        run("child", "t:c", Some("parent"), Success, 2),
        run("parent", "t", None, Success, 1),
        run("second", "t:d", Some("parent"), Success, 1),
    ];
    let tree = build_task_run_tree(&runs, 2);
    assert_eq!(tree.id, "parent");
    let children: Vec<&str> = tree.children.iter().map(|c| c.id.as_str()).collect();
    assert_eq!(children, vec!["second", "child"]);
    assert_eq!(tree.children[1].children.len(), 1);
    assert_eq!(tree.children[1].children[0].id, "grandchild");
    // a run that names itself ends the tree after as many levels as there
    // are runs
    let own = vec![run("z", "t", Some("z"), Success, 1)];
    let tree = build_task_run_tree(&own, 0);
    assert_eq!(tree.children.len(), 1);
    assert!(tree.children[0].children.is_empty());
}
