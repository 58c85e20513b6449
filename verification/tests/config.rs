use bizi::config::{get_all_tasks, get_task, Config, ConfigError, Task};

fn task(command: Option<&str>) -> Task {
    Task {
        title: None,
        command: command.map(|c| c.to_string()),
        depends_on: None,
        optional: None,
        tasks: None,
        depends_on_tasks: None,
    }
}

fn sample() -> Config {
    let mut dev = task(None);
    let mut server = task(Some("run server"));
    server.tasks = Some(vec![("watch".to_string(), task(Some("watch")))]);
    dev.tasks = Some(vec![
        ("server".to_string(), server),
        ("web".to_string(), task(Some("run web"))),
    ]);
    let mut build = task(Some("make"));
    build.depends_on = Some(vec![
        "lint".to_string(),
        "dev:web".to_string(),
        "missing".to_string(),
        "lint".to_string(),
    ]);
    Config {
        tasks: vec![
            ("dev".to_string(), dev),
            ("lint".to_string(), task(Some("lint it"))),
            ("build".to_string(), build),
        ],
    }
}

#[test]
fn a_top_level_task_is_found() {
    let config = sample();
    let found = get_task(&config.tasks, "lint".to_string()).unwrap();
    assert_eq!(found.command.as_deref(), Some("lint it"));
}

#[test]
fn a_nested_task_is_found() {
    let config = sample();
    let found = get_task(&config.tasks, "dev:server".to_string()).unwrap();
    assert_eq!(found.command.as_deref(), Some("run server"));
    let deeper = get_task(&config.tasks, "dev:server:watch".to_string()).unwrap();
    assert_eq!(deeper.command.as_deref(), Some("watch"));
}

#[test]
fn an_unknown_task_is_not_found() {
    let config = sample();
    assert!(get_task(&config.tasks, "nope".to_string()).is_none());
    assert!(get_task(&config.tasks, "dev:nope".to_string()).is_none());
    assert!(get_task(&config.tasks, "".to_string()).is_none());
    assert!(get_task(&config.tasks, "dev:".to_string()).is_none());
    assert!(get_task(&config.tasks, ":dev".to_string()).is_none());
}

#[test]
fn a_name_below_a_task_without_sub_tasks_leads_nowhere() {
    let config = sample();
    assert!(get_task(&config.tasks, "lint:anything".to_string()).is_none());
    assert!(get_task(&config.tasks, "dev:web:deeper".to_string()).is_none());
    assert!(config.get_task("lint:anything:at:all".to_string()).is_none());
    assert!(config.get_task("nope".to_string()).is_none());
}

#[test]
fn a_configuration_with_a_key_twice_is_not_valid() {
    assert!(sample().is_valid());
    assert!(Config { tasks: Vec::new() }.is_valid());
    let twice = Config {
        tasks: vec![("a".to_string(), task(None)), ("b".to_string(), task(None)), ("a".to_string(), task(None))],
    };
    assert!(!twice.is_valid());
    let mut parent = task(None);
    parent.tasks = Some(vec![("x".to_string(), task(None)), ("x".to_string(), task(None))]);
    let nested = Config { tasks: vec![("p".to_string(), parent)] };
    assert!(!nested.is_valid());
}

#[test]
fn the_first_entry_with_a_key_wins() {
    let tasks = vec![
        ("a".to_string(), task(Some("first"))),
        ("a".to_string(), task(Some("second"))),
    ];
    assert_eq!(get_task(&tasks, "a".to_string()).unwrap().command.as_deref(), Some("first"));
}

#[test]
fn dependencies_are_resolved_once_each() {
    let config = sample();
    let build = config.get_task("build".to_string()).unwrap();
    let resolved = build.depends_on_tasks.unwrap();
    assert_eq!(resolved.len(), 2);
    assert_eq!(resolved[0].0, "lint");
    assert_eq!(resolved[0].1.command.as_deref(), Some("lint it"));
    assert_eq!(resolved[1].0, "dev:web");
    assert_eq!(resolved[1].1.command.as_deref(), Some("run web"));
    assert_eq!(build.depends_on.unwrap().len(), 4);
}

#[test]
fn a_task_without_dependencies_has_none_resolved() {
    let config = sample();
    let lint = config.get_task("lint".to_string()).unwrap();
    assert!(lint.depends_on_tasks.is_none());
    assert!(config.get_task("nope".to_string()).is_none());
}

#[test]
fn all_tasks_are_listed_under_their_full_names() {
    let config = sample();
    let all = config.get_all_tasks();
    let names: Vec<&str> = all.iter().map(|(name, _)| name.as_str()).collect();
    assert_eq!(names, vec!["dev", "dev:server", "dev:server:watch", "dev:web", "lint", "build"]);
    assert_eq!(all[2].1.command.as_deref(), Some("watch"));
}

#[test]
fn a_base_name_prefixes_every_name() {
    let config = sample();
    let all = get_all_tasks(&config.tasks, Some("root".to_string()));
    let names: Vec<&str> = all.iter().map(|(name, _)| name.as_str()).collect();
    assert_eq!(
        names,
        vec![
            "root:dev",
            "root:dev:server",
            "root:dev:server:watch",
            "root:dev:web",
            "root:lint",
            "root:build"
        ]
    );
    assert!(get_all_tasks(&Vec::new(), None).is_empty());
}

#[test]
fn only_a_missing_file_is_not_found() {
    assert!(ConfigError::Io { not_found: true }.is_not_found());
    assert!(!ConfigError::Io { not_found: false }.is_not_found());
    assert!(!ConfigError::Json.is_not_found());
}
