use rask::commands::run::{prepare, Arguments};
use rask::config::{Config, ConfigStructure};
use rask::discovery::{glob_patterns, Discovery};
use rask::engine::{parse_config_file, parse_config_files, ConfigSource, Manifest, Manifests};
use rask::error::ErrorKind;
use rask::execution::{Execution, TaskExit, TaskReport};
use rask::file::{read_config_file, write_config_file, ConfigDocument, ConfigFile, TaskEngine};
use rask::glob::PathMatcher;
use rask::select::{
    order_tasks, resolve_sortable_task, resolve_task_order, select_tasks, task_qualifies, MatchMode,
    OrderedTask, Task,
};
use rask::structure::resolve_config_structure;
use rask::task::{ConfigTask, TaskType};

fn text(value: &str) -> String {
    value.to_string()
}

fn nothing_beside() -> Manifests {
    Manifests { composer_json: Manifest::Missing(String::new()), package_json: Manifest::Missing(String::new()), has_yarn_lock: false }
}

fn config_file(path: &str, directories: &[&str], tasks: &[(&str, &str)]) -> ConfigFile {
    let document = ConfigDocument {
        name: text("project"),
        task_engine: None,
        directories: Some(directories.iter().map(|d| text(d)).collect()),
        tasks: Some(tasks.iter().map(|(k, v)| (text(k), text(v))).collect()),
        file_path: None,
        dir_path: None,
    };
    read_config_file(text(path), document).unwrap()
}

fn source(path: &str, directories: &[&str], tasks: &[(&str, &str)]) -> ConfigSource {
    ConfigSource { config_file: config_file(path, directories, tasks), manifests: nothing_beside() }
}

/// Expands `pattern` over the paths that "exist".
fn expand(pattern: &str, existing: &[&str]) -> Vec<String> {
    let matcher = PathMatcher::compile(pattern).unwrap();
    existing.iter().filter(|path| matcher.is_match(path)).map(|path| text(path)).collect()
}

/// Walks a made-up file system and returns the paths visited, in order,
/// and the paths found.
fn discover(entry: &str, files: &[ConfigFile]) -> (Vec<String>, Vec<String>) {
    let existing: Vec<&str> = files.iter().map(|file| file.file_path.as_str()).collect();
    let mut visited = Vec::new();
    let mut discovery = Discovery::new(text(entry));
    while let Some(path) = discovery.next_path() {
        visited.push(path.clone());
        let file = files.iter().find(|file| file.file_path == path).unwrap();
        for pattern in glob_patterns(file) {
            discovery.record_matches(&expand(&pattern, &existing));
        }
    }
    assert!(discovery.is_done());
    (visited, discovery.into_paths())
}

fn ordered(command: &str, directory: &str, order: u64) -> OrderedTask {
    OrderedTask { task: Task { command: text(command), directory: text(directory) }, order }
}

#[test]
fn pattern_without_matches_finds_only_the_entry() {
    let entry = config_file("/repo/rask.yaml", &["packages/*"], &[("build", "echo root")]);
    let (visited, found) = discover("/repo/rask.yaml", &[entry]);
    assert_eq!(found, vec![text("/repo/rask.yaml")]);
    assert_eq!(visited, vec![text("/repo/rask.yaml")]);

    let configs = parse_config_files(vec![source(
        "/repo/rask.yaml",
        &["packages/*"],
        &[("build", "echo root")],
    )])
    .unwrap();
    let tree = resolve_config_structure(&text("/repo/rask.yaml"), configs).unwrap();
    assert!(tree.children.is_empty());
    let selected = resolve_task_order(tree, &text("build")).unwrap();
    assert_eq!(selected, vec![ordered("echo root", "/repo", 0)]);
}

#[test]
fn selecting_an_unknown_task_gives_nothing() {
    let configs = parse_config_files(vec![source(
        "/repo/rask.yaml",
        &["packages/*"],
        &[("build", "echo root")],
    )])
    .unwrap();
    let tree = resolve_config_structure(&text("/repo/rask.yaml"), configs).unwrap();
    let selected = resolve_task_order(tree, &text("deploy")).unwrap();
    assert!(selected.is_empty());
    let mut execution = Execution::new(&selected, false);
    assert_eq!(execution.current_batch(), None);
    assert_eq!(execution.exit(), Some(TaskExit::SUCCESS));
    execution.report(&vec![TaskReport::Exited(1)]);
    assert_eq!(execution.exit(), Some(TaskExit::SUCCESS));
}

#[test]
fn child_runs_before_root() {
    let sources = vec![
        source("/repo/rask.yaml", &["packages/*"], &[("build", "echo root")]),
        source("/repo/packages/app/rask.yaml", &[], &[("build", "echo child")]),
    ];
    let configs = parse_config_files(sources).unwrap();
    let tree = resolve_config_structure(&text("/repo/rask.yaml"), configs).unwrap();
    assert_eq!(tree.children.len(), 1);
    let selected = resolve_task_order(tree, &text("build")).unwrap();
    assert_eq!(selected.len(), 2);
    assert!(selected.contains(&ordered("echo child", "/repo/packages/app", 1)));
    assert!(selected.contains(&ordered("echo root", "/repo", 0)));

    let mut execution = Execution::new(&selected, false);
    let first = execution.current_batch().unwrap();
    assert_eq!(first, vec![ordered("echo child", "/repo/packages/app", 1)]);
    execution.report(&vec![TaskReport::Exited(0)]);
    let second = execution.current_batch().unwrap();
    assert_eq!(second, vec![ordered("echo root", "/repo", 0)]);
    execution.report(&vec![TaskReport::Exited(0)]);
    assert_eq!(execution.current_batch(), None);
    assert_eq!(execution.exit(), Some(TaskExit::SUCCESS));
}

#[test]
fn node_manifest_without_lockfile_runs_through_npm() {
    let source = ConfigSource {
        config_file: config_file("/repo/web/rask.yaml", &[], &[]),
        manifests: Manifests {
            composer_json: Manifest::Missing(String::new()),
            package_json: Manifest::Scripts(vec![text("test")]),
            has_yarn_lock: false,
        },
    };
    assert_eq!(source.config_file.task_engine, TaskEngine::AUTO);
    let config = parse_config_file(source).unwrap();
    assert_eq!(
        config.tasks,
        vec![ConfigTask { task_type: TaskType::NPM, key: text("test"), value: text("test") }]
    );
    let tree = ConfigStructure { config, children: vec![] };
    let selected = resolve_task_order(tree, &text("test")).unwrap();
    assert_eq!(selected, vec![ordered("npm run test", "/repo/web", 0)]);
}

#[test]
fn parallel_siblings_all_run_and_failure_stops_the_root() {
    let sources = vec![
        source("/repo/rask.yaml", &["packages/*"], &[("build", "echo root")]),
        source("/repo/packages/a/rask.yaml", &[], &[("build", "exit 1")]),
        source("/repo/packages/b/rask.yaml", &[], &[("build", "exit 0")]),
    ];
    let arguments =
        Arguments { task_name: text("build"), entry: None, parallel: true, strict: true };
    let mut execution = prepare(&arguments, &text("/repo/rask.yaml"), sources).unwrap();
    let batch = execution.current_batch().unwrap();
    assert_eq!(
        batch,
        vec![ordered("exit 1", "/repo/packages/a", 1), ordered("exit 0", "/repo/packages/b", 1)]
    );
    assert_eq!(execution.exit(), None);
    execution.report(&vec![TaskReport::Exited(1), TaskReport::Exited(0)]);
    assert_eq!(execution.exit(), Some(TaskExit::FAILURE));
    assert_eq!(execution.current_batch(), None);
    execution.report(&vec![TaskReport::Exited(0)]);
    assert_eq!(execution.exit(), Some(TaskExit::FAILURE));
    assert_eq!(execution.current_batch(), None);
}

#[test]
fn round_trip_of_a_record_with_defaults() {
    let written = write_config_file(&ConfigFile::new(text("demo")));
    assert_eq!(
        written,
        ConfigDocument {
            name: text("demo"),
            task_engine: None,
            directories: None,
            tasks: None,
            file_path: None,
            dir_path: None,
        }
    );
    let back = read_config_file(text("/repo/rask.yaml"), written).unwrap();
    assert_eq!(back.name, "demo");
    assert_eq!(back.task_engine, TaskEngine::AUTO);
    assert!(back.directories.is_empty());
    assert!(back.tasks.is_empty());
    assert_eq!(back.file_path, "/repo/rask.yaml");
    assert_eq!(back.dir_path, "/repo");
}

#[test]
fn round_trip_of_a_record_that_declares_everything() {
    let record = ConfigFile {
        name: text("demo"),
        task_engine: TaskEngine::NONE,
        directories: vec![text("packages/*")],
        tasks: vec![(text("build"), text("make"))],
        file_path: text("/repo/rask.yaml"),
        dir_path: text("/repo"),
    };
    let written = write_config_file(&record);
    assert_eq!(written.task_engine, Some(text("shell")));
    assert_eq!(written.directories, Some(vec![text("packages/*")]));
    assert_eq!(written.file_path, Some(text("/repo/rask.yaml")));
    let back = read_config_file(text("/repo/rask.yaml"), written).unwrap();
    assert_eq!(back, record);
}

#[test]
fn discovery_visits_a_path_once_however_many_patterns_lead_to_it() {
    let files = vec![
        config_file("/repo/rask.yaml", &["a", "b", "*"], &[]),
        config_file("/repo/a/rask.yaml", &["../shared", "../b"], &[]),
        config_file("/repo/b/rask.yaml", &["../shared", "../a", ".."], &[]),
        config_file("/repo/shared/rask.yaml", &[], &[]),
    ];
    let files: Vec<ConfigFile> = files
        .into_iter()
        .map(|mut file| {
            file.directories = file
                .directories
                .iter()
                .map(|d| match d.as_str() {
                    "../shared" => text("/repo/shared"),
                    "../b" => text("/repo/b"),
                    "../a" => text("/repo/a"),
                    ".." => text("/repo"),
                    other => text(other),
                })
                .collect();
            file
        })
        .collect();
    let (visited, found) = discover("/repo/rask.yaml", &files);
    let mut sorted = visited.clone();
    sorted.sort();
    sorted.dedup();
    assert_eq!(sorted.len(), visited.len());
    assert_eq!(visited.len(), 4);
    assert_eq!(
        found,
        vec![
            text("/repo/rask.yaml"),
            text("/repo/a/rask.yaml"),
            text("/repo/b/rask.yaml"),
            text("/repo/shared/rask.yaml"),
        ]
    );
    assert_eq!(visited[0], "/repo/rask.yaml");
    assert_eq!(visited[1], "/repo/shared/rask.yaml");
}

#[test]
fn order_is_the_number_of_edges_from_the_root() {
    let leaf = |name: &str, dir: &str, children: Vec<ConfigStructure>| ConfigStructure {
        config: Config {
            name: text(name),
            tasks: vec![ConfigTask {
                task_type: TaskType::SHELL,
                key: text("build"),
                value: format!("build {}", name),
            }],
            file_path: format!("{}/rask.yaml", dir),
            dir_path: text(dir),
            directories: vec![],
        },
        children,
    };
    let tree = leaf(
        "root",
        "/r",
        vec![
            leaf("a", "/r/a", vec![leaf("a1", "/r/a/1", vec![]), leaf("a2", "/r/a/2", vec![])]),
            leaf("b", "/r/b", vec![]),
        ],
    );
    let selected = resolve_task_order(tree, &text("build")).unwrap();
    assert_eq!(
        selected,
        vec![
            ordered("build root", "/r", 0),
            ordered("build a", "/r/a", 1),
            ordered("build a1", "/r/a/1", 2),
            ordered("build a2", "/r/a/2", 2),
            ordered("build b", "/r/b", 1),
        ]
    );
}

#[test]
fn prefix_mode_selects_grouped_task_names() {
    let config = Config {
        name: text("root"),
        tasks: vec![
            ConfigTask { task_type: TaskType::SHELL, key: text("build:js"), value: text("webpack") },
            ConfigTask { task_type: TaskType::SHELL, key: text("test"), value: text("jest") },
            ConfigTask { task_type: TaskType::YARN, key: text("build"), value: text("build") },
        ],
        file_path: text("/r/rask.yaml"),
        dir_path: text("/r"),
        directories: vec![],
    };
    let loose = resolve_sortable_task(
        ConfigStructure { config: config.clone(), children: vec![] },
        &text("build"),
        false,
    )
    .unwrap();
    assert_eq!(loose, vec![ordered("webpack", "/r", 0), ordered("yarn run build", "/r", 0)]);
    let strict =
        resolve_sortable_task(ConfigStructure { config, children: vec![] }, &text("build"), true)
            .unwrap();
    assert_eq!(strict, vec![ordered("yarn run build", "/r", 0)]);
}

#[test]
fn sequential_failure_stops_the_rest_of_the_level() {
    let tasks = vec![
        ordered("first", "/r/a", 1),
        ordered("root", "/r", 0),
        ordered("second", "/r/b", 1),
        ordered("third", "/r/c", 1),
    ];
    let mut execution = Execution::new(&tasks, false);
    assert_eq!(execution.current_batch().unwrap(), vec![ordered("first", "/r/a", 1)]);
    execution.report(&vec![TaskReport::Exited(0)]);
    assert_eq!(execution.current_batch().unwrap(), vec![ordered("second", "/r/b", 1)]);
    execution.report(&vec![TaskReport::Exited(2)]);
    assert_eq!(execution.current_batch(), None);
    assert_eq!(execution.exit(), Some(TaskExit::FAILURE));
}

#[test]
fn a_process_that_did_not_start_fails_the_run() {
    for report in [TaskReport::NotStarted, TaskReport::NoExitCode, TaskReport::ThreadFailed] {
        let mut execution = Execution::new(&vec![ordered("x", "/r", 0)], true);
        execution.report(&vec![report]);
        assert_eq!(execution.exit(), Some(TaskExit::FAILURE));
    }
    let mut execution = Execution::new(&vec![ordered("x", "/r", 0)], true);
    execution.report(&vec![]);
    assert_eq!(execution.exit(), Some(TaskExit::FAILURE));
}

#[test]
fn prepare_stops_at_the_first_failure() {
    let sources = vec![source("/repo/rask.yaml", &["packages/["], &[("build", "echo root")])];
    let arguments =
        Arguments { task_name: text("build"), entry: None, parallel: false, strict: true };
    let error = match prepare(&arguments, &text("/repo/rask.yaml"), sources) {
        Ok(_) => panic!("an invalid pattern must fail"),
        Err(error) => error,
    };
    assert_eq!(error.kind, ErrorKind::GlobPattern);
    assert_eq!(error.subject, "/repo/packages/[/rask.yaml");
}

fn node(name: &str, children: Vec<ConfigStructure>) -> ConfigStructure {
    ConfigStructure {
        config: Config {
            name: text(name),
            tasks: vec![ConfigTask {
                task_type: TaskType::SHELL,
                key: text("build"),
                value: format!("build {}", name),
            }],
            file_path: format!("/{}/rask.yaml", name),
            dir_path: format!("/{}", name),
            directories: vec![],
        },
        children,
    }
}

#[test]
fn ordering_counts_on_from_the_depth_given() {
    let tree = node("a", vec![node("b", vec![])]);
    let mut tasks = vec![ordered("before", "/x", 7)];
    order_tasks(&mut tasks, &tree, &text("build"), MatchMode::Exact, 40).unwrap();
    assert_eq!(
        tasks,
        vec![ordered("before", "/x", 7), ordered("build a", "/a", 40), ordered("build b", "/b", 41)]
    );
}

#[test]
fn a_leaf_at_the_greatest_depth_is_still_ordered() {
    let mut tasks = vec![];
    order_tasks(&mut tasks, &node("a", vec![]), &text("build"), MatchMode::Exact, u64::MAX).unwrap();
    assert_eq!(tasks, vec![ordered("build a", "/a", u64::MAX)]);
}

#[test]
fn children_below_the_greatest_depth_are_too_deep() {
    let tree = node("a", vec![node("b", vec![])]);
    let mut tasks = vec![];
    let error =
        order_tasks(&mut tasks, &tree, &text("nothing"), MatchMode::Exact, u64::MAX).unwrap_err();
    assert_eq!(error.kind, ErrorKind::TooDeep);
    assert_eq!(error.subject, "/a/rask.yaml");
    assert_eq!(error.message(), "Nested too deep: \"/a/rask.yaml\"");
    let mut tasks = vec![];
    let deep = node("a", vec![node("b", vec![node("c", vec![])])]);
    let error =
        order_tasks(&mut tasks, &deep, &text("build"), MatchMode::Prefix, u64::MAX - 1).unwrap_err();
    assert_eq!(error.subject, "/b/rask.yaml");
}

#[test]
fn a_name_is_held_against_task_names_exactly_or_as_a_prefix() {
    let task = ConfigTask { task_type: TaskType::SHELL, key: text("build:js"), value: text("build") };
    assert!(task_qualifies(&task, &text("build:js"), MatchMode::Exact));
    assert!(!task_qualifies(&task, &text("build"), MatchMode::Exact));
    assert!(task_qualifies(&task, &text("build"), MatchMode::Prefix));
    assert!(task_qualifies(&task, &text(""), MatchMode::Prefix));
    assert!(!task_qualifies(&task, &text("build:json"), MatchMode::Prefix));
    assert!(!task_qualifies(&task, &text("uild"), MatchMode::Prefix));
}

#[test]
fn selecting_walks_the_tree_depth_first() {
    let tree = node("r", vec![node("a", vec![node("a1", vec![])]), node("b", vec![])]);
    let selected = select_tasks(&tree, &text("bu"), MatchMode::Prefix).unwrap();
    let commands: Vec<(&str, u64)> =
        selected.iter().map(|task| (task.task.command.as_str(), task.order)).collect();
    assert_eq!(commands, vec![("build r", 0), ("build a", 1), ("build a1", 2), ("build b", 1)]);
    assert_eq!(select_tasks(&tree, &text("bu"), MatchMode::Exact).unwrap(), vec![]);
}

#[test]
fn recording_keeps_each_path_once_and_in_the_order_found() {
    let mut discovery = Discovery::new(text("/r/rask.yaml"));
    assert!(!discovery.is_done());
    assert_eq!(discovery.next_path(), Some(text("/r/rask.yaml")));
    assert!(discovery.is_done());
    discovery.record_matches(&vec![text("/r/a"), text("/r/rask.yaml"), text("/r/b"), text("/r/a")]);
    discovery.record_matches(&vec![]);
    discovery.record_matches(&vec![text("/r/b"), text("/r/c")]);
    assert_eq!(discovery.next_path(), Some(text("/r/c")));
    assert_eq!(discovery.next_path(), Some(text("/r/b")));
    discovery.record_matches(&vec![text("/r/c"), text("/r/d")]);
    assert_eq!(discovery.next_path(), Some(text("/r/d")));
    assert_eq!(discovery.next_path(), Some(text("/r/a")));
    assert_eq!(discovery.next_path(), None);
    assert_eq!(discovery.next_path(), None);
    assert!(discovery.is_done());
    assert_eq!(
        discovery.into_paths(),
        vec![text("/r/rask.yaml"), text("/r/a"), text("/r/b"), text("/r/c"), text("/r/d")]
    );
}

#[test]
fn patterns_of_a_configuration_follow_its_directory_entries() {
    let file = config_file("/repo/rask.yaml", &["packages/*", "tools/build.yaml", "/abs"], &[]);
    assert_eq!(
        glob_patterns(&file),
        vec![
            text("/repo/packages/*/rask.yaml"),
            text("/repo/tools/build.yaml"),
            text("/abs/rask.yaml"),
        ]
    );
    assert_eq!(glob_patterns(&config_file("/repo/rask.yaml", &[], &[])), Vec::<String>::new());
}
