use rask::engine::{
    parse_composer_json_tasks, parse_config_file, parse_config_files, parse_discovered_tasks,
    parse_package_json_tasks, ConfigSource, Manifest, Manifests, COMPOSER_JSON_FILE,
    PACKAGE_JSON_FILE, YARN_LOCK_FILE,
};
use rask::error::ErrorKind;
use rask::file::{ConfigFile, TaskEngine};
use rask::task::{resolve_config_task_command, ConfigTask, TaskType};

fn text(value: &str) -> String {
    value.to_string()
}

fn scripts(names: &[&str]) -> Manifest {
    Manifest::Scripts(names.iter().map(|name| text(name)).collect())
}

fn task(task_type: TaskType, key: &str, value: &str) -> ConfigTask {
    ConfigTask { task_type, key: text(key), value: text(value) }
}

fn source(engine: TaskEngine, tasks: &[(&str, &str)], manifests: Manifests) -> ConfigSource {
    ConfigSource {
        config_file: ConfigFile {
            name: text("web"),
            task_engine: engine,
            directories: vec![text("packages/*")],
            tasks: tasks.iter().map(|(k, v)| (text(k), text(v))).collect(),
            file_path: text("/repo/web/rask.yaml"),
            dir_path: text("/repo/web"),
        },
        manifests,
    }
}

fn beside(composer_json: Manifest, package_json: Manifest, has_yarn_lock: bool) -> Manifests {
    Manifests { composer_json, package_json, has_yarn_lock }
}

#[test]
fn commands_of_each_kind_of_task() {
    assert_eq!(resolve_config_task_command(&task(TaskType::SHELL, "build", "echo root")), "echo root");
    assert_eq!(resolve_config_task_command(&task(TaskType::NPM, "test", "test")), "npm run test");
    assert_eq!(resolve_config_task_command(&task(TaskType::YARN, "test", "x")), "yarn run test");
    assert_eq!(
        resolve_config_task_command(&task(TaskType::COMPOSER, "lint", "lint")),
        "composer run lint"
    );
    assert_eq!(resolve_config_task_command(&task(TaskType::SHELL, "empty", "")), "");
}

#[test]
fn shell_engine_takes_the_declared_commands_and_nothing_else() {
    let config = parse_config_file(source(
        TaskEngine::NONE,
        &[("build", "make"), ("test", "make test")],
        beside(scripts(&["lint"]), scripts(&["start"]), true),
    ))
    .unwrap();
    assert_eq!(
        config.tasks,
        vec![task(TaskType::SHELL, "build", "make"), task(TaskType::SHELL, "test", "make test")]
    );
    assert_eq!(config.name, "web");
    assert_eq!(config.file_path, "/repo/web/rask.yaml");
    assert_eq!(config.dir_path, "/repo/web");
    assert_eq!(config.directories, vec![text("packages/*")]);
}

#[test]
fn npm_and_yarn_engines_take_the_node_scripts() {
    let npm = parse_config_file(source(
        TaskEngine::NPM,
        &[("build", "make")],
        beside(scripts(&["lint"]), scripts(&["start", "test"]), true),
    ))
    .unwrap();
    assert_eq!(
        npm.tasks,
        vec![task(TaskType::NPM, "start", "start"), task(TaskType::NPM, "test", "test")]
    );
    let yarn = parse_config_file(source(
        TaskEngine::YARN,
        &[],
        beside(Manifest::Missing(String::new()), scripts(&["start"]), false),
    ))
    .unwrap();
    assert_eq!(yarn.tasks, vec![task(TaskType::YARN, "start", "start")]);
}

#[test]
fn composer_engine_takes_the_composer_scripts() {
    let config = parse_config_file(source(
        TaskEngine::COMPOSER,
        &[("build", "make")],
        beside(scripts(&["lint", "test"]), Manifest::Unreadable(text("broken")), false),
    ))
    .unwrap();
    assert_eq!(
        config.tasks,
        vec![task(TaskType::COMPOSER, "lint", "lint"), task(TaskType::COMPOSER, "test", "test")]
    );
}

#[test]
fn an_engine_without_its_manifest_fails() {
    let error = parse_config_file(source(
        TaskEngine::NPM,
        &[],
        beside(scripts(&["lint"]), Manifest::Missing(String::new()), false),
    ))
    .unwrap_err();
    assert_eq!(error.kind, ErrorKind::PathNotFound);
    assert_eq!(error.subject, "/repo/web/package.json");
    assert_eq!(error.message(), "Target does not exists: \"/repo/web/package.json\"");

    let error = parse_config_file(source(
        TaskEngine::COMPOSER,
        &[],
        beside(Manifest::Missing(String::new()), scripts(&["start"]), false),
    ))
    .unwrap_err();
    assert_eq!(error.kind, ErrorKind::PathNotFound);
    assert_eq!(error.subject, "/repo/web/composer.json");
}

#[test]
fn an_unreadable_manifest_fails_where_it_is_taken() {
    let error = parse_config_file(source(
        TaskEngine::YARN,
        &[],
        beside(Manifest::Missing(String::new()), Manifest::Unreadable(text("expected value at line 1")), true),
    ))
    .unwrap_err();
    assert_eq!(error.kind, ErrorKind::Parse);
    assert_eq!(error.subject, "/repo/web/package.json");
    assert_eq!(error.detail, "expected value at line 1");
    assert_eq!(error.message(), "expected value at line 1");

    let error = parse_config_file(source(
        TaskEngine::AUTO,
        &[("build", "make")],
        beside(Manifest::Unreadable(text("bad")), scripts(&["start"]), true),
    ))
    .unwrap_err();
    assert_eq!(error.kind, ErrorKind::Parse);
    assert_eq!(error.subject, "/repo/web/composer.json");

    let error = parse_config_file(source(
        TaskEngine::AUTO,
        &[],
        beside(Manifest::Missing(String::new()), Manifest::Unreadable(text("bad")), false),
    ))
    .unwrap_err();
    assert_eq!(error.kind, ErrorKind::Parse);
    assert_eq!(error.subject, "/repo/web/package.json");
}

#[test]
fn auto_engine_without_manifests_takes_the_declared_commands() {
    let config = parse_config_file(source(
        TaskEngine::AUTO,
        &[("build", "make")],
        beside(Manifest::Missing(String::new()), Manifest::Missing(String::new()), true),
    ))
    .unwrap();
    assert_eq!(config.tasks, vec![task(TaskType::SHELL, "build", "make")]);
}

#[test]
fn auto_engine_merges_declared_composer_and_node_tasks_in_that_order() {
    let tasks = parse_discovered_tasks(
        "/repo/web",
        &vec![(text("build"), text("make"))],
        &beside(scripts(&["lint"]), scripts(&["start"]), false),
    )
    .unwrap();
    assert_eq!(
        tasks,
        vec![
            task(TaskType::SHELL, "build", "make"),
            task(TaskType::COMPOSER, "lint", "lint"),
            task(TaskType::NPM, "start", "start"),
        ]
    );
}

#[test]
fn auto_engine_picks_yarn_where_the_lock_file_is_there() {
    let tasks = parse_discovered_tasks(
        "/repo/web",
        &vec![],
        &beside(Manifest::Missing(String::new()), scripts(&["start"]), true),
    )
    .unwrap();
    assert_eq!(tasks, vec![task(TaskType::YARN, "start", "start")]);
}

#[test]
fn the_first_source_wins_a_name() {
    let tasks = parse_discovered_tasks(
        "/repo/web",
        &vec![(text("test"), text("make test")), (text("test"), text("again"))],
        &beside(scripts(&["test", "lint"]), scripts(&["lint", "test", "start", "start"]), false),
    )
    .unwrap();
    assert_eq!(
        tasks,
        vec![
            task(TaskType::SHELL, "test", "make test"),
            task(TaskType::COMPOSER, "lint", "lint"),
            task(TaskType::NPM, "start", "start"),
        ]
    );
}

#[test]
fn manifest_functions_take_the_scripts_as_they_are_named() {
    assert_eq!(
        parse_package_json_tasks(&scripts(&["a", "b", "a"]), "/d", TaskType::NPM).unwrap(),
        vec![task(TaskType::NPM, "a", "a"), task(TaskType::NPM, "b", "b")]
    );
    assert_eq!(
        parse_composer_json_tasks(&scripts(&[]), "/d").unwrap(),
        Vec::<ConfigTask>::new()
    );
    assert_eq!(
        parse_composer_json_tasks(&Manifest::Missing(String::new()), "/d").unwrap_err().subject,
        "/d/composer.json"
    );
}

#[test]
fn configurations_are_resolved_in_order_until_one_fails() {
    let good = || source(TaskEngine::NONE, &[("build", "make")], beside(Manifest::Missing(String::new()), Manifest::Missing(String::new()), false));
    let bad = || source(TaskEngine::NPM, &[], beside(Manifest::Missing(String::new()), Manifest::Missing(String::new()), false));
    let worse = || source(TaskEngine::COMPOSER, &[], beside(Manifest::Missing(String::new()), Manifest::Missing(String::new()), false));
    assert_eq!(parse_config_files(vec![]).unwrap().len(), 0);
    let configs = parse_config_files(vec![good(), good()]).unwrap();
    assert_eq!(configs.len(), 2);
    assert_eq!(configs[0], configs[1]);
    let error = parse_config_files(vec![good(), bad(), worse()]).unwrap_err();
    assert_eq!(error.subject, "/repo/web/package.json");
    let error = parse_config_files(vec![worse(), bad()]).unwrap_err();
    assert_eq!(error.subject, "/repo/web/composer.json");
}

#[test]
fn the_names_of_the_manifests() {
    assert_eq!(PACKAGE_JSON_FILE, "package.json");
    assert_eq!(COMPOSER_JSON_FILE, "composer.json");
    assert_eq!(YARN_LOCK_FILE, "yarn.lock");
}

#[test]
fn declarations_with_different_names_all_become_shell_tasks() {
    let tasks = parse_discovered_tasks(
        "/repo/web",
        &vec![(text("b"), text("run b")), (text("a"), text("run a")), (text("c"), text(""))],
        &beside(Manifest::Missing(String::new()), Manifest::Missing(String::new()), false),
    )
    .unwrap();
    assert_eq!(
        tasks,
        vec![
            task(TaskType::SHELL, "b", "run b"),
            task(TaskType::SHELL, "a", "run a"),
            task(TaskType::SHELL, "c", ""),
        ]
    );
}

#[test]
fn a_missing_manifest_fails_in_the_words_of_whoever_looked() {
    let reason = "Failed to read file: No such file or directory (os error 2)";
    let error = parse_config_file(source(
        TaskEngine::NPM,
        &[],
        beside(Manifest::Missing(text("")), Manifest::Missing(text(reason)), false),
    ))
    .unwrap_err();
    assert_eq!(error.kind, ErrorKind::PathNotFound);
    assert_eq!(error.subject, "/repo/web/package.json");
    assert_eq!(error.message(), reason);
    let tasks = parse_discovered_tasks(
        "/repo/web",
        &vec![],
        &beside(Manifest::Missing(text(reason)), Manifest::Missing(text(reason)), true),
    )
    .unwrap();
    assert!(tasks.is_empty());
}
