use rask::config::{Config, ConfigStructure};
use rask::error::{ErrorKind, RaskError};
use rask::structure::{build_structure, link_configs, resolve_config_structure, LinkedConfig};

fn config(name: &str, dir: &str, directories: &[&str]) -> Config {
    Config {
        name: name.to_string(),
        tasks: vec![],
        file_path: format!("{}/rask.yaml", dir),
        dir_path: dir.to_string(),
        directories: directories.iter().map(|d| d.to_string()).collect(),
    }
}

fn names(tree: &ConfigStructure) -> Vec<String> {
    tree.children.iter().map(|child| child.config.name.clone()).collect()
}

#[test]
fn entry_that_was_not_loaded_is_unknown() {
    let error =
        resolve_config_structure(&"/repo/rask.yaml".to_string(), vec![config("a", "/x", &[])])
            .unwrap_err();
    assert_eq!(error.kind, ErrorKind::UnknownConfigPath);
    assert_eq!(error.subject, "/repo/rask.yaml");
    assert_eq!(error.message(), "Unknown config path");
    let error = resolve_config_structure(&"/repo/rask.yaml".to_string(), vec![]).unwrap_err();
    assert_eq!(error.kind, ErrorKind::UnknownConfigPath);
}

#[test]
fn single_configuration_is_a_leaf() {
    let tree =
        resolve_config_structure(&"/repo/rask.yaml".to_string(), vec![config("root", "/repo", &[])])
            .unwrap();
    assert_eq!(tree.config, config("root", "/repo", &[]));
    assert!(tree.children.is_empty());
}

#[test]
fn children_follow_the_patterns_and_then_the_configurations() {
    let configs = vec![
        config("lib-b", "/repo/libs/b", &[]),
        config("root", "/repo", &["apps/*", "libs/*"]),
        config("app", "/repo/apps/web", &[]),
        config("lib-a", "/repo/libs/a", &[]),
        config("stray", "/elsewhere", &[]),
    ];
    let tree = resolve_config_structure(&"/repo/rask.yaml".to_string(), configs).unwrap();
    assert_eq!(tree.config.name, "root");
    assert_eq!(names(&tree), vec!["app", "lib-b", "lib-a"]);
}

#[test]
fn a_configuration_matched_by_two_patterns_is_nested_twice() {
    let configs = vec![
        config("root", "/repo", &["apps/*", "apps/web"]),
        config("app", "/repo/apps/web", &[]),
    ];
    let tree = resolve_config_structure(&"/repo/rask.yaml".to_string(), configs).unwrap();
    assert_eq!(names(&tree), vec!["app", "app"]);
}

#[test]
fn nesting_goes_as_deep_as_the_patterns_lead() {
    let configs = vec![
        config("root", "/r", &["a"]),
        config("a", "/r/a", &["b"]),
        config("b", "/r/a/b", &["c"]),
        config("c", "/r/a/b/c", &[]),
    ];
    let tree = resolve_config_structure(&"/r/rask.yaml".to_string(), configs).unwrap();
    let a = &tree.children[0];
    let b = &a.children[0];
    let c = &b.children[0];
    assert_eq!((a.config.name.as_str(), b.config.name.as_str(), c.config.name.as_str()), ("a", "b", "c"));
    assert!(c.children.is_empty());
    assert_eq!(tree.children.len() + a.children.len() + b.children.len(), 3);
}

#[test]
fn the_last_configuration_given_for_a_path_stands_for_it() {
    let configs = vec![
        config("first", "/repo", &[]),
        config("child", "/repo/a", &[]),
        config("second", "/repo", &["a"]),
    ];
    let tree = resolve_config_structure(&"/repo/rask.yaml".to_string(), configs).unwrap();
    assert_eq!(tree.config.name, "second");
    assert_eq!(names(&tree), vec!["child"]);
}

#[test]
fn a_configuration_nested_in_itself_is_refused() {
    let configs = vec![config("root", "/repo", &["**"])];
    let error = resolve_config_structure(&"/repo/rask.yaml".to_string(), configs).unwrap_err();
    assert_eq!(error.kind, ErrorKind::CyclicStructure);
    assert_eq!(error.subject, "/repo/rask.yaml");
}

#[test]
fn two_configurations_nested_in_each_other_are_refused() {
    let configs = vec![
        config("a", "/repo/a", &["/repo/b"]),
        config("b", "/repo/b", &["/repo/a"]),
    ];
    let error = resolve_config_structure(&"/repo/a/rask.yaml".to_string(), configs).unwrap_err();
    assert_eq!(error.kind, ErrorKind::CyclicStructure);
    assert_eq!(error.subject, "/repo/a/rask.yaml");
}

#[test]
fn an_invalid_pattern_is_refused_with_its_text() {
    let configs = vec![
        config("root", "/repo", &["apps/*", "libs/{a", "more/["]),
        config("app", "/repo/apps/web", &[]),
    ];
    let error = resolve_config_structure(&"/repo/rask.yaml".to_string(), configs).unwrap_err();
    assert_eq!(error.kind, ErrorKind::GlobPattern);
    assert_eq!(error.subject, "/repo/libs/{a/rask.yaml");
}

#[test]
fn an_invalid_pattern_below_the_entry_is_refused_too() {
    let configs = vec![
        config("root", "/repo", &["apps/*"]),
        config("app", "/repo/apps/web", &["["]),
    ];
    let error = resolve_config_structure(&"/repo/rask.yaml".to_string(), configs).unwrap_err();
    assert_eq!(error.kind, ErrorKind::GlobPattern);
    assert_eq!(error.subject, "/repo/apps/web/[/rask.yaml");
}

#[test]
fn an_invalid_pattern_outside_the_tree_does_no_harm() {
    let configs = vec![config("root", "/repo", &[]), config("stray", "/x", &["["])];
    assert!(resolve_config_structure(&"/repo/rask.yaml".to_string(), configs).is_ok());
}

fn linked(name: &str, dir: &str, children: &[&str]) -> LinkedConfig {
    LinkedConfig {
        config: config(name, dir, &[]),
        children: Ok(children.iter().map(|child| format!("{}/rask.yaml", child)).collect()),
    }
}

fn broken(name: &str, dir: &str, pattern: &str) -> LinkedConfig {
    LinkedConfig {
        config: config(name, dir, &[]),
        children: Err(RaskError {
            kind: ErrorKind::GlobPattern,
            subject: pattern.to_string(),
            detail: "unclosed".to_string(),
        }),
    }
}

fn shape(tree: &ConfigStructure) -> String {
    let below: Vec<String> = tree.children.iter().map(shape).collect();
    format!("{}({})", tree.config.name, below.join(" "))
}

#[test]
fn a_tree_is_built_from_the_links_as_given() {
    let table = vec![
        linked("c", "/c", &[]),
        linked("root", "/r", &["/b", "/a", "/b"]),
        linked("a", "/a", &["/c"]),
        linked("b", "/b", &["/c", "/c"]),
    ];
    let tree = build_structure(&"/r/rask.yaml".to_string(), &table).unwrap();
    assert_eq!(shape(&tree), "root(b(c() c()) a(c()) b(c() c()))");
    let tree = build_structure(&"/a/rask.yaml".to_string(), &table).unwrap();
    assert_eq!(shape(&tree), "a(c())");
    assert_eq!(tree.config, config("a", "/a", &[]));
}

#[test]
fn a_link_to_a_path_without_configuration_is_unknown() {
    let table = vec![linked("root", "/r", &["/a", "/gone"]), linked("a", "/a", &[])];
    let error = build_structure(&"/r/rask.yaml".to_string(), &table).unwrap_err();
    assert_eq!(error.kind, ErrorKind::UnknownConfigPath);
    assert_eq!(error.subject, "/gone/rask.yaml");
    let error = build_structure(&"/r/rask.yaml".to_string(), &vec![]).unwrap_err();
    assert_eq!(error.kind, ErrorKind::UnknownConfigPath);
    assert_eq!(error.subject, "/r/rask.yaml");
}

#[test]
fn broken_links_fail_the_tree_that_reaches_them() {
    let table = vec![
        linked("root", "/r", &["/a", "/b"]),
        linked("a", "/a", &[]),
        broken("b", "/b", "/b/[/rask.yaml"),
    ];
    let error = build_structure(&"/r/rask.yaml".to_string(), &table).unwrap_err();
    assert_eq!(error.kind, ErrorKind::GlobPattern);
    assert_eq!(error.subject, "/b/[/rask.yaml");
    assert_eq!(error.detail, "unclosed");
    assert_eq!(shape(&build_structure(&"/a/rask.yaml".to_string(), &table).unwrap()), "a()");
}

#[test]
fn the_first_failure_in_walking_order_is_the_one_reported() {
    let table = vec![
        linked("root", "/r", &["/a", "/b"]),
        linked("a", "/a", &["/gone"]),
        broken("b", "/b", "["),
    ];
    let error = build_structure(&"/r/rask.yaml".to_string(), &table).unwrap_err();
    assert_eq!(error.kind, ErrorKind::UnknownConfigPath);
    assert_eq!(error.subject, "/gone/rask.yaml");
}

#[test]
fn links_that_lead_back_are_refused_at_the_depth_that_shows_it() {
    let table = vec![linked("a", "/a", &["/b"]), linked("b", "/b", &["/a"])];
    let error = build_structure(&"/a/rask.yaml".to_string(), &table).unwrap_err();
    assert_eq!(error.kind, ErrorKind::CyclicStructure);
    assert_eq!(error.subject, "/a/rask.yaml");
    let table = vec![linked("a", "/a", &["/b"]), linked("b", "/b", &["/c"]), linked("c", "/c", &[])];
    assert_eq!(shape(&build_structure(&"/a/rask.yaml".to_string(), &table).unwrap()), "a(b(c()))");
}

#[test]
fn where_two_configurations_share_a_path_the_first_is_linked_to() {
    let table = vec![linked("root", "/r", &["/a"]), linked("a", "/a", &[]), linked("other", "/a", &["/r"])];
    assert_eq!(shape(&build_structure(&"/r/rask.yaml".to_string(), &table).unwrap()), "root(a())");
}

#[test]
fn linking_asks_each_pattern_for_the_paths_it_matches() {
    let table = link_configs(vec![
        config("old", "/repo", &["nothing"]),
        config("web", "/repo/apps/web", &["["]),
        config("root", "/repo", &["apps/*", "libs/*", "apps/web"]),
        config("lib", "/repo/libs/core", &[]),
    ]);
    assert_eq!(table.len(), 3);
    assert_eq!(table[0].config.name, "root");
    assert_eq!(
        table[0].children,
        Ok(vec![
            "/repo/apps/web/rask.yaml".to_string(),
            "/repo/libs/core/rask.yaml".to_string(),
            "/repo/apps/web/rask.yaml".to_string(),
        ])
    );
    assert_eq!(table[1].config.name, "web");
    let error = table[1].children.as_ref().unwrap_err();
    assert_eq!(error.kind, ErrorKind::GlobPattern);
    assert_eq!(error.subject, "/repo/apps/web/[/rask.yaml");
    assert_eq!(table[2].children, Ok(vec![]));
}

#[test]
fn a_copy_of_a_tree_is_the_tree() {
    let table = vec![
        linked("root", "/r", &["/a", "/b"]),
        linked("a", "/a", &["/b"]),
        linked("b", "/b", &[]),
    ];
    let tree = build_structure(&"/r/rask.yaml".to_string(), &table).unwrap();
    let copy = tree.clone();
    assert_eq!(copy, tree);
    assert_eq!(shape(&copy), "root(a(b()) b())");
}

#[test]
fn messages_of_the_builder() {
    let error = build_structure(
        &"/a/rask.yaml".to_string(),
        &vec![linked("a", "/a", &["/a"])],
    )
    .unwrap_err();
    assert_eq!(error.message(), "Config includes itself: \"/a/rask.yaml\"");
    let error =
        resolve_config_structure(&"/r/rask.yaml".to_string(), vec![config("r", "/r", &["{"])])
            .unwrap_err();
    assert_eq!(error.subject, "/r/{/rask.yaml");
    assert!(error.message().starts_with("Failed to create glob pattern: Error {"));
    assert!(error.message().contains("UnclosedAlternates"));
}

#[test]
fn a_pattern_reaches_one_level_down_and_no_further() {
    let configs = vec![
        config("root", "/repo", &["packages/*"]),
        config("app", "/repo/packages/app", &["*"]),
        config("part", "/repo/packages/app/part", &[]),
    ];
    let tree = resolve_config_structure(&"/repo/rask.yaml".to_string(), configs).unwrap();
    assert_eq!(shape(&tree), "root(app(part()))");
}
