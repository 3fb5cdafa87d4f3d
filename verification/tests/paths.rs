use rask::path::{
    ends_with, file_name, get_config_glob_pattern, join_path, parent_dir, same_text, starts_with,
    CONFIG_EXTENSION, DEFAULT_CONFIG_FILENAME,
};

#[test]
fn join_puts_one_separator_between_the_parts() {
    assert_eq!(join_path("/repo", "packages/*"), "/repo/packages/*");
    assert_eq!(join_path("/repo/", "packages"), "/repo/packages");
    assert_eq!(join_path("", "packages"), "packages");
    assert_eq!(join_path("/repo", ""), "/repo/");
    assert_eq!(join_path("/", "rask.yaml"), "/rask.yaml");
}

#[test]
fn join_with_an_absolute_path_gives_that_path() {
    assert_eq!(join_path("/repo", "/elsewhere/x"), "/elsewhere/x");
    assert_eq!(join_path("", "/"), "/");
}

#[test]
fn parent_is_the_text_before_the_last_separator() {
    assert_eq!(parent_dir("/repo/packages/rask.yaml"), Some("/repo/packages".to_string()));
    assert_eq!(parent_dir("/rask.yaml"), Some("/".to_string()));
    assert_eq!(parent_dir("packages/rask.yaml"), Some("packages".to_string()));
    assert_eq!(parent_dir("/répertoire/été.yaml"), Some("/répertoire".to_string()));
}

#[test]
fn the_root_and_the_empty_path_have_no_parent() {
    assert_eq!(parent_dir("/"), None);
    assert_eq!(parent_dir(""), None);
}

#[test]
fn a_bare_name_lies_in_the_empty_directory() {
    assert_eq!(parent_dir("rask.yaml"), Some("".to_string()));
}

#[test]
fn file_name_is_the_text_after_the_last_separator() {
    assert_eq!(file_name("/repo/packages"), "packages");
    assert_eq!(file_name("packages"), "packages");
    assert_eq!(file_name("/repo/"), "");
    assert_eq!(file_name(""), "");
}

#[test]
fn pattern_gets_the_default_file_name() {
    assert_eq!(
        get_config_glob_pattern("/repo", &"packages/*".to_string()),
        "/repo/packages/*/rask.yaml"
    );
    assert_eq!(get_config_glob_pattern("/repo", &"".to_string()), "/repo/rask.yaml");
}

#[test]
fn pattern_that_names_a_yaml_file_is_kept() {
    assert_eq!(
        get_config_glob_pattern("/repo", &"tools/build.yaml".to_string()),
        "/repo/tools/build.yaml"
    );
    assert_eq!(
        get_config_glob_pattern("/repo", &"packages/*/rask.yaml".to_string()),
        "/repo/packages/*/rask.yaml"
    );
    assert_eq!(get_config_glob_pattern("/repo", &"/abs/x.yaml".to_string()), "/abs/x.yaml");
}

#[test]
fn pattern_with_another_extension_is_taken_for_a_directory() {
    assert_eq!(
        get_config_glob_pattern("/repo", &"tools/build.yml".to_string()),
        "/repo/tools/build.yml/rask.yaml"
    );
    assert_eq!(get_config_glob_pattern("/repo", &"yaml".to_string()), "/repo/yaml/rask.yaml");
}

#[test]
fn suffix_and_prefix_tests() {
    assert!(ends_with("rask.yaml", ".yaml"));
    assert!(ends_with(".yaml", ".yaml"));
    assert!(!ends_with("yaml", ".yaml"));
    assert!(!ends_with("rask.yaml.bak", ".yaml"));
    assert!(ends_with("anything", ""));
    assert!(starts_with("build:js", "build"));
    assert!(starts_with("build", "build"));
    assert!(!starts_with("buil", "build"));
    assert!(!starts_with("rebuild", "build"));
    assert!(starts_with("", ""));
}

#[test]
fn same_text_compares_all_characters() {
    assert!(same_text("npm", "npm"));
    assert!(!same_text("npm", "npmx"));
    assert!(!same_text("npmx", "npm"));
    assert!(!same_text("npm", "npn"));
    assert!(same_text("", ""));
}

#[test]
fn the_names_of_configuration_files() {
    assert_eq!(DEFAULT_CONFIG_FILENAME, "rask.yaml");
    assert_eq!(CONFIG_EXTENSION, ".yaml");
}
