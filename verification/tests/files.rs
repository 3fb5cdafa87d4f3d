use rask::error::ErrorKind;
use rask::file::{
    is_default_task_engine, parse_task_engine, read_config_file, read_config_files, skip_path,
    task_engine_name, write_config_file, ConfigDocument, ConfigFile, ConfigFileSource, TaskEngine,
};

fn text(value: &str) -> String {
    value.to_string()
}

fn document(name: &str, engine: Option<&str>) -> ConfigDocument {
    ConfigDocument {
        name: text(name),
        task_engine: engine.map(text),
        directories: None,
        tasks: None,
        file_path: None,
        dir_path: None,
    }
}

const ENGINES: [(TaskEngine, &str); 5] = [
    (TaskEngine::COMPOSER, "composer"),
    (TaskEngine::NPM, "npm"),
    (TaskEngine::YARN, "yarn"),
    (TaskEngine::NONE, "shell"),
    (TaskEngine::AUTO, "auto"),
];

#[test]
fn engines_have_their_names() {
    for (engine, name) in ENGINES {
        assert_eq!(task_engine_name(engine), name);
        assert_eq!(parse_task_engine(name), Some(engine));
    }
}

#[test]
fn other_words_name_no_engine() {
    for word in ["", "none", "Shell", "AUTO", "npm ", "yarnx", "bash"] {
        assert_eq!(parse_task_engine(word), None);
    }
}

#[test]
fn the_default_engine_is_auto() {
    assert_eq!(TaskEngine::default(), TaskEngine::AUTO);
    for (engine, _) in ENGINES {
        assert_eq!(is_default_task_engine(&engine), engine == TaskEngine::AUTO);
    }
}

#[test]
fn only_an_empty_path_is_skipped() {
    assert!(skip_path(&text("")));
    assert!(!skip_path(&text("/")));
    assert!(!skip_path(&text("rask.yaml")));
}

#[test]
fn a_document_with_only_a_name_loads_with_the_defaults() {
    let loaded = read_config_file(text("/repo/rask.yaml"), document("demo", None)).unwrap();
    assert_eq!(
        loaded,
        ConfigFile {
            name: text("demo"),
            task_engine: TaskEngine::AUTO,
            directories: vec![],
            tasks: vec![],
            file_path: text("/repo/rask.yaml"),
            dir_path: text("/repo"),
        }
    );
}

#[test]
fn what_a_document_says_of_its_location_is_ignored() {
    let mut said = document("demo", Some("yarn"));
    said.file_path = Some(text("/somewhere/else.yaml"));
    said.dir_path = Some(text("/somewhere"));
    said.directories = Some(vec![text("a"), text("b")]);
    said.tasks = Some(vec![(text("build"), text("make"))]);
    let loaded = read_config_file(text("/repo/sub/rask.yaml"), said).unwrap();
    assert_eq!(loaded.file_path, "/repo/sub/rask.yaml");
    assert_eq!(loaded.dir_path, "/repo/sub");
    assert_eq!(loaded.task_engine, TaskEngine::YARN);
    assert_eq!(loaded.directories, vec![text("a"), text("b")]);
    assert_eq!(loaded.tasks, vec![(text("build"), text("make"))]);
}

#[test]
fn an_unknown_engine_does_not_load() {
    let error = read_config_file(text("/repo/rask.yaml"), document("demo", Some("make"))).unwrap_err();
    assert_eq!(error.kind, ErrorKind::Parse);
    assert_eq!(error.subject, "/repo/rask.yaml");
    assert_eq!(error.detail, "unknown task engine make");
    assert_eq!(error.message(), "unknown task engine make");
}

#[test]
fn a_path_outside_any_directory_loads_with_an_empty_directory() {
    let loaded = read_config_file(text("rask.yaml"), document("demo", None)).unwrap();
    assert_eq!(loaded.file_path, "rask.yaml");
    assert_eq!(loaded.dir_path, "");
    for path in ["", "/"] {
        let loaded = read_config_file(text(path), document("demo", None)).unwrap();
        assert_eq!(loaded.file_path, path);
        assert_eq!(loaded.dir_path, "");
    }
    let error = read_config_file(text("rask.yaml"), document("demo", Some("nope"))).unwrap_err();
    assert_eq!(error.kind, ErrorKind::Parse);
}

#[test]
fn defaults_are_left_out_of_what_is_written() {
    let mut record = ConfigFile::new(text("demo"));
    assert_eq!(write_config_file(&record), document("demo", None));
    record.task_engine = TaskEngine::COMPOSER;
    record.dir_path = text("/repo");
    let written = write_config_file(&record);
    assert_eq!(written.task_engine, Some(text("composer")));
    assert_eq!(written.dir_path, Some(text("/repo")));
    assert_eq!(written.file_path, None);
    assert_eq!(written.directories, None);
    assert_eq!(written.tasks, None);
}

#[test]
fn files_load_in_order_until_one_fails() {
    let file = |path: &str, engine: Option<&str>| ConfigFileSource {
        path: text(path),
        document: document(path, engine),
    };
    assert_eq!(read_config_files(vec![]).unwrap(), vec![]);
    let loaded =
        read_config_files(vec![file("/a/rask.yaml", None), file("/b/rask.yaml", Some("npm"))])
            .unwrap();
    assert_eq!(loaded.len(), 2);
    assert_eq!(loaded[0].dir_path, "/a");
    assert_eq!(loaded[1].dir_path, "/b");
    assert_eq!(loaded[1].task_engine, TaskEngine::NPM);
    let error = read_config_files(vec![
        file("/a/rask.yaml", None),
        file("/b/rask.yaml", Some("x")),
        file("c", None),
    ])
    .unwrap_err();
    assert_eq!(error.kind, ErrorKind::Parse);
    assert_eq!(error.subject, "/b/rask.yaml");
}

#[test]
fn a_default_record_has_no_name_and_declares_nothing() {
    assert_eq!(ConfigFile::default(), ConfigFile::new(text("")));
}

#[test]
fn a_copy_of_a_record_is_the_record() {
    let record = ConfigFile {
        name: text("demo"),
        task_engine: TaskEngine::YARN,
        directories: vec![text("a"), text("b")],
        tasks: vec![(text("build"), text("make")), (text("test"), text("make test"))],
        file_path: text("/repo/rask.yaml"),
        dir_path: text("/repo"),
    };
    assert_eq!(record.clone(), record);
}
