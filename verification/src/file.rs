//! Configuration files as they are written and as they are loaded.
//!
//! A [`ConfigDocument`] holds what a configuration file says, field by
//! field, with the optional fields absent where the file leaves them out.
//! A [`ConfigFile`] is the loaded record: every field has its value, and the
//! record knows where it was loaded from.

use vstd::prelude::*;
use crate::config::clone_strings;
use crate::error::{ErrorKind, Failure, RaskError};
use crate::path::{dir_of, parent_dir, same_text};

verus! {

/// How the tasks of a configuration are found.
#[allow(non_camel_case_types)]
#[derive(Debug, Clone, Copy, PartialEq, Eq, Structural)]
pub enum TaskEngine {
    /// The scripts of the composer manifest.
    COMPOSER,
    /// The scripts of the node manifest, run through npm.
    NPM,
    /// The scripts of the node manifest, run through yarn.
    YARN,
    /// The shell commands that the configuration declares, and nothing else.
    NONE,
    /// The declared commands and whatever manifests lie beside the file.
    AUTO,
}

impl Default for TaskEngine {
    fn default() -> (engine: TaskEngine)
        ensures
            engine == TaskEngine::AUTO,
    {
        TaskEngine::AUTO
    }
}

/// The declared tasks of a configuration: names with their shell commands.
pub type ConfigFileTasks = Vec<(String, String)>;

/// A loaded configuration file.
#[derive(Debug, PartialEq, Eq)]
pub struct ConfigFile {
    pub name: String,
    pub task_engine: TaskEngine,
    pub directories: Vec<String>,
    pub tasks: ConfigFileTasks,
    /// Where the file lies. Not part of what the file says.
    pub file_path: String,
    /// The directory that holds the file. Not part of what the file says.
    pub dir_path: String,
}

/// Mathematical model of a [`ConfigFile`].
pub struct ConfigFileView {
    pub name: Seq<char>,
    pub task_engine: TaskEngine,
    pub directories: Seq<Seq<char>>,
    pub tasks: Seq<(Seq<char>, Seq<char>)>,
    pub file_path: Seq<char>,
    pub dir_path: Seq<char>,
}

impl View for ConfigFile {
    type V = ConfigFileView;

    open spec fn view(&self) -> ConfigFileView {
        ConfigFileView {
            name: self.name@,
            task_engine: self.task_engine,
            directories: self.directories.deep_view(),
            tasks: self.tasks.deep_view(),
            file_path: self.file_path@,
            dir_path: self.dir_path@,
        }
    }
}

impl DeepView for ConfigFile {
    type V = ConfigFileView;

    open spec fn deep_view(&self) -> ConfigFileView {
        self@
    }
}

/// What a configuration file says. Only the name is required.
#[derive(Debug, PartialEq, Eq)]
pub struct ConfigDocument {
    pub name: String,
    pub task_engine: Option<String>,
    pub directories: Option<Vec<String>>,
    pub tasks: Option<ConfigFileTasks>,
    pub file_path: Option<String>,
    pub dir_path: Option<String>,
}

/// Mathematical model of a [`ConfigDocument`].
pub struct ConfigDocumentView {
    pub name: Seq<char>,
    pub task_engine: Option<Seq<char>>,
    pub directories: Option<Seq<Seq<char>>>,
    pub tasks: Option<Seq<(Seq<char>, Seq<char>)>>,
    pub file_path: Option<Seq<char>>,
    pub dir_path: Option<Seq<char>>,
}

impl View for ConfigDocument {
    type V = ConfigDocumentView;

    open spec fn view(&self) -> ConfigDocumentView {
        ConfigDocumentView {
            name: self.name@,
            task_engine: self.task_engine.deep_view(),
            directories: self.directories.deep_view(),
            tasks: self.tasks.deep_view(),
            file_path: self.file_path.deep_view(),
            dir_path: self.dir_path.deep_view(),
        }
    }
}

impl ConfigFile {
    /// A record named `name` that declares nothing and lies nowhere yet.
    pub fn new(name: String) -> (config_file: ConfigFile)
        ensures
            config_file@ == (ConfigFileView {
                name: name@,
                task_engine: TaskEngine::AUTO,
                directories: Seq::empty(),
                tasks: Seq::empty(),
                file_path: Seq::empty(),
                dir_path: Seq::empty(),
            }),
    {
        let config_file = ConfigFile {
            name,
            task_engine: TaskEngine::AUTO,
            directories: Vec::new(),
            tasks: Vec::new(),
            file_path: String::new(),
            dir_path: String::new(),
        };
        assert(config_file.directories.deep_view() =~= Seq::empty());
        assert(config_file.tasks.deep_view() =~= Seq::empty());
        config_file
    }
}

impl Default for ConfigFile {
    fn default() -> (config_file: ConfigFile)
        ensures
            config_file@ == (ConfigFileView {
                name: Seq::empty(),
                task_engine: TaskEngine::AUTO,
                directories: Seq::empty(),
                tasks: Seq::empty(),
                file_path: Seq::empty(),
                dir_path: Seq::empty(),
            }),
    {
        ConfigFile::new(String::new())
    }
}

impl Clone for ConfigFile {
    fn clone(&self) -> (copy: ConfigFile)
        ensures
            copy@ == self@,
    {
        ConfigFile {
            name: self.name.clone(),
            task_engine: self.task_engine,
            directories: clone_strings(&self.directories),
            tasks: clone_declared_tasks(&self.tasks),
            file_path: self.file_path.clone(),
            dir_path: self.dir_path.clone(),
        }
    }
}

/// The word that stands for `engine` in a configuration file.
pub open spec fn engine_name(engine: TaskEngine) -> Seq<char> {
    match engine {
        TaskEngine::COMPOSER => "composer"@,
        TaskEngine::NPM => "npm"@,
        TaskEngine::YARN => "yarn"@,
        TaskEngine::NONE => "shell"@,
        TaskEngine::AUTO => "auto"@,
    }
}

/// The engine that `name` stands for, if any.
pub open spec fn engine_named(name: Seq<char>) -> Option<TaskEngine> {
    if name == "composer"@ {
        Some(TaskEngine::COMPOSER)
    } else if name == "npm"@ {
        Some(TaskEngine::NPM)
    } else if name == "yarn"@ {
        Some(TaskEngine::YARN)
    } else if name == "shell"@ {
        Some(TaskEngine::NONE)
    } else if name == "auto"@ {
        Some(TaskEngine::AUTO)
    } else {
        None
    }
}

/// The five engine names are five different words.
pub proof fn lemma_engine_names_differ()
    ensures
        forall|a: TaskEngine, b: TaskEngine| engine_name(a) == engine_name(b) ==> a == b,
        forall|engine: TaskEngine| engine_named(engine_name(engine)) == Some(engine),
{
    reveal_strlit("composer");
    reveal_strlit("npm");
    reveal_strlit("yarn");
    reveal_strlit("shell");
    reveal_strlit("auto");
    assert("composer"@.len() == 8);
    assert("npm"@.len() == 3);
    assert("yarn"@.len() == 4);
    assert("shell"@.len() == 5);
    assert("auto"@.len() == 4);
    assert("yarn"@[0] == 'y');
    assert("auto"@[0] == 'a');
    assert forall|a: TaskEngine, b: TaskEngine| engine_name(a) == engine_name(b) implies a
        == b by {
        if a != b {
            assert(engine_name(a).len() != engine_name(b).len() || engine_name(a)[0]
                != engine_name(b)[0]);
        }
    }
}

/// Reads an engine name.
pub fn parse_task_engine(name: &str) -> (engine: Option<TaskEngine>)
    ensures
        engine == engine_named(name@),
{
    if same_text(name, "composer") {
        Some(TaskEngine::COMPOSER)
    } else if same_text(name, "npm") {
        Some(TaskEngine::NPM)
    } else if same_text(name, "yarn") {
        Some(TaskEngine::YARN)
    } else if same_text(name, "shell") {
        Some(TaskEngine::NONE)
    } else if same_text(name, "auto") {
        Some(TaskEngine::AUTO)
    } else {
        None
    }
}

/// Writes an engine name.
pub fn task_engine_name(engine: TaskEngine) -> (name: String)
    ensures
        name@ == engine_name(engine),
{
    match engine {
        TaskEngine::COMPOSER => String::from_str("composer"),
        TaskEngine::NPM => String::from_str("npm"),
        TaskEngine::YARN => String::from_str("yarn"),
        TaskEngine::NONE => String::from_str("shell"),
        TaskEngine::AUTO => String::from_str("auto"),
    }
}

/// Whether `value` is the engine that a file means by naming none.
pub fn is_default_task_engine(value: &TaskEngine) -> (default: bool)
    ensures
        default == (*value == TaskEngine::AUTO),
{
    match value {
        TaskEngine::AUTO => true,
        _ => false,
    }
}

/// Whether `path` is left out of a written file: an empty path is.
pub fn skip_path(path: &String) -> (skipped: bool)
    ensures
        skipped == (path@.len() == 0),
{
    path.as_str().is_empty()
}

/// A copy of `tasks`.
pub fn clone_declared_tasks(tasks: &ConfigFileTasks) -> (copy: ConfigFileTasks)
    ensures
        copy@ == tasks@,
{
    let mut copy: ConfigFileTasks = Vec::new();
    let mut i: usize = 0;
    while i < tasks.len()
        invariant
            0 <= i <= tasks.len(),
            copy@ == tasks@.subrange(0, i as int),
        decreases tasks.len() - i,
    {
        copy.push((tasks[i].0.clone(), tasks[i].1.clone()));
        i += 1;
        assert(copy@ =~= tasks@.subrange(0, i as int));
    }
    assert(tasks@.subrange(0, i as int) =~= tasks@);
    copy
}

/// The record that a file saying `document` and lying at `path` loads as:
/// what the file says, the defaults for what it leaves out, and the path
/// with its directory, which is empty for a path that names nothing inside
/// a directory. Whatever the file says of its own location is ignored.
pub open spec fn loaded(path: Seq<char>, document: ConfigDocumentView) -> Result<
    ConfigFileView,
    Failure,
> {
    if document.task_engine is Some && engine_named(document.task_engine->0) is None {
        Err(
            Failure {
                kind: ErrorKind::Parse,
                subject: path,
                detail: "unknown task engine "@ + document.task_engine->0,
            },
        )
    } else {
        Ok(
            ConfigFileView {
                name: document.name,
                task_engine: match document.task_engine {
                    Some(name) => engine_named(name)->0,
                    None => TaskEngine::AUTO,
                },
                directories: match document.directories {
                    Some(directories) => directories,
                    None => Seq::empty(),
                },
                tasks: match document.tasks {
                    Some(tasks) => tasks,
                    None => Seq::empty(),
                },
                file_path: path,
                dir_path: dir_of(path),
            },
        )
    }
}

/// What is written for `config_file`: its name, and each other field
/// unless it holds its default.
pub open spec fn written(config_file: ConfigFileView) -> ConfigDocumentView {
    ConfigDocumentView {
        name: config_file.name,
        task_engine: if config_file.task_engine == TaskEngine::AUTO {
            None
        } else {
            Some(engine_name(config_file.task_engine))
        },
        directories: if config_file.directories.len() == 0 {
            None
        } else {
            Some(config_file.directories)
        },
        tasks: if config_file.tasks.len() == 0 {
            None
        } else {
            Some(config_file.tasks)
        },
        file_path: if config_file.file_path.len() == 0 {
            None
        } else {
            Some(config_file.file_path)
        },
        dir_path: if config_file.dir_path.len() == 0 {
            None
        } else {
            Some(config_file.dir_path)
        },
    }
}

/// The model of what loading returned.
pub open spec fn load_result(read: Result<ConfigFile, RaskError>) -> Result<
    ConfigFileView,
    Failure,
> {
    match read {
        Ok(config_file) => Ok(config_file@),
        Err(error) => Err(error@),
    }
}

/// Loads the record of the configuration file that lies at
/// `config_file_path` and says `document`.
///
/// Fails with `Parse`, about the path, where the document names an engine
/// that does not exist, and on no other input.
pub fn read_config_file(
    config_file_path: String,
    document: ConfigDocument,
) -> (read: Result<ConfigFile, RaskError>)
    ensures
        load_result(read) == loaded(config_file_path@, document@),
{
    let task_engine = match &document.task_engine {
        None => TaskEngine::AUTO,
        Some(name) => match parse_task_engine(name.as_str()) {
            Some(engine) => engine,
            None => {
                return Err(
                    RaskError::with_detail(
                        ErrorKind::Parse,
                        config_file_path.as_str(),
                        String::from_str("unknown task engine ").concat(name.as_str()),
                    ),
                );
            },
        },
    };
    let dir_path = match parent_dir(config_file_path.as_str()) {
        Some(dir_path) => dir_path,
        None => String::new(),
    };
    let directories = match document.directories {
        Some(directories) => directories,
        None => Vec::new(),
    };
    let tasks = match document.tasks {
        Some(tasks) => tasks,
        None => Vec::new(),
    };
    assert(directories.deep_view() =~= match document@.directories {
        Some(d) => d,
        None => Seq::empty(),
    });
    assert(tasks.deep_view() =~= match document@.tasks {
        Some(t) => t,
        None => Seq::empty(),
    });
    Ok(
        ConfigFile {
            name: document.name,
            task_engine,
            directories,
            tasks,
            file_path: config_file_path,
            dir_path,
        },
    )
}

/// What is written to disk for `config_file`.
pub fn write_config_file(config_file: &ConfigFile) -> (document: ConfigDocument)
    ensures
        document@ == written(config_file@),
{
    ConfigDocument {
        name: config_file.name.clone(),
        task_engine: if is_default_task_engine(&config_file.task_engine) {
            None
        } else {
            Some(task_engine_name(config_file.task_engine))
        },
        directories: if config_file.directories.len() == 0 {
            None
        } else {
            Some(clone_strings(&config_file.directories))
        },
        tasks: if config_file.tasks.len() == 0 {
            None
        } else {
            Some(clone_declared_tasks(&config_file.tasks))
        },
        file_path: if skip_path(&config_file.file_path) {
            None
        } else {
            Some(config_file.file_path.clone())
        },
        dir_path: if skip_path(&config_file.dir_path) {
            None
        } else {
            Some(config_file.dir_path.clone())
        },
    }
}

/// Writing a record and loading what was written gives the record back:
/// its name, engine, directory patterns and tasks are those that were
/// written, whichever of them were left out as defaults, and its location
/// is where it was loaded from.
pub proof fn lemma_write_then_read(config_file: ConfigFileView, path: Seq<char>)
    ensures
        loaded(path, written(config_file)) == Ok::<ConfigFileView, Failure>(
            ConfigFileView { file_path: path, dir_path: dir_of(path), ..config_file },
        ),
{
    lemma_engine_names_differ();
    let document = written(config_file);
    let back = loaded(path, document)->Ok_0;
    assert(back.directories =~= config_file.directories);
    assert(back.tasks =~= config_file.tasks);
}

/// A configuration file as it comes from the disk: where it lies and what
/// it says.
#[derive(Debug, PartialEq, Eq)]
pub struct ConfigFileSource {
    pub path: String,
    pub document: ConfigDocument,
}

/// Mathematical model of a [`ConfigFileSource`].
pub struct ConfigFileSourceView {
    pub path: Seq<char>,
    pub document: ConfigDocumentView,
}

impl View for ConfigFileSource {
    type V = ConfigFileSourceView;

    open spec fn view(&self) -> ConfigFileSourceView {
        ConfigFileSourceView { path: self.path@, document: self.document@ }
    }
}

impl DeepView for ConfigFileSource {
    type V = ConfigFileSourceView;

    open spec fn deep_view(&self) -> ConfigFileSourceView {
        self@
    }
}

/// The records that the first `upto` of `files` load as, or the failure of
/// the first that does not load.
pub open spec fn loaded_all(
    files: Seq<ConfigFileSourceView>,
    upto: int,
) -> Result<Seq<ConfigFileView>, Failure>
    decreases upto,
{
    if upto <= 0 {
        Ok(Seq::empty())
    } else {
        match loaded_all(files, upto - 1) {
            Err(failure) => Err(failure),
            Ok(front) => match loaded(files[upto - 1].path, files[upto - 1].document) {
                Err(failure) => Err(failure),
                Ok(config_file) => Ok(front.push(config_file)),
            },
        }
    }
}

/// The model of what loading several files returned.
pub open spec fn load_all_result(read: Result<Vec<ConfigFile>, RaskError>) -> Result<
    Seq<ConfigFileView>,
    Failure,
> {
    match read {
        Ok(config_files) => Ok(config_files.deep_view()),
        Err(error) => Err(error@),
    }
}

proof fn lemma_loaded_all_fail(files: Seq<ConfigFileSourceView>, at: int, upto: int)
    requires
        0 <= at <= upto,
        loaded_all(files, at) is Err,
    ensures
        loaded_all(files, upto) == loaded_all(files, at),
    decreases upto - at,
{
    if at < upto {
        lemma_loaded_all_fail(files, at, upto - 1);
    }
}

/// Loads the records of `files`, in order. Fails with the failure of the
/// first file that does not load.
pub fn read_config_files(files: Vec<ConfigFileSource>) -> (read: Result<Vec<ConfigFile>, RaskError>)
    ensures
        load_all_result(read) == loaded_all(files.deep_view(), files.len() as int),
{
    let ghost all = files.deep_view();
    let total = files.len();
    let mut remaining = files;
    let mut config_files: Vec<ConfigFile> = Vec::new();
    assert(config_files.deep_view() =~= Seq::empty());
    let mut i: usize = 0;
    while i < total
        invariant
            0 <= i <= total,
            total == all.len(),
            all == files.deep_view(),
            remaining.len() == total - i,
            forall|j: int| 0 <= j < remaining.len() ==> remaining.deep_view()[j] == all[i + j],
            loaded_all(all, i as int) == Ok::<Seq<ConfigFileView>, Failure>(
                config_files.deep_view(),
            ),
        decreases total - i,
    {
        let ghost rest = remaining.deep_view();
        let ghost front = config_files.deep_view();
        let file = remaining.remove(0);
        assert(file@ == all[i as int]) by {
            assert(rest[0] == all[i + 0]);
        }
        assert forall|j: int| 0 <= j < remaining.len() implies remaining.deep_view()[j] == all[i
            + 1 + j] by {
            assert(rest[j + 1] == all[i + (j + 1)]);
        }
        let ConfigFileSource { path, document } = file;
        match read_config_file(path, document) {
            Err(error) => {
                proof {
                    assert(loaded_all(all, i + 1) == Err::<Seq<ConfigFileView>, Failure>(error@));
                    lemma_loaded_all_fail(all, i + 1, total as int);
                }
                return Err(error);
            },
            Ok(config_file) => {
                config_files.push(config_file);
                assert(config_files.deep_view() =~= front.push(config_file@));
            },
        }
        i += 1;
    }
    Ok(config_files)
}

} // verus!
