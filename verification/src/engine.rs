//! Turning the task declarations of a configuration into runnable tasks.
//!
//! What lies beside a configuration file is looked up by the caller and
//! handed in as [`Manifests`]. Which of it counts, and what becomes of it,
//! is decided here.
//!
//! Within one configuration a task name stands for one task. Where several
//! sources declare the same name, the first one wins: the declared shell
//! commands come first, then the composer scripts, then the node scripts.

use vstd::prelude::*;
use crate::config::{Config, ConfigView};
use crate::error::{failure, ErrorKind, Failure, RaskError};
use crate::file::{ConfigFile, ConfigFileTasks, ConfigFileView, TaskEngine};
use crate::path::{join_path, joined};
use crate::task::{ConfigTask, ConfigTaskView, TaskType};

verus! {

/// The file name of the node manifest.
pub const PACKAGE_JSON_FILE: &'static str = "package.json";

/// The file name of the lock file that tells yarn from npm.
pub const YARN_LOCK_FILE: &'static str = "yarn.lock";

/// The file name of the composer manifest.
pub const COMPOSER_JSON_FILE: &'static str = "composer.json";

/// What is known of a manifest that may lie beside a configuration file.
#[derive(Debug, PartialEq, Eq)]
pub enum Manifest {
    /// There is no such file; what reading it failed with, if that was
    /// tried.
    Missing(String),
    /// The file is there but could not be read as a manifest; why.
    Unreadable(String),
    /// The names of the scripts that the manifest declares.
    Scripts(Vec<String>),
}

/// Mathematical model of a [`Manifest`].
pub enum ManifestView {
    Missing(Seq<char>),
    Unreadable(Seq<char>),
    Scripts(Seq<Seq<char>>),
}

impl View for Manifest {
    type V = ManifestView;

    open spec fn view(&self) -> ManifestView {
        match self {
            Manifest::Missing(reason) => ManifestView::Missing(reason@),
            Manifest::Unreadable(reason) => ManifestView::Unreadable(reason@),
            Manifest::Scripts(names) => ManifestView::Scripts(names.deep_view()),
        }
    }
}

/// What lies beside a configuration file, in its directory.
#[derive(Debug, PartialEq, Eq)]
pub struct Manifests {
    pub composer_json: Manifest,
    pub package_json: Manifest,
    pub has_yarn_lock: bool,
}

/// Mathematical model of [`Manifests`].
pub struct ManifestsView {
    pub composer_json: ManifestView,
    pub package_json: ManifestView,
    pub has_yarn_lock: bool,
}

impl View for Manifests {
    type V = ManifestsView;

    open spec fn view(&self) -> ManifestsView {
        ManifestsView {
            composer_json: self.composer_json@,
            package_json: self.package_json@,
            has_yarn_lock: self.has_yarn_lock,
        }
    }
}

/// A loaded configuration file with what lies beside it.
#[derive(Debug, PartialEq, Eq)]
pub struct ConfigSource {
    pub config_file: ConfigFile,
    pub manifests: Manifests,
}

/// Mathematical model of a [`ConfigSource`].
pub struct ConfigSourceView {
    pub config_file: ConfigFileView,
    pub manifests: ManifestsView,
}

impl View for ConfigSource {
    type V = ConfigSourceView;

    open spec fn view(&self) -> ConfigSourceView {
        ConfigSourceView { config_file: self.config_file@, manifests: self.manifests@ }
    }
}

impl DeepView for ConfigSource {
    type V = ConfigSourceView;

    open spec fn deep_view(&self) -> ConfigSourceView {
        self@
    }
}

/// Whether one of `tasks` is named `key`.
pub open spec fn has_key(tasks: Seq<ConfigTaskView>, key: Seq<char>) -> bool {
    exists|i: int| 0 <= i < tasks.len() && (#[trigger] tasks[i]).key == key
}

/// No two of `tasks` share a name.
pub open spec fn unique_keys(tasks: Seq<ConfigTaskView>) -> bool {
    forall|i: int, j: int|
        0 <= i < j < tasks.len() ==> (#[trigger] tasks[i]).key != (#[trigger] tasks[j]).key
}

/// `tasks` with `task` added, unless its name is taken.
pub open spec fn add_task(tasks: Seq<ConfigTaskView>, task: ConfigTaskView) -> Seq<
    ConfigTaskView,
> {
    if has_key(tasks, task.key) {
        tasks
    } else {
        tasks.push(task)
    }
}

/// The shell task that a declaration stands for.
pub open spec fn shell_task(declared: (Seq<char>, Seq<char>)) -> ConfigTaskView {
    ConfigTaskView { task_type: TaskType::SHELL, key: declared.0, value: declared.1 }
}

/// The task that runs the script `name` through a package manager.
pub open spec fn script_task(name: Seq<char>, task_type: TaskType) -> ConfigTaskView {
    ConfigTaskView { task_type, key: name, value: name }
}

/// `tasks` with the declared shell tasks added in order, each unless its
/// name is taken.
pub open spec fn add_shell_tasks(
    tasks: Seq<ConfigTaskView>,
    declared: Seq<(Seq<char>, Seq<char>)>,
) -> Seq<ConfigTaskView>
    decreases declared.len(),
{
    if declared.len() == 0 {
        tasks
    } else {
        add_task(add_shell_tasks(tasks, declared.drop_last()), shell_task(declared.last()))
    }
}

/// `tasks` with a task for each script name added in order, each unless its
/// name is taken.
pub open spec fn add_script_tasks(
    tasks: Seq<ConfigTaskView>,
    names: Seq<Seq<char>>,
    task_type: TaskType,
) -> Seq<ConfigTaskView>
    decreases names.len(),
{
    if names.len() == 0 {
        tasks
    } else {
        add_task(
            add_script_tasks(tasks, names.drop_last(), task_type),
            script_task(names.last(), task_type),
        )
    }
}

/// `tasks` with the scripts of a manifest that the engine cannot do
/// without: a missing manifest fails with `PathNotFound`, an unreadable one
/// with `Parse`, both about the manifest's path and with the reason given
/// for the manifest as the detail.
pub open spec fn with_required(
    tasks: Seq<ConfigTaskView>,
    manifest: ManifestView,
    path: Seq<char>,
    task_type: TaskType,
) -> Result<Seq<ConfigTaskView>, Failure> {
    match manifest {
        ManifestView::Missing(reason) => Err(
            Failure { kind: ErrorKind::PathNotFound, subject: path, detail: reason },
        ),
        ManifestView::Unreadable(reason) => Err(
            Failure { kind: ErrorKind::Parse, subject: path, detail: reason },
        ),
        ManifestView::Scripts(names) => Ok(add_script_tasks(tasks, names, task_type)),
    }
}

/// `tasks` with the scripts of a manifest that is taken where it is there:
/// a missing manifest adds nothing, an unreadable one fails with `Parse`.
pub open spec fn with_optional(
    tasks: Seq<ConfigTaskView>,
    manifest: ManifestView,
    path: Seq<char>,
    task_type: TaskType,
) -> Result<Seq<ConfigTaskView>, Failure> {
    match manifest {
        ManifestView::Missing(_) => Ok(tasks),
        _ => with_required(tasks, manifest, path, task_type),
    }
}

/// The package manager that runs the node scripts of a directory: yarn
/// where its lock file is there, npm otherwise.
pub open spec fn node_manager(has_yarn_lock: bool) -> TaskType {
    if has_yarn_lock {
        TaskType::YARN
    } else {
        TaskType::NPM
    }
}

/// The tasks of a configuration in directory `dir_path` that declares
/// `declared` and leaves the engine to be found out.
pub open spec fn discovered_tasks(
    dir_path: Seq<char>,
    declared: Seq<(Seq<char>, Seq<char>)>,
    manifests: ManifestsView,
) -> Result<Seq<ConfigTaskView>, Failure> {
    let explicit = add_shell_tasks(Seq::empty(), declared);
    match with_optional(
        explicit,
        manifests.composer_json,
        joined(dir_path, COMPOSER_JSON_FILE@),
        TaskType::COMPOSER,
    ) {
        Err(failure) => Err(failure),
        Ok(tasks) => with_optional(
            tasks,
            manifests.package_json,
            joined(dir_path, PACKAGE_JSON_FILE@),
            node_manager(manifests.has_yarn_lock),
        ),
    }
}

/// The tasks of `config_file`, by its engine.
pub open spec fn resolved_tasks(config_file: ConfigFileView, manifests: ManifestsView) -> Result<
    Seq<ConfigTaskView>,
    Failure,
> {
    match config_file.task_engine {
        TaskEngine::COMPOSER => with_required(
            Seq::empty(),
            manifests.composer_json,
            joined(config_file.dir_path, COMPOSER_JSON_FILE@),
            TaskType::COMPOSER,
        ),
        TaskEngine::NPM => with_required(
            Seq::empty(),
            manifests.package_json,
            joined(config_file.dir_path, PACKAGE_JSON_FILE@),
            TaskType::NPM,
        ),
        TaskEngine::YARN => with_required(
            Seq::empty(),
            manifests.package_json,
            joined(config_file.dir_path, PACKAGE_JSON_FILE@),
            TaskType::YARN,
        ),
        TaskEngine::NONE => Ok(add_shell_tasks(Seq::empty(), config_file.tasks)),
        TaskEngine::AUTO => discovered_tasks(config_file.dir_path, config_file.tasks, manifests),
    }
}

/// The resolved configuration that `source` stands for.
pub open spec fn resolved(source: ConfigSourceView) -> Result<ConfigView, Failure> {
    match resolved_tasks(source.config_file, source.manifests) {
        Err(failure) => Err(failure),
        Ok(tasks) => Ok(
            ConfigView {
                name: source.config_file.name,
                tasks,
                file_path: source.config_file.file_path,
                dir_path: source.config_file.dir_path,
                directories: source.config_file.directories,
            },
        ),
    }
}

/// The resolved configurations of the first `upto` of `sources`, or the
/// failure of the first that cannot be resolved.
pub open spec fn resolved_all(
    sources: Seq<ConfigSourceView>,
    upto: int,
) -> Result<Seq<ConfigView>, Failure>
    decreases upto,
{
    if upto <= 0 {
        Ok(Seq::empty())
    } else {
        match resolved_all(sources, upto - 1) {
            Err(failure) => Err(failure),
            Ok(front) => match resolved(sources[upto - 1]) {
                Err(failure) => Err(failure),
                Ok(config) => Ok(front.push(config)),
            },
        }
    }
}

/// The model of what resolving tasks returned.
pub open spec fn tasks_result(parsed: Result<Vec<ConfigTask>, RaskError>) -> Result<
    Seq<ConfigTaskView>,
    Failure,
> {
    match parsed {
        Ok(tasks) => Ok(tasks.deep_view()),
        Err(error) => Err(error@),
    }
}

/// Whether one of `tasks` is named `key`.
fn contains_key(tasks: &Vec<ConfigTask>, key: &String) -> (found: bool)
    ensures
        found == has_key(tasks.deep_view(), key@),
{
    let mut i: usize = 0;
    while i < tasks.len()
        invariant
            0 <= i <= tasks.len(),
            forall|j: int| 0 <= j < i ==> tasks.deep_view()[j].key != key@,
        decreases tasks.len() - i,
    {
        if tasks[i].key == *key {
            assert(tasks.deep_view()[i as int].key == key@);
            return true;
        }
        i += 1;
    }
    false
}

/// Adds `task` to `tasks` unless its name is taken.
fn push_unique(tasks: &mut Vec<ConfigTask>, task: ConfigTask)
    ensures
        final(tasks).deep_view() == add_task(old(tasks).deep_view(), task@),
{
    let ghost before = tasks.deep_view();
    if !contains_key(tasks, &task.key) {
        tasks.push(task);
        assert(tasks.deep_view() =~= before.push(task@));
    }
}

/// Adds the declared shell tasks to `config_tasks`: each declaration
/// becomes a task that runs its command as it stands.
fn parse_config_tasks(config_tasks: &mut Vec<ConfigTask>, tasks: &ConfigFileTasks)
    ensures
        final(config_tasks).deep_view() == add_shell_tasks(
            old(config_tasks).deep_view(),
            tasks.deep_view(),
        ),
{
    let mut i: usize = 0;
    assert(tasks.deep_view().subrange(0, 0) =~= Seq::empty());
    while i < tasks.len()
        invariant
            0 <= i <= tasks.len(),
            config_tasks.deep_view() == add_shell_tasks(
                old(config_tasks).deep_view(),
                tasks.deep_view().subrange(0, i as int),
            ),
        decreases tasks.len() - i,
    {
        let ghost before = tasks.deep_view().subrange(0, i as int);
        let ghost next = tasks.deep_view().subrange(0, i + 1);
        assert(next.drop_last() =~= before);
        assert(next.last() == tasks.deep_view()[i as int]);
        let task = ConfigTask {
            task_type: TaskType::SHELL,
            key: tasks[i].0.clone(),
            value: tasks[i].1.clone(),
        };
        assert(task@ == shell_task(tasks.deep_view()[i as int]));
        push_unique(config_tasks, task);
        i += 1;
    }
    assert(tasks.deep_view().subrange(0, i as int) =~= tasks.deep_view());
}

/// Adds a task for each script name to `config_tasks`.
fn parse_script_tasks(config_tasks: &mut Vec<ConfigTask>, names: &Vec<String>, task_type: TaskType)
    ensures
        final(config_tasks).deep_view() == add_script_tasks(
            old(config_tasks).deep_view(),
            names.deep_view(),
            task_type,
        ),
{
    let mut i: usize = 0;
    assert(names.deep_view().subrange(0, 0) =~= Seq::empty());
    while i < names.len()
        invariant
            0 <= i <= names.len(),
            config_tasks.deep_view() == add_script_tasks(
                old(config_tasks).deep_view(),
                names.deep_view().subrange(0, i as int),
                task_type,
            ),
        decreases names.len() - i,
    {
        let ghost before = names.deep_view().subrange(0, i as int);
        let ghost next = names.deep_view().subrange(0, i + 1);
        assert(next.drop_last() =~= before);
        assert(next.last() == names.deep_view()[i as int]);
        let task = ConfigTask { task_type, key: names[i].clone(), value: names[i].clone() };
        push_unique(config_tasks, task);
        i += 1;
    }
    assert(names.deep_view().subrange(0, i as int) =~= names.deep_view());
}

/// Adds the scripts of a manifest that the engine cannot do without.
fn parse_manifest_tasks(
    config_tasks: Vec<ConfigTask>,
    manifest: &Manifest,
    dir_path: &str,
    file_name: &str,
    task_type: TaskType,
) -> (parsed: Result<Vec<ConfigTask>, RaskError>)
    ensures
        tasks_result(parsed) == with_required(
            config_tasks.deep_view(),
            manifest@,
            joined(dir_path@, file_name@),
            task_type,
        ),
{
    match manifest {
        Manifest::Missing(reason) => Err(
            RaskError::with_detail(
                ErrorKind::PathNotFound,
                join_path(dir_path, file_name).as_str(),
                reason.clone(),
            ),
        ),
        Manifest::Unreadable(reason) => Err(
            RaskError::with_detail(
                ErrorKind::Parse,
                join_path(dir_path, file_name).as_str(),
                reason.clone(),
            ),
        ),
        Manifest::Scripts(names) => {
            let mut config_tasks = config_tasks;
            parse_script_tasks(&mut config_tasks, names, task_type);
            Ok(config_tasks)
        },
    }
}

/// The tasks that the node manifest of `dir_path` gives: one for each of
/// its scripts, run through the package manager `task_type`.
pub fn parse_package_json_tasks(
    manifest: &Manifest,
    dir_path: &str,
    task_type: TaskType,
) -> (parsed: Result<Vec<ConfigTask>, RaskError>)
    ensures
        tasks_result(parsed) == with_required(
            Seq::empty(),
            manifest@,
            joined(dir_path@, PACKAGE_JSON_FILE@),
            task_type,
        ),
{
    let config_tasks: Vec<ConfigTask> = Vec::new();
    assert(config_tasks.deep_view() =~= Seq::empty());
    parse_manifest_tasks(config_tasks, manifest, dir_path, PACKAGE_JSON_FILE, task_type)
}

/// The tasks that the composer manifest of `dir_path` gives: one for each
/// of its scripts.
pub fn parse_composer_json_tasks(
    manifest: &Manifest,
    dir_path: &str,
) -> (parsed: Result<Vec<ConfigTask>, RaskError>)
    ensures
        tasks_result(parsed) == with_required(
            Seq::empty(),
            manifest@,
            joined(dir_path@, COMPOSER_JSON_FILE@),
            TaskType::COMPOSER,
        ),
{
    let config_tasks: Vec<ConfigTask> = Vec::new();
    assert(config_tasks.deep_view() =~= Seq::empty());
    parse_manifest_tasks(config_tasks, manifest, dir_path, COMPOSER_JSON_FILE, TaskType::COMPOSER)
}

/// The tasks of a configuration that leaves the engine to be found out:
/// the declared shell tasks, then the scripts of the composer manifest and
/// of the node manifest, each where it is there. The node scripts run
/// through yarn where the lock file is there, through npm otherwise.
pub fn parse_discovered_tasks(
    dir_path: &str,
    config_file_tasks: &ConfigFileTasks,
    manifests: &Manifests,
) -> (parsed: Result<Vec<ConfigTask>, RaskError>)
    ensures
        tasks_result(parsed) == discovered_tasks(
            dir_path@,
            config_file_tasks.deep_view(),
            manifests@,
        ),
{
    let mut config_tasks: Vec<ConfigTask> = Vec::new();
    assert(config_tasks.deep_view() =~= Seq::empty());
    parse_config_tasks(&mut config_tasks, config_file_tasks);

    let has_composer_json = match manifests.composer_json {
        Manifest::Missing(_) => false,
        _ => true,
    };
    let has_package_json = match manifests.package_json {
        Manifest::Missing(_) => false,
        _ => true,
    };

    if has_composer_json {
        config_tasks = match parse_manifest_tasks(
            config_tasks,
            &manifests.composer_json,
            dir_path,
            COMPOSER_JSON_FILE,
            TaskType::COMPOSER,
        ) {
            Ok(config_tasks) => config_tasks,
            Err(error) => {
                return Err(error);
            },
        };
    }
    if has_package_json {
        let task_type = if manifests.has_yarn_lock {
            TaskType::YARN
        } else {
            TaskType::NPM
        };
        config_tasks = match parse_manifest_tasks(
            config_tasks,
            &manifests.package_json,
            dir_path,
            PACKAGE_JSON_FILE,
            task_type,
        ) {
            Ok(config_tasks) => config_tasks,
            Err(error) => {
                return Err(error);
            },
        };
    }
    Ok(config_tasks)
}

/// The model of what resolving a configuration returned.
pub open spec fn config_result(parsed: Result<Config, RaskError>) -> Result<ConfigView, Failure> {
    match parsed {
        Ok(config) => Ok(config@),
        Err(error) => Err(error@),
    }
}

/// The model of what resolving configurations returned.
pub open spec fn configs_result(parsed: Result<Vec<Config>, RaskError>) -> Result<
    Seq<ConfigView>,
    Failure,
> {
    match parsed {
        Ok(configs) => Ok(configs.deep_view()),
        Err(error) => Err(error@),
    }
}

/// Resolves the task engine of one configuration.
///
/// `NONE` takes the declared shell commands. `COMPOSER`, `NPM` and `YARN`
/// take the scripts of their manifest and fail where it is missing
/// (`PathNotFound`) or unreadable (`Parse`). `AUTO` takes the declared
/// commands and the scripts of whichever manifests are there.
pub fn parse_config_file(source: ConfigSource) -> (parsed: Result<Config, RaskError>)
    ensures
        config_result(parsed) == resolved(source@),
        parsed matches Ok(config) ==> unique_keys(config@.tasks),
{
    proof {
        lemma_resolved_keys_unique(source@.config_file, source@.manifests);
    }
    let ConfigSource { config_file, manifests } = source;
    let dir = config_file.dir_path.as_str();
    let parsed = match config_file.task_engine {
        TaskEngine::COMPOSER => parse_composer_json_tasks(&manifests.composer_json, dir),
        TaskEngine::NPM => parse_package_json_tasks(&manifests.package_json, dir, TaskType::NPM),
        TaskEngine::YARN => parse_package_json_tasks(&manifests.package_json, dir, TaskType::YARN),
        TaskEngine::NONE => {
            let mut config_tasks: Vec<ConfigTask> = Vec::new();
            assert(config_tasks.deep_view() =~= Seq::empty());
            parse_config_tasks(&mut config_tasks, &config_file.tasks);
            Ok(config_tasks)
        },
        TaskEngine::AUTO => parse_discovered_tasks(dir, &config_file.tasks, &manifests),
    };
    match parsed {
        Err(error) => Err(error),
        Ok(tasks) => Ok(
            Config {
                name: config_file.name,
                tasks,
                file_path: config_file.file_path,
                dir_path: config_file.dir_path,
                directories: config_file.directories,
            },
        ),
    }
}

/// Once a configuration could not be resolved, those after it change
/// nothing.
proof fn lemma_resolved_all_fail(sources: Seq<ConfigSourceView>, at: int, upto: int)
    requires
        0 <= at <= upto,
        resolved_all(sources, at) is Err,
    ensures
        resolved_all(sources, upto) == resolved_all(sources, at),
    decreases upto - at,
{
    if at < upto {
        lemma_resolved_all_fail(sources, at, upto - 1);
    }
}

/// Resolves the task engine of each configuration, in order. Fails with
/// the failure of the first that cannot be resolved.
pub fn parse_config_files(sources: Vec<ConfigSource>) -> (parsed: Result<Vec<Config>, RaskError>)
    ensures
        configs_result(parsed) == resolved_all(sources.deep_view(), sources.len() as int),
{
    let ghost all = sources.deep_view();
    let total = sources.len();
    let mut remaining = sources;
    let mut configs: Vec<Config> = Vec::new();
    assert(configs.deep_view() =~= Seq::empty());
    let mut i: usize = 0;
    while i < total
        invariant
            0 <= i <= total,
            total == all.len(),
            all == sources.deep_view(),
            remaining.len() == total - i,
            forall|j: int| 0 <= j < remaining.len() ==> remaining.deep_view()[j] == all[i + j],
            resolved_all(all, i as int) == Ok::<Seq<ConfigView>, Failure>(configs.deep_view()),
        decreases total - i,
    {
        let ghost rest = remaining.deep_view();
        let ghost front = configs.deep_view();
        let source = remaining.remove(0);
        assert(source@ == all[i as int]) by {
            assert(rest[0] == all[i + 0]);
        }
        assert forall|j: int| 0 <= j < remaining.len() implies remaining.deep_view()[j] == all[i
            + 1 + j] by {
            assert(rest[j + 1] == all[i + (j + 1)]);
        }
        match parse_config_file(source) {
            Err(error) => {
                proof {
                    assert(resolved_all(all, i + 1) == Err::<Seq<ConfigView>, Failure>(error@));
                    lemma_resolved_all_fail(all, i + 1, total as int);
                }
                return Err(error);
            },
            Ok(config) => {
                configs.push(config);
                assert(configs.deep_view() =~= front.push(config@));
            },
        }
        i += 1;
    }
    Ok(configs)
}

proof fn lemma_add_task(tasks: Seq<ConfigTaskView>, task: ConfigTaskView)
    ensures
        unique_keys(tasks) ==> unique_keys(add_task(tasks, task)),
        tasks.is_prefix_of(add_task(tasks, task)),
        has_key(add_task(tasks, task), task.key),
        forall|key: Seq<char>|
            has_key(tasks, key) ==> #[trigger] has_key(add_task(tasks, task), key),
{
    let added = tasks.push(task);
    assert(tasks =~= added.subrange(0, tasks.len() as int));
    assert(tasks =~= tasks.subrange(0, tasks.len() as int));
    if has_key(tasks, task.key) {
    } else {
        assert(added[tasks.len() as int].key == task.key);
        if unique_keys(tasks) {
            assert forall|i: int, j: int| 0 <= i < j < added.len() implies (#[trigger] added[i]).key
                != (#[trigger] added[j]).key by {
                if j < tasks.len() {
                    assert(tasks[i].key != tasks[j].key);
                } else {
                    assert(tasks[i].key != task.key);
                }
            }
        }
    }
    assert forall|key: Seq<char>| has_key(tasks, key) implies #[trigger] has_key(
        add_task(tasks, task),
        key,
    ) by {
        let i = choose|i: int| 0 <= i < tasks.len() && (#[trigger] tasks[i]).key == key;
        assert(add_task(tasks, task)[i].key == key);
    }
}

proof fn lemma_prefix_chain<T>(a: Seq<T>, b: Seq<T>, c: Seq<T>)
    requires
        a.is_prefix_of(b),
        b.is_prefix_of(c),
    ensures
        a.is_prefix_of(c),
{
    assert(a =~= c.subrange(0, a.len() as int));
}

proof fn lemma_add_shell_tasks(tasks: Seq<ConfigTaskView>, declared: Seq<(Seq<char>, Seq<char>)>)
    ensures
        unique_keys(tasks) ==> unique_keys(add_shell_tasks(tasks, declared)),
        tasks.is_prefix_of(add_shell_tasks(tasks, declared)),
        forall|i: int|
            0 <= i < declared.len() ==> has_key(
                add_shell_tasks(tasks, declared),
                (#[trigger] declared[i]).0,
            ),
    decreases declared.len(),
{
    if declared.len() > 0 {
        let front = declared.drop_last();
        let before = add_shell_tasks(tasks, front);
        lemma_add_shell_tasks(tasks, front);
        lemma_add_task(before, shell_task(declared.last()));
        lemma_prefix_chain(tasks, before, add_shell_tasks(tasks, declared));
        assert forall|i: int| 0 <= i < declared.len() implies has_key(
            add_shell_tasks(tasks, declared),
            (#[trigger] declared[i]).0,
        ) by {
            if i < front.len() {
                assert(front[i] == declared[i]);
                assert(has_key(before, front[i].0));
            }
        }
    } else {
        assert(tasks =~= tasks.subrange(0, tasks.len() as int));
    }
}

proof fn lemma_add_script_tasks(
    tasks: Seq<ConfigTaskView>,
    names: Seq<Seq<char>>,
    task_type: TaskType,
)
    ensures
        unique_keys(tasks) ==> unique_keys(add_script_tasks(tasks, names, task_type)),
        tasks.is_prefix_of(add_script_tasks(tasks, names, task_type)),
        forall|i: int|
            0 <= i < names.len() ==> has_key(
                add_script_tasks(tasks, names, task_type),
                #[trigger] names[i],
            ),
    decreases names.len(),
{
    if names.len() > 0 {
        let front = names.drop_last();
        let before = add_script_tasks(tasks, front, task_type);
        lemma_add_script_tasks(tasks, front, task_type);
        lemma_add_task(before, script_task(names.last(), task_type));
        lemma_prefix_chain(tasks, before, add_script_tasks(tasks, names, task_type));
        assert forall|i: int| 0 <= i < names.len() implies has_key(
            add_script_tasks(tasks, names, task_type),
            #[trigger] names[i],
        ) by {
            if i < front.len() {
                assert(front[i] == names[i]);
                assert(has_key(before, front[i]));
            }
        }
    } else {
        assert(tasks =~= tasks.subrange(0, tasks.len() as int));
    }
}

/// Within one resolved configuration a task name stands for one task,
/// whatever the engine and whatever was declared.
pub proof fn lemma_resolved_keys_unique(config_file: ConfigFileView, manifests: ManifestsView)
    ensures
        resolved_tasks(config_file, manifests) matches Ok(tasks) ==> unique_keys(tasks),
{
    let none = Seq::<ConfigTaskView>::empty();
    let explicit = add_shell_tasks(none, config_file.tasks);
    lemma_add_shell_tasks(none, config_file.tasks);
    match manifests.composer_json {
        ManifestView::Scripts(names) => {
            lemma_add_script_tasks(none, names, TaskType::COMPOSER);
            lemma_add_script_tasks(explicit, names, TaskType::COMPOSER);
            let with_composer = add_script_tasks(explicit, names, TaskType::COMPOSER);
            match manifests.package_json {
                ManifestView::Scripts(scripts) => {
                    lemma_add_script_tasks(
                        with_composer,
                        scripts,
                        node_manager(manifests.has_yarn_lock),
                    );
                },
                _ => {},
            }
        },
        _ => {},
    }
    match manifests.package_json {
        ManifestView::Scripts(scripts) => {
            lemma_add_script_tasks(none, scripts, TaskType::NPM);
            lemma_add_script_tasks(none, scripts, TaskType::YARN);
            lemma_add_script_tasks(explicit, scripts, node_manager(manifests.has_yarn_lock));
        },
        _ => {},
    }
}

/// Where the engine is left to be found out, a declared task wins over a
/// script of the same name: the resolved tasks start with the declared
/// ones, and what the manifests bring comes after.
pub proof fn lemma_declared_tasks_win(
    dir_path: Seq<char>,
    declared: Seq<(Seq<char>, Seq<char>)>,
    manifests: ManifestsView,
)
    ensures
        discovered_tasks(dir_path, declared, manifests) matches Ok(tasks) ==> add_shell_tasks(
            Seq::empty(),
            declared,
        ).is_prefix_of(tasks),
{
    let explicit = add_shell_tasks(Seq::empty(), declared);
    assert(explicit =~= explicit.subrange(0, explicit.len() as int));
    let composer_path = joined(dir_path, COMPOSER_JSON_FILE@);
    match with_optional(explicit, manifests.composer_json, composer_path, TaskType::COMPOSER) {
        Ok(with_composer) => {
            match manifests.composer_json {
                ManifestView::Scripts(names) => {
                    lemma_add_script_tasks(explicit, names, TaskType::COMPOSER);
                },
                _ => {},
            }
            match manifests.package_json {
                ManifestView::Scripts(scripts) => {
                    lemma_add_script_tasks(
                        with_composer,
                        scripts,
                        node_manager(manifests.has_yarn_lock),
                    );
                    lemma_prefix_chain(
                        explicit,
                        with_composer,
                        add_script_tasks(
                            with_composer,
                            scripts,
                            node_manager(manifests.has_yarn_lock),
                        ),
                    );
                },
                _ => {},
            }
        },
        Err(_) => {},
    }
}

/// Every script of a manifest that is taken has a task of its name.
pub proof fn lemma_scripts_become_tasks(
    tasks: Seq<ConfigTaskView>,
    names: Seq<Seq<char>>,
    task_type: TaskType,
    i: int,
)
    requires
        0 <= i < names.len(),
    ensures
        has_key(add_script_tasks(tasks, names, task_type), names[i]),
        !has_key(tasks, names[i]) ==> add_script_tasks(tasks, names, task_type).contains(
            script_task(names[i], task_type),
        ),
    decreases names.len(),
{
    lemma_add_script_tasks(tasks, names, task_type);
    let front = names.drop_last();
    let before = add_script_tasks(tasks, front, task_type);
    let now = add_script_tasks(tasks, names, task_type);
    let last = script_task(names.last(), task_type);
    lemma_add_task(before, last);
    if !has_key(tasks, names[i]) {
        if i < front.len() {
            lemma_scripts_become_tasks(tasks, front, task_type, i);
            assert(front[i] == names[i]);
            let k = choose|k: int|
                0 <= k < before.len() && before[k] == script_task(names[i], task_type);
            assert(before == now.subrange(0, before.len() as int));
            assert(now[k] == now.subrange(0, before.len() as int)[k]);
        } else {
            if has_key(before, names[i]) {
                lemma_key_from_scripts(tasks, front, task_type, names[i]);
            } else {
                assert(now[before.len() as int] == last);
            }
        }
    }
}

/// A task whose name was not taken before scripts were added is the task
/// of a script.
proof fn lemma_key_from_scripts(
    tasks: Seq<ConfigTaskView>,
    names: Seq<Seq<char>>,
    task_type: TaskType,
    key: Seq<char>,
)
    requires
        !has_key(tasks, key),
        has_key(add_script_tasks(tasks, names, task_type), key),
    ensures
        add_script_tasks(tasks, names, task_type).contains(script_task(key, task_type)),
    decreases names.len(),
{
    if names.len() > 0 {
        let front = names.drop_last();
        let before = add_script_tasks(tasks, front, task_type);
        let now = add_script_tasks(tasks, names, task_type);
        let last = script_task(names.last(), task_type);
        lemma_add_task(before, last);
        if has_key(before, key) {
            lemma_key_from_scripts(tasks, front, task_type, key);
            let k = choose|k: int|
                0 <= k < before.len() && before[k] == script_task(key, task_type);
            assert(before == now.subrange(0, before.len() as int));
            assert(now[k] == now.subrange(0, before.len() as int)[k]);
        } else {
            let k = choose|k: int| 0 <= k < now.len() && (#[trigger] now[k]).key == key;
            if k < before.len() {
                assert(before == now.subrange(0, before.len() as int));
                assert(before[k] == now.subrange(0, before.len() as int)[k]);
                assert(before[k].key == key);
            }
            assert(now[before.len() as int] == last);
        }
    }
}

/// Whether one of the declarations is of a task named `key`.
pub open spec fn declares(declared: Seq<(Seq<char>, Seq<char>)>, key: Seq<char>) -> bool {
    exists|i: int| 0 <= i < declared.len() && (#[trigger] declared[i]).0 == key
}

/// Whether the manifest is there, readable, and has a script named `key`.
pub open spec fn offers(manifest: ManifestView, key: Seq<char>) -> bool {
    manifest matches ManifestView::Scripts(names) && names.contains(key)
}

proof fn lemma_names_after_shell_tasks(
    tasks: Seq<ConfigTaskView>,
    declared: Seq<(Seq<char>, Seq<char>)>,
    key: Seq<char>,
)
    ensures
        has_key(add_shell_tasks(tasks, declared), key) <==> has_key(tasks, key) || declares(
            declared,
            key,
        ),
    decreases declared.len(),
{
    if declared.len() > 0 {
        let front = declared.drop_last();
        let before = add_shell_tasks(tasks, front);
        let last = shell_task(declared.last());
        lemma_names_after_shell_tasks(tasks, front, key);
        lemma_names_after_add(before, last, key);
        if declares(front, key) {
            let i = choose|i: int| 0 <= i < front.len() && (#[trigger] front[i]).0 == key;
            assert(declared[i].0 == key);
        }
        if declares(declared, key) {
            let i = choose|i: int| 0 <= i < declared.len() && (#[trigger] declared[i]).0 == key;
            if i < front.len() {
                assert(front[i].0 == key);
            }
        }
        if last.key == key {
            assert(declared[declared.len() - 1].0 == key);
        }
    }
}

proof fn lemma_names_after_script_tasks(
    tasks: Seq<ConfigTaskView>,
    names: Seq<Seq<char>>,
    task_type: TaskType,
    key: Seq<char>,
)
    ensures
        has_key(add_script_tasks(tasks, names, task_type), key) <==> has_key(tasks, key)
            || names.contains(key),
    decreases names.len(),
{
    if names.len() > 0 {
        let front = names.drop_last();
        let before = add_script_tasks(tasks, front, task_type);
        let last = script_task(names.last(), task_type);
        lemma_names_after_script_tasks(tasks, front, task_type, key);
        lemma_names_after_add(before, last, key);
        if front.contains(key) {
            let i = choose|i: int| 0 <= i < front.len() && front[i] == key;
            assert(names[i] == key);
        }
        if names.contains(key) {
            let i = choose|i: int| 0 <= i < names.len() && names[i] == key;
            if i < front.len() {
                assert(front[i] == key);
            }
        }
        if last.key == key {
            assert(names[names.len() - 1] == key);
        }
    }
}

proof fn lemma_names_after_add(tasks: Seq<ConfigTaskView>, task: ConfigTaskView, key: Seq<char>)
    ensures
        has_key(add_task(tasks, task), key) <==> has_key(tasks, key) || task.key == key,
{
    lemma_add_task(tasks, task);
    let added = add_task(tasks, task);
    if has_key(added, key) && !has_key(tasks, key) {
        let i = choose|i: int| 0 <= i < added.len() && (#[trigger] added[i]).key == key;
        if i < tasks.len() {
            assert(tasks[i].key == key);
        }
    }
}

/// Where the engine is left to be found out, the resolved tasks have the
/// names that are declared and the names of the scripts of the manifests
/// that are there, and no other.
pub proof fn lemma_discovered_names(
    dir_path: Seq<char>,
    declared: Seq<(Seq<char>, Seq<char>)>,
    manifests: ManifestsView,
    key: Seq<char>,
)
    ensures
        discovered_tasks(dir_path, declared, manifests) matches Ok(tasks) ==> (has_key(tasks, key)
            <==> declares(declared, key) || offers(manifests.composer_json, key) || offers(
            manifests.package_json,
            key,
        )),
{
    let none = Seq::<ConfigTaskView>::empty();
    let explicit = add_shell_tasks(none, declared);
    lemma_names_after_shell_tasks(none, declared, key);
    assert(!has_key(none, key));
    let with_composer = match manifests.composer_json {
        ManifestView::Scripts(names) => add_script_tasks(explicit, names, TaskType::COMPOSER),
        _ => explicit,
    };
    match manifests.composer_json {
        ManifestView::Scripts(names) => {
            lemma_names_after_script_tasks(explicit, names, TaskType::COMPOSER, key);
        },
        _ => {},
    }
    match manifests.package_json {
        ManifestView::Scripts(scripts) => {
            lemma_names_after_script_tasks(
                with_composer,
                scripts,
                node_manager(manifests.has_yarn_lock),
                key,
            );
        },
        _ => {},
    }
}

/// No two of the declarations are of the same name.
pub open spec fn distinct_names(declared: Seq<(Seq<char>, Seq<char>)>) -> bool {
    forall|i: int, j: int|
        0 <= i < j < declared.len() ==> (#[trigger] declared[i]).0 != (#[trigger] declared[j]).0
}

/// Each declaration as the shell task that it stands for, in order.
pub open spec fn shell_tasks(declared: Seq<(Seq<char>, Seq<char>)>) -> Seq<ConfigTaskView> {
    Seq::new(declared.len(), |i: int| shell_task(declared[i]))
}

/// Declarations as a mapping holds them, each name once, all become shell
/// tasks: in their order, with their names and commands as they stand.
pub proof fn lemma_distinct_declarations_kept(declared: Seq<(Seq<char>, Seq<char>)>)
    requires
        distinct_names(declared),
    ensures
        add_shell_tasks(Seq::empty(), declared) == shell_tasks(declared),
    decreases declared.len(),
{
    if declared.len() == 0 {
        assert(add_shell_tasks(Seq::empty(), declared) =~= shell_tasks(declared));
    } else {
        let front = declared.drop_last();
        let last = declared.last();
        assert forall|i: int, j: int| 0 <= i < j < front.len() implies (#[trigger] front[i]).0 != (
        #[trigger] front[j]).0 by {
            assert(front[i] == declared[i]);
            assert(front[j] == declared[j]);
        }
        lemma_distinct_declarations_kept(front);
        let before = shell_tasks(front);
        if has_key(before, last.0) {
            let i = choose|i: int| 0 <= i < before.len() && (#[trigger] before[i]).key == last.0;
            assert(declared[i].0 != declared[declared.len() - 1].0);
        }
        assert(before.push(shell_task(last)) =~= shell_tasks(declared));
    }
}

/// Resolving fails only for a manifest that is missing or unreadable.
pub proof fn lemma_resolving_kinds(sources: Seq<ConfigSourceView>, upto: int)
    ensures
        resolved_all(sources, upto) matches Err(failure) ==> failure.kind
            == ErrorKind::PathNotFound || failure.kind == ErrorKind::Parse,
    decreases upto,
{
    if upto > 0 {
        lemma_resolving_kinds(sources, upto - 1);
    }
}

} // verus!
