//! Running a task: from the loaded configurations to the batches to run.

use vstd::prelude::*;
use crate::engine::{
    lemma_resolving_kinds, parse_config_files, resolved_all, ConfigSource, ConfigSourceView,
};
use crate::error::{ErrorKind, Failure, RaskError};
use crate::execution::{begin, Execution, ExecutionView};
use crate::select::{lemma_select_succeeds, resolve_sortable_task, select, MatchMode};
use crate::structure::{
    lemma_building_kinds, lemma_linking_kinds, linked, path_map, resolve_config_structure,
    resolve_structure,
};

verus! {

/// What was asked for on the command line.
#[derive(Debug, PartialEq, Eq)]
pub struct Arguments {
    /// Which task to run.
    pub task_name: String,
    /// The entry directory or configuration file.
    pub entry: Option<String>,
    /// Whether the tasks of one level run at once.
    pub parallel: bool,
    /// Whether a task is meant only where its name is the one given.
    pub strict: bool,
}

/// Mathematical model of [`Arguments`].
pub struct ArgumentsView {
    pub task_name: Seq<char>,
    pub entry: Option<Seq<char>>,
    pub parallel: bool,
    pub strict: bool,
}

impl View for Arguments {
    type V = ArgumentsView;

    open spec fn view(&self) -> ArgumentsView {
        ArgumentsView {
            task_name: self.task_name@,
            entry: self.entry.deep_view(),
            parallel: self.parallel,
            strict: self.strict,
        }
    }
}

/// The entry to start from: the one given, or the current directory.
pub open spec fn entry_of(arguments: ArgumentsView) -> Seq<char> {
    match arguments.entry {
        Some(entry) => entry,
        None => "."@,
    }
}

/// How names are matched.
pub open spec fn mode_of(arguments: ArgumentsView) -> MatchMode {
    if arguments.strict {
        MatchMode::Exact
    } else {
        MatchMode::Prefix
    }
}

/// The run that the arguments ask for, over the configurations `sources`
/// with the entry configuration at `entry_config_path`: the configurations
/// are resolved, put into their tree, the tasks meant are selected, and
/// their batches laid out. The first step that fails gives the failure.
pub open spec fn planned(
    arguments: ArgumentsView,
    entry_config_path: Seq<char>,
    sources: Seq<ConfigSourceView>,
) -> Result<ExecutionView, Failure> {
    match resolved_all(sources, sources.len() as int) {
        Err(failure) => Err(failure),
        Ok(configs) => match resolve_structure(entry_config_path, configs) {
            Err(failure) => Err(failure),
            Ok(structure) => match select(
                structure,
                arguments.task_name,
                mode_of(arguments),
                0,
            ) {
                Err(failure) => Err(failure),
                Ok(tasks) => Ok(begin(tasks, arguments.parallel)),
            },
        },
    }
}

/// Resolving configurations and building their tree never fails for a
/// tree being too deep.
proof fn lemma_no_tree_too_deep(sources: Seq<ConfigSourceView>, entry: Seq<char>)
    ensures
        resolved_all(sources, sources.len() as int) matches Err(failure) ==> failure.kind
            != ErrorKind::TooDeep,
        resolved_all(sources, sources.len() as int) matches Ok(configs) ==> (resolve_structure(
            entry,
            configs,
        ) matches Err(failure) ==> failure.kind != ErrorKind::TooDeep),
{
    lemma_resolving_kinds(sources, sources.len() as int);
    if resolved_all(sources, sources.len() as int) is Ok {
        let configs = resolved_all(sources, sources.len() as int)->Ok_0;
        let map = path_map(configs);
        assert forall|i: int| 0 <= i < linked(configs).len() implies ((
        #[trigger] linked(configs)[i]).children matches Err(failure) ==> failure.kind
            == ErrorKind::GlobPattern) by {
            lemma_linking_kinds(map, map[i], map[i].directories.len() as int);
        }
        lemma_building_kinds(linked(configs), entry, 0);
    }
}

/// The model of what preparing a run returned.
pub open spec fn prepare_result(prepared: Result<Execution, RaskError>) -> Result<
    ExecutionView,
    Failure,
> {
    match prepared {
        Ok(execution) => Ok(execution@),
        Err(error) => Err(error@),
    }
}

/// The entry to start from: the one given, or the current directory.
pub fn entry(arguments: &Arguments) -> (entry: String)
    ensures
        entry@ == entry_of(arguments@),
{
    match &arguments.entry {
        Some(entry) => entry.clone(),
        None => String::from_str("."),
    }
}

/// Prepares the run that the arguments ask for. Nothing is run where any
/// step fails. Selecting never fails in a tree that was built here, so that
/// the failures are those of resolving the configurations and of building
/// the tree.
pub fn prepare(
    arguments: &Arguments,
    entry_config_path: &String,
    sources: Vec<ConfigSource>,
) -> (prepared: Result<Execution, RaskError>)
    ensures
        prepare_result(prepared) == planned(
            arguments@,
            entry_config_path@,
            sources.deep_view(),
        ),
        prepared matches Err(error) ==> error@.kind != ErrorKind::TooDeep,
{
    proof {
        lemma_no_tree_too_deep(sources.deep_view(), entry_config_path@);
    }
    let configs = match parse_config_files(sources) {
        Ok(configs) => configs,
        Err(error) => {
            return Err(error);
        },
    };
    let config_structure = match resolve_config_structure(entry_config_path, configs) {
        Ok(config_structure) => config_structure,
        Err(error) => {
            return Err(error);
        },
    };
    proof {
        lemma_select_succeeds(config_structure@, arguments@.task_name, mode_of(arguments@), 0);
    }
    let sortable_tasks = match resolve_sortable_task(
        config_structure,
        &arguments.task_name,
        arguments.strict,
    ) {
        Ok(sortable_tasks) => sortable_tasks,
        Err(error) => {
            return Err(error);
        },
    };
    Ok(Execution::new(&sortable_tasks, arguments.parallel))
}

} // verus!
