//! Listing the tasks that can be run.

use vstd::prelude::*;
use crate::engine::{parse_config_files, resolved_all, ConfigSource, ConfigSourceView};
use crate::error::{Failure, RaskError};
use crate::listing::{get_config_tasks, task_names};

verus! {

/// What was asked for on the command line.
#[derive(Debug, PartialEq, Eq)]
pub struct Arguments {
    /// The entry directory or configuration file.
    pub entry: Option<String>,
}

/// The entry to start from: the one given, or the current directory.
pub open spec fn entry_of(entry: Option<Seq<char>>) -> Seq<char> {
    match entry {
        Some(entry) => entry,
        None => "."@,
    }
}

/// The task names that the configurations `sources` offer.
pub open spec fn offered(sources: Seq<ConfigSourceView>) -> Result<Seq<Seq<char>>, Failure> {
    match resolved_all(sources, sources.len() as int) {
        Err(failure) => Err(failure),
        Ok(configs) => Ok(task_names(configs, configs.len() as int)),
    }
}

/// The model of what listing returned.
pub open spec fn names_result(listed: Result<Vec<String>, RaskError>) -> Result<
    Seq<Seq<char>>,
    Failure,
> {
    match listed {
        Ok(names) => Ok(names.deep_view()),
        Err(error) => Err(error@),
    }
}

/// The entry to start from: the one given, or the current directory.
pub fn entry(arguments: &Arguments) -> (entry: String)
    ensures
        entry@ == entry_of(arguments.entry.deep_view()),
{
    match &arguments.entry {
        Some(entry) => entry.clone(),
        None => String::from_str("."),
    }
}

/// Lists the names of the tasks that the configurations `sources` offer,
/// each once, in the order in which they first occur.
pub fn available_tasks(sources: Vec<ConfigSource>) -> (listed: Result<Vec<String>, RaskError>)
    ensures
        names_result(listed) == offered(sources.deep_view()),
{
    match parse_config_files(sources) {
        Err(error) => Err(error),
        Ok(configs) => get_config_tasks(&configs),
    }
}

} // verus!
