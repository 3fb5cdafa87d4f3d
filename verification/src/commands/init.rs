//! Setting up a new configuration file.

use vstd::prelude::*;
use crate::error::{failure, ErrorKind, Failure, RaskError};
use crate::file::{ConfigFile, ConfigFileView, TaskEngine};
use crate::path::{
    file_name, join_path, joined, name_of, parent_dir, parent_of, DEFAULT_CONFIG_FILENAME,
};

verus! {

/// What was asked for on the command line.
#[derive(Debug, PartialEq, Eq)]
pub struct Arguments {
    /// Which directory to set up.
    pub entry: String,
    /// The name of the configuration; empty for the directory's name.
    pub name: String,
}

/// Where the new file goes: into the entry where that is a directory, at
/// the entry itself otherwise.
pub open spec fn target_of(full_path: Seq<char>, is_directory: bool) -> Seq<char> {
    if is_directory {
        joined(full_path, DEFAULT_CONFIG_FILENAME@)
    } else {
        full_path
    }
}

/// The name that a configuration at `target` gets where none is given:
/// the name of the directory that holds it.
pub open spec fn default_name(target: Seq<char>) -> Option<Seq<char>> {
    match parent_of(target) {
        None => None,
        Some(directory) => if name_of(directory).len() == 0 {
            None
        } else {
            Some(name_of(directory))
        },
    }
}

/// The record of the new configuration, to be written at `target`.
pub open spec fn new_record(name: Seq<char>, target: Seq<char>, exists: bool) -> Result<
    ConfigFileView,
    Failure,
> {
    if exists {
        Err(failure(ErrorKind::AlreadyInitialised, target))
    } else if name.len() == 0 && default_name(target) is None {
        Err(failure(ErrorKind::NoParentDirectory, target))
    } else {
        Ok(
            ConfigFileView {
                name: if name.len() == 0 {
                    default_name(target)->0
                } else {
                    name
                },
                task_engine: TaskEngine::AUTO,
                directories: Seq::empty(),
                tasks: Seq::empty(),
                file_path: Seq::empty(),
                dir_path: Seq::empty(),
            },
        )
    }
}

/// The model of what setting up returned.
pub open spec fn record_result(made: Result<ConfigFile, RaskError>) -> Result<
    ConfigFileView,
    Failure,
> {
    match made {
        Ok(config_file) => Ok(config_file@),
        Err(error) => Err(error@),
    }
}

/// Where the new file goes.
pub fn target_path(full_path: String, is_directory: bool) -> (target: String)
    ensures
        target@ == target_of(full_path@, is_directory),
{
    if is_directory {
        join_path(full_path.as_str(), DEFAULT_CONFIG_FILENAME)
    } else {
        full_path
    }
}

/// Makes the record of a new configuration to be written at `target`.
///
/// Fails with `AlreadyInitialised` where something is at `target` already,
/// and with `NoParentDirectory` where no name is given and the target lies
/// in no named directory.
pub fn new_config(
    arguments: &Arguments,
    target: &str,
    exists: bool,
) -> (made: Result<ConfigFile, RaskError>)
    ensures
        record_result(made) == new_record(arguments.name@, target@, exists),
{
    if exists {
        return Err(RaskError::new(ErrorKind::AlreadyInitialised, target));
    }
    if !arguments.name.as_str().is_empty() {
        return Ok(ConfigFile::new(arguments.name.clone()));
    }
    let config_name = match parent_dir(target) {
        None => {
            return Err(RaskError::new(ErrorKind::NoParentDirectory, target));
        },
        Some(directory) => file_name(directory.as_str()),
    };
    if config_name.as_str().is_empty() {
        return Err(RaskError::new(ErrorKind::NoParentDirectory, target));
    }
    Ok(ConfigFile::new(config_name))
}

} // verus!
