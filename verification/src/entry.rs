//! Finding the configuration file that an entry names.
//!
//! An entry is a path to a configuration file or to a directory that holds
//! one. What the file system says of the entry is looked up by the caller;
//! which file the entry stands for is decided here.

use vstd::prelude::*;
use crate::error::{debug_text, failure, quote, ErrorKind, Failure, RaskError};
use crate::path::{join_path, joined, DEFAULT_CONFIG_FILENAME};

verus! {

/// What is said of a directory that holds no configuration file, up to the
/// directory's path.
pub const NO_CONFIG_FILE_TEXT: &'static str =
    "Unable to find a config file (\"[\"rask.yaml\"]\") in ";

/// The model of what resolving a path returned.
pub open spec fn path_result(found: Result<String, RaskError>) -> Result<Seq<char>, Failure> {
    match found {
        Ok(path) => Ok(path@),
        Err(error) => Err(error@),
    }
}

/// The configuration file of the directory `directory_path`, given whether
/// the path names a directory and whether the file is there.
pub open spec fn config_file_in(
    directory_path: Seq<char>,
    is_directory: bool,
    has_config_file: bool,
) -> Result<Seq<char>, Failure> {
    if !is_directory {
        Err(failure(ErrorKind::NotADirectory, directory_path))
    } else if !has_config_file {
        Err(
            Failure {
                kind: ErrorKind::PathNotFound,
                subject: directory_path,
                detail: NO_CONFIG_FILE_TEXT@ + debug_text(directory_path),
            },
        )
    } else {
        Ok(joined(directory_path, DEFAULT_CONFIG_FILENAME@))
    }
}

/// The configuration file that `entry` stands for, given the resolved path
/// of the entry where it exists.
pub open spec fn config_path_of(
    entry: Seq<char>,
    full_path: Option<Seq<char>>,
    is_directory: bool,
    has_config_file: bool,
) -> Result<Seq<char>, Failure> {
    match full_path {
        None => Err(failure(ErrorKind::PathNotFound, entry)),
        Some(path) => if is_directory {
            config_file_in(path, true, has_config_file)
        } else {
            Ok(path)
        },
    }
}

/// The path at which the configuration file of `directory_path` lies, if
/// the directory has one.
pub fn default_config_path(directory_path: &str) -> (path: String)
    ensures
        path@ == joined(directory_path@, DEFAULT_CONFIG_FILENAME@),
{
    join_path(directory_path, DEFAULT_CONFIG_FILENAME)
}

/// Finds the configuration file of a directory.
///
/// Fails with `NotADirectory` where the path does not name a directory,
/// and with `PathNotFound`, about the directory, where the directory holds
/// no configuration file; the detail then names the file looked for and
/// the directory.
pub fn find_config_file(
    directory_path: &str,
    is_directory: bool,
    has_config_file: bool,
) -> (found: Result<String, RaskError>)
    ensures
        path_result(found) == config_file_in(directory_path@, is_directory, has_config_file),
{
    if !is_directory {
        return Err(RaskError::new(ErrorKind::NotADirectory, directory_path));
    }
    if has_config_file {
        Ok(default_config_path(directory_path))
    } else {
        Err(
            RaskError::with_detail(
                ErrorKind::PathNotFound,
                directory_path,
                String::from_str(NO_CONFIG_FILE_TEXT).concat(quote(directory_path).as_str()),
            ),
        )
    }
}

/// Resolves an entry to the path of its configuration file: the resolved
/// path itself where it names a file, the configuration file inside it
/// where it names a directory.
///
/// `full_path` is the resolved, absolute path of `entry`, or `None` where
/// the entry does not exist, which fails with `PathNotFound`.
pub fn resolve_config_path(
    entry: &str,
    full_path: Option<String>,
    is_directory: bool,
    has_config_file: bool,
) -> (found: Result<String, RaskError>)
    ensures
        path_result(found) == config_path_of(
            entry@,
            full_path.deep_view(),
            is_directory,
            has_config_file,
        ),
{
    match full_path {
        None => Err(RaskError::new(ErrorKind::PathNotFound, entry)),
        Some(path) => {
            if is_directory {
                find_config_file(path.as_str(), true, has_config_file)
            } else {
                Ok(path)
            }
        },
    }
}

} // verus!
