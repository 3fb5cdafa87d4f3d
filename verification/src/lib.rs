//! Task orchestration for a tree of directories annotated with `rask.yaml`
//! files.
//!
//! A run starts at an entry configuration. [`discovery`] finds every
//! configuration that the entry leads to, [`file`] turns what each file says
//! into a record, [`engine`] resolves the tasks of each record, [`structure`]
//! puts the configurations into the tree that their directory patterns
//! describe, [`select`] picks the tasks that are meant and orders them by
//! depth, and [`execution`] lays out the batches in which they run, deepest
//! first.
//!
//! The library touches neither the file system nor any process. Whatever
//! has to be looked up or run is handed out as a plain value and taken back
//! as one, so that every decision is made here and each of them has its
//! contract.

pub mod commands;
pub mod config;
pub mod discovery;
pub mod engine;
pub mod entry;
pub mod error;
pub mod execution;
pub mod file;
pub mod glob;
pub mod listing;
pub mod path;
pub mod select;
pub mod structure;
pub mod task;
