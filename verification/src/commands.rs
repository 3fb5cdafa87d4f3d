//! What each command decides, once the file system has been looked at.

pub mod init;
pub mod list;
pub mod run;
