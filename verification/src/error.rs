//! The ways in which resolving a task can fail before anything is run.

use vstd::prelude::*;

verus! {

/// What went wrong.
#[derive(Debug, Clone, Copy, PartialEq, Eq, Structural)]
pub enum ErrorKind {
    /// A path that is needed does not exist: the entry, a manifest that an
    /// engine cannot do without, or the configuration file of a directory,
    /// in which case the error is about the directory. The detail, where
    /// there is one, is the message in the words of whoever looked.
    PathNotFound,
    /// A configuration or a manifest does not hold what it should. The
    /// detail says what is wrong with it.
    Parse,
    /// A directory pattern is not a valid glob. The detail is what the glob
    /// parser has to say.
    GlobPattern,
    /// A configuration path was asked for that is not among the loaded ones.
    UnknownConfigPath,
    /// A configuration is nested, through its directory patterns, inside itself.
    CyclicStructure,
    /// A directory was expected.
    NotADirectory,
    /// A path names nothing inside a named directory.
    NoParentDirectory,
    /// A tree is nested deeper than an order can count.
    TooDeep,
    /// A configuration file is already where a new one was to be written.
    AlreadyInitialised,
    /// Two configurations have a task of the same name.
    SharedTaskName,
}

/// A failure: its kind, the path, pattern or name it is about, and whatever
/// more is known about the cause.
#[derive(Debug, PartialEq, Eq)]
pub struct RaskError {
    pub kind: ErrorKind,
    pub subject: String,
    pub detail: String,
}

/// Mathematical model of a [`RaskError`].
pub struct Failure {
    pub kind: ErrorKind,
    pub subject: Seq<char>,
    pub detail: Seq<char>,
}

impl View for RaskError {
    type V = Failure;

    open spec fn view(&self) -> Failure {
        Failure { kind: self.kind, subject: self.subject@, detail: self.detail@ }
    }
}

/// A failure of `kind` about `subject` of which no more is known.
pub open spec fn failure(kind: ErrorKind, subject: Seq<char>) -> Failure {
    Failure { kind, subject, detail: Seq::empty() }
}

/// What formatting with `{:?}` makes of a text: the text between double
/// quotes, with the characters escaped that Rust escapes there.
pub uninterp spec fn debug_text(text: Seq<char>) -> Seq<char>;

/// Formats `text` with `{:?}`, through the `Debug` impl of `str`. Trusted:
/// the outcome depends on the text alone.
#[verifier::external_body]
pub(crate) fn quote(text: &str) -> (quoted: String)
    ensures
        quoted@ == debug_text(text@),
{
    format!("{:?}", text)
}

/// The text of an error message.
pub open spec fn message_text(kind: ErrorKind, subject: Seq<char>, detail: Seq<char>) -> Seq<char> {
    match kind {
        ErrorKind::PathNotFound => if detail.len() == 0 {
            "Target does not exists: "@ + debug_text(subject)
        } else {
            detail
        },
        ErrorKind::Parse => detail,
        ErrorKind::GlobPattern => "Failed to create glob pattern: "@ + detail,
        ErrorKind::UnknownConfigPath => "Unknown config path"@,
        ErrorKind::CyclicStructure => "Config includes itself: "@ + debug_text(subject),
        ErrorKind::NotADirectory => "\""@ + debug_text(subject) + "\" is not a directory"@,
        ErrorKind::NoParentDirectory => "Failed to get parent directory"@,
        ErrorKind::TooDeep => "Nested too deep: "@ + debug_text(subject),
        ErrorKind::AlreadyInitialised => "Rask already initialised at "@ + debug_text(subject),
        ErrorKind::SharedTaskName => "Task name is used more than once: "@ + debug_text(subject),
    }
}

impl Clone for RaskError {
    fn clone(&self) -> (copy: RaskError)
        ensures
            copy == *self,
    {
        RaskError { kind: self.kind, subject: self.subject.clone(), detail: self.detail.clone() }
    }
}

impl RaskError {
    /// An error of `kind` about `subject`, with no further detail.
    pub fn new(kind: ErrorKind, subject: &str) -> (error: RaskError)
        ensures
            error@ == failure(kind, subject@),
    {
        RaskError { kind, subject: String::from_str(subject), detail: String::new() }
    }

    /// An error of `kind` about `subject`, with what more is known.
    pub fn with_detail(kind: ErrorKind, subject: &str, detail: String) -> (error: RaskError)
        ensures
            error@ == (Failure { kind, subject: subject@, detail: detail@ }),
    {
        RaskError { kind, subject: String::from_str(subject), detail }
    }

    /// A one-line, human-readable description of the failure.
    pub fn message(&self) -> (text: String)
        ensures
            text@ == message_text(self.kind, self.subject@, self.detail@),
    {
        let subject = quote(self.subject.as_str());
        match self.kind {
            ErrorKind::PathNotFound => {
                if self.detail.as_str().is_empty() {
                    String::from_str("Target does not exists: ").concat(subject.as_str())
                } else {
                    self.detail.clone()
                }
            },
            ErrorKind::Parse => self.detail.clone(),
            ErrorKind::GlobPattern => String::from_str("Failed to create glob pattern: ").concat(
                self.detail.as_str(),
            ),
            ErrorKind::UnknownConfigPath => String::from_str("Unknown config path"),
            ErrorKind::CyclicStructure => String::from_str("Config includes itself: ").concat(
                subject.as_str(),
            ),
            ErrorKind::NotADirectory => String::from_str("\"").concat(subject.as_str()).concat(
                "\" is not a directory",
            ),
            ErrorKind::NoParentDirectory => String::from_str("Failed to get parent directory"),
            ErrorKind::TooDeep => String::from_str("Nested too deep: ").concat(subject.as_str()),
            ErrorKind::AlreadyInitialised => String::from_str(
                "Rask already initialised at ",
            ).concat(subject.as_str()),
            ErrorKind::SharedTaskName => String::from_str(
                "Task name is used more than once: ",
            ).concat(subject.as_str()),
        }
    }
}

} // verus!
