//! Glob matching of configuration paths, done by the `globset` crate.
//!
//! What a glob accepts and what it matches is that crate's business. Its
//! answers are named here, as functions of what the glob was made from and
//! of the path text, so that the rest of the library can say exactly which
//! calls it makes and what it does with the answers.
//!
//! Every glob in this library is made by [`PathMatcher::compile`]: parsed
//! by a `GlobBuilder` on which nothing is set but whether a separator has
//! to be matched by a separator, and that is always asked for, so that `*`
//! stays within one directory name as it does when patterns are expanded on
//! the file system. The names below speak of globs made in this way only;
//! a glob made with other options would match otherwise. What the crate
//! answers is fixed for one build of it; it treats backslashes and
//! separators differently on targets whose separator is not `/`.

use vstd::prelude::*;
use globset::{Glob, GlobBuilder, GlobSet, GlobSetBuilder};
use crate::error::{ErrorKind, Failure, RaskError};

verus! {

#[verifier::external_type_specification]
#[verifier::external_body]
pub struct ExGlob(Glob);

#[verifier::external_type_specification]
#[verifier::external_body]
pub struct ExGlobSetBuilder(GlobSetBuilder);

#[verifier::external_type_specification]
#[verifier::external_body]
pub struct ExGlobSet(GlobSet);

#[verifier::external_type_specification]
#[verifier::external_body]
pub struct ExGlobError(globset::Error);

/// Whether `globset::GlobBuilder::build` returns a glob for `pattern`,
/// with separators literal or not.
pub uninterp spec fn glob_parses(pattern: Seq<char>, literal_separator: bool) -> bool;

/// What a glob holds: the pattern text that it was parsed from, and
/// whether separators are literal in it.
pub uninterp spec fn glob_source(glob: Glob) -> (Seq<char>, bool);

/// What a builder holds: what each of its globs was made from, in the
/// order in which they were added.
pub uninterp spec fn builder_globs(builder: GlobSetBuilder) -> Seq<(Seq<char>, bool)>;

/// Whether `globset::GlobSetBuilder::build` returns a set for a builder
/// that holds globs made from these.
pub uninterp spec fn globs_compile(globs: Seq<(Seq<char>, bool)>) -> bool;

/// What a set holds: what each of the globs that it was built from was
/// made from, in order.
pub uninterp spec fn set_globs(set: GlobSet) -> Seq<(Seq<char>, bool)>;

/// What `globset::GlobSet::is_match` returns for `path`, on a set built
/// from globs made from these.
pub uninterp spec fn set_matches(globs: Seq<(Seq<char>, bool)>, path: Seq<char>) -> bool;

/// What formatting a `globset::Error` with `{:?}` gives.
pub uninterp spec fn error_text(error: globset::Error) -> Seq<char>;

/// The text of the error with which `globset::GlobBuilder::build` refuses
/// `pattern`.
pub uninterp spec fn parse_complaint(pattern: Seq<char>, literal_separator: bool) -> Seq<char>;

/// The text of the error with which `globset::GlobSetBuilder::build`
/// refuses globs made from these.
pub uninterp spec fn compile_complaint(globs: Seq<(Seq<char>, bool)>) -> Seq<char>;

/// Whether `pattern` can be turned into a matcher.
pub open spec fn glob_usable(pattern: Seq<char>) -> bool {
    glob_parses(pattern, true) && globs_compile(seq![(pattern, true)])
}

/// What is wrong with a pattern that cannot be turned into a matcher.
pub open spec fn glob_complaint(pattern: Seq<char>) -> Seq<char> {
    if !glob_parses(pattern, true) {
        parse_complaint(pattern, true)
    } else {
        compile_complaint(seq![(pattern, true)])
    }
}

/// Whether the glob written as `pattern` matches `path`.
pub open spec fn glob_matches(pattern: Seq<char>, path: Seq<char>) -> bool {
    set_matches(seq![(pattern, true)], path)
}

/// Calls `globset::GlobBuilder::build` on a builder made for `pattern` by
/// `GlobBuilder::new`, with `GlobBuilder::literal_separator` set as given
/// and every other option left as it is. Trusted: whether it succeeds, and
/// the error with which it fails, depend on the pattern text and the option
/// alone, and the glob it returns keeps both.
#[verifier::external_body]
fn parse_glob(pattern: &str, literal_separator: bool) -> (parsed: Result<Glob, globset::Error>)
    ensures
        parsed is Ok <==> glob_parses(pattern@, literal_separator),
        parsed matches Ok(glob) ==> glob_source(glob) == (pattern@, literal_separator),
        parsed matches Err(error) ==> error_text(error) == parse_complaint(
            pattern@,
            literal_separator,
        ),
{
    GlobBuilder::new(pattern).literal_separator(literal_separator).build()
}

/// Calls `globset::GlobSetBuilder::new`. Trusted: the new builder holds no
/// glob.
#[verifier::external_body]
fn new_builder() -> (builder: GlobSetBuilder)
    ensures
        builder_globs(builder) == Seq::<(Seq<char>, bool)>::empty(),
{
    GlobSetBuilder::new()
}

/// Calls `globset::GlobSetBuilder::add`. Trusted: the builder then holds the
/// globs it held, followed by `glob`.
#[verifier::external_body]
fn builder_add(builder: &mut GlobSetBuilder, glob: Glob)
    ensures
        builder_globs(*final(builder)) == builder_globs(*old(builder)).push(glob_source(glob)),
{
    builder.add(glob);
}

/// Calls `globset::GlobSetBuilder::build`, which compiles the globs held
/// into a set and leaves the builder as it is. Trusted: whether it
/// succeeds, and the error with which it fails, depend on the globs held
/// alone, and the set is built from exactly those.
#[verifier::external_body]
fn builder_build(builder: &GlobSetBuilder) -> (built: Result<GlobSet, globset::Error>)
    ensures
        built is Ok <==> globs_compile(builder_globs(*builder)),
        built matches Ok(set) ==> set_globs(set) == builder_globs(*builder),
        built matches Err(error) ==> error_text(error) == compile_complaint(
            builder_globs(*builder),
        ),
{
    builder.build()
}

/// Calls `globset::GlobSet::is_match`, which tells whether any glob of the
/// set matches `path`. Trusted: the answer depends on the globs of the set
/// and on the path text alone.
#[verifier::external_body]
fn set_is_match(set: &GlobSet, path: &str) -> (matched: bool)
    ensures
        matched == set_matches(set_globs(*set), path@),
{
    set.is_match(path)
}

/// Formats a `globset::Error` with `{:?}`, through its `Debug` impl.
/// Trusted: the text is the one named for the error.
#[verifier::external_body]
fn glob_error_message(error: &globset::Error) -> (message: String)
    ensures
        message@ == error_text(*error),
{
    format!("{:?}", error)
}

/// A compiled directory pattern.
#[derive(Debug)]
pub struct PathMatcher {
    set: GlobSet,
}

impl PathMatcher {
    /// The pattern text that the matcher was compiled from.
    pub closed spec fn pattern(&self) -> Seq<char> {
        set_globs(self.set)[0].0
    }

    /// A matcher holds exactly one glob, in which separators are literal.
    #[verifier::type_invariant]
    spec fn single_glob(&self) -> bool {
        set_globs(self.set).len() == 1 && set_globs(self.set)[0].1
    }

    /// Compiles `pattern` into a matcher in which a separator is matched
    /// by a separator only. Fails with `GlobPattern`, about `pattern`,
    /// exactly where the pattern is not usable as a glob; the detail is
    /// the glob parser's error.
    pub fn compile(pattern: &str) -> (compiled: Result<PathMatcher, RaskError>)
        ensures
            compiled is Ok <==> glob_usable(pattern@),
            compiled matches Ok(matcher) ==> matcher.pattern() == pattern@,
            compiled matches Err(error) ==> error@ == (Failure {
                kind: ErrorKind::GlobPattern,
                subject: pattern@,
                detail: glob_complaint(pattern@),
            }),
    {
        let glob = match parse_glob(pattern, true) {
            Ok(glob) => glob,
            Err(error) => {
                return Err(
                    RaskError::with_detail(
                        ErrorKind::GlobPattern,
                        pattern,
                        glob_error_message(&error),
                    ),
                );
            },
        };
        let mut builder = new_builder();
        builder_add(&mut builder, glob);
        assert(builder_globs(builder) =~= seq![(pattern@, true)]);
        match builder_build(&builder) {
            Ok(set) => Ok(PathMatcher { set }),
            Err(error) => Err(
                RaskError::with_detail(ErrorKind::GlobPattern, pattern, glob_error_message(&error)),
            ),
        }
    }

    /// Whether the pattern matches `path`.
    pub fn is_match(&self, path: &str) -> (matched: bool)
        ensures
            matched == glob_matches(self.pattern(), path@),
    {
        proof {
            use_type_invariant(self);
            assert(set_globs(self.set) =~= seq![(self.pattern(), true)]);
        }
        set_is_match(&self.set, path)
    }
}

} // verus!
