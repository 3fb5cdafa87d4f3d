//! Paths as text.
//!
//! Configuration paths are absolute, resolved paths written with `/` as the
//! separator. They are kept as strings, and the few operations on them that
//! the orchestrator needs are defined here on their characters.

use vstd::prelude::*;

verus! {

/// The name of a configuration file inside its directory.
pub const DEFAULT_CONFIG_FILENAME: &'static str = "rask.yaml";

/// The extension that marks a pattern as already naming a configuration file.
pub const CONFIG_EXTENSION: &'static str = ".yaml";

/// `rel` resolved against `base`: `rel` itself where it is absolute,
/// otherwise `base` and `rel` with exactly one separator put between them
/// unless `base` is empty or brings its own.
pub open spec fn joined(base: Seq<char>, rel: Seq<char>) -> Seq<char> {
    if rel.len() > 0 && rel[0] == '/' {
        rel
    } else if base.len() == 0 || base.last() == '/' {
        base + rel
    } else {
        base + seq!['/'] + rel
    }
}

/// The directory part of `path`: the text before its last separator, `/`
/// itself where that separator starts the path, and the empty text where
/// the path holds no separator. The empty path and the root have none.
pub open spec fn parent_of(path: Seq<char>) -> Option<Seq<char>> {
    if path.len() == 0 || path == seq!['/'] {
        None
    } else if !path.contains('/') {
        Some(Seq::empty())
    } else {
        let cut = last_separator(path);
        if cut == 0 {
            Some(seq!['/'])
        } else {
            Some(path.subrange(0, cut))
        }
    }
}

/// The position of the last `/` in `path`, or -1 where it holds none.
pub open spec fn last_separator(path: Seq<char>) -> int
    decreases path.len(),
{
    if path.len() == 0 {
        -1
    } else if path.last() == '/' {
        path.len() - 1
    } else {
        last_separator(path.drop_last())
    }
}

/// The directory that holds the file at `path`, as far as the text tells:
/// its directory part, or the empty text where it has none.
pub open spec fn dir_of(path: Seq<char>) -> Seq<char> {
    match parent_of(path) {
        Some(directory) => directory,
        None => Seq::empty(),
    }
}

/// The last component of `path`: the text after its last separator, or all
/// of it where it holds none.
pub open spec fn name_of(path: Seq<char>) -> Seq<char> {
    path.subrange(last_separator(path) + 1, path.len() as int)
}

/// The pattern that finds the configuration files which `glob_pattern`,
/// declared by a configuration in directory `root_path`, refers to.
pub open spec fn config_glob_pattern(root_path: Seq<char>, glob_pattern: Seq<char>) -> Seq<char> {
    let pattern = joined(root_path, glob_pattern);
    if CONFIG_EXTENSION@.is_suffix_of(pattern) {
        pattern
    } else {
        joined(pattern, DEFAULT_CONFIG_FILENAME@)
    }
}

/// `last_separator` is the position of a `/` after which none follows.
pub proof fn lemma_last_separator(path: Seq<char>)
    ensures
        -1 <= last_separator(path) < path.len(),
        last_separator(path) >= 0 ==> path[last_separator(path)] == '/',
        forall|i: int| last_separator(path) < i < path.len() ==> path[i] != '/',
        last_separator(path) == -1 <==> !path.contains('/'),
    decreases path.len(),
{
    if path.len() > 0 && path.last() != '/' {
        lemma_last_separator(path.drop_last());
        let rest = path.drop_last();
        if last_separator(rest) >= 0 {
            assert(path[last_separator(rest)] == '/');
        }
        if path.contains('/') {
            let i = choose|i: int| 0 <= i < path.len() && path[i] == '/';
            assert(rest[i] == '/');
        }
        assert forall|i: int| last_separator(path) < i < path.len() implies path[i] != '/' by {
            if i < rest.len() {
                assert(rest[i] != '/');
            }
        }
    } else if path.len() > 0 {
        assert(path[path.len() - 1] == '/');
    }
}

/// Whether `left` and `right` are the same text.
pub fn same_text(left: &str, right: &str) -> (same: bool)
    ensures
        same == (left@ == right@),
{
    let same = left.unicode_len() == right.unicode_len() && starts_with(left, right);
    proof {
        if same {
            assert(left@.subrange(0, left@.len() as int) =~= left@);
        }
        if left@ == right@ {
            assert(right@.subrange(0, right@.len() as int) =~= right@);
        }
    }
    same
}

/// Whether `text` ends with `suffix`.
pub fn ends_with(text: &str, suffix: &str) -> (found: bool)
    ensures
        found == suffix@.is_suffix_of(text@),
{
    let n = text.unicode_len();
    let m = suffix.unicode_len();
    if m > n {
        return false;
    }
    let start = n - m;
    let mut i: usize = 0;
    while i < m
        invariant
            n == text@.len(),
            m == suffix@.len(),
            m <= n,
            start == n - m,
            0 <= i <= m,
            forall|j: int| 0 <= j < i ==> suffix@[j] == text@[start + j],
        decreases m - i,
    {
        if text.get_char(start + i) != suffix.get_char(i) {
            assert(text@.subrange(start as int, n as int)[i as int] == text@[start + i]);
            return false;
        }
        i += 1;
    }
    assert(suffix@ =~= text@.subrange(start as int, n as int));
    true
}

/// Whether `text` starts with `prefix`.
pub fn starts_with(text: &str, prefix: &str) -> (found: bool)
    ensures
        found == prefix@.is_prefix_of(text@),
{
    let n = text.unicode_len();
    let m = prefix.unicode_len();
    if m > n {
        return false;
    }
    let mut i: usize = 0;
    while i < m
        invariant
            n == text@.len(),
            m == prefix@.len(),
            m <= n,
            0 <= i <= m,
            forall|j: int| 0 <= j < i ==> prefix@[j] == text@[j],
        decreases m - i,
    {
        if text.get_char(i) != prefix.get_char(i) {
            assert(text@.subrange(0, m as int)[i as int] == text@[i as int]);
            return false;
        }
        i += 1;
    }
    assert(prefix@ =~= text@.subrange(0, m as int));
    true
}

/// Resolves `rel` against `base`.
pub fn join_path(base: &str, rel: &str) -> (path: String)
    ensures
        path@ == joined(base@, rel@),
{
    let rel_len = rel.unicode_len();
    if rel_len > 0 && rel.get_char(0) == '/' {
        return String::from_str(rel);
    }
    let base_len = base.unicode_len();
    if base_len == 0 || base.get_char(base_len - 1) == '/' {
        String::from_str(base).concat(rel)
    } else {
        proof {
            reveal_strlit("/");
            assert("/"@ =~= seq!['/']);
        }
        String::from_str(base).concat("/").concat(rel)
    }
}

/// The directory that holds `path`, if it has one.
pub fn parent_dir(path: &str) -> (parent: Option<String>)
    ensures
        parent is Some <==> parent_of(path@) is Some,
        parent matches Some(dir) ==> Some(dir@) == parent_of(path@),
{
    let n = path.unicode_len();
    let mut i: usize = n;
    while i > 0 && path.get_char(i - 1) != '/'
        invariant
            n == path@.len(),
            0 <= i <= n,
            forall|j: int| i <= j < n ==> path@[j] != '/',
        decreases i,
    {
        i -= 1;
    }
    proof {
        lemma_last_separator(path@);
        if i > 0 {
            assert(path@[i - 1] == '/');
            assert(last_separator(path@) == i - 1);
        } else {
            assert(!path@.contains('/'));
        }
    }
    if i == 0 {
        if n == 0 {
            None
        } else {
            Some(String::new())
        }
    } else if i == 1 {
        proof {
            reveal_strlit("/");
            assert("/"@ =~= seq!['/']);
        }
        if n == 1 {
            assert(path@ =~= seq!['/']);
            None
        } else {
            Some(String::from_str("/"))
        }
    } else {
        proof {
            assert(path@ != seq!['/']);
        }
        Some(String::from_str(path.substring_char(0, i - 1)))
    }
}

/// The last component of `path`.
pub fn file_name(path: &str) -> (name: String)
    ensures
        name@ == name_of(path@),
{
    let n = path.unicode_len();
    let mut i: usize = n;
    while i > 0 && path.get_char(i - 1) != '/'
        invariant
            n == path@.len(),
            0 <= i <= n,
            forall|j: int| i <= j < n ==> path@[j] != '/',
        decreases i,
    {
        i -= 1;
    }
    proof {
        lemma_last_separator(path@);
        if i > 0 {
            assert(path@[i - 1] == '/');
            assert(last_separator(path@) == i - 1);
        } else {
            assert(!path@.contains('/'));
        }
    }
    String::from_str(path.substring_char(i, n))
}

/// Builds the pattern that finds the configuration files which
/// `glob_pattern` refers to: the pattern taken relative to `root_path`, with
/// the default file name added unless it already names a `.yaml` file.
pub fn get_config_glob_pattern(root_path: &str, glob_pattern: &String) -> (pattern: String)
    ensures
        pattern@ == config_glob_pattern(root_path@, glob_pattern@),
{
    let pattern = join_path(root_path, glob_pattern.as_str());
    if ends_with(pattern.as_str(), CONFIG_EXTENSION) {
        pattern
    } else {
        join_path(pattern.as_str(), DEFAULT_CONFIG_FILENAME)
    }
}

} // verus!
