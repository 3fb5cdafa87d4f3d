//! Rebuilding the tree of configurations from their directory patterns.
//!
//! A configuration is nested below another one where its file path matches
//! one of the other's directory patterns. The patterns are matched against
//! the paths of the loaded configurations, never against the file system.
//!
//! The work is done in two steps. [`link_configs`] asks the glob matcher
//! which paths each configuration's patterns match. [`build_structure`]
//! takes those answers and builds the tree from them.

use vstd::prelude::*;
use crate::config::{
    height, lemma_structure_view, max_height, Config, ConfigStructure, ConfigView, StructureView,
};
use crate::error::{failure, ErrorKind, Failure, RaskError};
use crate::glob::{glob_complaint, glob_matches, glob_usable, PathMatcher};
use crate::path::{config_glob_pattern, get_config_glob_pattern};

verus! {

/// A configuration with what its directory patterns led to: the paths they
/// matched, in order, or the failure of the first pattern that is not a
/// usable glob.
#[derive(Debug, PartialEq, Eq)]
pub struct LinkedConfig {
    pub config: Config,
    pub children: Result<Vec<String>, RaskError>,
}

/// Mathematical model of a [`LinkedConfig`].
pub struct LinkedConfigView {
    pub config: ConfigView,
    pub children: Result<Seq<Seq<char>>, Failure>,
}

/// The model of what linking one configuration gave.
pub open spec fn links_view(children: Result<Vec<String>, RaskError>) -> Result<
    Seq<Seq<char>>,
    Failure,
> {
    match children {
        Ok(paths) => Ok(paths.deep_view()),
        Err(error) => Err(error@),
    }
}

impl View for LinkedConfig {
    type V = LinkedConfigView;

    open spec fn view(&self) -> LinkedConfigView {
        LinkedConfigView { config: self.config@, children: links_view(self.children) }
    }
}

impl DeepView for LinkedConfig {
    type V = LinkedConfigView;

    open spec fn deep_view(&self) -> LinkedConfigView {
        self@
    }
}

/// The configurations of `linked`, without their links.
pub open spec fn configs_of(linked: Seq<LinkedConfigView>) -> Seq<ConfigView> {
    Seq::new(linked.len(), |i: int| linked[i].config)
}

/// The position of the first of `configs` that lies at `path`, or -1.
pub open spec fn index_of_path(configs: Seq<ConfigView>, path: Seq<char>) -> int
    decreases configs.len(),
{
    if configs.len() == 0 {
        -1
    } else {
        let before = index_of_path(configs.drop_last(), path);
        if before >= 0 {
            before
        } else if configs.last().file_path == path {
            configs.len() - 1
        } else {
            -1
        }
    }
}

/// `map` with `config` put at its path: in place of the configuration that
/// was there, or at the end.
pub open spec fn insert_config(map: Seq<ConfigView>, config: ConfigView) -> Seq<ConfigView> {
    let at = index_of_path(map, config.file_path);
    if at >= 0 {
        map.update(at, config)
    } else {
        map.push(config)
    }
}

/// The configurations by path: one per path, the last given for it, in the
/// order in which the paths first occur.
pub open spec fn path_map(configs: Seq<ConfigView>) -> Seq<ConfigView>
    decreases configs.len(),
{
    if configs.len() == 0 {
        Seq::empty()
    } else {
        insert_config(path_map(configs.drop_last()), configs.last())
    }
}

/// No two of `configs` lie at the same path.
pub open spec fn distinct_paths(configs: Seq<ConfigView>) -> bool {
    forall|i: int, j: int|
        0 <= i < j < configs.len() ==> (#[trigger] configs[i]).file_path != (
        #[trigger] configs[j]).file_path
}

/// The paths of those among the first `upto` of `configs` whose path
/// `pattern` matches, in order.
pub open spec fn pattern_matches(
    configs: Seq<ConfigView>,
    pattern: Seq<char>,
    upto: int,
) -> Seq<Seq<char>>
    decreases upto,
{
    if upto <= 0 {
        Seq::empty()
    } else {
        let before = pattern_matches(configs, pattern, upto - 1);
        if glob_matches(pattern, configs[upto - 1].file_path) {
            before.push(configs[upto - 1].file_path)
        } else {
            before
        }
    }
}

/// The pattern that the `k`-th directory entry of `config` stands for.
pub open spec fn directory_pattern(config: ConfigView, k: int) -> Seq<char> {
    config_glob_pattern(config.dir_path, config.directories[k])
}

/// The paths of the configurations nested directly below `config`, going
/// by its first `upto` directory patterns: for each pattern in turn, the
/// paths among `configs` that it matches. Fails at the first pattern that
/// is not a usable glob.
pub open spec fn child_paths(
    configs: Seq<ConfigView>,
    config: ConfigView,
    upto: int,
) -> Result<Seq<Seq<char>>, Failure>
    decreases upto,
{
    if upto <= 0 {
        Ok(Seq::empty())
    } else {
        match child_paths(configs, config, upto - 1) {
            Err(failure) => Err(failure),
            Ok(found) => {
                let pattern = directory_pattern(config, upto - 1);
                if glob_usable(pattern) {
                    Ok(found + pattern_matches(configs, pattern, configs.len() as int))
                } else {
                    Err(
                        Failure {
                            kind: ErrorKind::GlobPattern,
                            subject: pattern,
                            detail: glob_complaint(pattern),
                        },
                    )
                }
            },
        }
    }
}

/// `config` with what its directory patterns lead to among `configs`.
pub open spec fn link(configs: Seq<ConfigView>, config: ConfigView) -> LinkedConfigView {
    LinkedConfigView {
        config,
        children: child_paths(configs, config, config.directories.len() as int),
    }
}

/// The configurations by path, each with what its directory patterns lead
/// to among them.
pub open spec fn linked(configs: Seq<ConfigView>) -> Seq<LinkedConfigView> {
    let map = path_map(configs);
    Seq::new(map.len(), |i: int| link(map, map[i]))
}

/// How much deeper a tree may go below `depth`, where `count`
/// configurations are there to be nested.
pub open spec fn depth_left(count: nat, depth: nat) -> nat {
    if depth >= count {
        0
    } else {
        (count - depth) as nat
    }
}

/// The tree below the configuration that lies at `path`, which stands
/// `depth` levels below the root.
///
/// A tree without repetition along a branch is never deeper than there are
/// configurations, so a node at that depth shows that a configuration is
/// nested inside itself, and the tree is refused as cyclic.
pub open spec fn tree_of(
    linked: Seq<LinkedConfigView>,
    path: Seq<char>,
    depth: nat,
) -> Result<StructureView, Failure>
    decreases depth_left(linked.len(), depth), 0nat, 0nat,
{
    let at = index_of_path(configs_of(linked), path);
    if at < 0 {
        Err(failure(ErrorKind::UnknownConfigPath, path))
    } else if depth >= linked.len() {
        Err(failure(ErrorKind::CyclicStructure, path))
    } else {
        match linked[at].children {
            Err(failure) => Err(failure),
            Ok(paths) => match trees_of(linked, paths, depth + 1, paths.len()) {
                Err(failure) => Err(failure),
                Ok(children) => Ok(StructureView { config: linked[at].config, children }),
            },
        }
    }
}

/// The trees below the configurations at the first `upto` of `paths`, each
/// at `depth`. Fails with the failure of the first tree that cannot be
/// built.
pub open spec fn trees_of(
    linked: Seq<LinkedConfigView>,
    paths: Seq<Seq<char>>,
    depth: nat,
    upto: nat,
) -> Result<Seq<StructureView>, Failure>
    decreases depth_left(linked.len(), depth), 1nat, upto,
{
    if upto == 0 {
        Ok(Seq::empty())
    } else {
        match trees_of(linked, paths, depth, (upto - 1) as nat) {
            Err(failure) => Err(failure),
            Ok(front) => match tree_of(linked, paths[upto - 1], depth) {
                Err(failure) => Err(failure),
                Ok(tree) => Ok(front.push(tree)),
            },
        }
    }
}

/// The tree rooted at the configuration that lies at `entry`.
pub open spec fn resolve_structure(entry: Seq<char>, configs: Seq<ConfigView>) -> Result<
    StructureView,
    Failure,
> {
    tree_of(linked(configs), entry, 0)
}

/// The model of what building a tree returned.
pub open spec fn structure_result(built: Result<ConfigStructure, RaskError>) -> Result<
    StructureView,
    Failure,
> {
    match built {
        Ok(structure) => Ok(structure@),
        Err(error) => Err(error@),
    }
}

/// `index_of_path` finds the first configuration at `path`.
pub proof fn lemma_index_of_path(configs: Seq<ConfigView>, path: Seq<char>)
    ensures
        -1 <= index_of_path(configs, path) < configs.len(),
        index_of_path(configs, path) >= 0 ==> configs[index_of_path(configs, path)].file_path
            == path,
        forall|j: int|
            0 <= j < configs.len() && (index_of_path(configs, path) < 0 || j < index_of_path(
                configs,
                path,
            )) ==> (#[trigger] configs[j]).file_path != path,
    decreases configs.len(),
{
    if configs.len() > 0 {
        let front = configs.drop_last();
        lemma_index_of_path(front, path);
        assert forall|j: int|
            0 <= j < configs.len() && (index_of_path(configs, path) < 0 || j < index_of_path(
                configs,
                path,
            )) implies (#[trigger] configs[j]).file_path != path by {
            if j < front.len() {
                assert(front[j] == configs[j]);
            }
        }
    }
}

/// A configuration found among the first `upto` is the one found among all.
proof fn lemma_found_stays(configs: Seq<ConfigView>, upto: int, path: Seq<char>)
    requires
        0 <= upto <= configs.len(),
        index_of_path(configs.subrange(0, upto), path) >= 0,
    ensures
        index_of_path(configs, path) == index_of_path(configs.subrange(0, upto), path),
    decreases configs.len() - upto,
{
    if upto < configs.len() {
        let next = configs.subrange(0, upto + 1);
        assert(next.drop_last() =~= configs.subrange(0, upto));
        lemma_found_stays(configs, upto + 1, path);
    } else {
        assert(configs.subrange(0, upto) =~= configs);
    }
}

/// Finds the first of `linked` that lies at `path`.
fn find_config(linked: &Vec<LinkedConfig>, path: &String) -> (found: Option<usize>)
    ensures
        match found {
            Some(i) => i < linked.len() && i == index_of_path(
                configs_of(linked.deep_view()),
                path@,
            ),
            None => index_of_path(configs_of(linked.deep_view()), path@) == -1,
        },
{
    let ghost configs = configs_of(linked.deep_view());
    let mut i: usize = 0;
    while i < linked.len()
        invariant
            0 <= i <= linked.len(),
            configs == configs_of(linked.deep_view()),
            index_of_path(configs.subrange(0, i as int), path@) == -1,
        decreases linked.len() - i,
    {
        let ghost before = configs.subrange(0, i as int);
        let ghost next = configs.subrange(0, i + 1);
        assert(next.drop_last() =~= before);
        assert(next.last() == linked[i as int]@.config);
        if linked[i].config.file_path == *path {
            proof {
                lemma_found_stays(configs, i + 1, path@);
            }
            return Some(i);
        }
        i += 1;
    }
    assert(configs.subrange(0, i as int) =~= configs);
    None
}

/// Builds the configurations by path, none of them linked yet.
fn build_path_map(configs: &Vec<Config>) -> (map: Vec<LinkedConfig>)
    ensures
        configs_of(map.deep_view()) == path_map(configs.deep_view()),
{
    let mut map: Vec<LinkedConfig> = Vec::new();
    let mut i: usize = 0;
    assert(configs.deep_view().subrange(0, 0) =~= Seq::empty());
    assert(configs_of(map.deep_view()) =~= Seq::empty());
    while i < configs.len()
        invariant
            0 <= i <= configs.len(),
            configs_of(map.deep_view()) == path_map(configs.deep_view().subrange(0, i as int)),
        decreases configs.len() - i,
    {
        let ghost before = configs.deep_view().subrange(0, i as int);
        let ghost next = configs.deep_view().subrange(0, i + 1);
        let ghost old_map = configs_of(map.deep_view());
        assert(next.drop_last() =~= before);
        assert(next.last() == configs[i as int]@);
        let config = configs[i].clone();
        proof {
            lemma_index_of_path(old_map, config@.file_path);
        }
        let found = find_config(&map, &config.file_path);
        let entry = LinkedConfig { config, children: Ok(Vec::new()) };
        match found {
            Some(at) => {
                map.set(at, entry);
                assert(configs_of(map.deep_view()) =~= old_map.update(at as int, entry@.config));
            },
            None => {
                map.push(entry);
                assert(configs_of(map.deep_view()) =~= old_map.push(entry@.config));
            },
        }
        i += 1;
    }
    assert(configs.deep_view().subrange(0, i as int) =~= configs.deep_view());
    map
}

/// Adds to `found` the paths of the configurations whose path the
/// matcher's pattern matches.
fn collect_matches(matcher: &PathMatcher, linked: &Vec<LinkedConfig>, found: &mut Vec<String>)
    ensures
        final(found).deep_view() == old(found).deep_view() + pattern_matches(
            configs_of(linked.deep_view()),
            matcher.pattern(),
            linked.len() as int,
        ),
{
    let ghost start = found.deep_view();
    let ghost configs = configs_of(linked.deep_view());
    let mut j: usize = 0;
    assert(found.deep_view() =~= start + Seq::<Seq<char>>::empty());
    while j < linked.len()
        invariant
            0 <= j <= linked.len(),
            configs == configs_of(linked.deep_view()),
            found.deep_view() == start + pattern_matches(configs, matcher.pattern(), j as int),
        decreases linked.len() - j,
    {
        let ghost before = found.deep_view();
        let path = &linked[j].config.file_path;
        assert(path@ == configs[j as int].file_path);
        if matcher.is_match(path.as_str()) {
            found.push(path.clone());
            assert(found.deep_view() =~= before.push(path@));
        }
        j += 1;
        assert(found.deep_view() =~= start + pattern_matches(
            configs,
            matcher.pattern(),
            j as int,
        ));
    }
}

/// Once a pattern has failed, the patterns after it change nothing.
proof fn lemma_child_paths_fail(configs: Seq<ConfigView>, config: ConfigView, at: int, upto: int)
    requires
        0 <= at <= upto,
        child_paths(configs, config, at) is Err,
    ensures
        child_paths(configs, config, upto) == child_paths(configs, config, at),
    decreases upto - at,
{
    if at < upto {
        lemma_child_paths_fail(configs, config, at, upto - 1);
    }
}

/// Finds the paths of the configurations nested directly below
/// `linked[index]`.
fn find_children(
    index: usize,
    linked: &Vec<LinkedConfig>,
) -> (found: Result<Vec<String>, RaskError>)
    requires
        index < linked.len(),
    ensures
        links_view(found) == child_paths(
            configs_of(linked.deep_view()),
            linked[index as int]@.config,
            linked[index as int]@.config.directories.len() as int,
        ),
{
    let ghost configs = configs_of(linked.deep_view());
    let config = &linked[index].config;
    let mut paths: Vec<String> = Vec::new();
    let mut k: usize = 0;
    assert(paths.deep_view() =~= Seq::<Seq<char>>::empty());
    while k < config.directories.len()
        invariant
            index < linked.len(),
            *config == linked[index as int].config,
            configs == configs_of(linked.deep_view()),
            0 <= k <= config.directories.len(),
            child_paths(configs, config@, k as int) == Ok::<Seq<Seq<char>>, Failure>(
                paths.deep_view(),
            ),
        decreases config.directories.len() - k,
    {
        let pattern = get_config_glob_pattern(config.dir_path.as_str(), &config.directories[k]);
        assert(pattern@ == directory_pattern(config@, k as int));
        match PathMatcher::compile(pattern.as_str()) {
            Err(error) => {
                proof {
                    lemma_child_paths_fail(
                        configs,
                        config@,
                        k + 1,
                        config@.directories.len() as int,
                    );
                }
                return Err(error);
            },
            Ok(matcher) => {
                collect_matches(&matcher, linked, &mut paths);
            },
        }
        k += 1;
    }
    Ok(paths)
}

/// Puts `configs` by path and asks, for each of them, which of their paths
/// its directory patterns match.
///
/// Where several of `configs` lie at one path, the last one stands for it.
pub fn link_configs(configs: Vec<Config>) -> (linked: Vec<LinkedConfig>)
    ensures
        linked.deep_view() == self::linked(configs.deep_view()),
{
    let mut map = build_path_map(&configs);
    let ghost paths = configs_of(map.deep_view());
    let mut i: usize = 0;
    while i < map.len()
        invariant
            0 <= i <= map.len(),
            paths == path_map(configs.deep_view()),
            configs_of(map.deep_view()) == paths,
            forall|j: int| 0 <= j < i ==> map.deep_view()[j] == link(paths, paths[j]),
        decreases map.len() - i,
    {
        let ghost before = map.deep_view();
        let children = find_children(i, &map);
        let config = map[i].config.clone();
        assert(config@ == paths[i as int]) by {
            assert(configs_of(before)[i as int] == before[i as int].config);
        }
        let entry = LinkedConfig { config, children };
        map.set(i, entry);
        assert(map.deep_view() =~= before.update(i as int, entry@));
        assert(configs_of(map.deep_view()) =~= paths) by {
            assert forall|j: int| 0 <= j < paths.len() implies configs_of(map.deep_view())[j]
                == paths[j] by {
                assert(configs_of(before)[j] == before[j].config);
            }
        }
        i += 1;
    }
    assert(map.deep_view() =~= self::linked(configs.deep_view()));
    map
}

/// Once a tree could not be built, the children after it change nothing.
proof fn lemma_trees_of_fail(
    linked: Seq<LinkedConfigView>,
    paths: Seq<Seq<char>>,
    depth: nat,
    at: nat,
    upto: nat,
)
    requires
        at <= upto,
        trees_of(linked, paths, depth, at) is Err,
    ensures
        trees_of(linked, paths, depth, upto) == trees_of(linked, paths, depth, at),
    decreases upto - at,
{
    if at < upto {
        lemma_trees_of_fail(linked, paths, depth, at, (upto - 1) as nat);
    }
}

/// Builds the tree below the configuration that lies at `config_path`,
/// which stands `depth` levels below the root.
fn construct_config_structure(
    config_path: &String,
    linked: &Vec<LinkedConfig>,
    depth: usize,
) -> (built: Result<ConfigStructure, RaskError>)
    ensures
        structure_result(built) == tree_of(linked.deep_view(), config_path@, depth as nat),
    decreases depth_left(linked.len() as nat, depth as nat),
{
    let at = match find_config(linked, config_path) {
        Some(at) => at,
        None => {
            return Err(RaskError::new(ErrorKind::UnknownConfigPath, config_path.as_str()));
        },
    };
    if depth >= linked.len() {
        return Err(RaskError::new(ErrorKind::CyclicStructure, config_path.as_str()));
    }
    let child_paths = match &linked[at].children {
        Ok(child_paths) => child_paths,
        Err(error) => {
            return Err(error.clone());
        },
    };
    let mut children: Vec<ConfigStructure> = Vec::new();
    let mut k: usize = 0;
    assert(children.deep_view() =~= Seq::<StructureView>::empty());
    while k < child_paths.len()
        invariant
            at < linked.len(),
            depth < linked.len(),
            at == index_of_path(configs_of(linked.deep_view()), config_path@),
            linked.deep_view()[at as int].children == Ok::<Seq<Seq<char>>, Failure>(
                child_paths.deep_view(),
            ),
            0 <= k <= child_paths.len(),
            trees_of(
                linked.deep_view(),
                child_paths.deep_view(),
                (depth + 1) as nat,
                k as nat,
            ) == Ok::<Seq<StructureView>, Failure>(children.deep_view()),
        decreases child_paths.len() - k,
    {
        let ghost front = children.deep_view();
        assert(child_paths.deep_view()[k as int] == child_paths[k as int]@);
        match construct_config_structure(&child_paths[k], linked, depth + 1) {
            Err(error) => {
                proof {
                    assert(trees_of(
                        linked.deep_view(),
                        child_paths.deep_view(),
                        (depth + 1) as nat,
                        (k + 1) as nat,
                    ) == Err::<Seq<StructureView>, Failure>(error@));
                    lemma_trees_of_fail(
                        linked.deep_view(),
                        child_paths.deep_view(),
                        (depth + 1) as nat,
                        (k + 1) as nat,
                        child_paths@.len(),
                    );
                }
                return Err(error);
            },
            Ok(tree) => {
                children.push(tree);
                assert(children.deep_view() =~= front.push(tree@));
            },
        }
        k += 1;
    }
    let structure = ConfigStructure { config: linked[at].config.clone(), children };
    proof {
        lemma_structure_view(structure);
        assert(configs_of(linked.deep_view())[at as int] == linked.deep_view()[at as int].config);
    }
    Ok(structure)
}

/// Builds the tree of the configuration that lies at `entry_config_path`
/// from configurations whose links are known: the children of a node are
/// the configurations at the paths that its patterns matched, in order.
///
/// Fails with `UnknownConfigPath` where no configuration lies at the entry
/// path or at a path that is linked to, with the failure of a
/// configuration's links where the tree reaches that configuration, and
/// with `CyclicStructure` where a configuration would be nested inside
/// itself.
pub fn build_structure(
    entry_config_path: &String,
    linked: &Vec<LinkedConfig>,
) -> (built: Result<ConfigStructure, RaskError>)
    ensures
        structure_result(built) == tree_of(linked.deep_view(), entry_config_path@, 0),
        built matches Ok(structure) ==> height(structure@) < linked.len(),
{
    proof {
        lemma_tree_height(linked.deep_view(), entry_config_path@, 0);
    }
    construct_config_structure(entry_config_path, linked, 0)
}

/// Reconstructs the tree of configurations below the one that lies at
/// `entry_config_path`.
///
/// A configuration is a child of another where one of the other's directory
/// patterns matches its file path; children stand in the order of the
/// patterns and, for one pattern, in the order of `configs`. Where several
/// of `configs` lie at one path, the last one stands for it.
///
/// Fails with `UnknownConfigPath` where no configuration lies at the entry
/// path, with `GlobPattern` at the first directory pattern met that is not a
/// usable glob, and with `CyclicStructure` where a configuration would be
/// nested inside itself. A tree that is returned is less deep than an order
/// can count, so that selecting in it does not fail.
pub fn resolve_config_structure(
    entry_config_path: &String,
    configs: Vec<Config>,
) -> (built: Result<ConfigStructure, RaskError>)
    ensures
        structure_result(built) == resolve_structure(entry_config_path@, configs.deep_view()),
        built matches Ok(structure) ==> height(structure@) < usize::MAX,
{
    let linked = link_configs(configs);
    build_structure(entry_config_path, &linked)
}

/// The configurations by path hold one configuration for each path: no two
/// of them lie at the same path, and every path of `configs` is among
/// theirs.
pub proof fn lemma_path_map_distinct(configs: Seq<ConfigView>)
    ensures
        distinct_paths(path_map(configs)),
        forall|i: int|
            0 <= i < configs.len() ==> index_of_path(
                path_map(configs),
                (#[trigger] configs[i]).file_path,
            ) >= 0,
    decreases configs.len(),
{
    if configs.len() > 0 {
        let front = configs.drop_last();
        let config = configs.last();
        let before = path_map(front);
        let now = path_map(configs);
        lemma_path_map_distinct(front);
        lemma_index_of_path(before, config.file_path);
        let at = index_of_path(before, config.file_path);
        assert forall|i: int, j: int| 0 <= i < j < now.len() implies (#[trigger] now[i]).file_path != (
        #[trigger] now[j]).file_path by {
            if at >= 0 {
                assert(now[i].file_path == before[i].file_path);
                assert(now[j].file_path == before[j].file_path);
            } else if j < before.len() {
                assert(now[i] == before[i]);
                assert(now[j] == before[j]);
            } else {
                assert(now[i] == before[i]);
            }
        }
        assert forall|i: int| 0 <= i < configs.len() implies index_of_path(
            now,
            (#[trigger] configs[i]).file_path,
        ) >= 0 by {
            let path = configs[i].file_path;
            lemma_index_of_path(now, path);
            if i < front.len() {
                assert(front[i] == configs[i]);
                let k = index_of_path(before, path);
                lemma_index_of_path(before, path);
                assert(now[k].file_path == path);
            } else if at >= 0 {
                assert(now[at].file_path == path);
            } else {
                assert(now[before.len() as int].file_path == path);
            }
        }
    }
}

/// The first of `configs` at `path` is at `at`.
proof fn lemma_index_is(configs: Seq<ConfigView>, path: Seq<char>, at: int)
    requires
        0 <= at < configs.len(),
        configs[at].file_path == path,
        forall|j: int| 0 <= j < at ==> (#[trigger] configs[j]).file_path != path,
    ensures
        index_of_path(configs, path) == at,
{
    lemma_index_of_path(configs, path);
    let found = index_of_path(configs, path);
    if found < 0 || at < found {
        assert(configs[at].file_path != path);
    }
    if 0 <= found < at {
        assert(configs[found].file_path != path);
    }
}

/// Where several configurations are given for one path, the last one
/// stands for it: a configuration after which none is given for its path
/// is the one that the configurations by path hold at that path.
pub proof fn lemma_path_map_holds_last(configs: Seq<ConfigView>, i: int)
    requires
        0 <= i < configs.len(),
        forall|j: int|
            i < j < configs.len() ==> (#[trigger] configs[j]).file_path != configs[i].file_path,
    ensures
        index_of_path(path_map(configs), configs[i].file_path) >= 0,
        path_map(configs)[index_of_path(path_map(configs), configs[i].file_path)] == configs[i],
    decreases configs.len(),
{
    let front = configs.drop_last();
    let last = configs.last();
    let before = path_map(front);
    let now = path_map(configs);
    let path = configs[i].file_path;
    let at = index_of_path(before, last.file_path);
    lemma_index_of_path(before, last.file_path);
    if i == configs.len() - 1 {
        if at >= 0 {
            assert forall|j: int| 0 <= j < at implies (#[trigger] now[j]).file_path != path by {
                assert(now[j] == before[j]);
            }
            lemma_index_is(now, path, at);
        } else {
            assert forall|j: int| 0 <= j < before.len() implies (#[trigger] now[j]).file_path
                != path by {
                assert(now[j] == before[j]);
            }
            lemma_index_is(now, path, before.len() as int);
        }
    } else {
        assert(front[i] == configs[i]);
        assert forall|j: int| i < j < front.len() implies (#[trigger] front[j]).file_path
            != front[i].file_path by {
            assert(front[j] == configs[j]);
        }
        lemma_path_map_holds_last(front, i);
        let k = index_of_path(before, path);
        lemma_index_of_path(before, path);
        assert(last.file_path != path);
        assert forall|j: int| 0 <= j < k implies (#[trigger] now[j]).file_path != path by {
            assert(before[j].file_path != path);
            if j == at {
                assert(now[j].file_path == last.file_path);
            } else {
                assert(now[j] == before[j]);
            }
        }
        assert(now[k] == before[k]);
        lemma_index_is(now, path, k);
    }
}

proof fn lemma_max_height_of_front(front: Seq<StructureView>, trees: Seq<StructureView>, upto: nat)
    requires
        upto <= front.len() <= trees.len(),
        forall|k: int| 0 <= k < front.len() ==> front[k] == trees[k],
    ensures
        max_height(front, upto) == max_height(trees, upto),
    decreases upto,
{
    if upto > 0 {
        lemma_max_height_of_front(front, trees, (upto - 1) as nat);
    }
}

/// A tree that was built is less deep than there are configurations: an
/// order can count as deep as it goes.
pub proof fn lemma_tree_height(linked: Seq<LinkedConfigView>, path: Seq<char>, depth: nat)
    ensures
        tree_of(linked, path, depth) matches Ok(tree) ==> depth + height(tree) < linked.len(),
    decreases depth_left(linked.len(), depth), 0nat, 0nat,
{
    if tree_of(linked, path, depth) is Ok {
        let at = index_of_path(configs_of(linked), path);
        let paths = linked[at].children->Ok_0;
        lemma_trees_height(linked, paths, depth + 1, paths.len());
    }
}

proof fn lemma_trees_height(
    linked: Seq<LinkedConfigView>,
    paths: Seq<Seq<char>>,
    depth: nat,
    upto: nat,
)
    requires
        upto <= paths.len(),
    ensures
        trees_of(linked, paths, depth, upto) matches Ok(trees) ==> trees.len() == upto && (upto
            > 0 ==> depth + max_height(trees, upto) < linked.len()),
    decreases depth_left(linked.len(), depth), 1nat, upto,
{
    if upto > 0 && trees_of(linked, paths, depth, upto) is Ok {
        let front = trees_of(linked, paths, depth, (upto - 1) as nat)->Ok_0;
        let tree = tree_of(linked, paths[upto - 1], depth)->Ok_0;
        let trees = front.push(tree);
        lemma_trees_height(linked, paths, depth, (upto - 1) as nat);
        lemma_tree_height(linked, paths[upto - 1], depth);
        lemma_max_height_of_front(front, trees, (upto - 1) as nat);
        assert(trees[upto - 1] == tree);
    }
}

/// Building a tree fails only for an unknown path, a cycle, or a pattern
/// that is no glob, as far as the links themselves fail for nothing else.
pub proof fn lemma_building_kinds(linked: Seq<LinkedConfigView>, path: Seq<char>, depth: nat)
    requires
        forall|i: int|
            0 <= i < linked.len() ==> ((#[trigger] linked[i]).children matches Err(failure)
                ==> failure.kind == ErrorKind::GlobPattern),
    ensures
        tree_of(linked, path, depth) matches Err(failure) ==> failure.kind
            == ErrorKind::UnknownConfigPath || failure.kind == ErrorKind::CyclicStructure
            || failure.kind == ErrorKind::GlobPattern,
    decreases depth_left(linked.len(), depth), 0nat, 0nat,
{
    let at = index_of_path(configs_of(linked), path);
    lemma_index_of_path(configs_of(linked), path);
    if at >= 0 && depth < linked.len() && linked[at].children is Ok {
        let paths = linked[at].children->Ok_0;
        lemma_building_kinds_below(linked, paths, depth + 1, paths.len());
    }
}

proof fn lemma_building_kinds_below(
    linked: Seq<LinkedConfigView>,
    paths: Seq<Seq<char>>,
    depth: nat,
    upto: nat,
)
    requires
        forall|i: int|
            0 <= i < linked.len() ==> ((#[trigger] linked[i]).children matches Err(failure)
                ==> failure.kind == ErrorKind::GlobPattern),
    ensures
        trees_of(linked, paths, depth, upto) matches Err(failure) ==> failure.kind
            == ErrorKind::UnknownConfigPath || failure.kind == ErrorKind::CyclicStructure
            || failure.kind == ErrorKind::GlobPattern,
    decreases depth_left(linked.len(), depth), 1nat, upto,
{
    if upto > 0 {
        lemma_building_kinds_below(linked, paths, depth, (upto - 1) as nat);
        lemma_building_kinds(linked, paths[upto - 1], depth);
    }
}

/// What linking gives fails for nothing but a pattern that is no glob.
pub proof fn lemma_linking_kinds(configs: Seq<ConfigView>, config: ConfigView, upto: int)
    ensures
        child_paths(configs, config, upto) matches Err(failure) ==> failure.kind
            == ErrorKind::GlobPattern,
    decreases upto,
{
    if upto > 0 {
        lemma_linking_kinds(configs, config, upto - 1);
    }
}

} // verus!
