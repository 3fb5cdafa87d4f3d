//! Finding every configuration that can be reached from an entry.
//!
//! Discovery is a walk over the file system, and the file system is not in
//! this library. The library keeps the books: which paths are known, which
//! of them still have to be looked at, and which pattern to expand for a
//! directory entry. Whoever drives it takes a path with
//! [`Discovery::next_path`], loads that configuration, expands the patterns
//! that [`glob_patterns`] gives for it, and hands what was found to
//! [`Discovery::record_matches`], until no path is left.

use vstd::assert_by_contradiction;
use vstd::prelude::*;
use crate::file::{ConfigFile, ConfigFileView};
use crate::path::{config_glob_pattern, get_config_glob_pattern};

verus! {

/// The state of a discovery.
pub struct Discovery {
    found: Vec<String>,
    stack: Vec<String>,
}

/// Mathematical model of a [`Discovery`]: the paths known, in the order in
/// which they were found, and those among them that wait to be visited, the
/// next one last.
pub struct DiscoveryView {
    pub found: Seq<Seq<char>>,
    pub pending: Seq<Seq<char>>,
}

impl View for Discovery {
    type V = DiscoveryView;

    closed spec fn view(&self) -> DiscoveryView {
        DiscoveryView { found: self.found.deep_view(), pending: self.stack.deep_view() }
    }
}

/// The state in which a discovery from `entry` starts.
pub open spec fn start(entry: Seq<char>) -> DiscoveryView {
    DiscoveryView { found: seq![entry], pending: seq![entry] }
}

/// `state` after `path` was found: a path that is not known yet becomes
/// known and waits to be visited, a known one changes nothing.
pub open spec fn record_one(state: DiscoveryView, path: Seq<char>) -> DiscoveryView {
    if state.found.contains(path) {
        state
    } else {
        DiscoveryView { found: state.found.push(path), pending: state.pending.push(path) }
    }
}

/// `state` after each of `matches` was found, in order.
pub open spec fn record(state: DiscoveryView, matches: Seq<Seq<char>>) -> DiscoveryView
    decreases matches.len(),
{
    if matches.len() == 0 {
        state
    } else {
        record_one(record(state, matches.drop_last()), matches.last())
    }
}

/// `state` after the path that was next has been taken.
pub open spec fn taken(state: DiscoveryView) -> DiscoveryView {
    DiscoveryView { found: state.found, pending: state.pending.drop_last() }
}

/// The patterns to expand for a configuration: one for each of its directory
/// entries, in order.
pub open spec fn patterns_of(config_file: ConfigFileView) -> Seq<Seq<char>> {
    Seq::new(
        config_file.directories.len(),
        |k: int| config_glob_pattern(config_file.dir_path, config_file.directories[k]),
    )
}

/// Whether `path` is among `paths`.
fn contains_path(paths: &Vec<String>, path: &String) -> (found: bool)
    ensures
        found == paths.deep_view().contains(path@),
{
    let mut i: usize = 0;
    while i < paths.len()
        invariant
            0 <= i <= paths.len(),
            forall|j: int| 0 <= j < i ==> paths.deep_view()[j] != path@,
        decreases paths.len() - i,
    {
        if paths[i] == *path {
            assert(paths.deep_view()[i as int] == path@);
            return true;
        }
        i += 1;
    }
    false
}

/// No path is known twice, none waits twice, and what waits is known.
pub open spec fn well_formed(state: DiscoveryView) -> bool {
    &&& state.found.no_duplicates()
    &&& state.pending.no_duplicates()
    &&& forall|p: Seq<char>| #[trigger] state.pending.contains(p) ==> state.found.contains(p)
}

impl Discovery {
    #[verifier::type_invariant]
    spec fn valid(&self) -> bool {
        well_formed(self@)
    }

    /// Starts a discovery at `entry`, which is known from the start and is
    /// the first path to visit.
    pub fn new(entry: String) -> (discovery: Discovery)
        ensures
            discovery@ == start(entry@),
    {
        let mut found: Vec<String> = Vec::new();
        let mut stack: Vec<String> = Vec::new();
        found.push(entry.clone());
        stack.push(entry);
        assert(found.deep_view() =~= seq![entry@]);
        assert(stack.deep_view() =~= seq![entry@]);
        proof {
            lemma_push_contains(Seq::<Seq<char>>::empty(), entry@);
            assert(seq![entry@] =~= Seq::<Seq<char>>::empty().push(entry@));
        }
        Discovery { found, stack }
    }

    /// Takes the next path to visit, if one is left.
    pub fn next_path(&mut self) -> (next: Option<String>)
        ensures
            match next {
                Some(path) => {
                    &&& old(self)@.pending.len() > 0
                    &&& path@ == old(self)@.pending.last()
                    &&& final(self)@ == taken(old(self)@)
                },
                None => old(self)@.pending.len() == 0 && final(self)@ == old(self)@,
            },
    {
        proof {
            use_type_invariant(&*self);
        }
        let ghost before = self.stack.deep_view();
        let mut stack: Vec<String> = Vec::new();
        assert(stack.deep_view() =~= Seq::<Seq<char>>::empty());
        std::mem::swap(&mut self.stack, &mut stack);
        let next = stack.pop();
        proof {
            if before.len() > 0 {
                lemma_drop_last_contains(before);
                assert(stack.deep_view() =~= before.drop_last());
            }
        }
        self.stack = stack;
        next
    }

    /// Records what expanding a pattern found: each path that was not known
    /// becomes known and will be visited.
    pub fn record_matches(&mut self, matches: &Vec<String>)
        ensures
            final(self)@ == record(old(self)@, matches.deep_view()),
    {
        proof {
            use_type_invariant(&*self);
        }
        let ghost start = self@;
        let mut stack: Vec<String> = Vec::new();
        let mut found: Vec<String> = Vec::new();
        assert(stack.deep_view() =~= Seq::<Seq<char>>::empty());
        assert(found.deep_view() =~= Seq::<Seq<char>>::empty());
        std::mem::swap(&mut self.stack, &mut stack);
        std::mem::swap(&mut self.found, &mut found);
        let mut i: usize = 0;
        assert(matches.deep_view().subrange(0, 0) =~= Seq::empty());
        while i < matches.len()
            invariant
                0 <= i <= matches.len(),
                well_formed(DiscoveryView { found: found.deep_view(), pending: stack.deep_view() }),
                (DiscoveryView { found: found.deep_view(), pending: stack.deep_view() }) == record(
                    start,
                    matches.deep_view().subrange(0, i as int),
                ),
            decreases matches.len() - i,
        {
            let ghost before = matches.deep_view().subrange(0, i as int);
            let ghost next = matches.deep_view().subrange(0, i + 1);
            let ghost known = found.deep_view();
            let ghost waiting = stack.deep_view();
            assert(next.drop_last() =~= before);
            assert(next.last() == matches[i as int]@);
            if !contains_path(&found, &matches[i]) {
                proof {
                    lemma_push_contains(known, matches[i as int]@);
                    lemma_push_contains(waiting, matches[i as int]@);
                }
                found.push(matches[i].clone());
                stack.push(matches[i].clone());
                assert(found.deep_view() =~= known.push(matches[i as int]@));
                assert(stack.deep_view() =~= waiting.push(matches[i as int]@));
            }
            i += 1;
        }
        assert(matches.deep_view().subrange(0, i as int) =~= matches.deep_view());
        self.found = found;
        self.stack = stack;
    }

    /// Whether a path is left to visit.
    pub fn is_done(&self) -> (done: bool)
        ensures
            done == (self@.pending.len() == 0),
    {
        self.stack.len() == 0
    }

    /// Ends the discovery and hands out the paths found, each once, in the
    /// order in which they were found.
    pub fn into_paths(self) -> (paths: Vec<String>)
        ensures
            paths.deep_view() == self@.found,
            paths.deep_view().no_duplicates(),
    {
        proof {
            use_type_invariant(&self);
        }
        self.found
    }
}

/// The patterns to expand for `config_file`: for each directory entry, the
/// entry taken relative to the configuration's directory, with the default
/// file name added unless the entry already names a `.yaml` file.
pub fn glob_patterns(config_file: &ConfigFile) -> (patterns: Vec<String>)
    ensures
        patterns.deep_view() == patterns_of(config_file@),
{
    let mut patterns: Vec<String> = Vec::new();
    let mut k: usize = 0;
    while k < config_file.directories.len()
        invariant
            0 <= k <= config_file.directories.len(),
            patterns.len() == k,
            forall|j: int|
                0 <= j < k ==> patterns.deep_view()[j] == config_glob_pattern(
                    config_file@.dir_path,
                    config_file@.directories[j],
                ),
        decreases config_file.directories.len() - k,
    {
        let ghost before = patterns.deep_view();
        let pattern = get_config_glob_pattern(
            config_file.dir_path.as_str(),
            &config_file.directories[k],
        );
        patterns.push(pattern);
        assert(patterns.deep_view() =~= before.push(pattern@));
        k += 1;
    }
    assert(patterns.deep_view() =~= patterns_of(config_file@));
    patterns
}

/// What the file system holds, as far as discovery can tell: for each
/// configuration path, the paths that expanding its patterns finds.
pub type Expansion = spec_fn(Seq<char>) -> Seq<Seq<char>>;

/// `state` after the next path was taken, visited and its matches recorded.
pub open spec fn visit(state: DiscoveryView, expand: Expansion) -> DiscoveryView {
    record(taken(state), expand(state.pending.last()))
}

/// The state of a discovery from `entry` after `steps` visits, or after as
/// many as it took to run out of paths.
pub open spec fn explore(entry: Seq<char>, expand: Expansion, steps: nat) -> DiscoveryView
    decreases steps,
{
    if steps == 0 {
        start(entry)
    } else {
        let before = explore(entry, expand, (steps - 1) as nat);
        if before.pending.len() == 0 {
            before
        } else {
            visit(before, expand)
        }
    }
}

/// The paths visited in the first `steps` visits of a discovery from
/// `entry`, in order.
pub open spec fn visited(entry: Seq<char>, expand: Expansion, steps: nat) -> Seq<Seq<char>>
    decreases steps,
{
    if steps == 0 {
        Seq::empty()
    } else {
        let before = explore(entry, expand, (steps - 1) as nat);
        let seen = visited(entry, expand, (steps - 1) as nat);
        if before.pending.len() == 0 {
            seen
        } else {
            seen.push(before.pending.last())
        }
    }
}

/// `chain` leads from `entry` along matches: each path in it is found by
/// expanding the patterns of the one before.
pub open spec fn is_chain(entry: Seq<char>, expand: Expansion, chain: Seq<Seq<char>>) -> bool {
    &&& chain.len() > 0
    &&& chain[0] == entry
    &&& forall|i: int|
        0 <= i < chain.len() - 1 ==> expand(#[trigger] chain[i]).contains(chain[i + 1])
}

/// `path` can be reached from `entry`.
pub open spec fn reachable(entry: Seq<char>, expand: Expansion, path: Seq<char>) -> bool {
    exists|chain: Seq<Seq<char>>| #[trigger] is_chain(entry, expand, chain) && chain.last() == path
}

/// What holds of every state of a discovery, with `seen` the paths visited
/// so far.
pub open spec fn consistent(
    entry: Seq<char>,
    expand: Expansion,
    state: DiscoveryView,
    seen: Seq<Seq<char>>,
) -> bool {
    &&& state.found.no_duplicates()
    &&& state.pending.no_duplicates()
    &&& seen.no_duplicates()
    &&& state.found.contains(entry)
    &&& forall|p: Seq<char>| #[trigger] state.pending.contains(p) ==> state.found.contains(p)
    &&& forall|p: Seq<char>| #[trigger]
        seen.contains(p) ==> state.found.contains(p) && !state.pending.contains(p)
    &&& forall|p: Seq<char>| #[trigger]
        state.found.contains(p) ==> seen.contains(p) || state.pending.contains(p)
    &&& forall|p: Seq<char>| #[trigger]
        state.found.contains(p) ==> reachable(entry, expand, p)
    &&& forall|p: Seq<char>, q: Seq<char>|
        seen.contains(p) && #[trigger] expand(p).contains(q) ==> state.found.contains(q)
}

proof fn lemma_push_contains<T>(s: Seq<T>, x: T)
    ensures
        forall|y: T| #[trigger] s.push(x).contains(y) <==> s.contains(y) || y == x,
        s.no_duplicates() && !s.contains(x) ==> s.push(x).no_duplicates(),
{
    assert forall|y: T| #[trigger] s.push(x).contains(y) implies s.contains(y) || y == x by {
        let i = choose|i: int| 0 <= i < s.push(x).len() && s.push(x)[i] == y;
        if i < s.len() {
            assert(s[i] == y);
        }
    }
    assert forall|y: T| s.contains(y) || y == x implies #[trigger] s.push(x).contains(y) by {
        if s.contains(y) {
            let i = choose|i: int| 0 <= i < s.len() && s[i] == y;
            assert(s.push(x)[i] == y);
        } else {
            assert(s.push(x)[s.len() as int] == y);
        }
    }
    if s.no_duplicates() && !s.contains(x) {
        assert forall|i: int, j: int|
            0 <= i < s.push(x).len() && 0 <= j < s.push(x).len() && i != j implies s.push(x)[i]
            != s.push(x)[j] by {
            if i < s.len() {
                assert(s.contains(s[i]));
            }
            if j < s.len() {
                assert(s.contains(s[j]));
            }
        }
    }
}

proof fn lemma_drop_last_contains<T>(s: Seq<T>)
    requires
        s.len() > 0,
    ensures
        forall|y: T| #[trigger] s.drop_last().contains(y) ==> s.contains(y),
        forall|y: T| #[trigger] s.contains(y) ==> s.drop_last().contains(y) || y == s.last(),
        s.contains(s.last()),
        s.no_duplicates() ==> s.drop_last().no_duplicates() && !s.drop_last().contains(s.last()),
{
    let front = s.drop_last();
    assert forall|y: T| #[trigger] front.contains(y) implies s.contains(y) by {
        let i = choose|i: int| 0 <= i < front.len() && front[i] == y;
        assert(s[i] == y);
    }
    assert forall|y: T| #[trigger] s.contains(y) implies front.contains(y) || y == s.last() by {
        let i = choose|i: int| 0 <= i < s.len() && s[i] == y;
        if i < front.len() {
            assert(front[i] == y);
        }
    }
    assert(s[s.len() - 1] == s.last());
    if s.no_duplicates() {
        if front.contains(s.last()) {
            let i = choose|i: int| 0 <= i < front.len() && front[i] == s.last();
            assert(s[i] == s[s.len() - 1]);
        }
    }
}

/// What recording does to a state that is well formed: the state stays
/// well formed, the paths known afterwards are those known before and
/// those found, and the paths that wait afterwards are those that waited
/// before and those found that were not known.
pub proof fn lemma_record(state: DiscoveryView, matches: Seq<Seq<char>>)
    requires
        well_formed(state),
    ensures
        well_formed(record(state, matches)),
        forall|p: Seq<char>| #[trigger]
            record(state, matches).found.contains(p) <==> state.found.contains(p)
                || matches.contains(p),
        forall|p: Seq<char>| #[trigger]
            record(state, matches).pending.contains(p) <==> state.pending.contains(p) || (
            matches.contains(p) && !state.found.contains(p)),
    decreases matches.len(),
{
    if matches.len() > 0 {
        let front = matches.drop_last();
        let last = matches.last();
        let mid = record(state, front);
        lemma_record(state, front);
        lemma_drop_last_contains(matches);
        lemma_push_contains(mid.found, last);
        lemma_push_contains(mid.pending, last);
        let after = record(state, matches);
        assert forall|p: Seq<char>| #[trigger]
            after.found.contains(p) <==> state.found.contains(p) || matches.contains(p) by {
            if mid.found.contains(last) {
                assert(after == mid);
            }
        }
        assert forall|p: Seq<char>| #[trigger]
            after.pending.contains(p) <==> state.pending.contains(p) || (matches.contains(p)
                && !state.found.contains(p)) by {
            if mid.found.contains(last) {
                assert(after == mid);
            }
        }
    } else {
        assert forall|p: Seq<char>| !matches.contains(p) by {}
    }
}

/// A visit keeps a discovery consistent.
proof fn lemma_visit(
    entry: Seq<char>,
    expand: Expansion,
    state: DiscoveryView,
    seen: Seq<Seq<char>>,
)
    requires
        consistent(entry, expand, state, seen),
        state.pending.len() > 0,
    ensures
        consistent(entry, expand, visit(state, expand), seen.push(state.pending.last())),
{
    let path = state.pending.last();
    let rest = taken(state);
    let matches = expand(path);
    let after = visit(state, expand);
    let seen_after = seen.push(path);
    lemma_drop_last_contains(state.pending);
    lemma_record(rest, matches);
    lemma_push_contains(seen, path);
    assert(state.pending.contains(path));
    assert(after.found.contains(entry));
    assert forall|p: Seq<char>| #[trigger] after.found.contains(p) implies reachable(
        entry,
        expand,
        p,
    ) by {
        if !state.found.contains(p) {
            assert(state.found.contains(path));
            let chain = choose|chain: Seq<Seq<char>>| #[trigger]
                is_chain(entry, expand, chain) && chain.last() == path;
            let longer = chain.push(p);
            assert forall|i: int| 0 <= i < longer.len() - 1 implies expand(
                #[trigger] longer[i],
            ).contains(longer[i + 1]) by {
                if i < chain.len() - 1 {
                    assert(longer[i] == chain[i]);
                    assert(longer[i + 1] == chain[i + 1]);
                } else {
                    assert(longer[i] == path);
                }
            }
            assert(is_chain(entry, expand, longer));
            assert(longer.last() == p);
        }
    }
    assert forall|p: Seq<char>, q: Seq<char>|
        seen_after.contains(p) && #[trigger] expand(p).contains(q) implies after.found.contains(
        q,
    ) by {
        if seen.contains(p) {
            assert(state.found.contains(q));
        }
    }
}

/// Every state that a discovery goes through is consistent.
proof fn lemma_explore(entry: Seq<char>, expand: Expansion, steps: nat)
    ensures
        consistent(
            entry,
            expand,
            explore(entry, expand, steps),
            visited(entry, expand, steps),
        ),
    decreases steps,
{
    if steps == 0 {
        let state = start(entry);
        assert(state.found[0] == entry);
        assert forall|p: Seq<char>| #[trigger] state.found.contains(p) implies reachable(
            entry,
            expand,
            p,
        ) by {
            assert(is_chain(entry, expand, seq![entry]));
            assert(seq![entry].last() == p);
        }
    } else {
        lemma_explore(entry, expand, (steps - 1) as nat);
        let before = explore(entry, expand, (steps - 1) as nat);
        if before.pending.len() > 0 {
            lemma_visit(entry, expand, before, visited(entry, expand, (steps - 1) as nat));
        }
    }
}

/// However many patterns lead to a path, a discovery visits it at most
/// once: among the paths it has visited, at any time, none occurs twice.
pub proof fn lemma_visits_at_most_once(entry: Seq<char>, expand: Expansion, steps: nat)
    ensures
        visited(entry, expand, steps).no_duplicates(),
        explore(entry, expand, steps).found.no_duplicates(),
{
    lemma_explore(entry, expand, steps);
}

/// A discovery that has run out of paths has visited every path that can
/// be reached from the entry, each of them once, and no other; and these
/// are the paths it hands out.
pub proof fn lemma_visits_all_reachable(entry: Seq<char>, expand: Expansion, steps: nat)
    requires
        explore(entry, expand, steps).pending.len() == 0,
    ensures
        visited(entry, expand, steps).no_duplicates(),
        forall|p: Seq<char>|
            reachable(entry, expand, p) <==> #[trigger] visited(entry, expand, steps).contains(p),
        forall|p: Seq<char>|
            reachable(entry, expand, p) <==> #[trigger] explore(entry, expand, steps).found.contains(
                p,
            ),
{
    lemma_explore(entry, expand, steps);
    let state = explore(entry, expand, steps);
    let seen = visited(entry, expand, steps);
    assert forall|p: Seq<char>| !state.pending.contains(p) by {}
    assert forall|p: Seq<char>| reachable(entry, expand, p) implies state.found.contains(p) by {
        let chain = choose|chain: Seq<Seq<char>>| #[trigger]
            is_chain(entry, expand, chain) && chain.last() == p;
        lemma_chain_found(entry, expand, state, seen, chain, chain.len() - 1);
    }
}

/// In a consistent state with nothing pending, every path of a chain from
/// the entry is known.
proof fn lemma_chain_found(
    entry: Seq<char>,
    expand: Expansion,
    state: DiscoveryView,
    seen: Seq<Seq<char>>,
    chain: Seq<Seq<char>>,
    at: int,
)
    requires
        consistent(entry, expand, state, seen),
        state.pending.len() == 0,
        is_chain(entry, expand, chain),
        0 <= at < chain.len(),
    ensures
        state.found.contains(chain[at]),
    decreases at,
{
    if at > 0 {
        lemma_chain_found(entry, expand, state, seen, chain, at - 1);
        let before = chain[at - 1];
        assert(!state.pending.contains(before));
        assert(seen.contains(before));
        assert(expand(before).contains(chain[at - 1 + 1]));
    }
}

/// While a path is left to visit, every step so far has visited one.
proof fn lemma_visits_counted(entry: Seq<char>, expand: Expansion, steps: nat)
    ensures
        explore(entry, expand, steps).pending.len() > 0 ==> visited(entry, expand, steps).len()
            == steps,
    decreases steps,
{
    if steps > 0 {
        lemma_visits_counted(entry, expand, (steps - 1) as nat);
    }
}

/// A discovery comes to an end: where no more than the paths `all` can be
/// reached from the entry, no path is left to visit after as many visits
/// as `all` is long, however the patterns lead around among them.
pub proof fn lemma_discovery_ends(entry: Seq<char>, expand: Expansion, all: Seq<Seq<char>>)
    requires
        forall|p: Seq<char>| reachable(entry, expand, p) ==> #[trigger] all.contains(p),
    ensures
        explore(entry, expand, all.len()).pending.len() == 0,
{
    let steps = all.len();
    let state = explore(entry, expand, steps);
    let seen = visited(entry, expand, steps);
    assert_by_contradiction!(state.pending.len() == 0, {
        lemma_explore(entry, expand, steps);
        lemma_visits_counted(entry, expand, steps);
        lemma_drop_last_contains(state.pending);
        let next = state.pending.last();
        let walked = seen.push(next);
        lemma_push_contains(seen, next);
        assert(walked.no_duplicates());
        assert forall|p: Seq<char>| walked.to_set().contains(p) implies all.to_set().contains(
            p,
        ) by {
            assert(walked.contains(p));
            assert(state.found.contains(p));
            assert(reachable(entry, expand, p));
            assert(all.contains(p));
        }
        walked.unique_seq_to_set();
        all.lemma_cardinality_of_set();
        vstd::seq_lib::seq_to_set_is_finite(all);
        vstd::set_lib::lemma_len_subset(walked.to_set(), all.to_set());
    });
}

/// Recording what two patterns found, one after the other, is recording
/// all of it at once.
pub proof fn lemma_record_in_parts(
    state: DiscoveryView,
    first: Seq<Seq<char>>,
    second: Seq<Seq<char>>,
)
    ensures
        record(record(state, first), second) == record(state, first + second),
    decreases second.len(),
{
    if second.len() == 0 {
        assert(first + second =~= first);
    } else {
        lemma_record_in_parts(state, first, second.drop_last());
        assert((first + second).drop_last() =~= first + second.drop_last());
        assert((first + second).last() == second.last());
    }
}

} // verus!
