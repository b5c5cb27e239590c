//! The rule merger: one entry of the configuration and its root level
//! become the fully resolved rules that a scan consults.

use regex::RegexSet;
use vstd::prelude::*;

use crate::config::{texts, Config, IncludeEntry, Mode};
use crate::error::PickerError;
use crate::patterns::{compile_set, error_text, matches_any, patterns_compile, set_is_match, set_patterns};

verus! {

/// The marker name that stands for every name.
pub open spec fn wildcard() -> Seq<char> {
    seq!['*']
}

/// A name is hidden when it starts with a dot.
pub open spec fn hidden(name: Seq<char>) -> bool {
    name.len() > 0 && name[0] == '.'
}

/// Resolved rules as the contracts see them.
pub struct Rules {
    pub mode: Mode,
    pub marker_names: Seq<Seq<char>>,
    pub marker_patterns: Seq<Seq<char>>,
    pub ignore_names: Seq<Seq<char>>,
    pub ignore_patterns: Seq<Seq<char>>,
    pub depth: u8,
    pub include_intermediate_paths: bool,
    pub yield_on_marker: bool,
    pub traverse_hidden: bool,
}

impl Rules {
    /// The name is one of the exact markers, the wildcard `*` is among them,
    /// or one of the marker patterns matches the name.
    pub open spec fn is_marker(self, name: Seq<char>) -> bool {
        self.marker_names.contains(name) || self.marker_names.contains(wildcard())
            || matches_any(self.marker_patterns, name)
    }

    /// The name is one of the ignored names, or an ignore pattern matches it.
    pub open spec fn is_ignored(self, name: Seq<char>) -> bool {
        self.ignore_names.contains(name) || matches_any(self.ignore_patterns, name)
    }

    /// The walk may look at an entry of this name: it is not ignored, and it
    /// is not hidden unless hidden names are traversed.
    pub open spec fn admits(self, name: Seq<char>) -> bool {
        (!hidden(name) || self.traverse_hidden) && !self.is_ignored(name)
    }
}

/// The names of `own`, followed by those of `root` where chaining is on.
pub open spec fn chained(own: Seq<Seq<char>>, root: Seq<Seq<char>>, chain: bool) -> Seq<
    Seq<char>,
> {
    if chain {
        own + root
    } else {
        own
    }
}

/// The rules that result from merging `entry` with the root level of
/// `config`.
pub open spec fn merged(entry: IncludeEntry, config: Config) -> Rules {
    Rules {
        mode: entry.mode,
        marker_names: chained(
            entry.markers.names(),
            config.markers.names(),
            entry.markers.chain_root_markers,
        ),
        marker_patterns: chained(
            entry.markers.patterns(),
            config.markers.patterns(),
            entry.markers.chain_root_markers,
        ),
        ignore_names: chained(
            entry.ignore.names(),
            config.ignore.names(),
            entry.ignore.chain_root_ignore,
        ),
        ignore_patterns: chained(
            entry.ignore.patterns(),
            config.ignore.patterns(),
            entry.ignore.chain_root_ignore,
        ),
        depth: entry.depth,
        include_intermediate_paths: entry.include_intermediate_paths,
        yield_on_marker: entry.yield_on_marker,
        traverse_hidden: entry.markers.traverse_hidden,
    }
}

/// Fully resolved rules, with the patterns compiled once.
pub struct RuleSet {
    mode: Mode,
    marker_names: Vec<String>,
    marker_patterns: RegexSet,
    ignore_names: Vec<String>,
    ignore_patterns: RegexSet,
    depth: u8,
    include_intermediate_paths: bool,
    yield_on_marker: bool,
    traverse_hidden: bool,
}

impl View for RuleSet {
    type V = Rules;

    closed spec fn view(&self) -> Rules {
        Rules {
            mode: self.mode,
            marker_names: texts(self.marker_names@),
            marker_patterns: set_patterns(self.marker_patterns),
            ignore_names: texts(self.ignore_names@),
            ignore_patterns: set_patterns(self.ignore_patterns),
            depth: self.depth,
            include_intermediate_paths: self.include_intermediate_paths,
            yield_on_marker: self.yield_on_marker,
            traverse_hidden: self.traverse_hidden,
        }
    }
}

/// Copies `own` and, where `chain` is set, appends a copy of `root`.
fn chain_lists(own: &Vec<String>, root: &Vec<String>, chain: bool) -> (all: Vec<String>)
    ensures
        texts(all@) == chained(texts(own@), texts(root@), chain),
{
    let mut all: Vec<String> = Vec::new();
    let mut i: usize = 0;
    while i < own.len()
        invariant
            i <= own@.len(),
            all@.len() == i,
            forall|k: int| 0 <= k < i ==> all@[k]@ == own@[k]@,
        decreases own@.len() - i,
    {
        all.push(own[i].clone());
        i += 1;
    }
    assert(texts(all@) =~= texts(own@));
    if chain {
        let mut j: usize = 0;
        while j < root.len()
            invariant
                j <= root@.len(),
                all@.len() == own@.len() + j,
                forall|k: int| 0 <= k < own@.len() ==> all@[k]@ == own@[k]@,
                forall|k: int| 0 <= k < j ==> all@[own@.len() + k]@ == root@[k]@,
            decreases root@.len() - j,
        {
            all.push(root[j].clone());
            j += 1;
        }
        assert(texts(all@) =~= texts(own@) + texts(root@));
    }
    all
}

/// Whether `name` is among `names`.
fn listed(names: &Vec<String>, name: &String) -> (found: bool)
    ensures
        found == texts(names@).contains(name@),
{
    let mut i: usize = 0;
    while i < names.len()
        invariant
            i <= names@.len(),
            forall|j: int| 0 <= j < i ==> texts(names@)[j] != name@,
        decreases names@.len() - i,
    {
        if names[i] == *name {
            assert(texts(names@)[i as int] == name@);
            return true;
        }
        i += 1;
    }
    false
}

impl RuleSet {
    /// Merges `entry` with the root level of `config` and compiles the
    /// patterns. Fails exactly when the effective marker patterns or the
    /// effective ignore patterns do not compile.
    pub fn resolve(entry: &IncludeEntry, config: &Config) -> (r: Result<RuleSet, PickerError>)
        ensures
            r is Ok <==> patterns_compile(merged(*entry, *config).marker_patterns)
                && patterns_compile(merged(*entry, *config).ignore_patterns),
            r is Ok ==> r->Ok_0@ == merged(*entry, *config),
            r is Err ==> r->Err_0 is Regex,
    {
        let marker_names = chain_lists(
            &entry.markers.exact,
            &config.markers.exact,
            entry.markers.chain_root_markers,
        );
        let marker_sources = chain_lists(
            &entry.markers.pattern,
            &config.markers.pattern,
            entry.markers.chain_root_markers,
        );
        let marker_patterns = match compile_set(&marker_sources) {
            Ok(set) => set,
            Err(e) => {
                return Err(PickerError::Regex(error_text(&e)));
            },
        };
        let ignore_names = chain_lists(
            &entry.ignore.exact,
            &config.ignore.exact,
            entry.ignore.chain_root_ignore,
        );
        let ignore_sources = chain_lists(
            &entry.ignore.pattern,
            &config.ignore.pattern,
            entry.ignore.chain_root_ignore,
        );
        let ignore_patterns = match compile_set(&ignore_sources) {
            Ok(set) => set,
            Err(e) => {
                return Err(PickerError::Regex(error_text(&e)));
            },
        };
        Ok(
            RuleSet {
                mode: entry.mode,
                marker_names,
                marker_patterns,
                ignore_names,
                ignore_patterns,
                depth: entry.depth,
                include_intermediate_paths: entry.include_intermediate_paths,
                yield_on_marker: entry.yield_on_marker,
                traverse_hidden: entry.markers.traverse_hidden,
            },
        )
    }

    pub fn mode(&self) -> (mode: Mode)
        ensures
            mode == self@.mode,
    {
        self.mode
    }

    pub fn depth(&self) -> (depth: u8)
        ensures
            depth == self@.depth,
    {
        self.depth
    }

    pub fn include_intermediate_paths(&self) -> (on: bool)
        ensures
            on == self@.include_intermediate_paths,
    {
        self.include_intermediate_paths
    }

    pub fn yield_on_marker(&self) -> (on: bool)
        ensures
            on == self@.yield_on_marker,
    {
        self.yield_on_marker
    }

    pub fn traverse_hidden(&self) -> (on: bool)
        ensures
            on == self@.traverse_hidden,
    {
        self.traverse_hidden
    }

    /// Whether an entry of this name marks its directory as a project.
    pub fn is_marker(&self, name: &str) -> (yes: bool)
        ensures
            yes == self@.is_marker(name@),
    {
        let owned = name.to_owned();
        let star = "*".to_owned();
        proof {
            reveal_strlit("*");
            assert(star@ =~= wildcard());
        }
        listed(&self.marker_names, &owned) || listed(&self.marker_names, &star) || set_is_match(
            &self.marker_patterns,
            name,
        )
    }

    /// Whether an entry of this name is ignored.
    pub fn is_ignored(&self, name: &str) -> (yes: bool)
        ensures
            yes == self@.is_ignored(name@),
    {
        let owned = name.to_owned();
        listed(&self.ignore_names, &owned) || set_is_match(&self.ignore_patterns, name)
    }

    /// Whether the walk may look at an entry of this name.
    pub fn admits(&self, name: &str) -> (yes: bool)
        ensures
            yes == self@.admits(name@),
    {
        (!is_hidden(name) || self.traverse_hidden) && !self.is_ignored(name)
    }
}

/// Whether the name starts with a dot.
pub fn is_hidden(name: &str) -> (yes: bool)
    ensures
        yes == hidden(name@),
{
    name.unicode_len() > 0 && name.get_char(0) == '.'
}

} // verus!
