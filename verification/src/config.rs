//! The configuration surface: what the user may say about markers, ignore
//! lists, scan roots and sessions, and what holds where they say nothing.

use vstd::prelude::*;

verus! {

/// The texts of a list of strings.
pub open spec fn texts(list: Seq<String>) -> Seq<Seq<char>> {
    Seq::new(list.len(), |i: int| list[i]@)
}

/// How a scan root is walked.
#[derive(Clone, Copy, Debug, PartialEq, Eq, Structural)]
pub enum Mode {
    /// Directories qualify by the markers they hold.
    Dir,
    /// Every file that is not ignored qualifies.
    File,
}

impl Default for Mode {
    fn default() -> (mode: Mode)
        ensures
            mode == Mode::Dir,
    {
        Mode::Dir
    }
}

pub fn default_yield_on_marker() -> (on: bool)
    ensures
        on,
{
    true
}

pub fn default_include_intermediate_paths() -> (on: bool)
    ensures
        on,
{
    true
}

pub fn default_traverse_hidden() -> (on: bool)
    ensures
        on,
{
    true
}

pub fn default_chain_root_markers() -> (on: bool)
    ensures
        on,
{
    true
}

pub fn default_chain_root_ignore() -> (on: bool)
    ensures
        on,
{
    true
}

/// The marker names that hold where none are configured.
pub open spec fn default_marker_names() -> Seq<Seq<char>> {
    seq![".git"@, "Cargo.toml"@, "go.mod"@]
}

/// The ignored names that hold where none are configured.
pub open spec fn default_ignore_names() -> Seq<Seq<char>> {
    seq![
        ".DS_Store"@,
        "node_modules"@,
        "venv"@,
        "bin"@,
        "target"@,
        "debug"@,
        "src"@,
        "test"@,
        "tests"@,
        "lib"@,
        "docs"@,
        "pkg"@,
    ]
}

/// Names whose presence in a directory marks it as a project.
#[derive(Debug)]
pub struct Markers {
    pub exact: Vec<String>,
    pub pattern: Vec<String>,
    pub traverse_hidden: bool,
    pub chain_root_markers: bool,
}

impl Markers {
    pub open spec fn names(&self) -> Seq<Seq<char>> {
        texts(self.exact@)
    }

    pub open spec fn patterns(&self) -> Seq<Seq<char>> {
        texts(self.pattern@)
    }
}

impl Default for Markers {
    fn default() -> (markers: Markers)
        ensures
            markers.names() == default_marker_names(),
            markers.patterns() == Seq::<Seq<char>>::empty(),
            markers.traverse_hidden,
            markers.chain_root_markers,
    {
        let mut exact: Vec<String> = Vec::new();
        exact.push(".git".to_owned());
        exact.push("Cargo.toml".to_owned());
        exact.push("go.mod".to_owned());
        let markers = Markers {
            exact,
            pattern: Vec::new(),
            chain_root_markers: default_chain_root_markers(),
            traverse_hidden: default_traverse_hidden(),
        };
        assert(markers.names() =~= default_marker_names());
        assert(markers.patterns() =~= Seq::<Seq<char>>::empty());
        markers
    }
}

/// Names that are kept out of the walk and out of the results.
#[derive(Debug)]
pub struct Ignore {
    pub exact: Vec<String>,
    pub pattern: Vec<String>,
    pub chain_root_ignore: bool,
}

impl Ignore {
    pub open spec fn names(&self) -> Seq<Seq<char>> {
        texts(self.exact@)
    }

    pub open spec fn patterns(&self) -> Seq<Seq<char>> {
        texts(self.pattern@)
    }
}

impl Default for Ignore {
    fn default() -> (ignore: Ignore)
        ensures
            ignore.names() == default_ignore_names(),
            ignore.patterns() == Seq::<Seq<char>>::empty(),
            ignore.chain_root_ignore,
    {
        let mut exact: Vec<String> = Vec::new();
        exact.push(".DS_Store".to_owned());
        exact.push("node_modules".to_owned());
        exact.push("venv".to_owned());
        exact.push("bin".to_owned());
        exact.push("target".to_owned());
        exact.push("debug".to_owned());
        exact.push("src".to_owned());
        exact.push("test".to_owned());
        exact.push("tests".to_owned());
        exact.push("lib".to_owned());
        exact.push("docs".to_owned());
        exact.push("pkg".to_owned());
        let ignore = Ignore {
            exact,
            pattern: Vec::new(),
            chain_root_ignore: default_chain_root_ignore(),
        };
        assert(ignore.names() =~= default_ignore_names());
        assert(ignore.patterns() =~= Seq::<Seq<char>>::empty());
        ignore
    }
}

/// One group of scan roots with the rules that apply below them.
#[derive(Debug)]
pub struct IncludeEntry {
    pub paths: Vec<String>,
    pub mode: Mode,
    pub markers: Markers,
    pub ignore: Ignore,
    pub include_intermediate_paths: bool,
    pub yield_on_marker: bool,
    pub depth: u8,
}

impl Default for IncludeEntry {
    fn default() -> (entry: IncludeEntry)
        ensures
            entry.paths@.len() == 0,
            entry.mode == Mode::Dir,
            entry.markers.names() == default_marker_names(),
            entry.markers.patterns() == Seq::<Seq<char>>::empty(),
            entry.markers.traverse_hidden,
            entry.markers.chain_root_markers,
            entry.ignore.names() == default_ignore_names(),
            entry.ignore.patterns() == Seq::<Seq<char>>::empty(),
            entry.ignore.chain_root_ignore,
            entry.include_intermediate_paths,
            entry.yield_on_marker,
            entry.depth == u8::MAX,
    {
        IncludeEntry {
            paths: Vec::new(),
            mode: Mode::Dir,
            markers: Markers::default(),
            ignore: Ignore::default(),
            include_intermediate_paths: default_include_intermediate_paths(),
            yield_on_marker: default_yield_on_marker(),
            depth: u8::MAX,
        }
    }
}

/// A named session and the directories its windows open in.
#[derive(Debug)]
pub struct Session {
    pub name: String,
    pub windows: Vec<String>,
}

/// The whole configuration.
#[derive(Debug)]
pub struct Config {
    pub sessions: Vec<Session>,
    pub markers: Markers,
    pub ignore: Ignore,
    pub includes: Vec<IncludeEntry>,
}

impl Default for Config {
    fn default() -> (config: Config)
        ensures
            config.sessions@.len() == 0,
            config.markers.names() == default_marker_names(),
            config.markers.patterns() == Seq::<Seq<char>>::empty(),
            config.markers.traverse_hidden,
            config.markers.chain_root_markers,
            config.ignore.names() == default_ignore_names(),
            config.ignore.patterns() == Seq::<Seq<char>>::empty(),
            config.ignore.chain_root_ignore,
            config.includes@.len() == 1,
            texts(config.includes@[0].paths@) == seq!["$HOME"@],
            config.includes@[0].mode == Mode::Dir,
            config.includes@[0].markers.names() == default_marker_names(),
            config.includes@[0].markers.patterns() == Seq::<Seq<char>>::empty(),
            config.includes@[0].markers.traverse_hidden,
            config.includes@[0].markers.chain_root_markers,
            config.includes@[0].ignore.names() == default_ignore_names(),
            config.includes@[0].ignore.patterns() == Seq::<Seq<char>>::empty(),
            config.includes@[0].ignore.chain_root_ignore,
            config.includes@[0].include_intermediate_paths,
            config.includes@[0].yield_on_marker,
            config.includes@[0].depth == u8::MAX,
    {
        let mut home = IncludeEntry::default();
        home.paths.push("$HOME".to_owned());
        assert(texts(home.paths@) =~= seq!["$HOME"@]);
        let mut includes: Vec<IncludeEntry> = Vec::new();
        includes.push(home);
        Config {
            sessions: Vec::new(),
            markers: Markers::default(),
            ignore: Ignore::default(),
            includes,
        }
    }
}

} // verus!
