use pfp::config::{
    default_chain_root_ignore, default_chain_root_markers, default_include_intermediate_paths,
    default_traverse_hidden, default_yield_on_marker, Config, Ignore, IncludeEntry, Markers, Mode,
};
use pfp::entry::{is_dir, is_file, EntryKind};
use pfp::error::{LookupFailure, PickerError};
use pfp::listing::{find_marker, get_not_ignored_dir_entries};
use pfp::entry::DirEntry;
use pfp::paths::{join_path, PathSet};
use pfp::rules::{is_hidden, RuleSet};

fn list(items: &[&str]) -> Vec<String> {
    items.iter().map(|s| s.to_string()).collect()
}

#[test]
fn defaults_are_as_documented() {
    assert!(default_yield_on_marker());
    assert!(default_include_intermediate_paths());
    assert!(default_traverse_hidden());
    assert!(default_chain_root_markers());
    assert!(default_chain_root_ignore());
    assert_eq!(Mode::default(), Mode::Dir);
    let markers = Markers::default();
    assert_eq!(markers.exact, list(&[".git", "Cargo.toml", "go.mod"]));
    assert!(markers.pattern.is_empty());
    assert!(markers.traverse_hidden && markers.chain_root_markers);
    let ignore = Ignore::default();
    assert_eq!(
        ignore.exact,
        list(&[
            ".DS_Store",
            "node_modules",
            "venv",
            "bin",
            "target",
            "debug",
            "src",
            "test",
            "tests",
            "lib",
            "docs",
            "pkg"
        ])
    );
    assert!(ignore.pattern.is_empty());
    assert!(ignore.chain_root_ignore);
    let entry = IncludeEntry::default();
    assert!(entry.paths.is_empty());
    assert_eq!(entry.mode, Mode::Dir);
    assert_eq!(entry.depth, 255);
    assert!(entry.include_intermediate_paths && entry.yield_on_marker);
    let config = Config::default();
    assert!(config.sessions.is_empty());
    assert_eq!(config.includes.len(), 1);
    assert_eq!(config.includes[0].paths, list(&["$HOME"]));
    assert_eq!(config.includes[0].depth, 255);
    assert_eq!(config.markers.exact, list(&[".git", "Cargo.toml", "go.mod"]));
}

fn entry_of(markers: Markers, ignore: Ignore) -> IncludeEntry {
    IncludeEntry {
        paths: vec![],
        mode: Mode::File,
        markers,
        ignore,
        include_intermediate_paths: false,
        yield_on_marker: false,
        depth: 7,
    }
}

#[test]
fn chaining_adds_the_root_level_lists() {
    let config = Config::default();
    let own = Markers {
        exact: list(&["Makefile"]),
        pattern: list(&[r"\.sln$"]),
        traverse_hidden: false,
        chain_root_markers: true,
    };
    let ignore = Ignore { exact: list(&["out"]), pattern: vec![], chain_root_ignore: true };
    let rules = RuleSet::resolve(&entry_of(own, ignore), &config).unwrap();
    assert!(rules.is_marker("Makefile"));
    assert!(rules.is_marker(".git"));
    assert!(rules.is_marker("go.mod"));
    assert!(rules.is_marker("app.sln"));
    assert!(!rules.is_marker("app.sln.bak"));
    assert!(!rules.is_marker("README"));
    assert!(rules.is_ignored("out"));
    assert!(rules.is_ignored("node_modules"));
    assert!(!rules.is_ignored("Makefile"));
    assert_eq!(rules.mode(), Mode::File);
    assert_eq!(rules.depth(), 7);
    assert!(!rules.include_intermediate_paths());
    assert!(!rules.yield_on_marker());
    assert!(!rules.traverse_hidden());
}

#[test]
fn without_chaining_only_the_own_lists_count() {
    let config = Config::default();
    let own = Markers {
        exact: list(&["Makefile"]),
        pattern: vec![],
        traverse_hidden: true,
        chain_root_markers: false,
    };
    let ignore = Ignore { exact: list(&["out"]), pattern: vec![], chain_root_ignore: false };
    let rules = RuleSet::resolve(&entry_of(own, ignore), &config).unwrap();
    assert!(rules.is_marker("Makefile"));
    assert!(!rules.is_marker(".git"));
    assert!(rules.is_ignored("out"));
    assert!(!rules.is_ignored("node_modules"));
    assert!(rules.traverse_hidden());
}

#[test]
fn empty_pattern_lists_match_nothing() {
    let own = Markers {
        exact: vec![],
        pattern: vec![],
        traverse_hidden: true,
        chain_root_markers: false,
    };
    let ignore = Ignore { exact: vec![], pattern: vec![], chain_root_ignore: false };
    let rules = RuleSet::resolve(&entry_of(own, ignore), &Config::default()).unwrap();
    assert!(!rules.is_marker(""));
    assert!(!rules.is_marker("anything"));
    assert!(!rules.is_ignored("anything"));
    assert!(rules.admits("anything"));
}

#[test]
fn patterns_match_anywhere_in_the_name() {
    let own = Markers {
        exact: vec![],
        pattern: list(&["proj", r"^\d+$"]),
        traverse_hidden: true,
        chain_root_markers: false,
    };
    let ignore =
        Ignore { exact: vec![], pattern: list(&[r"~$", "cache"]), chain_root_ignore: false };
    let rules = RuleSet::resolve(&entry_of(own, ignore), &Config::default()).unwrap();
    assert!(rules.is_marker("my-project"));
    assert!(rules.is_marker("2024"));
    assert!(!rules.is_marker("2024a"));
    assert!(rules.is_ignored("notes~"));
    assert!(rules.is_ignored(".cache"));
    assert!(!rules.is_ignored("notes"));
}

#[test]
fn star_among_the_exact_markers_matches_every_name() {
    let own = Markers {
        exact: list(&["*"]),
        pattern: vec![],
        traverse_hidden: true,
        chain_root_markers: false,
    };
    let ignore = Ignore { exact: list(&["*"]), pattern: vec![], chain_root_ignore: false };
    let rules = RuleSet::resolve(&entry_of(own, ignore), &Config::default()).unwrap();
    assert!(rules.is_marker("anything"));
    assert!(rules.is_marker(""));
    assert!(rules.is_marker("*"));
    assert!(rules.is_ignored("*"));
    assert!(!rules.is_ignored("anything"));
}

#[test]
fn invalid_pattern_is_refused_at_once() {
    let own = Markers {
        exact: vec![],
        pattern: list(&["(unclosed"]),
        traverse_hidden: true,
        chain_root_markers: false,
    };
    let ignore = Ignore { exact: vec![], pattern: vec![], chain_root_ignore: false };
    match RuleSet::resolve(&entry_of(own, ignore), &Config::default()) {
        Err(PickerError::Regex(what)) => assert!(what.contains("unclosed")),
        _ => panic!("the pattern should be refused"),
    }
    let own = Markers {
        exact: vec![],
        pattern: vec![],
        traverse_hidden: true,
        chain_root_markers: false,
    };
    let ignore = Ignore { exact: vec![], pattern: list(&["*"]), chain_root_ignore: false };
    assert!(matches!(
        RuleSet::resolve(&entry_of(own, ignore), &Config::default()),
        Err(PickerError::Regex(_))
    ));
}

#[test]
fn invalid_root_level_pattern_counts_only_when_chained() {
    let mut config = Config::default();
    config.markers.pattern = list(&["["]);
    let chained = entry_of(
        Markers { exact: vec![], pattern: vec![], traverse_hidden: true, chain_root_markers: true },
        Ignore { exact: vec![], pattern: vec![], chain_root_ignore: false },
    );
    assert!(matches!(RuleSet::resolve(&chained, &config), Err(PickerError::Regex(_))));
    let alone = entry_of(
        Markers {
            exact: vec![],
            pattern: vec![],
            traverse_hidden: true,
            chain_root_markers: false,
        },
        Ignore { exact: vec![], pattern: vec![], chain_root_ignore: false },
    );
    assert!(RuleSet::resolve(&alone, &config).is_ok());
}

#[test]
fn hidden_names_start_with_a_dot() {
    assert!(is_hidden(".git"));
    assert!(is_hidden("."));
    assert!(!is_hidden("git."));
    assert!(!is_hidden(""));
    let own = Markers {
        exact: vec![],
        pattern: vec![],
        traverse_hidden: false,
        chain_root_markers: false,
    };
    let ignore = Ignore { exact: list(&["skip"]), pattern: vec![], chain_root_ignore: false };
    let rules = RuleSet::resolve(&entry_of(own, ignore), &Config::default()).unwrap();
    assert!(!rules.admits(".git"));
    assert!(!rules.admits("skip"));
    assert!(rules.admits("keep"));
}

#[test]
fn kinds_resolve_through_links() {
    assert!(is_dir(EntryKind::Directory));
    assert!(is_dir(EntryKind::SymlinkToDirectory));
    assert!(!is_dir(EntryKind::File));
    assert!(!is_dir(EntryKind::SymlinkToFile));
    assert!(!is_dir(EntryKind::Unreadable));
    assert!(is_file(EntryKind::File));
    assert!(is_file(EntryKind::SymlinkToFile));
    assert!(!is_file(EntryKind::Directory));
    assert!(!is_file(EntryKind::SymlinkToDirectory));
    assert!(!is_file(EntryKind::Unreadable));
}

#[test]
fn listing_is_filtered_in_order() {
    let own = Markers {
        exact: list(&["Cargo.toml"]),
        pattern: vec![],
        traverse_hidden: false,
        chain_root_markers: false,
    };
    let ignore =
        Ignore { exact: list(&["target"]), pattern: list(&["^tmp"]), chain_root_ignore: false };
    let rules = RuleSet::resolve(&entry_of(own, ignore), &Config::default()).unwrap();
    let listing = vec![
        DirEntry::new("src", EntryKind::Directory),
        DirEntry::new(".git", EntryKind::Directory),
        DirEntry::new("target", EntryKind::Directory),
        DirEntry::new("tmp1", EntryKind::File),
        DirEntry::new("Cargo.toml", EntryKind::File),
        DirEntry::new("link", EntryKind::Unreadable),
    ];
    let kept = get_not_ignored_dir_entries(&rules, "/p", &listing).unwrap();
    let seen: Vec<(usize, String, EntryKind)> =
        kept.into_iter().map(|c| (c.index, c.path, c.kind)).collect();
    assert_eq!(
        seen,
        vec![
            (0, "/p/src".to_string(), EntryKind::Directory),
            (4, "/p/Cargo.toml".to_string(), EntryKind::File),
            (5, "/p/link".to_string(), EntryKind::Unreadable),
        ]
    );
    assert!(matches!(find_marker(&listing, &rules), Ok(true)));
    assert!(matches!(find_marker(&listing[..4].to_vec_entries(), &rules), Ok(false)));
}

trait ToEntries {
    fn to_vec_entries(&self) -> Vec<DirEntry>;
}

impl ToEntries for [DirEntry] {
    fn to_vec_entries(&self) -> Vec<DirEntry> {
        self.iter().map(|e| DirEntry { name: e.name.clone(), decodable: e.decodable, kind: e.kind }).collect()
    }
}

#[test]
fn paths_keep_their_order_and_come_once() {
    let mut set = PathSet::new();
    assert!(set.insert("/b"));
    assert!(set.insert("/a"));
    assert!(!set.insert("/b"));
    assert!(set.insert("/c"));
    assert_eq!(set.len(), 3);
    assert!(set.contains("/a"));
    assert!(!set.contains("/d"));
    assert_eq!(set.get(1), "/a");
    assert_eq!(set.to_vec(), list(&["/b", "/a", "/c"]));
    set.distinctness();
}

#[test]
fn joining_uses_one_separator() {
    assert_eq!(join_path("/repo", "sub"), "/repo/sub");
    assert_eq!(join_path("/repo/", "sub"), "/repo/sub");
    assert_eq!(join_path("/", "sub"), "/sub");
    assert_eq!(join_path("", "sub"), "sub");
    assert_eq!(join_path("rel", "sub"), "rel/sub");
}

#[test]
fn failures_read_as_documented() {
    assert_eq!(PickerError::EmptyPick.message(), "Empty pick!");
    assert_eq!(PickerError::Regex("bad".to_string()).message(), "Regex error: bad");
    assert_eq!(
        PickerError::undecodable("x").message(),
        "Descend error: entry is not utf8 string: x"
    );
    assert_eq!(
        PickerError::EnvVar(LookupFailure::NotPresent, "HOME".to_string()).message(),
        "Env var error: environment variable not found: HOME"
    );
    assert_eq!(
        PickerError::EnvVar(LookupFailure::NotUnicode("\"\\xFF\"".to_string()), "X".to_string())
            .message(),
        "Env var error: environment variable was not valid unicode: \"\\xFF\": X"
    );
}
