use pfp::config::{Config, Ignore, IncludeEntry, Markers, Mode};
use pfp::entry::{DirEntry, EntryKind};
use pfp::error::PickerError;
use pfp::paths::PathSet;
use pfp::rules::RuleSet;
use pfp::tree::{get_included_paths_list, scan_tree, DirTree};

fn words(list: &[&str]) -> Vec<String> {
    list.iter().map(|s| s.to_string()).collect()
}

fn bare_config() -> Config {
    Config {
        sessions: vec![],
        markers: Markers {
            exact: vec![],
            pattern: vec![],
            traverse_hidden: true,
            chain_root_markers: false,
        },
        ignore: Ignore { exact: vec![], pattern: vec![], chain_root_ignore: false },
        includes: vec![],
    }
}

fn git_entry(yield_on_marker: bool, include_intermediate_paths: bool, depth: u8) -> IncludeEntry {
    IncludeEntry {
        paths: words(&["/repo"]),
        mode: Mode::Dir,
        markers: Markers {
            exact: words(&[".git"]),
            pattern: vec![],
            traverse_hidden: true,
            chain_root_markers: false,
        },
        ignore: Ignore { exact: vec![], pattern: vec![], chain_root_ignore: false },
        include_intermediate_paths,
        yield_on_marker,
        depth,
    }
}

fn rules_of(entry: &IncludeEntry) -> RuleSet {
    RuleSet::resolve(entry, &bare_config()).unwrap()
}

/// /repo holds sub, and sub holds .git.
fn repo_with_project_below() -> DirTree {
    DirTree::dir(
        "repo",
        vec![DirTree::dir("sub", vec![DirTree::dir(".git", vec![DirTree::file("HEAD")])])],
    )
}

/// /repo holds .git and sub, and sub holds .git too.
fn repo_with_marker_at_root() -> DirTree {
    DirTree::dir(
        "repo",
        vec![
            DirTree::dir(".git", vec![DirTree::file("HEAD")]),
            DirTree::dir("sub", vec![DirTree::dir(".git", vec![DirTree::file("HEAD")])]),
        ],
    )
}

fn scan(tree: &DirTree, root: &str, rules: &RuleSet) -> (Result<bool, PickerError>, Vec<String>) {
    let mut output = PathSet::new();
    let r = scan_tree(tree, root, &mut output, rules);
    (r, output.to_vec())
}

#[test]
fn project_below_root_is_listed_with_the_root() {
    let rules = rules_of(&git_entry(true, true, 10));
    let (r, out) = scan(&repo_with_project_below(), "/repo", &rules);
    assert!(matches!(r, Ok(true)));
    assert_eq!(out, words(&["/repo", "/repo/sub"]));
}

#[test]
fn project_below_root_is_listed_alone_without_intermediate_paths() {
    let rules = rules_of(&git_entry(true, false, 10));
    let (r, out) = scan(&repo_with_project_below(), "/repo", &rules);
    assert!(matches!(r, Ok(true)));
    assert_eq!(out, words(&["/repo/sub"]));
}

#[test]
fn ignored_directory_is_never_visited() {
    let mut entry = git_entry(true, true, 10);
    entry.ignore.exact = words(&["sub"]);
    let rules = rules_of(&entry);
    let mut output = PathSet::new();
    let r = get_included_paths_list(&repo_with_project_below(), "/repo", 0, &mut output, &rules);
    assert!(matches!(r, Ok(false)));
    assert_eq!(output.len(), 0);
    assert_eq!(output.to_vec(), Vec::<String>::new());
}

#[test]
fn ignored_directory_leaves_only_the_seeded_root() {
    let mut entry = git_entry(true, true, 10);
    entry.ignore.exact = words(&["sub"]);
    let rules = rules_of(&entry);
    let (r, out) = scan(&repo_with_project_below(), "/repo", &rules);
    assert!(matches!(r, Ok(false)));
    assert_eq!(out, words(&["/repo"]));
}

#[test]
fn marker_at_the_root_ends_the_walk_there() {
    let rules = rules_of(&git_entry(true, true, 10));
    let (r, out) = scan(&repo_with_marker_at_root(), "/repo", &rules);
    assert!(matches!(r, Ok(true)));
    assert_eq!(out, words(&["/repo"]));
    let rules = rules_of(&git_entry(true, false, 10));
    let (r, out) = scan(&repo_with_marker_at_root(), "/repo", &rules);
    assert!(matches!(r, Ok(true)));
    assert_eq!(out, words(&["/repo"]));
}

#[test]
fn without_yield_on_marker_the_walk_goes_on_below_a_marker() {
    let rules = rules_of(&git_entry(false, true, 10));
    let (r, out) = scan(&repo_with_marker_at_root(), "/repo", &rules);
    assert!(matches!(r, Ok(true)));
    assert_eq!(out, words(&["/repo", "/repo/sub"]));
    let rules = rules_of(&git_entry(false, false, 10));
    let (r, out) = scan(&repo_with_marker_at_root(), "/repo", &rules);
    assert!(matches!(r, Ok(true)));
    assert_eq!(out, Vec::<String>::new());
}

#[test]
fn root_is_listed_even_when_nothing_matches() {
    let rules = rules_of(&git_entry(true, true, 10));
    let tree = DirTree::dir("repo", vec![DirTree::dir("docs", vec![DirTree::file("a.md")])]);
    let (r, out) = scan(&tree, "/repo", &rules);
    assert!(matches!(r, Ok(false)));
    assert_eq!(out, words(&["/repo"]));
    let rules = rules_of(&git_entry(true, false, 10));
    let (r, out) = scan(&tree, "/repo", &rules);
    assert!(matches!(r, Ok(false)));
    assert_eq!(out, Vec::<String>::new());
}

fn chain(names: &[&str]) -> DirTree {
    if names.len() == 1 {
        DirTree::dir(names[0], vec![DirTree::dir(".git", vec![])])
    } else {
        DirTree::dir(names[0], vec![chain(&names[1..])])
    }
}

#[test]
fn nothing_is_recorded_below_the_depth_limit() {
    let tree = chain(&["r", "a", "b", "c"]);
    let (r, out) = scan(&tree, "/r", &rules_of(&git_entry(true, true, 3)));
    assert!(matches!(r, Ok(true)));
    assert_eq!(out, words(&["/r", "/r/a/b/c", "/r/a/b", "/r/a"]));
    let (r, out) = scan(&tree, "/r", &rules_of(&git_entry(true, true, 2)));
    assert!(matches!(r, Ok(false)));
    assert_eq!(out, words(&["/r"]));
    let (r, out) = scan(&tree, "/r", &rules_of(&git_entry(true, false, 2)));
    assert!(matches!(r, Ok(false)));
    assert_eq!(out, Vec::<String>::new());
}

#[test]
fn marker_at_the_depth_limit_is_still_recorded() {
    let tree = chain(&["r", "a"]);
    let (r, out) = scan(&tree, "/r", &rules_of(&git_entry(false, false, 1)));
    assert!(matches!(r, Ok(true)));
    assert_eq!(out, words(&["/r/a"]));
    let tree = chain(&["r"]);
    let (r, out) = scan(&tree, "/r", &rules_of(&git_entry(false, false, 0)));
    assert!(matches!(r, Ok(true)));
    assert_eq!(out, words(&["/r"]));
}

#[test]
fn every_ancestor_of_a_match_is_recorded() {
    let tree = DirTree::dir(
        "r",
        vec![
            DirTree::dir("x", vec![DirTree::file("note")]),
            chain(&["a", "b"]),
            DirTree::dir("y", vec![]),
        ],
    );
    let (r, out) = scan(&tree, "/r", &rules_of(&git_entry(true, true, 255)));
    assert!(matches!(r, Ok(true)));
    assert_eq!(out, words(&["/r", "/r/a/b", "/r/a"]));
    let (_, out) = scan(&tree, "/r", &rules_of(&git_entry(true, false, 255)));
    assert_eq!(out, words(&["/r/a/b"]));
}

#[test]
fn ignored_name_wins_over_a_marker_inside() {
    let mut entry = git_entry(true, true, 10);
    entry.ignore.pattern = words(&["^s.b$"]);
    let rules = rules_of(&entry);
    let (r, out) = scan(&repo_with_project_below(), "/repo", &rules);
    assert!(matches!(r, Ok(false)));
    assert_eq!(out, words(&["/repo"]));
}

#[test]
fn overlapping_roots_give_no_duplicates() {
    let rules = rules_of(&git_entry(true, true, 10));
    let tree = repo_with_project_below();
    let mut output = PathSet::new();
    assert!(matches!(scan_tree(&tree, "/repo", &mut output, &rules), Ok(true)));
    assert!(matches!(scan_tree(&tree, "/repo", &mut output, &rules), Ok(true)));
    let sub = DirTree::dir("sub", vec![DirTree::dir(".git", vec![])]);
    assert!(matches!(scan_tree(&sub, "/repo/sub", &mut output, &rules), Ok(true)));
    assert_eq!(output.to_vec(), words(&["/repo", "/repo/sub"]));
}

#[test]
fn hidden_directories_are_skipped_unless_traversed() {
    let tree = DirTree::dir("r", vec![chain(&[".cfg", "tool"]), chain(&["src"])]);
    let mut entry = git_entry(true, false, 10);
    entry.markers.traverse_hidden = false;
    let (_, out) = scan(&tree, "/r", &rules_of(&entry));
    assert_eq!(out, words(&["/r/src"]));
    entry.markers.traverse_hidden = true;
    let (_, out) = scan(&tree, "/r", &rules_of(&entry));
    assert_eq!(out, words(&["/r/.cfg/tool", "/r/src"]));
}

#[test]
fn unreadable_directory_counts_as_empty() {
    let tree = DirTree::dir("r", vec![DirTree::locked_dir("secret"), chain(&["ok"])]);
    let (r, out) = scan(&tree, "/r", &rules_of(&git_entry(true, true, 10)));
    assert!(matches!(r, Ok(true)));
    assert_eq!(out, words(&["/r", "/r/ok"]));
    let (r, out) = scan(&DirTree::locked_dir("r"), "/r", &rules_of(&git_entry(true, false, 10)));
    assert!(matches!(r, Ok(false)));
    assert_eq!(out, Vec::<String>::new());
}

#[test]
fn symlinks_count_as_what_they_lead_to() {
    let mut link = chain(&["linked"]);
    link.entry.kind = EntryKind::SymlinkToDirectory;
    let mut broken = chain(&["broken"]);
    broken.entry.kind = EntryKind::Unreadable;
    let mut to_file = chain(&["shortcut"]);
    to_file.entry.kind = EntryKind::SymlinkToFile;
    let tree = DirTree::dir("r", vec![link, broken, to_file]);
    let (_, out) = scan(&tree, "/r", &rules_of(&git_entry(true, false, 10)));
    assert_eq!(out, words(&["/r/linked"]));
}

#[test]
fn undecodable_name_aborts_the_scan() {
    let mut odd = DirTree::file("caf\u{fffd}");
    odd.entry = DirEntry::undecodable("caf\u{fffd}", EntryKind::File);
    let tree = DirTree::dir("r", vec![DirTree::dir("a", vec![odd])]);
    let (r, _) = scan(&tree, "/r", &rules_of(&git_entry(true, true, 10)));
    match r {
        Err(PickerError::Descend(what)) => {
            assert_eq!(what, "entry is not utf8 string: caf\u{fffd}");
        }
        _ => panic!("the scan should fail"),
    }
}

#[test]
fn undecodable_name_behind_a_marker_is_never_seen() {
    let mut odd = DirTree::file("x");
    odd.entry = DirEntry::undecodable("x", EntryKind::File);
    let tree = DirTree::dir("r", vec![DirTree::dir(".git", vec![]), odd]);
    let (r, out) = scan(&tree, "/r", &rules_of(&git_entry(true, false, 10)));
    assert!(matches!(r, Ok(true)));
    assert_eq!(out, words(&["/r"]));
    let (r, _) = scan(&tree, "/r", &rules_of(&git_entry(false, false, 10)));
    assert!(matches!(r, Err(PickerError::Descend(_))));
}

fn file_entry(depth: u8, include_intermediate_paths: bool) -> IncludeEntry {
    let mut entry = git_entry(true, include_intermediate_paths, depth);
    entry.mode = Mode::File;
    entry.ignore.exact = words(&["target"]);
    entry
}

fn notes() -> DirTree {
    DirTree::dir(
        "notes",
        vec![
            DirTree::file("todo.md"),
            DirTree::dir("work", vec![DirTree::file("plan.md"), DirTree::dir("empty", vec![])]),
            DirTree::dir("target", vec![DirTree::file("junk")]),
            DirTree::file(".git"),
        ],
    )
}

#[test]
fn file_mode_lists_files_then_directories_that_hold_some() {
    let (r, out) = scan(&notes(), "/notes", &rules_of(&file_entry(10, true)));
    assert!(matches!(r, Ok(true)));
    assert_eq!(
        out,
        words(&["/notes", "/notes/todo.md", "/notes/.git", "/notes/work/plan.md", "/notes/work"])
    );
    let (r, out) = scan(&notes(), "/notes", &rules_of(&file_entry(10, false)));
    assert!(matches!(r, Ok(true)));
    assert_eq!(out, words(&["/notes/todo.md", "/notes/.git", "/notes/work/plan.md"]));
}

#[test]
fn file_mode_stops_at_the_depth_limit() {
    let (r, out) = scan(&notes(), "/notes", &rules_of(&file_entry(1, false)));
    assert!(matches!(r, Ok(true)));
    assert_eq!(out, words(&["/notes/todo.md", "/notes/.git"]));
    let (r, out) = scan(&notes(), "/notes", &rules_of(&file_entry(0, false)));
    assert!(matches!(r, Ok(false)));
    assert_eq!(out, Vec::<String>::new());
}

#[test]
fn root_with_trailing_separator_joins_cleanly() {
    let rules = rules_of(&git_entry(true, false, 10));
    let (_, out) = scan(&repo_with_project_below(), "/repo/", &rules);
    assert_eq!(out, words(&["/repo/sub"]));
    let (_, out) = scan(&repo_with_project_below(), "/", &rules);
    assert_eq!(out, words(&["/sub"]));
}
