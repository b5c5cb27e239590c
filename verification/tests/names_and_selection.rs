use pfp::error::{LookupFailure, PickerError};
use pfp::expand::{conclude, expand, referenced_variables, value_for, Binding};
use pfp::names::{name_from_groups, trim_session_name, trim_window_name};
use pfp::paths::PathSet;
use pfp::select::{
    pick_project, project_arguments, project_list, select_from_list, selector_arguments,
};
use pfp::text::{join_lines, trim_end};
use pfp::timing::measure;

fn owned(items: &[&str]) -> Vec<String> {
    items.iter().map(|s| s.to_string()).collect()
}

#[test]
fn window_name_keeps_the_last_two_segments() {
    assert_eq!(trim_window_name("/Users/alice/projects/my-app").unwrap(), "proj/my-app");
    assert_eq!(trim_window_name("/a/bc/def").unwrap(), "bc/def");
    assert_eq!(trim_window_name("/abcd/e").unwrap(), "abcd/e");
    assert_eq!(trim_window_name("/abcde/e").unwrap(), "abcd/e");
    assert_eq!(trim_window_name("/h\u{e9}llo-w/x").unwrap(), "h\u{e9}ll/x");
}

#[test]
fn window_name_of_a_short_path_is_the_path() {
    assert_eq!(trim_window_name("/single").unwrap(), "/single");
    assert_eq!(trim_window_name("plain").unwrap(), "plain");
    assert_eq!(trim_window_name("").unwrap(), "");
    assert_eq!(trim_window_name("rel/path").unwrap(), "rel/path");
    assert_eq!(trim_window_name("/a/b/").unwrap(), "/a/b/");
    assert_eq!(trim_window_name("x/rel/path").unwrap(), "rel/path");
}

#[test]
fn window_name_from_given_groups() {
    let groups = Some(vec![
        Some("/projects/my-app".to_string()),
        Some("projects".to_string()),
        Some("my-app".to_string()),
    ]);
    assert_eq!(name_from_groups("/x/projects/my-app", &groups), "proj/my-app");
    assert_eq!(name_from_groups("/x", &None), "/x");
    let partial = Some(vec![Some("a".to_string()), None, Some("b".to_string())]);
    assert_eq!(name_from_groups("/x", &partial), "/x");
    let short = Some(vec![Some("a".to_string())]);
    assert_eq!(name_from_groups("/y", &short), "/y");
}

#[test]
fn session_name_loses_its_dots() {
    assert_eq!(trim_session_name(&"proj/my.app".to_string()), "proj/myapp");
    assert_eq!(trim_session_name(&"...".to_string()), "");
    assert_eq!(trim_session_name(&"plain".to_string()), "plain");
    assert_eq!(trim_session_name(&"".to_string()), "");
    assert_eq!(trim_session_name(&".a.\u{e9}.b.".to_string()), "a\u{e9}b");
}

#[test]
fn empty_answer_is_an_empty_pick() {
    assert!(matches!(select_from_list(String::new()), Err(PickerError::EmptyPick)));
    assert_eq!(select_from_list("/repo\n".to_string()).unwrap(), "/repo\n");
    assert!(matches!(pick_project(String::new()), Err(PickerError::EmptyPick)));
}

#[test]
fn picked_project_loses_trailing_white_space() {
    assert_eq!(pick_project("/repo/sub\n".to_string()).unwrap(), "/repo/sub");
    assert_eq!(pick_project("/repo/my app \t\r\n".to_string()).unwrap(), "/repo/my app");
    assert_eq!(pick_project("\n".to_string()).unwrap(), "");
    assert_eq!(pick_project("  lead".to_string()).unwrap(), "  lead");
    assert_eq!(trim_end("a\u{a0}\u{2003}"), "a");
    assert_eq!(trim_end("a\u{200b}"), "a\u{200b}");
    assert_eq!(trim_end(""), "");
}

#[test]
fn header_goes_behind_the_arguments() {
    assert_eq!(
        selector_arguments(&owned(&["-m", "--sync"]), "Pick:"),
        owned(&["-m", "--sync", "--header", "Pick:"])
    );
    assert_eq!(selector_arguments(&vec![], "H"), owned(&["--header", "H"]));
    assert_eq!(
        project_arguments(),
        owned(&[
            "--layout",
            "reverse",
            "--preview",
            "tree -C '{}'",
            "--preview-window",
            "right:nohidden"
        ])
    );
}

#[test]
fn list_has_one_path_to_a_line() {
    let mut set = PathSet::new();
    assert_eq!(project_list(&set), "");
    set.insert("/repo");
    assert_eq!(project_list(&set), "/repo");
    set.insert("/repo/sub");
    set.insert("/other");
    assert_eq!(project_list(&set), "/repo\n/repo/sub\n/other");
    assert_eq!(join_lines(&owned(&["", "a", ""])), "\na\n");
}

fn bound(name: &str, value: &str) -> Binding {
    Binding { name: name.to_string(), value: Ok(value.to_string()) }
}

fn unbound(name: &str, failure: LookupFailure) -> Binding {
    Binding { name: name.to_string(), value: Err(failure) }
}

#[test]
fn references_are_found_in_order() {
    assert_eq!(referenced_variables("$HOME/projects").unwrap(), owned(&["HOME"]));
    assert_eq!(
        referenced_variables("${XDG_CONFIG_HOME}/pfp/$USER/x").unwrap(),
        owned(&["XDG_CONFIG_HOME", "USER"])
    );
    assert_eq!(referenced_variables("/plain/path").unwrap(), Vec::<String>::new());
    assert_eq!(referenced_variables("$A$B").unwrap(), owned(&["A$B"]));
}

#[test]
fn values_take_the_place_of_references() {
    let env = vec![bound("HOME", "/home/al"), bound("USER", "al")];
    assert_eq!(expand("$HOME/projects", &env).unwrap(), "/home/al/projects");
    assert_eq!(expand("${HOME}/x/${USER}/y", &env).unwrap(), "/home/al/x/al/y");
    assert_eq!(expand("/plain/path", &env).unwrap(), "/plain/path");
    assert_eq!(expand("", &env).unwrap(), "");
    assert_eq!(expand("$HOME", &env).unwrap(), "/home/al");
}

#[test]
fn failed_lookup_fails_the_expansion() {
    let env = vec![
        bound("HOME", "/home/al"),
        unbound("A", LookupFailure::NotPresent),
        unbound("B", LookupFailure::NotUnicode("\"b\\xFF\"".to_string())),
    ];
    match expand("$A/$HOME/$B/x", &env) {
        Err(PickerError::EnvVar(LookupFailure::NotUnicode(raw), name)) => {
            assert_eq!(raw, "\"b\\xFF\"");
            assert_eq!(name, "B");
        }
        _ => panic!("the last failed reference should be reported"),
    }
    match expand("$B/$HOME/$A", &env) {
        Err(PickerError::EnvVar(LookupFailure::NotPresent, name)) => assert_eq!(name, "A"),
        _ => panic!("the last failed reference should be reported"),
    }
    match expand("$HOME/$NOWHERE", &env) {
        Err(PickerError::EnvVar(LookupFailure::NotPresent, name)) => assert_eq!(name, "NOWHERE"),
        _ => panic!("a reference without a binding should be reported"),
    }
}

#[test]
fn expansion_is_concluded_from_its_parts() {
    let env = vec![bound("A", "1"), unbound("B", LookupFailure::NotPresent)];
    assert_eq!(conclude(&owned(&["A", "A"]), &env, "text".to_string()).unwrap(), "text");
    assert_eq!(conclude(&vec![], &env, "text".to_string()).unwrap(), "text");
    assert_eq!(conclude(&owned(&[""]), &env, "text".to_string()).unwrap(), "text");
    assert!(matches!(
        conclude(&owned(&["B", "A"]), &env, "text".to_string()),
        Err(PickerError::EnvVar(LookupFailure::NotPresent, _))
    ));
    assert_eq!(value_for(&owned(&["A", "B", "A"]), &owned(&["1", "2", "3"]), "A"), "1");
    assert_eq!(value_for(&owned(&["A", "B"]), &owned(&["1", "2"]), "B"), "2");
    assert_eq!(value_for(&owned(&["A", "B"]), &owned(&["1"]), "B"), "");
    assert_eq!(value_for(&owned(&["A"]), &owned(&["1"]), "C"), "");
}

#[test]
fn measured_work_runs_once() {
    let mut runs = 0;
    let line = measure("scan", || runs += 1);
    assert_eq!(runs, 1);
    assert!(line.starts_with("Time elapsed for scan is: "));
    assert!(line.len() > "Time elapsed for scan is: ".len());
}

#[test]
fn multiplexer_names_lose_quotes_and_line_feeds() {
    assert_eq!(pfp::session::clean_name("'main:1'\n"), "main:1");
    assert_eq!(pfp::session::clean_name("plain"), "plain");
    assert_eq!(pfp::session::clean_name("'\n'"), "");
    assert_eq!(pfp::session::strip_chars("'a'\n'b'", '\'', '\''), "a\nb");
    assert_eq!(pfp::session::strip_chars("a-b_c", '-', '_'), "abc");
}

#[test]
fn text_is_cut_at_every_separator() {
    assert_eq!(pfp::session::split("a b  c", ' '), owned(&["a", "b", "", "c"]));
    assert_eq!(pfp::session::split("", ' '), owned(&[""]));
    assert_eq!(pfp::session::split(" ", ' '), owned(&["", ""]));
    assert_eq!(pfp::session::split("abc", '/'), owned(&["abc"]));
    assert_eq!(pfp::session::split("/a/", '/'), owned(&["", "a", ""]));
}

#[test]
fn command_arguments_leave_out_the_program() {
    assert_eq!(
        pfp::session::command_arguments("tmux new-window -n proj/app -c /x"),
        owned(&["new-window", "-n", "proj/app", "-c", "/x"])
    );
    assert_eq!(pfp::session::command_arguments("tmux"), Vec::<String>::new());
    assert_eq!(pfp::session::command_arguments(""), Vec::<String>::new());
    assert_eq!(pfp::session::command_arguments("tmux  a"), owned(&["", "a"]));
}

#[test]
fn window_on_a_file_starts_the_editor_in_its_directory() {
    assert_eq!(
        pfp::session::window_command("tmux new-window -c /x/notes/todo.md", "/x/notes/todo.md", true, "vi"),
        "tmux new-window -c /x/notes vi /x/notes/todo.md"
    );
    assert_eq!(
        pfp::session::window_command("tmux new-window -c /x/notes", "/x/notes", false, "vi"),
        "tmux new-window -c /x/notes"
    );
    assert_eq!(pfp::session::window_command("tmux", "f", true, "vi"), " vi f");
    assert_eq!(pfp::session::window_command("a/", "f", true, "ed"), "a ed f");
}

#[test]
fn session_is_described_with_its_windows() {
    let session = pfp::config::Session {
        name: "work".to_string(),
        windows: owned(&["$HOME/a", "/plain", "$NOWHERE/b"]),
    };
    let env = vec![bound("HOME", "/home/al")];
    assert_eq!(pfp::session::describe(&session, &env), "work:\n/home/al/a\n/plain\n$NOWHERE/b\n");
    let bare = pfp::config::Session { name: "idle".to_string(), windows: vec![] };
    assert_eq!(pfp::session::describe(&bare, &env), "idle:\n\n");
    assert_eq!(pfp::session::expand_or_keep("${HOME}", &env), "/home/al");
    assert_eq!(pfp::session::expand_or_keep("${HOME}", &vec![]), "${HOME}");
}
