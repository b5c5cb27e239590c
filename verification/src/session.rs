//! Texts that go to and come from the terminal multiplexer: command lines,
//! names it printed, and the description of a configured session.

use vstd::prelude::*;
use vstd::string::*;

use crate::config::{texts, Session};
use crate::expand::{
    binding_names, binding_values, expand, last_failure, variable_pattern, Binding,
};
use crate::patterns::{first_group_texts, pattern_compiles, replaced};
use crate::text::{join_lines, joined_lines};

verus! {

/// `text` without the characters `a` and `b`.
pub open spec fn without(text: Seq<char>, a: char, b: char) -> Seq<char> {
    text.filter(|c: char| c != a && c != b)
}

/// Removes every `a` and every `b` from `text`.
pub fn strip_chars(text: &str, a: char, b: char) -> (stripped: String)
    ensures
        stripped@ == without(text@, a, b),
{
    let n = text.unicode_len();
    let mut stripped = String::new();
    let mut i: usize = 0;
    proof {
        reveal(Seq::filter);
        assert(text@.take(0) =~= Seq::<char>::empty());
    }
    while i < n
        invariant
            i <= n,
            n == text@.len(),
            stripped@ == without(text@.take(i as int), a, b),
        decreases n - i,
    {
        let c = text.get_char(i);
        proof {
            reveal(Seq::filter);
            assert(text@.take(i + 1).drop_last() =~= text@.take(i as int));
        }
        if c != a && c != b {
            stripped.append(text.substring_char(i, i + 1));
            assert(text@.subrange(i as int, i + 1) =~= seq![c]);
            assert(stripped@ =~= without(text@.take(i as int), a, b).push(c));
        }
        i += 1;
    }
    assert(text@.take(n as int) =~= text@);
    stripped
}

/// What a session name is once the quotes and line feeds around it, as the
/// multiplexer prints them, are gone.
pub fn clean_name(text: &str) -> (name: String)
    ensures
        name@ == without(text@, '\'', '\n'),
{
    strip_chars(text, '\'', '\n')
}

/// The pieces of `text` between the occurrences of `sep`: one more than
/// there are separators, empty pieces included.
pub open spec fn split_on(text: Seq<char>, sep: char) -> Seq<Seq<char>>
    decreases text.len(),
{
    if text.len() == 0 {
        seq![Seq::empty()]
    } else {
        let front = split_on(text.drop_last(), sep);
        if text.last() == sep {
            front.push(Seq::empty())
        } else {
            front.drop_last().push(front.last().push(text.last()))
        }
    }
}

/// There is always at least one piece.
pub proof fn lemma_split_on_nonempty(text: Seq<char>, sep: char)
    ensures
        split_on(text, sep).len() >= 1,
    decreases text.len(),
{
    if text.len() > 0 {
        lemma_split_on_nonempty(text.drop_last(), sep);
    }
}

/// Cuts `text` at every `sep`.
pub fn split(text: &str, sep: char) -> (pieces: Vec<String>)
    ensures
        texts(pieces@) == split_on(text@, sep),
{
    let n = text.unicode_len();
    let mut done: Vec<String> = Vec::new();
    let mut current = String::new();
    let mut i: usize = 0;
    assert(text@.take(0) =~= Seq::<char>::empty());
    assert(texts(done@).push(current@) =~= split_on(text@.take(0), sep));
    while i < n
        invariant
            i <= n,
            n == text@.len(),
            texts(done@).push(current@) == split_on(text@.take(i as int), sep),
        decreases n - i,
    {
        let c = text.get_char(i);
        let ghost before = texts(done@);
        let ghost open = current@;
        proof {
            assert(text@.take(i + 1).drop_last() =~= text@.take(i as int));
            assert(before.push(open).drop_last() =~= before);
        }
        if c == sep {
            done.push(current);
            current = String::new();
            assert(texts(done@) =~= before.push(open));
        } else {
            current.append(text.substring_char(i, i + 1));
            assert(text@.subrange(i as int, i + 1) =~= seq![c]);
            assert(current@ =~= open.push(c));
        }
        i += 1;
    }
    assert(text@.take(n as int) =~= text@);
    let ghost before = texts(done@);
    done.push(current);
    assert(texts(done@) =~= before.push(current@));
    done
}

/// The arguments of a command line: its words, cut at single spaces, but
/// for the first, which names the program.
pub fn command_arguments(command: &str) -> (args: Vec<String>)
    ensures
        texts(args@) == split_on(command@, ' ').skip(1),
{
    let words = split(command, ' ');
    proof {
        lemma_split_on_nonempty(command@, ' ');
    }
    let mut args: Vec<String> = Vec::new();
    let mut i: usize = 1;
    while i < words.len()
        invariant
            1 <= i <= words@.len(),
            args@.len() == i - 1,
            forall|k: int| 0 <= k < i - 1 ==> args@[k]@ == words@[k + 1]@,
        decreases words@.len() - i,
    {
        args.push(words[i].clone());
        i += 1;
    }
    assert(texts(args@) =~= texts(words@).skip(1));
    args
}

/// `text` up to its last `sep`, which is left out; empty where there is
/// none.
pub open spec fn before_last(text: Seq<char>, sep: char) -> Seq<char>
    decreases text.len(),
{
    if text.len() == 0 {
        text
    } else if text.last() == sep {
        text.drop_last()
    } else {
        before_last(text.drop_last(), sep)
    }
}

/// The command that opens `target` in the editor: `command` up to its last
/// slash, so that the window starts in the file's directory, then the
/// editor, then the file.
pub open spec fn editor_command(command: Seq<char>, editor: Seq<char>, target: Seq<char>) -> Seq<
    char,
> {
    before_last(command, '/') + seq![' '] + editor + seq![' '] + target
}

/// The command for a new window on `target`. For a directory it is
/// `command` as given; for a file the file's name is cut off the command's
/// end and the editor is started on the file.
pub fn window_command(command: &str, target: &str, target_is_file: bool, editor: &str) -> (line:
    String)
    ensures
        line@ == if target_is_file {
            editor_command(command@, editor@, target@)
        } else {
            command@
        },
{
    if !target_is_file {
        return command.to_owned();
    }
    let mut end = command.unicode_len();
    let mut found = false;
    assert(command@.take(end as int) =~= command@);
    while end > 0 && !found
        invariant
            end <= command@.len(),
            !found ==> before_last(command@, '/') == before_last(command@.take(end as int), '/'),
            found ==> before_last(command@, '/') == command@.take(end as int),
        decreases end,
    {
        assert(command@.take(end as int).drop_last() =~= command@.take(end - 1));
        if command.get_char(end - 1) == '/' {
            found = true;
        }
        end -= 1;
    }
    assert(command@.subrange(0, end as int) =~= command@.take(end as int));
    let mut line = command.substring_char(0, end).to_owned();
    proof {
        reveal_strlit(" ");
        assert(" "@ =~= seq![' ']);
    }
    line.append(" ");
    line.append(editor);
    line.append(" ");
    line.append(target);
    line
}

/// What `path` reads as with the bound variables put in, or `path` itself
/// where the expansion fails.
pub open spec fn expanded_or_kept(path: Seq<char>, bindings: Seq<Binding>) -> Seq<char> {
    if pattern_compiles(variable_pattern()) && last_failure(
        first_group_texts(variable_pattern(), path),
        bindings,
    ) is None {
        replaced(variable_pattern(), path, binding_names(bindings), binding_values(bindings))
    } else {
        path
    }
}

/// A path with the bound variables put in, or the path as it stands where
/// that fails.
pub fn expand_or_keep(path: &str, bindings: &Vec<Binding>) -> (text: String)
    ensures
        text@ == expanded_or_kept(path@, bindings@),
{
    match expand(path, bindings) {
        Ok(text) => text,
        Err(_) => path.to_owned(),
    }
}

/// The windows of a session, each expanded where that works.
pub open spec fn window_texts(windows: Seq<String>, bindings: Seq<Binding>) -> Seq<Seq<char>> {
    Seq::new(windows.len(), |i: int| expanded_or_kept(windows[i]@, bindings))
}

/// What is shown of a session: its name and a colon, then its windows, one
/// to a line.
pub open spec fn description(session: Session, bindings: Seq<Binding>) -> Seq<char> {
    session.name@ + ":\n"@ + joined_lines(window_texts(session.windows@, bindings)) + "\n"@
}

/// Describes a session for the preview: its name and a colon, then its
/// windows, expanded where that works, one to a line.
pub fn describe(session: &Session, bindings: &Vec<Binding>) -> (text: String)
    ensures
        text@ == description(*session, bindings@),
{
    let mut windows: Vec<String> = Vec::new();
    let mut i: usize = 0;
    while i < session.windows.len()
        invariant
            i <= session.windows@.len(),
            windows@.len() == i,
            forall|k: int|
                0 <= k < i ==> windows@[k]@ == expanded_or_kept(session.windows@[k]@, bindings@),
        decreases session.windows@.len() - i,
    {
        windows.push(expand_or_keep(session.windows[i].as_str(), bindings));
        i += 1;
    }
    assert(texts(windows@) =~= window_texts(session.windows@, bindings@));
    let mut text = session.name.clone();
    text.append(":\n");
    text.append(join_lines(&windows).as_str());
    text.append("\n");
    text
}

} // verus!
