//! The short names under which a chosen path shows up in the terminal
//! multiplexer.

use vstd::prelude::*;
use vstd::string::*;

use crate::error::PickerError;
use crate::patterns::{
    compile, error_text, first_groups, first_match_groups, match_view, pattern_compiles,
};

verus! {

/// The pattern that finds the last two segments of a path.
pub open spec fn tail_pattern() -> Seq<char> {
    "/(?P<first>[^/]+)/{1}(?P<second>[^/]+)$"@
}

/// At most the first four characters of `text`.
pub open spec fn clipped(text: Seq<char>) -> Seq<char> {
    if text.len() <= 4 {
        text
    } else {
        text.take(4)
    }
}

/// The window name for `path`, given the groups that the tail pattern
/// captured in it: the last segment but one, cut down to four characters, a
/// slash, and the last segment. Where the pattern found no two segments the
/// name is the path itself.
pub open spec fn window_name(path: Seq<char>, groups: Option<Seq<Option<Seq<char>>>>) -> Seq<char> {
    match groups {
        Some(found) => if found.len() == 3 && found[1] is Some && found[2] is Some {
            clipped(found[1]->0) + seq!['/'] + found[2]->0
        } else {
            path
        },
        None => path,
    }
}

/// Builds the window name for `path` from the groups captured in it.
pub fn name_from_groups(path: &str, groups: &Option<Vec<Option<String>>>) -> (name: String)
    ensures
        name@ == window_name(path@, match_view(*groups)),
{
    match groups {
        Some(found) => {
            if found.len() == 3 {
                match (&found[1], &found[2]) {
                    (Some(first), Some(second)) => {
                        let n = first.as_str().unicode_len();
                        let keep = if n <= 4 {
                            n
                        } else {
                            4
                        };
                        let mut name = first.as_str().substring_char(0, keep).to_owned();
                        proof {
                            reveal_strlit("/");
                            assert("/"@ =~= seq!['/']);
                            assert(first@.subrange(0, keep as int) =~= clipped(first@));
                        }
                        name.append("/");
                        name.append(second.as_str());
                        name
                    },
                    _ => path.to_owned(),
                }
            } else {
                path.to_owned()
            }
        },
        None => path.to_owned(),
    }
}

/// Keeps the tail of the path: `/Users/alice/projects/my-app` becomes
/// `proj/my-app`. Fails only where the tail pattern does not compile.
pub fn trim_window_name(path: &str) -> (r: Result<String, PickerError>)
    ensures
        r is Ok <==> pattern_compiles(tail_pattern()),
        r is Ok ==> r->Ok_0@ == window_name(path@, first_match_groups(tail_pattern(), path@)),
        r is Err ==> r->Err_0 is Regex,
{
    let re = match compile("/(?P<first>[^/]+)/{1}(?P<second>[^/]+)$") {
        Ok(re) => re,
        Err(e) => {
            return Err(PickerError::Regex(error_text(&e)));
        },
    };
    let groups = first_groups(&re, path);
    Ok(name_from_groups(path, &groups))
}

/// `text` without its dots.
pub open spec fn without_dots(text: Seq<char>) -> Seq<char> {
    text.filter(|c: char| c != '.')
}

/// Removes every dot from a name, since the multiplexer reads dots in a
/// session name as something else.
pub fn trim_session_name(name: &String) -> (trimmed: String)
    ensures
        trimmed@ == without_dots(name@),
{
    let text = name.as_str();
    let n = text.unicode_len();
    let mut trimmed = String::new();
    let mut i: usize = 0;
    proof {
        reveal(Seq::filter);
        assert(name@.take(0) =~= Seq::<char>::empty());
    }
    while i < n
        invariant
            i <= n,
            n == name@.len(),
            text@ == name@,
            trimmed@ == without_dots(name@.take(i as int)),
        decreases n - i,
    {
        let c = text.get_char(i);
        proof {
            reveal(Seq::filter);
            assert(name@.take(i + 1).drop_last() =~= name@.take(i as int));
        }
        if c != '.' {
            trimmed.append(text.substring_char(i, i + 1));
            assert(name@.subrange(i as int, i + 1) =~= seq![c]);
            assert(trimmed@ =~= without_dots(name@.take(i as int)).push(c));
        }
        i += 1;
    }
    assert(name@.take(n as int) =~= name@);
    trimmed
}

} // verus!
