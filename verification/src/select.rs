//! What goes to the selector and what is made of its answer.

use vstd::prelude::*;
use vstd::string::*;

use crate::config::texts;
use crate::error::PickerError;
use crate::paths::PathSet;
use crate::text::{join_lines, joined_lines, trim_end, trimmed_end};

verus! {

/// The arguments for the selector: the caller's own, then the header.
pub open spec fn with_header(args: Seq<Seq<char>>, header: Seq<char>) -> Seq<Seq<char>> {
    args + seq!["--header"@, header]
}

/// Puts the header behind the caller's arguments.
pub fn selector_arguments(args: &Vec<String>, header: &str) -> (all: Vec<String>)
    ensures
        texts(all@) == with_header(texts(args@), header@),
{
    let mut all: Vec<String> = Vec::new();
    let mut i: usize = 0;
    while i < args.len()
        invariant
            i <= args@.len(),
            all@.len() == i,
            forall|k: int| 0 <= k < i ==> all@[k]@ == args@[k]@,
        decreases args@.len() - i,
    {
        all.push(args[i].clone());
        i += 1;
    }
    all.push("--header".to_owned());
    all.push(header.to_owned());
    assert(texts(all@) =~= with_header(texts(args@), header@));
    all
}

/// Takes what the selector printed. An empty answer means that the user
/// chose nothing, which is a failure; anything else is the pick.
pub fn select_from_list(answer: String) -> (r: Result<String, PickerError>)
    ensures
        answer@.len() == 0 ==> r is Err && r->Err_0 is EmptyPick,
        answer@.len() > 0 ==> r is Ok && r->Ok_0@ == answer@,
{
    if answer.as_str().is_empty() {
        Err(PickerError::EmptyPick)
    } else {
        Ok(answer)
    }
}

/// The arguments with which the selector shows the project list.
pub open spec fn project_view() -> Seq<Seq<char>> {
    seq![
        "--layout"@,
        "reverse"@,
        "--preview"@,
        "tree -C '{}'"@,
        "--preview-window"@,
        "right:nohidden"@,
    ]
}

/// The arguments with which the selector shows the project list.
pub fn project_arguments() -> (args: Vec<String>)
    ensures
        texts(args@) == project_view(),
{
    let mut args: Vec<String> = Vec::new();
    args.push("--layout".to_owned());
    args.push("reverse".to_owned());
    args.push("--preview".to_owned());
    args.push("tree -C '{}'".to_owned());
    args.push("--preview-window".to_owned());
    args.push("right:nohidden".to_owned());
    assert(texts(args@) =~= project_view());
    args
}

/// The list handed to the selector: the recorded paths in their order, one
/// to a line.
pub fn project_list(output: &PathSet) -> (list: String)
    ensures
        list@ == joined_lines(output@),
{
    let paths = output.to_vec();
    assert(texts(paths@) =~= output@);
    join_lines(&paths)
}

/// Makes the chosen project of the selector's answer: the answer without
/// the white space at its end. An empty answer is a failure.
pub fn pick_project(answer: String) -> (r: Result<String, PickerError>)
    ensures
        answer@.len() == 0 ==> r is Err && r->Err_0 is EmptyPick,
        answer@.len() > 0 ==> r is Ok && r->Ok_0@ == trimmed_end(answer@),
{
    match select_from_list(answer) {
        Ok(pick) => Ok(trim_end(pick.as_str())),
        Err(e) => Err(e),
    }
}

} // verus!
