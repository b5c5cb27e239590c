//! Small operations on text that the picker needs around a selection.

use vstd::prelude::*;
use vstd::string::*;

use crate::config::texts;

verus! {

/// Whether `c` is white space as `char::is_whitespace` has it: a character
/// with the Unicode property `White_Space`.
pub uninterp spec fn is_whitespace(c: char) -> bool;

/// `char::is_whitespace`.
#[verifier::external_body]
pub(crate) fn is_space(c: char) -> (r: bool)
    ensures
        r == is_whitespace(c),
{
    c.is_whitespace()
}

/// `text` without the white space at its end.
pub open spec fn trimmed_end(text: Seq<char>) -> Seq<char>
    decreases text.len(),
{
    if text.len() > 0 && is_whitespace(text.last()) {
        trimmed_end(text.drop_last())
    } else {
        text
    }
}

/// Cuts the white space off the end of `text`.
pub fn trim_end(text: &str) -> (trimmed: String)
    ensures
        trimmed@ == trimmed_end(text@),
{
    let mut end = text.unicode_len();
    assert(text@.take(end as int) =~= text@);
    while end > 0
        invariant
            end <= text@.len(),
            trimmed_end(text@) == trimmed_end(text@.take(end as int)),
        ensures
            end <= text@.len(),
            trimmed_end(text@) == trimmed_end(text@.take(end as int)),
            end == 0 || !is_whitespace(text@[end - 1]),
        decreases end,
    {
        if !is_space(text.get_char(end - 1)) {
            break ;
        }
        assert(text@.take(end as int).drop_last() =~= text@.take(end - 1));
        end -= 1;
    }
    assert(text@.subrange(0, end as int) =~= text@.take(end as int));
    text.substring_char(0, end).to_owned()
}

/// The lines joined into one text, a line feed between each two.
pub open spec fn joined_lines(lines: Seq<Seq<char>>) -> Seq<char>
    decreases lines.len(),
{
    if lines.len() == 0 {
        Seq::empty()
    } else if lines.len() == 1 {
        lines[0]
    } else {
        joined_lines(lines.drop_last()) + seq!['\n'] + lines.last()
    }
}

/// Joins the lines into one text, a line feed between each two.
pub fn join_lines(lines: &Vec<String>) -> (text: String)
    ensures
        text@ == joined_lines(texts(lines@)),
{
    let mut text = String::new();
    let mut i: usize = 0;
    let ghost all = texts(lines@);
    assert(all.take(0) =~= Seq::<Seq<char>>::empty());
    while i < lines.len()
        invariant
            i <= lines@.len(),
            all == texts(lines@),
            text@ == joined_lines(all.take(i as int)),
        decreases lines@.len() - i,
    {
        proof {
            reveal_strlit("\n");
            assert("\n"@ =~= seq!['\n']);
            assert(all.take(i + 1).drop_last() =~= all.take(i as int));
            assert(all.take(i + 1).last() == lines@[i as int]@);
        }
        if i > 0 {
            text.append("\n");
        } else {
            assert(Seq::<char>::empty() + lines@[i as int]@ =~= lines@[i as int]@);
            assert(all.take(1)[0] == lines@[0]@);
        }
        text.append(lines[i].as_str());
        i += 1;
    }
    assert(all.take(i as int) =~= all);
    text
}

} // verus!
