//! Regular expressions, as far as the library relies on them. Nothing here
//! is proved: each contract records what the `regex` crate documents.

use regex::{Regex, RegexSet};
use vstd::prelude::*;

use crate::config::texts;
use crate::expand::value_for;

verus! {

/// `regex::RegexSet`, carried as an opaque value.
#[verifier::external_type_specification]
#[verifier::external_body]
pub struct ExRegexSet(regex::RegexSet);

/// `regex::Regex`, carried as an opaque value.
#[verifier::external_type_specification]
#[verifier::external_body]
pub struct ExRegex(regex::Regex);

/// `regex::Error`, carried as an opaque value.
#[verifier::external_type_specification]
#[verifier::external_body]
pub struct ExRegexError(regex::Error);

/// The patterns a compiled set was built from, in the order they were given
/// (what `RegexSet::patterns` returns).
pub uninterp spec fn set_patterns(set: RegexSet) -> Seq<Seq<char>>;

/// Whether the regular expression written as `pattern` matches somewhere in
/// `text`.
pub uninterp spec fn pattern_matches(pattern: Seq<char>, text: Seq<char>) -> bool;

/// Whether `RegexSet::new` accepts these patterns.
pub uninterp spec fn patterns_compile(patterns: Seq<Seq<char>>) -> bool;

/// Whether at least one of `patterns` matches somewhere in `text`.
pub open spec fn matches_any(patterns: Seq<Seq<char>>, text: Seq<char>) -> bool {
    exists|i: int| 0 <= i < patterns.len() && pattern_matches(#[trigger] patterns[i], text)
}

/// `RegexSet::new`: compiles the patterns into one matcher. It succeeds
/// exactly on the lists the crate accepts, an empty list among them, and the
/// set it returns remembers the patterns in their order.
#[verifier::external_body]
pub(crate) fn compile_set(patterns: &Vec<String>) -> (r: Result<RegexSet, regex::Error>)
    ensures
        r is Ok <==> patterns_compile(texts(patterns@)),
        patterns@.len() == 0 ==> r is Ok,
        match r {
            Ok(set) => set_patterns(set) == texts(patterns@),
            Err(_) => true,
        },
{
    RegexSet::new(patterns)
}

/// `RegexSet::is_match`: true exactly when one of the set's patterns matches
/// somewhere in `text`. A set without patterns matches nothing.
#[verifier::external_body]
pub(crate) fn set_is_match(set: &RegexSet, text: &str) -> (r: bool)
    ensures
        r == (exists|i: int|
            0 <= i && i < set_patterns(*set).len() && pattern_matches(
                #[trigger] set_patterns(*set)[i],
                text@,
            )),
{
    set.is_match(text)
}

/// The `Display` rendering of a `regex::Error`. Nothing is claimed of the
/// text.
#[verifier::external_body]
pub(crate) fn error_text(error: &regex::Error) -> (text: String) {
    error.to_string()
}

/// The pattern a compiled expression was built from (what `Regex::as_str`
/// returns).
pub uninterp spec fn regex_source(re: Regex) -> Seq<char>;

/// Whether `Regex::new` accepts the pattern.
pub uninterp spec fn pattern_compiles(pattern: Seq<char>) -> bool;

/// The capture groups of the leftmost match of `pattern` in `text`, the
/// whole match first, each with the text it matched or `None` where it took
/// no part; `None` where nothing matches.
pub uninterp spec fn first_match_groups(pattern: Seq<char>, text: Seq<char>) -> Option<
    Seq<Option<Seq<char>>>,
>;

/// For each of the successive non-overlapping matches of `pattern` in
/// `text`, the text of its first capture group, empty where the group took
/// no part.
pub uninterp spec fn first_group_texts(pattern: Seq<char>, text: Seq<char>) -> Seq<Seq<char>>;

/// The texts of captured groups.
pub open spec fn group_views(groups: Seq<Option<String>>) -> Seq<Option<Seq<char>>> {
    Seq::new(
        groups.len(),
        |i: int|
            match groups[i] {
                Some(text) => Some(text@),
                None => None,
            },
    )
}

/// The captured groups of a match, if any, as texts.
pub open spec fn match_view(groups: Option<Vec<Option<String>>>) -> Option<
    Seq<Option<Seq<char>>>,
> {
    match groups {
        Some(list) => Some(group_views(list@)),
        None => None,
    }
}

/// `Regex::new`: compiles one pattern. It succeeds exactly on the patterns
/// the crate accepts, and the expression it returns remembers its pattern.
#[verifier::external_body]
pub(crate) fn compile(pattern: &str) -> (r: Result<Regex, regex::Error>)
    ensures
        r is Ok <==> pattern_compiles(pattern@),
        match r {
            Ok(re) => regex_source(re) == pattern@,
            Err(_) => true,
        },
{
    Regex::new(pattern)
}

/// `Regex::captures`: the capture groups of the leftmost match in `text`,
/// each handed out as the text it matched.
#[verifier::external_body]
pub(crate) fn first_groups(re: &Regex, text: &str) -> (r: Option<Vec<Option<String>>>)
    ensures
        match_view(r) == first_match_groups(regex_source(*re), text@),
{
    re.captures(text).map(
        |caps| caps.iter().map(|group| group.map(|m| m.as_str().to_owned())).collect(),
    )
}

/// `Regex::captures_iter`: walks the successive non-overlapping matches in
/// `text` and hands out the text of each one's first capture group.
#[verifier::external_body]
pub(crate) fn first_group_of_each(re: &Regex, text: &str) -> (r: Vec<String>)
    ensures
        texts(r@) == first_group_texts(regex_source(*re), text@),
{
    re.captures_iter(text).map(
        |caps| caps.get(1).map_or(String::new(), |m| m.as_str().to_owned()),
    ).collect()
}

/// `text` with each of the successive non-overlapping matches of `pattern`
/// replaced: a match whose first capture group reads as the name at some
/// position of `names` gives way to the value at that position of `values`.
pub uninterp spec fn replaced(
    pattern: Seq<char>,
    text: Seq<char>,
    names: Seq<Seq<char>>,
    values: Seq<Seq<char>>,
) -> Seq<char>;

/// `Regex::replace_all`: replaces every match in `text` by the value that
/// the table of `names` and `values` holds for the match's first capture
/// group.
#[verifier::external_body]
pub(crate) fn replace_each(re: &Regex, text: &str, names: &Vec<String>, values: &Vec<String>) -> (r:
    String)
    ensures
        r@ == replaced(regex_source(*re), text@, texts(names@), texts(values@)),
{
    re.replace_all(
        text,
        |caps: &regex::Captures| value_for(names, values, caps.get(1).map_or("", |m| m.as_str())),
    ).into_owned()
}

} // verus!
