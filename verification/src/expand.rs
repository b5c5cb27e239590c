//! Expansion of environment variable references in configured paths. The
//! library finds the references and puts the values in; looking the
//! variables up is left to the caller.

use vstd::prelude::*;
use vstd::string::*;

use crate::config::texts;
use crate::error::{LookupFailure, PickerError};
use crate::patterns::{
    compile, error_text, first_group_of_each, first_group_texts, pattern_compiles, replace_each,
    replaced,
};

verus! {

/// The pattern of a variable reference: `$NAME` or `${NAME}`.
pub open spec fn variable_pattern() -> Seq<char> {
    r"\$\{?([^\}/]+)\}?"@
}

/// What looking up one variable gave.
#[derive(Debug)]
pub struct Binding {
    pub name: String,
    pub value: Result<String, LookupFailure>,
}

/// The position of the first binding at or after `from` that is for `name`.
pub open spec fn position_from(names: Seq<Seq<char>>, name: Seq<char>, from: int) -> Option<int>
    decreases names.len() - from,
{
    if from < 0 || from >= names.len() {
        None
    } else if names[from] == name {
        Some(from)
    } else {
        position_from(names, name, from + 1)
    }
}

/// The value that the table of `names` and `values` holds for `name`: the
/// value at the position of the first such name, or the empty text.
pub open spec fn table_value(names: Seq<Seq<char>>, values: Seq<Seq<char>>, name: Seq<char>) -> Seq<
    char,
> {
    match position_from(names, name, 0) {
        Some(i) => if i < values.len() {
            values[i]
        } else {
            Seq::empty()
        },
        None => Seq::empty(),
    }
}

/// Looks `name` up in the table of `names` and `values`.
pub fn value_for(names: &Vec<String>, values: &Vec<String>, name: &str) -> (value: String)
    ensures
        value@ == table_value(texts(names@), texts(values@), name@),
{
    let wanted = name.to_owned();
    let mut i: usize = 0;
    while i < names.len()
        invariant
            i <= names@.len(),
            wanted@ == name@,
            position_from(texts(names@), name@, 0) == position_from(
                texts(names@),
                name@,
                i as int,
            ),
        decreases names@.len() - i,
    {
        assert(texts(names@)[i as int] == names@[i as int]@);
        if names[i] == wanted {
            if i < values.len() {
                assert(texts(values@)[i as int] == values@[i as int]@);
                return values[i].clone();
            } else {
                return String::new();
            }
        }
        i += 1;
    }
    String::new()
}

/// The names of the bindings.
pub open spec fn binding_names(bindings: Seq<Binding>) -> Seq<Seq<char>> {
    Seq::new(bindings.len(), |i: int| bindings[i].name@)
}

/// The texts that stand in for the bound variables: the value, or the empty
/// text where the lookup failed.
pub open spec fn binding_values(bindings: Seq<Binding>) -> Seq<Seq<char>> {
    Seq::new(
        bindings.len(),
        |i: int|
            match bindings[i].value {
                Ok(value) => value@,
                Err(_) => Seq::empty(),
            },
    )
}

/// How the lookup of `name` fails: not at all where the name is empty; with
/// the failure of its first binding; as not present where it has none.
pub open spec fn failure_of(bindings: Seq<Binding>, name: Seq<char>) -> Option<LookupFailure> {
    if name.len() == 0 {
        None
    } else {
        match position_from(binding_names(bindings), name, 0) {
            Some(i) => match bindings[i].value {
                Ok(_) => None,
                Err(failure) => Some(failure),
            },
            None => Some(LookupFailure::NotPresent),
        }
    }
}

/// The last of the referenced names whose lookup fails, with the failure.
pub open spec fn last_failure(references: Seq<Seq<char>>, bindings: Seq<Binding>) -> Option<
    (LookupFailure, Seq<char>),
>
    decreases references.len(),
{
    if references.len() == 0 {
        None
    } else {
        match last_failure(references.drop_last(), bindings) {
            Some(earlier) => match failure_of(bindings, references.last()) {
                Some(failure) => Some((failure, references.last())),
                None => Some(earlier),
            },
            None => match failure_of(bindings, references.last()) {
                Some(failure) => Some((failure, references.last())),
                None => None,
            },
        }
    }
}

/// How the lookup of `name` fails, if it does.
fn find_failure(bindings: &Vec<Binding>, name: &String) -> (failure: Option<LookupFailure>)
    ensures
        failure == failure_of(bindings@, name@),
{
    if name.as_str().is_empty() {
        return None;
    }
    let mut i: usize = 0;
    while i < bindings.len()
        invariant
            i <= bindings@.len(),
            name@.len() > 0,
            position_from(binding_names(bindings@), name@, 0) == position_from(
                binding_names(bindings@),
                name@,
                i as int,
            ),
        decreases bindings@.len() - i,
    {
        assert(binding_names(bindings@)[i as int] == bindings@[i as int].name@);
        if bindings[i].name == *name {
            assert(position_from(binding_names(bindings@), name@, i as int) == Some(i as int));
            let failure = match &bindings[i].value {
                Ok(_) => None,
                Err(failure) => Some(failure.copy()),
            };
            return failure;
        }
        i += 1;
    }
    Some(LookupFailure::NotPresent)
}

/// Whether `r` is the failure to read the variable `name`.
pub open spec fn fails_on(r: Result<String, PickerError>, failure: LookupFailure, name: Seq<char>) -> bool {
    match r {
        Err(PickerError::EnvVar(f, n)) => f == failure && n@ == name,
        _ => false,
    }
}

/// Decides what an expansion comes to, given the referenced names in the
/// order they occur and the text with the values already put in: the
/// failure of the last reference that could not be read or, where none
/// failed, the text.
pub fn conclude(references: &Vec<String>, bindings: &Vec<Binding>, text: String) -> (r: Result<
    String,
    PickerError,
>)
    ensures
        match last_failure(texts(references@), bindings@) {
            Some((failure, name)) => fails_on(r, failure, name),
            None => r is Ok && r->Ok_0@ == text@,
        },
{
    let mut last: Option<(LookupFailure, String)> = None;
    let mut i: usize = 0;
    let ghost all = texts(references@);
    assert(all.take(0) =~= Seq::<Seq<char>>::empty());
    while i < references.len()
        invariant
            i <= references@.len(),
            all == texts(references@),
            match last_failure(all.take(i as int), bindings@) {
                Some((failure, name)) => last is Some && last->Some_0.0 == failure
                    && last->Some_0.1@ == name,
                None => last is None,
            },
        decreases references@.len() - i,
    {
        proof {
            assert(all.take(i + 1).drop_last() =~= all.take(i as int));
            assert(all.take(i + 1).last() == references@[i as int]@);
        }
        match find_failure(bindings, &references[i]) {
            Some(failure) => {
                last = Some((failure, references[i].clone()));
            },
            None => {},
        }
        i += 1;
    }
    assert(all.take(i as int) =~= all);
    match last {
        Some((failure, name)) => Err(PickerError::EnvVar(failure, name)),
        None => Ok(text),
    }
}

/// Splits the bindings into the table that replacement reads: the names,
/// and for each the text that stands in for it.
fn table(bindings: &Vec<Binding>) -> (t: (Vec<String>, Vec<String>))
    ensures
        texts(t.0@) == binding_names(bindings@),
        texts(t.1@) == binding_values(bindings@),
{
    let mut names: Vec<String> = Vec::new();
    let mut values: Vec<String> = Vec::new();
    let mut i: usize = 0;
    while i < bindings.len()
        invariant
            i <= bindings@.len(),
            names@.len() == i,
            values@.len() == i,
            forall|k: int| 0 <= k < i ==> names@[k]@ == bindings@[k].name@,
            forall|k: int| 0 <= k < i ==> values@[k]@ == binding_values(bindings@)[k],
        decreases bindings@.len() - i,
    {
        names.push(bindings[i].name.clone());
        let value = match &bindings[i].value {
            Ok(value) => value.clone(),
            Err(_) => String::new(),
        };
        values.push(value);
        i += 1;
    }
    assert(texts(names@) =~= binding_names(bindings@));
    assert(texts(values@) =~= binding_values(bindings@));
    (names, values)
}

/// The names of the variables that `path` refers to, in the order of the
/// references. Fails only where the reference pattern does not compile.
pub fn referenced_variables(path: &str) -> (r: Result<Vec<String>, PickerError>)
    ensures
        r is Ok <==> pattern_compiles(variable_pattern()),
        r is Ok ==> texts(r->Ok_0@) == first_group_texts(variable_pattern(), path@),
        r is Err ==> r->Err_0 is Regex,
{
    match compile(r"\$\{?([^\}/]+)\}?") {
        Ok(re) => Ok(first_group_of_each(&re, path)),
        Err(e) => Err(PickerError::Regex(error_text(&e))),
    }
}

/// Puts the values of the bound variables in place of the references in
/// `path`. Where the lookup of a referenced variable failed, or the variable
/// has no binding, the expansion fails with the last such reference.
pub fn expand(path: &str, bindings: &Vec<Binding>) -> (r: Result<String, PickerError>)
    ensures
        !pattern_compiles(variable_pattern()) ==> r is Err && r->Err_0 is Regex,
        pattern_compiles(variable_pattern()) ==> match last_failure(
            first_group_texts(variable_pattern(), path@),
            bindings@,
        ) {
            Some((failure, name)) => fails_on(r, failure, name),
            None => r is Ok && r->Ok_0@ == replaced(
                variable_pattern(),
                path@,
                binding_names(bindings@),
                binding_values(bindings@),
            ),
        },
{
    let re = match compile(r"\$\{?([^\}/]+)\}?") {
        Ok(re) => re,
        Err(e) => {
            return Err(PickerError::Regex(error_text(&e)));
        },
    };
    let references = first_group_of_each(&re, path);
    let (names, values) = table(bindings);
    let text = replace_each(&re, path, &names, &values);
    conclude(&references, bindings, text)
}

} // verus!
