//! The failures the library itself can report.

use vstd::prelude::*;
use vstd::string::*;

verus! {

/// Why a lookup of an environment variable came back empty-handed.
#[derive(Debug)]
pub enum LookupFailure {
    /// The variable is not set.
    NotPresent,
    /// The variable is set to something that is not valid Unicode; holds a
    /// readable rendering of what it is set to.
    NotUnicode(String),
}

impl LookupFailure {
    /// A copy of the failure.
    pub fn copy(&self) -> (same: LookupFailure)
        ensures
            same == *self,
    {
        match self {
            LookupFailure::NotPresent => LookupFailure::NotPresent,
            LookupFailure::NotUnicode(raw) => LookupFailure::NotUnicode(raw.clone()),
        }
    }
}

/// A failure raised by the library.
#[derive(Debug)]
pub enum PickerError {
    /// A directory entry stands in the way of the scan; holds the description.
    Descend(String),
    /// A marker or ignore pattern did not compile; holds the compiler's words.
    Regex(String),
    /// A referenced environment variable could not be read; holds the reason
    /// and the variable's name.
    EnvVar(LookupFailure, String),
    /// The selector came back without a choice.
    EmptyPick,
}

/// What is said of a directory entry whose name cannot be decoded.
pub open spec fn undecodable_text(name: Seq<char>) -> Seq<char> {
    "entry is not utf8 string: "@ + name
}

/// The words for a failed lookup.
pub open spec fn failure_text(failure: LookupFailure) -> Seq<char> {
    match failure {
        LookupFailure::NotPresent => "environment variable not found"@,
        LookupFailure::NotUnicode(raw) => "environment variable was not valid unicode: "@ + raw@,
    }
}

impl PickerError {
    /// The text shown to the user for this failure.
    pub open spec fn text(self) -> Seq<char> {
        match self {
            PickerError::Descend(what) => "Descend error: "@ + what@,
            PickerError::Regex(what) => "Regex error: "@ + what@,
            PickerError::EnvVar(failure, name) => "Env var error: "@ + failure_text(failure) + ": "@
                + name@,
            PickerError::EmptyPick => "Empty pick!"@,
        }
    }

    /// The failure raised for an entry whose name is not valid UTF-8.
    pub fn undecodable(name: &str) -> (e: PickerError)
        ensures
            e == PickerError::Descend(e->Descend_0),
            e->Descend_0@ == undecodable_text(name@),
    {
        PickerError::Descend("entry is not utf8 string: ".to_owned().concat(name))
    }

    /// Renders the failure for display.
    pub fn message(&self) -> (s: String)
        ensures
            s@ == self.text(),
    {
        match self {
            PickerError::Descend(what) => "Descend error: ".to_owned().concat(what.as_str()),
            PickerError::Regex(what) => "Regex error: ".to_owned().concat(what.as_str()),
            PickerError::EnvVar(failure, name) => {
                let reason = match failure {
                    LookupFailure::NotPresent => "environment variable not found".to_owned(),
                    LookupFailure::NotUnicode(raw) =>
                        "environment variable was not valid unicode: ".to_owned().concat(
                            raw.as_str(),
                        ),
                };
                "Env var error: ".to_owned().concat(reason.as_str()).concat(": ").concat(
                    name.as_str(),
                )
            },
            PickerError::EmptyPick => "Empty pick!".to_owned(),
        }
    }
}

} // verus!
