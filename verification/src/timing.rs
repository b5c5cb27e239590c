//! Timing a piece of work.

use std::time::Instant;
use vstd::prelude::*;
use vstd::string::*;

verus! {

/// `std::time::Instant`, carried as an opaque value.
#[verifier::external_type_specification]
#[verifier::external_body]
pub struct ExInstant(std::time::Instant);

/// `Instant::now`: the current reading of the monotonic clock. Nothing is
/// claimed of it.
#[verifier::external_body]
fn now() -> (start: Instant) {
    Instant::now()
}

/// `Instant::elapsed`, rendered as `Duration`'s `Debug` form: the time that
/// has passed since `start`. Nothing is claimed of the text.
#[verifier::external_body]
fn elapsed_text(start: &Instant) -> (text: String) {
    format!("{:?}", start.elapsed())
}

/// The report on a piece of work called `name` that took `elapsed`.
pub open spec fn report(name: Seq<char>, elapsed: Seq<char>) -> Seq<char> {
    "Time elapsed for "@ + name + " is: "@ + elapsed
}

/// Runs `f` once and returns the line that reports how long it took; the
/// caller logs it.
pub fn measure<F>(name: &str, mut f: F) -> (line: String) where F: FnMut()
    requires
        f.requires(()),
    ensures
        f.ensures((), ()),
        exists|elapsed: Seq<char>| line@ == report(name@, elapsed),
{
    let start = now();
    f();
    let elapsed = elapsed_text(&start);
    let line = "Time elapsed for ".to_owned().concat(name).concat(" is: ").concat(elapsed.as_str());
    assert(line@ == report(name@, elapsed@));
    line
}

} // verus!
