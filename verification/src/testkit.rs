//! The attribute that every integration test wears: what it accepts, and the
//! deadline it puts on a test.

use vstd::prelude::*;
use vstd::string::*;

verus! {

/// How long an integration test may take, its fixture's start included, in
/// seconds.
///
/// A budget, not a target. It is deliberately not configurable, so that no test
/// can quietly opt out of it.
pub const DEADLINE_SECS: u64 = 120;

/// Why the attribute refuses arguments.
pub const TAKES_NO_ARGUMENTS: &'static str =
    "#[testkit::integration_test] takes no arguments; the two-minute deadline is not configurable";

/// Why the attribute refuses a function.
pub const REQUIRES_ASYNC: &'static str = "#[testkit::integration_test] requires an async fn";

/// What a test that overran its deadline panics with.
pub const OVERRAN: &'static str = "integration test exceeded its two-minute deadline";

/// What the attribute makes of a use of it.
#[derive(Debug, Clone, Copy, PartialEq, Eq, Structural)]
pub enum Expansion {
    /// It is refused where it stands.
    TakesNoArguments,
    /// The function is refused.
    RequiresAsync,
    /// The function's body is wrapped in a deadline of so many seconds.
    Bounded(u64),
}

impl Expansion {
    /// What a refusal says.
    pub fn refusal(&self) -> (text: Option<&'static str>)
        ensures
            match *self {
                Expansion::TakesNoArguments => text matches Some(text) && text@
                    == TAKES_NO_ARGUMENTS@,
                Expansion::RequiresAsync => text matches Some(text) && text@ == REQUIRES_ASYNC@,
                Expansion::Bounded(_) => text is None,
            },
    {
        match *self {
            Expansion::TakesNoArguments => Some(TAKES_NO_ARGUMENTS),
            Expansion::RequiresAsync => Some(REQUIRES_ASYNC),
            Expansion::Bounded(_) => None,
        }
    }
}

/// Decides what a use of the attribute expands to. Arguments are refused before
/// the function is looked at; whatever is accepted has the deadline.
pub fn integration_test(has_arguments: bool, is_async: bool) -> (expansion: Expansion)
    ensures
        expansion == if has_arguments {
            Expansion::TakesNoArguments
        } else if !is_async {
            Expansion::RequiresAsync
        } else {
            Expansion::Bounded(DEADLINE_SECS)
        },
{
    if has_arguments {
        Expansion::TakesNoArguments
    } else if !is_async {
        Expansion::RequiresAsync
    } else {
        Expansion::Bounded(DEADLINE_SECS)
    }
}

} // verus!
