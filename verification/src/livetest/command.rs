//! The commands of the tool.

use vstd::prelude::*;
use vstd::string::*;

use crate::text::{decimal, decimal_of, joined, quote, quoted, same};

verus! {

/// What the tool can be asked to do.
#[derive(Debug, Clone, Copy, PartialEq, Eq, Structural)]
pub enum Command {
    /// Say how it is used.
    Help,
    /// Take a read-only inventory.
    Probe,
    /// An admin round trip.
    Smoke,
    /// A round trip of the write path.
    Produce,
    /// Scan and tail topics.
    Read,
    /// Delete what was left behind.
    Sweep,
}

/// What the first argument asks for. Without one, it is for help.
pub open spec fn asked(first: Option<Seq<char>>) -> Result<Command, Seq<char>> {
    match first {
        None => Ok(Command::Help),
        Some(word) => if word == "help"@ || word == "--help"@ || word == "-h"@ {
            Ok(Command::Help)
        } else if word == "probe"@ {
            Ok(Command::Probe)
        } else if word == "smoke"@ {
            Ok(Command::Smoke)
        } else if word == "produce"@ {
            Ok(Command::Produce)
        } else if word == "read"@ {
            Ok(Command::Read)
        } else if word == "sweep"@ {
            Ok(Command::Sweep)
        } else {
            Err("unknown command "@ + quoted(word))
        },
    }
}

impl Command {
    /// What the first argument asks for. Without one, it is for help.
    pub fn parse(first: Option<&String>) -> (command: Result<Self, String>)
        ensures
            (match command {
                Ok(command) => Ok(command),
                Err(text) => Err(text@),
            }) == asked(
                match first {
                    Some(word) => Some(word@),
                    None => None,
                },
            ),
    {
        let word = match first {
            Some(word) => word,
            None => return Ok(Command::Help),
        };
        if same(word, "help") || same(word, "--help") || same(word, "-h") {
            Ok(Command::Help)
        } else if same(word, "probe") {
            Ok(Command::Probe)
        } else if same(word, "smoke") {
            Ok(Command::Smoke)
        } else if same(word, "produce") {
            Ok(Command::Produce)
        } else if same(word, "read") {
            Ok(Command::Read)
        } else if same(word, "sweep") {
            Ok(Command::Sweep)
        } else {
            Err(joined("unknown command ", quote(word.as_str()).as_str()))
        }
    }
}

/// The line that precedes the facts of a report.
pub fn fact_count(facts: usize) -> (line: String)
    ensures
        line@ == "# "@ + decimal_of(facts as nat) + " fact(s)"@,
{
    let mut line = joined("# ", decimal(facts as u64).as_str());
    line.append(" fact(s)");
    line
}

/// The line that closes a sweep.
pub fn swept(removed: usize) -> (line: String)
    ensures
        line@ == "swept "@ + decimal_of(removed as nat) + " leftover resource(s)"@,
{
    let mut line = joined("swept ", decimal(removed as u64).as_str());
    line.append(" leftover resource(s)");
    line
}

} // verus!
