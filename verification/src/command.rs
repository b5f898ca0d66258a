//! What the first command-line argument asks for.
use vstd::prelude::*;
use crate::order::text_equal;
use crate::text::{chars_of, lowercase, to_lowercase};

verus! {

/// What a run of the program does.
#[derive(Debug, PartialEq, Eq)]
pub enum Command {
    /// Print the version (`--version`, `-v`).
    Version,
    /// Print the usage text (`--help`, `-h`).
    Help,
    /// Print the directory the program was built from (`--source`).
    Source,
    /// Rebuild the index now (`--reindex`).
    Reindex,
    /// List every known repository (`--list`).
    List,
    /// Print the completion candidates (`--complete`).
    Complete,
    /// Print the repositories matching the query, held lowercased.
    Jump(String),
    /// No query was given.
    Usage,
}

/// A `Command`, with the query as text.
pub enum Action {
    Version,
    Help,
    Source,
    Reindex,
    List,
    Complete,
    Jump(Seq<char>),
    Usage,
}

impl View for Command {
    type V = Action;

    open spec fn view(&self) -> Action {
        match self {
            Command::Version => Action::Version,
            Command::Help => Action::Help,
            Command::Source => Action::Source,
            Command::Reindex => Action::Reindex,
            Command::List => Action::List,
            Command::Complete => Action::Complete,
            Command::Jump(q) => Action::Jump(q@),
            Command::Usage => Action::Usage,
        }
    }
}

/// What the first argument asks for: one of the flags, else a query
/// (lowercased) where it is not empty, else nothing.
pub open spec fn action_for(first: Option<Seq<char>>) -> Action {
    match first {
        None => Action::Usage,
        Some(a) => if a == "--version"@ || a == "-v"@ {
            Action::Version
        } else if a == "--help"@ || a == "-h"@ {
            Action::Help
        } else if a == "--source"@ {
            Action::Source
        } else if a == "--reindex"@ {
            Action::Reindex
        } else if a == "--list"@ {
            Action::List
        } else if a == "--complete"@ {
            Action::Complete
        } else if a.len() == 0 {
            Action::Usage
        } else {
            Action::Jump(lowercase(a))
        },
    }
}

/// The flags, each asking for its own command.
pub open spec fn is_flag(a: Seq<char>) -> bool {
    a == "--version"@ || a == "-v"@ || a == "--help"@ || a == "-h"@ || a == "--source"@
        || a == "--reindex"@ || a == "--list"@ || a == "--complete"@
}

/// Every non-empty argument that is not a flag asks to jump with its
/// lowercase form, whatever characters it holds; each flag asks for its
/// command; no argument, or an empty one, asks for the usage text.
pub proof fn lemma_arguments(a: Seq<char>)
    ensures
        a.len() > 0 && !is_flag(a) ==> action_for(Some(a)) == Action::Jump(lowercase(a)),
        a.len() == 0 ==> action_for(Some(a)) is Usage,
        action_for(None) is Usage,
        a == "--version"@ || a == "-v"@ ==> action_for(Some(a)) is Version,
        a == "--help"@ || a == "-h"@ ==> action_for(Some(a)) is Help,
        a == "--source"@ ==> action_for(Some(a)) is Source,
        a == "--reindex"@ ==> action_for(Some(a)) is Reindex,
        a == "--list"@ ==> action_for(Some(a)) is List,
        a == "--complete"@ ==> action_for(Some(a)) is Complete,
{
    reveal_strlit("--version");
    reveal_strlit("-v");
    reveal_strlit("--help");
    reveal_strlit("-h");
    reveal_strlit("--source");
    reveal_strlit("--reindex");
    reveal_strlit("--list");
    reveal_strlit("--complete");
    assert("--version"@[2] == 'v' && "-v"@[1] == 'v' && "--help"@[2] == 'h' && "-h"@[1] == 'h');
    assert("--source"@[2] == 's' && "--reindex"@[2] == 'r' && "--list"@[2] == 'l');
    assert("--complete"@[2] == 'c');
}

impl Command {
    /// The command the first argument names.
    pub fn parse(first: Option<&str>) -> (cmd: Command)
        ensures
            cmd@ == action_for(
                match first {
                    Some(a) => Some(a@),
                    None => None,
                },
            ),
    {
        let arg = match first {
            None => {
                return Command::Usage;
            },
            Some(a) => a,
        };
        let a = chars_of(arg);
        if text_equal(&a, &chars_of("--version")) || text_equal(&a, &chars_of("-v")) {
            Command::Version
        } else if text_equal(&a, &chars_of("--help")) || text_equal(&a, &chars_of("-h")) {
            Command::Help
        } else if text_equal(&a, &chars_of("--source")) {
            Command::Source
        } else if text_equal(&a, &chars_of("--reindex")) {
            Command::Reindex
        } else if text_equal(&a, &chars_of("--list")) {
            Command::List
        } else if text_equal(&a, &chars_of("--complete")) {
            Command::Complete
        } else if a.len() == 0 {
            Command::Usage
        } else {
            Command::Jump(to_lowercase(arg))
        }
    }

    /// Whether the command needs the search root: all but printing the
    /// version, the usage text and the source directory.
    pub fn needs_root(&self) -> (r: bool)
        ensures
            r == !(self@ is Version || self@ is Help || self@ is Source),
    {
        match self {
            Command::Version | Command::Help | Command::Source => false,
            _ => true,
        }
    }
}

} // verus!
