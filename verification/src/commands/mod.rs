//! The command vocabulary shared by dispatch and the contract tables.

pub mod docs;
pub mod health;
pub mod region;
pub mod regions;

use vstd::prelude::*;

use crate::error::{CliError, ErrorKind};
use crate::text::{push_str, str_equal};

verus! {

/// Every supported subcommand.
#[derive(Clone, Copy, Debug, PartialEq, Eq, Structural)]
pub enum Command {
    Region,
    Regions,
    Health,
    Completion,
    Version,
}

/// The canonical name of each command.
pub open spec fn command_name(c: Command) -> Seq<char> {
    match c {
        Command::Region => "region"@,
        Command::Regions => "regions"@,
        Command::Health => "health"@,
        Command::Completion => "completion"@,
        Command::Version => "version"@,
    }
}

/// The command a label names: every canonical name, and `closest` for `region`.
pub open spec fn command_for(label: Seq<char>) -> Option<Command> {
    if label == "region"@ || label == "closest"@ {
        Some(Command::Region)
    } else if label == "regions"@ {
        Some(Command::Regions)
    } else if label == "health"@ {
        Some(Command::Health)
    } else if label == "completion"@ {
        Some(Command::Completion)
    } else if label == "version"@ {
        Some(Command::Version)
    } else {
        None
    }
}

/// The message for a label that names no command.
pub open spec fn unknown_command_message(label: Seq<char>) -> Seq<char> {
    "unknown command: "@ + label
}

impl Command {
    /// Every command, in declaration order.
    pub const ALL: [Command; 5] = [
        Command::Region,
        Command::Regions,
        Command::Health,
        Command::Completion,
        Command::Version,
    ];

    /// The canonical name, as it appears in the contract's command tables.
    pub fn name(self) -> (n: &'static str)
        ensures
            n@ == command_name(self),
    {
        match self {
            Command::Region => "region",
            Command::Regions => "regions",
            Command::Health => "health",
            Command::Completion => "completion",
            Command::Version => "version",
        }
    }

    /// Reads a command label; an unknown label is a usage error naming it.
    pub fn parse(value: &str) -> (r: Result<Command, CliError>)
        ensures
            match command_for(value@) {
                Some(c) => r == Ok::<Command, CliError>(c),
                None => r matches Err(e) && e@ == (ErrorKind::Usage, unknown_command_message(
                    value@,
                )),
            },
    {
        if str_equal(value, "region") || str_equal(value, "closest") {
            Ok(Command::Region)
        } else if str_equal(value, "regions") {
            Ok(Command::Regions)
        } else if str_equal(value, "health") {
            Ok(Command::Health)
        } else if str_equal(value, "completion") {
            Ok(Command::Completion)
        } else if str_equal(value, "version") {
            Ok(Command::Version)
        } else {
            let mut message = String::new();
            push_str(&mut message, "unknown command: ");
            push_str(&mut message, value);
            Err(CliError::usage(message))
        }
    }
}

/// Reading a command's own name gives the command back.
pub proof fn lemma_parse_name_round_trip(c: Command)
    ensures
        command_for(command_name(c)) == Some(c),
{
    reveal_strlit("region");
    reveal_strlit("closest");
    reveal_strlit("regions");
    reveal_strlit("health");
    reveal_strlit("completion");
    reveal_strlit("version");
    match c {
        Command::Region => {},
        Command::Regions => {
            assert("regions"@.len() != "region"@.len());
            assert("regions"@[0] != "closest"@[0]);
        },
        Command::Health => {
            assert("health"@[0] != "region"@[0]);
            assert("health"@[0] != "closest"@[0]);
            assert("health"@[0] != "regions"@[0]);
        },
        Command::Completion => {
            assert("completion"@[1] != "region"@[1]);
            assert("completion"@[1] != "closest"@[1]);
            assert("completion"@[1] != "regions"@[1]);
            assert("completion"@[1] != "health"@[1]);
        },
        Command::Version => {
            assert("version"@[0] != "region"@[0]);
            assert("version"@[0] != "closest"@[0]);
            assert("version"@[0] != "regions"@[0]);
            assert("version"@[0] != "health"@[0]);
            assert("version"@[0] != "completion"@[0]);
        },
    }
}

} // verus!
