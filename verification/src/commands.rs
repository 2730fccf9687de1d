//! Worker-node command types and their database string forms.
use vstd::prelude::*;
use crate::text::str_eq;

verus! {

/// Command types that can be sent to worker nodes.
#[derive(Debug, Clone, Copy, PartialEq, Eq, Structural)]
pub enum CommandType {
    Stop,
    Restart,
    UpdateConfig,
    Reassign,
    Upgrade,
}

/// The database string of each command type.
pub open spec fn command_str(c: CommandType) -> Seq<char> {
    match c {
        CommandType::Stop => "stop"@,
        CommandType::Restart => "restart"@,
        CommandType::UpdateConfig => "update_config"@,
        CommandType::Reassign => "reassign"@,
        CommandType::Upgrade => "upgrade"@,
    }
}

/// The command type whose database string is `s`, if any.
pub open spec fn command_of_str(s: Seq<char>) -> Option<CommandType> {
    if s == "stop"@ {
        Some(CommandType::Stop)
    } else if s == "restart"@ {
        Some(CommandType::Restart)
    } else if s == "update_config"@ {
        Some(CommandType::UpdateConfig)
    } else if s == "reassign"@ {
        Some(CommandType::Reassign)
    } else if s == "upgrade"@ {
        Some(CommandType::Upgrade)
    } else {
        None
    }
}

/// Timeout in seconds assigned to each command type.
pub open spec fn command_timeout(c: CommandType) -> int {
    match c {
        CommandType::Stop => 60,
        CommandType::Restart => 120,
        CommandType::UpdateConfig => 30,
        CommandType::Reassign => 300,
        CommandType::Upgrade => 600,
    }
}

impl CommandType {
    /// Database string representation (matches the table's CHECK constraint).
    pub fn as_str(&self) -> (s: &'static str)
        ensures
            s@ == command_str(*self),
    {
        match self {
            CommandType::Stop => "stop",
            CommandType::Restart => "restart",
            CommandType::UpdateConfig => "update_config",
            CommandType::Reassign => "reassign",
            CommandType::Upgrade => "upgrade",
        }
    }

    /// Parse from the database string. Returns `None` for unknown commands.
    pub fn from_str(s: &str) -> (r: Option<CommandType>)
        ensures
            r == command_of_str(s@),
    {
        if str_eq(s, "stop") {
            Some(CommandType::Stop)
        } else if str_eq(s, "restart") {
            Some(CommandType::Restart)
        } else if str_eq(s, "update_config") {
            Some(CommandType::UpdateConfig)
        } else if str_eq(s, "reassign") {
            Some(CommandType::Reassign)
        } else if str_eq(s, "upgrade") {
            Some(CommandType::Upgrade)
        } else {
            None
        }
    }

    /// Default timeout in seconds for each command type.
    pub fn default_timeout_secs(&self) -> (secs: i32)
        ensures
            secs == command_timeout(*self),
            secs > 0,
    {
        match self {
            CommandType::Stop => 60,
            CommandType::Restart => 120,
            CommandType::UpdateConfig => 30,
            CommandType::Reassign => 300,
            CommandType::Upgrade => 600,
        }
    }
}

/// Parsing the database string of a command type gives that command type back.
pub proof fn lemma_command_str_roundtrip(c: CommandType)
    ensures
        command_of_str(command_str(c)) == Some(c),
{
    reveal_strlit("stop");
    reveal_strlit("restart");
    reveal_strlit("update_config");
    reveal_strlit("reassign");
    reveal_strlit("upgrade");
    assert("stop"@.len() == 4);
    assert("restart"@.len() == 7);
    assert("update_config"@.len() == 13);
    assert("reassign"@.len() == 8);
    assert("upgrade"@.len() == 7);
    assert("restart"@[1] != "upgrade"@[1]);
}

/// Every string that parses to a command type is that command type's database string.
pub proof fn lemma_command_parse_inverse(s: Seq<char>)
    ensures
        command_of_str(s) matches Some(c) ==> command_str(c) == s,
{
}

} // verus!
