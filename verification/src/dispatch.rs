//! Telling commands from messages.

use vstd::prelude::*;

use crate::text::{has_prefix, same, starts_with};

verus! {

/// A command that is carried out locally.
#[derive(Clone, Copy, Debug, PartialEq, Eq, Structural)]
pub enum SlashCommand {
    /// Starts the session afresh.
    New,
    /// Shows usage statistics.
    Stats,
}

impl SlashCommand {
    /// The command that a text is.
    pub open spec fn named(text: Seq<char>) -> Option<SlashCommand> {
        if text == "/new"@ {
            Some(SlashCommand::New)
        } else if text == "/stats"@ {
            Some(SlashCommand::Stats)
        } else {
            None
        }
    }

    /// The command that a text is.
    pub fn from_text(text: &str) -> (r: Option<SlashCommand>)
        ensures
            r == SlashCommand::named(text@),
    {
        if same(text, "/new") {
            Some(SlashCommand::New)
        } else if same(text, "/stats") {
            Some(SlashCommand::Stats)
        } else {
            None
        }
    }
}

/// What a user typed.
pub enum Input<'a> {
    /// A command.
    Command(SlashCommand),
    /// Free text for the agent.
    Message(&'a str),
}

/// A text that starts with a slash and is no command.
#[derive(Clone, Copy, Debug, PartialEq, Eq, Structural)]
pub struct UnknownCommand;

impl<'a> Input<'a> {
    /// Tells commands from messages: a text that does not start with a slash
    /// is a message, and one that does must be a command.
    pub fn parse(text: &'a str) -> (r: Result<Self, UnknownCommand>)
        ensures
            match r {
                Ok(Input::Message(m)) => !has_prefix(text@, "/"@) && m@ == text@,
                Ok(Input::Command(c)) => has_prefix(text@, "/"@) && SlashCommand::named(text@)
                    == Some(c),
                Err(_) => has_prefix(text@, "/"@) && SlashCommand::named(text@) is None,
            },
    {
        if !starts_with(text, "/") {
            return Ok(Input::Message(text));
        }
        match SlashCommand::from_text(text) {
            Some(command) => Ok(Input::Command(command)),
            None => Err(UnknownCommand),
        }
    }
}

/// What is answered to a text that is no command.
pub fn unknown_command(input: &str) -> (r: String)
    ensures
        r@ == "Unknown command: "@ + input@,
{
    let mut out = "Unknown command: ".to_owned();
    out.append(input);
    out
}

/// Each command has one name, which starts with a slash.
pub proof fn a_command_has_one_name(a: Seq<char>, b: Seq<char>)
    requires
        SlashCommand::named(a) is Some,
        SlashCommand::named(a) == SlashCommand::named(b),
    ensures
        a == b,
        has_prefix(a, "/"@),
        SlashCommand::named("/new"@) == Some(SlashCommand::New),
        SlashCommand::named("/stats"@) == Some(SlashCommand::Stats),
{
    reveal_strlit("/");
    reveal_strlit("/new");
    reveal_strlit("/stats");
    assert("/new"@.len() != "/stats"@.len());
    assert(a.take(1) =~= "/"@);
}

} // verus!
