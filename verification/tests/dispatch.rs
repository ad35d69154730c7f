use kitaebot::dispatch::{self, Input, SlashCommand};

#[test]
fn message_without_slash() {
    let input = Input::parse("hello");
    assert!(matches!(input, Ok(Input::Message("hello"))));
}

#[test]
fn known_command() {
    let input = Input::parse("/new");
    assert!(matches!(input, Ok(Input::Command(SlashCommand::New))));
}

#[test]
fn unknown_command() {
    assert!(Input::parse("/bogus").is_err());
}

#[test]
fn empty_string_is_message() {
    let input = Input::parse("");
    assert!(matches!(input, Ok(Input::Message(""))));
}

#[test]
fn a_command_is_the_whole_text() {
    assert!(Input::parse("/new session").is_err());
    assert!(matches!(Input::parse(" /new"), Ok(Input::Message(" /new"))));
    assert!(matches!(Input::parse("/stats"), Ok(Input::Command(SlashCommand::Stats))));
}

#[test]
fn an_unknown_command_is_named_in_the_answer() {
    assert_eq!(dispatch::unknown_command("/bogus"), "Unknown command: /bogus");
}
