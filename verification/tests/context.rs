use std::borrow::Cow;

use kitaebot::config::ContextConfig;
use kitaebot::context::names::{desanitize_name, display_name, sanitize_name};
use kitaebot::context::{
    budget, format_messages_for_summary, session_summary_request, share, summarize_request,
    truncate_tool_output,
};
use kitaebot::session::{
    apply_summary, compact_if_needed, force_compact, session_tokens, Session,
};
use kitaebot::types::{Message, ToolCall, ToolFunction};

fn user(content: &str) -> Message {
    Message::User { content: content.to_string() }
}

fn tiny_config() -> ContextConfig {
    let mut config = ContextConfig::default();
    config.max_tokens = 100;
    config.budget_percent = 50;
    config
}

// ── tool output ───────────────────────────────────────────────────

#[test]
fn truncate_tool_output_passes_small_content_through() {
    let content = "short output";
    let result = truncate_tool_output(content, 100);
    assert!(matches!(result, Cow::Borrowed(_)));
    assert_eq!(result, content);
}

#[test]
fn truncate_tool_output_keeps_head_and_tail() {
    let content = format!("HEAD{}TAIL", "x".repeat(10_000));
    let result = truncate_tool_output(&content, 100);
    assert!(result.starts_with("HEAD"));
    assert!(result.ends_with("TAIL"));
    assert!(result.contains("tokens truncated] ..."));
    // 100 tokens = 400 bytes kept plus the marker.
    assert!(result.len() < 500);
}

#[test]
fn truncate_tool_output_is_multibyte_safe() {
    let content = "€".repeat(10_000);
    let result = truncate_tool_output(&content, 100);
    assert!(result.len() < content.len());
    assert!(result.contains("tokens truncated"));
}

#[test]
fn the_marker_tells_how_much_was_cut() {
    let content = "a".repeat(1000);
    assert_eq!(
        truncate_tool_output(&content, 10),
        format!("{}\n... [~240 tokens truncated] ...\n{}", "a".repeat(20), "a".repeat(20))
    );
}

// ── requests to the model ─────────────────────────────────────────

fn all_variants() -> Vec<Message> {
    vec![
        Message::System { content: "sys".to_string() },
        Message::User { content: "usr".to_string() },
        Message::Assistant { content: "ast".to_string() },
        Message::ToolCalls {
            content: "thinking".to_string(),
            calls: vec![ToolCall::new(
                "c1".to_string(),
                ToolFunction {
                    name: "exec".to_string(),
                    arguments: r#"{"cmd":"ls"}"#.to_string(),
                },
            )],
        },
        Message::Tool { call_id: "c1".to_string(), content: "file.txt".to_string() },
    ]
}

#[test]
fn mod_format_messages_covers_all_variants() {
    let formatted = format_messages_for_summary(&all_variants());
    assert!(formatted.contains("[system] sys"));
    assert!(formatted.contains("[user] usr"));
    assert!(formatted.contains("[assistant] ast"));
    assert!(formatted.contains("[assistant] thinking"));
    assert!(formatted.contains("[tool_call] exec"));
    assert!(formatted.contains("[tool:c1] file.txt"));
}

#[test]
fn a_summary_request_frames_the_segment() {
    let messages = vec![user("hello"), Message::Assistant { content: "hi".to_string() }];
    let request = summarize_request("test prompt", &messages);
    assert_eq!(request.len(), 2);
    assert!(matches!(&request[0], Message::System { .. }));
    match &request[1] {
        Message::User { content } => {
            assert!(content.starts_with("test prompt\n\n<conversation_segment>\n"));
            assert!(content.contains("[user] hello"));
            assert!(content.ends_with("\n</conversation_segment>"));
        }
        _ => panic!("the segment comes from the user"),
    }
}

#[test]
fn a_session_summary_request_holds_the_messages() {
    let request = session_summary_request(&vec![user("hello")]);
    assert_eq!(request.len(), 2);
    match &request[1] {
        Message::User { content } => {
            assert_eq!(*content, format_messages_for_summary(&vec![user("hello")]))
        }
        _ => panic!("the messages come from the user"),
    }
}

// ── a session and its budget ──────────────────────────────────────

#[test]
fn budget_applies_ratio() {
    let mut config = ContextConfig::default();
    config.max_tokens = 1000;
    config.budget_percent = 50;
    assert_eq!(budget(&config), 500);
}

#[test]
fn a_share_is_rounded_down() {
    assert_eq!(share(99, 50), 49);
    assert_eq!(share(u32::MAX, 100), u32::MAX as usize);
}

#[test]
fn session_tokens_includes_system_prompt() {
    let mut session = Session::new();
    session.add_message(user("abcd")); // 4 chars = 1 token
    // system_prompt: 8 chars = 2 tokens, message: 4 chars = 1 token
    // total = 12 chars / 4 = 3 tokens
    assert_eq!(session_tokens(&session, 8), 3);
}

#[test]
fn context_no_compaction_under_budget() {
    let mut session = Session::new();
    session.add_message(user("short"));
    assert!(compact_if_needed(&session, "sys", &ContextConfig::default()).is_none());
}

#[test]
fn no_compaction_with_fewer_than_two_messages() {
    let mut session = Session::new();
    session.add_message(user(&"x".repeat(10000)));
    assert!(compact_if_needed(&session, "sys", &tiny_config()).is_none());
}

#[test]
fn context_compaction_triggers_over_budget() {
    let mut session = Session::new();
    // Each message: 200 chars = 50 tokens. Two messages = 100 tokens.
    // tiny_config budget = 100 * 0.5 = 50 tokens. Over budget.
    session.add_message(user(&"a".repeat(200)));
    session.add_message(Message::Assistant { content: "b".repeat(200) });
    let request = compact_if_needed(&session, "", &tiny_config()).unwrap();
    assert_eq!(request.len(), 2);
    apply_summary(&mut session, "Summary of conversation".to_string());
    assert_eq!(session.len(), 1);
    assert!(
        matches!(&session.messages()[0], Message::System { content } if content == "Summary of conversation")
    );
}

#[test]
fn context_force_compact_runs_unconditionally() {
    let mut session = Session::new();
    session.add_message(user("a"));
    session.add_message(user("b"));
    assert!(force_compact(&session).is_some());
    apply_summary(&mut session, "forced".to_string());
    assert_eq!(session.len(), 1);
    assert!(
        matches!(&session.messages()[0], Message::System { content } if content == "forced")
    );
}

#[test]
fn force_compact_skips_empty_session() {
    let session = Session::new();
    assert!(force_compact(&session).is_none());
    assert!(session.is_empty());
}

#[test]
fn a_session_copies_and_clears() {
    let mut session = Session::from_messages(all_variants());
    let copy = session.copy();
    session.clear();
    assert_eq!(session.len(), 0);
    assert_eq!(copy.len(), 5);
    let request = copy.assemble("prompt");
    assert_eq!(request.messages.len(), 6);
    assert!(matches!(&request.messages[0], Message::System { content } if content == "prompt"));
}

// ── session names ─────────────────────────────────────────────────

#[test]
fn names_sanitize_slashes() {
    assert_eq!(sanitize_name("owner/repo"), "owner--repo");
}

#[test]
fn names_sanitize_double_dots() {
    assert_eq!(sanitize_name("../evil"), "--evil");
    assert_eq!(sanitize_name("a/../b"), "a----b");
}

#[test]
fn names_sanitize_null_bytes() {
    assert_eq!(sanitize_name("foo\0bar"), "foobar");
}

#[test]
fn names_desanitize_reverses_slashes() {
    assert_eq!(desanitize_name("owner--repo"), "owner/repo");
}

#[test]
fn names_sanitize_roundtrip() {
    let name = "owner/repo";
    assert_eq!(desanitize_name(&sanitize_name(name)), name);
}

#[test]
fn names_sanitize_plain_name_unchanged() {
    assert_eq!(sanitize_name("general"), "general");
}

#[test]
fn display_name_desanitizes_storage_form() {
    assert_eq!(display_name("owner--repo"), "owner/repo");
    assert_eq!(display_name("general"), "general");
}

#[test]
fn flat_sanitize_slashes() {
    assert_eq!(sanitize_name("owner/repo"), "owner--repo");
}

#[test]
fn flat_sanitize_double_dots() {
    assert_eq!(sanitize_name("../evil"), "--evil");
    assert_eq!(sanitize_name("a/../b"), "a----b");
}

#[test]
fn flat_sanitize_null_bytes() {
    assert_eq!(sanitize_name("foo\0bar"), "foobar");
}

#[test]
fn flat_desanitize_reverses_slashes() {
    assert_eq!(desanitize_name("owner--repo"), "owner/repo");
}

#[test]
fn flat_sanitize_roundtrip() {
    let name = "owner/repo";
    assert_eq!(desanitize_name(&sanitize_name(name)), name);
}

#[test]
fn flat_sanitize_plain_name_unchanged() {
    assert_eq!(sanitize_name("general"), "general");
}

#[test]
fn sanitizing_a_sanitized_name_changes_nothing() {
    for name in ["a/b", "../x", "a..b/\0c", "plain"] {
        let once = sanitize_name(name);
        assert_eq!(sanitize_name(&once), once);
        assert!(!once.contains('/') && !once.contains("..") && !once.contains('\0'));
    }
}
