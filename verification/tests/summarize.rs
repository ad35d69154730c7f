use kitaebot::context::lcm::summarize::{
    accept, estimate_messages_tokens, summarize_with_escalation, truncate_messages,
    EscalationLevel, EscalationOutcome, EscalationStep, DEGENERATE_FLOOR_CHARS,
    LEVEL_1_PROMPT, LEVEL_2_PROMPT, LEVEL_3_TOKEN_BUDGET,
};
use kitaebot::engine;
use kitaebot::types::{estimate_tokens, Message};

fn user(content: &str) -> Message {
    Message::User { content: content.to_string() }
}

type Escalate = fn(&Vec<Message>, &Vec<Option<String>>) -> EscalationStep;

/// Runs an escalation against replies that arrive in sequence, and gives the
/// outcome with the prompts that were asked.
fn run_with(
    escalate: Escalate,
    messages: Vec<Message>,
    replies: Vec<Option<String>>,
) -> (EscalationOutcome, Vec<&'static str>) {
    let mut given: Vec<Option<String>> = Vec::new();
    let mut prompts = Vec::new();
    let mut next = replies.into_iter();
    loop {
        match escalate(&messages, &given) {
            EscalationStep::Ask { prompt } => {
                prompts.push(prompt);
                given.push(next.next().unwrap_or(None));
            }
            EscalationStep::Done(outcome) => return (outcome, prompts),
        }
    }
}

fn run(
    messages: Vec<Message>,
    replies: Vec<Option<String>>,
) -> (EscalationOutcome, Vec<&'static str>) {
    run_with(summarize_with_escalation, messages, replies)
}

fn run_first(
    messages: Vec<Message>,
    replies: Vec<Option<String>>,
) -> (EscalationOutcome, Vec<&'static str>) {
    run_with(engine::summarize::summarize_with_escalation, messages, replies)
}

#[test]
fn summarize_token_estimate_uses_chars_over_four() {
    assert_eq!(estimate_tokens("a".repeat(40).as_str()), 10);
    assert_eq!(estimate_tokens(""), 0);
    assert_eq!(engine::summarize::estimate_tokens("a".repeat(40).as_str()), 10);
    assert_eq!(engine::summarize::estimate_tokens(""), 0);
}

#[test]
fn summarize_token_estimate_messages_covers_all_variants() {
    let messages = vec![
        Message::User { content: "a".repeat(40) },
        Message::Assistant { content: "b".repeat(40) },
        Message::Tool { call_id: "c1".to_string(), content: "c".repeat(40) },
    ];
    assert_eq!(estimate_messages_tokens(&messages), 30);
    assert_eq!(engine::summarize::estimate_messages_tokens(&messages), 30);
}

/// A summary that clears the degenerate floor.
fn plausible_summary(seed: &str) -> String {
    seed.repeat(DEGENERATE_FLOOR_CHARS / seed.len() + 1)
}

#[test]
fn summarize_level_1_succeeds_when_output_is_smaller() {
    let big_input = "x".repeat(4000); // ~1000 tokens
    let summary = plausible_summary("real summary ");
    let (outcome, prompts) = run(vec![user(&big_input)], vec![Some(summary.clone())]);
    assert_eq!(outcome.level, EscalationLevel::Normal);
    assert_eq!(outcome.content, summary);
    assert!(outcome.output_tokens < outcome.input_tokens);
    assert_eq!(prompts.len(), 1);
    assert_eq!(prompts[0], LEVEL_1_PROMPT);

    let (outcome, prompts) =
        run_first(vec![user(&big_input)], vec![Some("tiny summary".to_string())]);
    assert_eq!(outcome.level, EscalationLevel::Normal);
    assert_eq!(outcome.content, "tiny summary");
    assert!(outcome.output_tokens < outcome.input_tokens);
    assert_eq!(prompts, vec![engine::summarize::LEVEL_1_PROMPT]);
}

#[test]
fn summarize_level_1_too_large_falls_through_to_level_2() {
    let big_input = "x".repeat(4000);
    let bloated = "y".repeat(8000); // larger than input
    let bullets = plausible_summary("tight bullets ");
    let (outcome, prompts) =
        run(vec![user(&big_input)], vec![Some(bloated.clone()), Some(bullets.clone())]);
    assert_eq!(outcome.level, EscalationLevel::Aggressive);
    assert_eq!(outcome.content, bullets);
    assert_eq!(prompts, vec![LEVEL_1_PROMPT, LEVEL_2_PROMPT]);

    let (outcome, prompts) =
        run_first(vec![user(&big_input)], vec![Some(bloated), Some("tight bullets".to_string())]);
    assert_eq!(outcome.level, EscalationLevel::Aggressive);
    assert_eq!(outcome.content, "tight bullets");
    assert_eq!(
        prompts,
        vec![engine::summarize::LEVEL_1_PROMPT, engine::summarize::LEVEL_2_PROMPT]
    );
}

#[test]
fn summarize_level_1_error_falls_through_to_level_2() {
    let big_input = "x".repeat(4000);
    let recovered = plausible_summary("recovered ");
    let (outcome, prompts) = run(vec![user(&big_input)], vec![None, Some(recovered.clone())]);
    assert_eq!(outcome.level, EscalationLevel::Aggressive);
    assert_eq!(outcome.content, recovered);
    assert_eq!(prompts.len(), 2);

    let (outcome, prompts) =
        run_first(vec![user(&big_input)], vec![None, Some("recovered".to_string())]);
    assert_eq!(outcome.level, EscalationLevel::Aggressive);
    assert_eq!(outcome.content, "recovered");
    assert_eq!(prompts.len(), 2);
}

#[test]
fn degenerate_level_1_escalates() {
    let big_input = "x".repeat(4000);
    let bullets = plausible_summary("bullets ");
    let (outcome, prompts) =
        run(vec![user(&big_input)], vec![Some("stub".to_string()), Some(bullets.clone())]);
    assert_eq!(outcome.level, EscalationLevel::Aggressive);
    assert_eq!(outcome.content, bullets);
    assert_eq!(prompts, vec![LEVEL_1_PROMPT, LEVEL_2_PROMPT]);
}

#[test]
fn degenerate_both_levels_falls_to_truncation() {
    let big_input = "x".repeat(4000);
    let (outcome, _) =
        run(vec![user(&big_input)], vec![Some("a".to_string()), Some("b".to_string())]);
    assert_eq!(outcome.level, EscalationLevel::Deterministic);
    assert!(outcome.content.contains("[Truncated from"));
}

#[test]
fn small_chunk_short_summary_is_accepted() {
    // Under the input size at which the floor applies, a short but
    // honest summary passes at the first level.
    let small_input = "x".repeat(1200);
    let (outcome, _) =
        run(vec![user(&small_input)], vec![Some("short but honest".to_string())]);
    assert_eq!(outcome.level, EscalationLevel::Normal);
    assert_eq!(outcome.content, "short but honest");
}

#[test]
fn summarize_both_levels_fail_falls_to_truncation() {
    let big_input = "x".repeat(4000);
    let replies = || vec![Some("a".repeat(8000)), Some("b".repeat(8000))];
    for (outcome, _) in
        [run(vec![user(&big_input)], replies()), run_first(vec![user(&big_input)], replies())]
    {
        assert_eq!(outcome.level, EscalationLevel::Deterministic);
        assert!(outcome.content.contains("[Truncated from"));
        assert!(outcome.output_tokens <= LEVEL_3_TOKEN_BUDGET + 32);
    }
}

#[test]
fn summarize_both_levels_error_falls_to_truncation() {
    let input = || vec![user(&"x".repeat(4000))];
    for (outcome, _) in [run(input(), vec![None, None]), run_first(input(), vec![None, None])] {
        assert_eq!(outcome.level, EscalationLevel::Deterministic);
        assert!(outcome.content.contains("[Truncated from"));
    }
}

#[test]
fn summarize_truncate_short_input_passes_through() {
    let messages = vec![user("hello")];
    let formatted = truncate_messages(&messages, LEVEL_3_TOKEN_BUDGET, 1);
    assert!(!formatted.contains("[Truncated"));
    assert!(formatted.contains("hello"));
}

#[test]
fn summarize_truncate_respects_utf8_boundaries() {
    // A long string of multi-byte chars; truncation must not split
    // a codepoint in half.
    let s = "€".repeat(2000);
    let messages = vec![user(&s)];
    let out = truncate_messages(&messages, 32, 1500);
    assert!(out.is_char_boundary(out.len()));
    assert!(out.contains("[Truncated from 1500 tokens"));
}

#[test]
fn summarize_level_tag_is_stable() {
    assert_eq!(EscalationLevel::Normal.tag(), "level1");
    assert_eq!(EscalationLevel::Aggressive.tag(), "level2");
    assert_eq!(EscalationLevel::Deterministic.tag(), "level3-truncate");
}

#[test]
fn an_accepted_summary_is_smaller_than_its_input() {
    assert_eq!(accept("12345678", 3), Some(2));
    assert_eq!(accept("12345678", 2), None);
    assert_eq!(accept(&"x".repeat(499), 500), None);
    assert_eq!(accept(&"x".repeat(500), 500), Some(125));
    assert_eq!(accept("", 3), Some(0));
}
