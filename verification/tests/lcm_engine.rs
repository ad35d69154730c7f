use kitaebot::config::ContextConfig;
use kitaebot::context::lcm::compaction::{
    run_compaction, CompactionNews, CompactionPhase, CompactionTask, ItemRef,
};
use kitaebot::context::lcm::engine::{
    hard_threshold, read_active_session, soft_threshold, tool_names, LcmEngine,
};
use kitaebot::context::lcm::ingest::{
    externalize, intercept_large, put_reference, settle_payload, summarize_payload, Interception,
    SummaryStrategy,
};
use kitaebot::context::lcm::report::health_section;
use kitaebot::context::lcm::rows::{decompose, part_id, Part};
use kitaebot::context::lcm::summarize::{
    summarize_with_escalation, EscalationOutcome, EscalationStep,
};
use kitaebot::context::lcm::survey::ExplorationStep;
use kitaebot::context::{AssembledContext, CompactionEvent, ToolScope};
use kitaebot::digest::file_id;
use kitaebot::table::Table;
use kitaebot::types::{estimate_tokens, Message, ToolCall, ToolFunction};

const NOW: &str = "2025-01-01 00:00:00";

fn assistant(content: &str) -> Message {
    Message::Assistant { content: content.to_string() }
}

fn user(content: &str) -> Message {
    Message::User { content: content.to_string() }
}

fn temp_engine() -> LcmEngine {
    LcmEngine::new(ContextConfig::default(), None)
}

fn temp_engine_with_max_tokens(max_tokens: u32) -> LcmEngine {
    let mut ctx = ContextConfig::default();
    ctx.max_tokens = max_tokens;
    LcmEngine::new(ctx, None)
}

/// An engine whose limits on payloads are 10 tokens (40 bytes) for both user
/// and tool content.
fn temp_engine_small_threshold() -> LcmEngine {
    let mut ctx = ContextConfig::default();
    ctx.tool_output_tokens = 10;
    ctx.lcm.large_file_threshold = 10;
    LcmEngine::new(ctx, None)
}

/// Stores a message, with its payload outside where it is oversized. `reply`
/// is what the model answers, where it is asked.
fn push_with(engine: &mut LcmEngine, msg: Message, reply: Option<&str>) {
    let strategy = match intercept_large(&msg, &engine.config()) {
        Interception::Keep => {
            engine.push_message(&msg, None, NOW);
            return;
        }
        Interception::Externalize(strategy) => strategy,
    };
    let hint = match &msg {
        Message::Tool { call_id, .. } => engine.current().lookup_file_read_path(call_id),
        _ => None,
    };
    let bound = engine.config().lcm.large_file_summary_tokens;
    let content = msg.content().to_string();
    let summary = match summarize_payload(&content, hint.as_deref(), strategy, bound) {
        ExplorationStep::Done(text) => text,
        ExplorationStep::Ask { .. } => {
            settle_payload(&content, hint.as_deref(), &reply.map(str::to_string))
        }
    };
    let (reference, row) = externalize(&content, hint.as_deref(), &summary);
    engine.push_message(&put_reference(&msg, reference), Some(row), NOW);
}

fn push(engine: &mut LcmEngine, msg: Message) {
    push_with(engine, msg, Some("summary"));
}

fn stored_content(engine: &LcmEngine, seq: usize) -> String {
    engine.current().message(seq).content.clone()
}

fn assembled(engine: &LcmEngine) -> AssembledContext {
    match engine.assemble("SYS") {
        Ok(ctx) => ctx,
        Err(_) => panic!("the stored rows can be read"),
    }
}

fn system(ctx: &AssembledContext, i: usize) -> &str {
    match &ctx.messages[i] {
        Message::System { content } => content,
        _ => panic!("expected a system message"),
    }
}

fn summarized(messages: Vec<Message>, reply: &str) -> EscalationOutcome {
    let mut replies: Vec<Option<String>> = Vec::new();
    loop {
        match summarize_with_escalation(&messages, &replies) {
            EscalationStep::Ask { .. } => replies.push(Some(reply.to_string())),
            EscalationStep::Done(outcome) => return outcome,
        }
    }
}

/// Runs a compaction cycle against a model that always answers `reply`.
fn compact(engine: &mut LcmEngine, reply: &str) -> CompactionEvent {
    let before = engine.stats().token_estimate;
    let mut phase = CompactionPhase::Start;
    let mut news = CompactionNews::Began;
    let mut leaves = Vec::new();
    let mut summaries = Vec::new();
    loop {
        let (next, task) = run_compaction(phase, news);
        phase = next;
        news = match task {
            CompactionTask::LoadLeafChunks => {
                leaves = match engine.leaf_chunks() {
                    Ok(chunks) => chunks,
                    Err(_) => panic!("the stored rows can be read"),
                };
                CompactionNews::Loaded(leaves.len())
            }
            CompactionTask::SummarizeLeaf(i) => {
                let outcome = summarized(leaves[i].messages(), reply);
                engine.store_leaf(&leaves[i], &outcome, NOW);
                CompactionNews::Stored
            }
            CompactionTask::LoadCondensedChunks => {
                summaries = engine.condensed_chunks();
                CompactionNews::Loaded(summaries.len())
            }
            CompactionTask::SummarizeCondensed(i) => {
                let outcome = summarized(summaries[i].messages(), reply);
                engine.store_condensed(&summaries[i], &outcome, NOW);
                CompactionNews::Stored
            }
            CompactionTask::Finish => break,
        };
    }
    engine.forget_observation();
    CompactionEvent { before, after: engine.stats().token_estimate }
}

fn compact_if_urgent(engine: &mut LcmEngine, reply: &str) -> Option<CompactionEvent> {
    if engine.is_urgent() {
        Some(compact(engine, reply))
    } else {
        None
    }
}

fn compact_between_turns(engine: &mut LcmEngine, reply: &str) -> Option<CompactionEvent> {
    if engine.is_due() {
        Some(compact(engine, reply))
    } else {
        None
    }
}

/// How many items of the active context are messages, and how many summaries.
fn item_counts(engine: &LcmEngine) -> (usize, usize) {
    let c = engine.current();
    let mut counts = (0, 0);
    for i in 0..c.item_count() {
        match c.item(i).item {
            ItemRef::Message(_) => counts.0 += 1,
            ItemRef::Summary(_) => counts.1 += 1,
        }
    }
    counts
}

const SUMMARY: &str = "compact summary that is long enough to pass the level-1 shrink test";

#[test]
fn tools_scope_gates_lcm_expand() {
    assert_eq!(tool_names(ToolScope::Root), ["lcm_grep", "lcm_describe"]);
    assert_eq!(
        tool_names(ToolScope::SubAgent),
        ["lcm_grep", "lcm_describe", "lcm_expand"]
    );
}

// ── large payload interception ──────────────────────────────────────

#[test]
fn oversized_user_message_is_externalized() {
    let mut engine = temp_engine_small_threshold();
    let payload = "z".repeat(400);
    push(&mut engine, user(&payload));

    let content = stored_content(&engine, 0);
    assert!(content.starts_with("<file id=\"file_"));
    assert!(content.ends_with("</file>"));
    assert!(content.contains("summary"));
    assert!(!content.contains(&payload));

    let id = file_id(&payload);
    let row = &engine.file(&id).unwrap().row;
    assert_eq!(row.byte_size, 400);
    assert_eq!(row.token_count, 100);
    // No hint: the recorded path is workspace-relative, and the
    // reference carries it.
    assert_eq!(row.path, format!("context/lcm/payloads/{id}"));
    assert!(content.contains(&format!("path=\"{}\"", row.path)));

    // The stored token count reflects the reference, not the payload.
    assert!(engine.current().message(0).token_count < row.token_count);
}

#[test]
fn payload_bytes_are_summed_over_the_stored_files() {
    let mut engine = temp_engine_small_threshold();
    assert_eq!(engine.payload_bytes(), 0);
    push(&mut engine, user(&"a".repeat(400)));
    engine.switch_session("other");
    push(&mut engine, user(&"b".repeat(500)));
    // The same payload again is stored once.
    push(&mut engine, user(&"a".repeat(400)));
    assert_eq!(engine.file_count(), 2);
    assert!(engine.payloads_are_countable());
    assert_eq!(engine.payload_bytes(), 900);
}

#[test]
fn sub_threshold_message_stored_verbatim() {
    let mut engine = temp_engine_small_threshold();
    push(&mut engine, user("short"));
    assert_eq!(stored_content(&engine, 0), "short");
    assert_eq!(engine.file_count(), 0);
}

fn read_call(path: &str) -> Message {
    Message::ToolCalls {
        content: String::new(),
        calls: vec![ToolCall::new(
            "c1".into(),
            ToolFunction {
                name: "file_read".into(),
                arguments: format!("{{\"path\":\"{path}\"}}"),
            },
        )],
    }
}

#[test]
fn tool_result_uses_file_read_path_hint() {
    let mut engine = temp_engine_small_threshold();
    push(&mut engine, read_call("data/big.json"));
    let payload = format!("[{}]", "1,".repeat(50));
    push(&mut engine, Message::Tool { call_id: "c1".into(), content: payload.clone() });

    let content = stored_content(&engine, 1);
    assert!(content.contains("path=\"data/big.json\""));
    let row = &engine.file(&file_id(&payload)).unwrap().row;
    assert_eq!(row.path, "data/big.json");
    assert_eq!(row.mime_type, "application/json");
}

#[test]
fn a_reference_names_the_next_step() {
    let mut engine = temp_engine_small_threshold();
    push(&mut engine, read_call("src/big.rs"));
    let code = "fn f() {}\n".repeat(50);
    push(&mut engine, Message::Tool { call_id: "c1".into(), content: code });
    let content = stored_content(&engine, 1);
    assert!(
        content.ends_with(
            "Next: file_read src/big.rs with offset/limit windows the original file.\n</file>"
        ),
        "{content}"
    );

    let run = format!("test result: FAILED. 1 passed; 1 failed\n{}", "x".repeat(400));
    push(&mut engine, Message::Tool { call_id: "c2".into(), content: run });
    let content = stored_content(&engine, 2);
    assert!(content.contains("do not re-run the command.\n</file>"), "{content}");
}

#[test]
fn framed_tool_result_excerpt_strips_framing() {
    let mut engine = temp_engine_small_threshold();
    push(&mut engine, read_call("data/big.json"));

    // The safety wrapper around numbered lines and their trailer.
    let mut body = String::new();
    for i in 0..30u32 {
        body.push_str(&format!("{}\t    {},\n", i + 3, i));
    }
    let framed = format!(
        "<tool_output name=\"file_read\">\n\
         1\t{{\n2\t  \"users\": [\n{body}33\t    99\n34\t  ]\n35\t}}\n\n\
         (35 lines shown, 35 total, 300 bytes)\n\
         </tool_output>"
    );
    push(&mut engine, Message::Tool { call_id: "c1".into(), content: framed.clone() });

    // The excerpt shows the unframed file content: no wrapper tags, no
    // line-number columns.
    let content = stored_content(&engine, 1);
    assert!(content.contains("\"users\": ["));
    assert!(!content.contains("<tool_output"));
    assert!(!content.contains("1\t{"));
    assert!(engine.file(&file_id(&framed)).is_some());
}

#[test]
fn oversized_tool_output_externalized_without_summarizer() {
    let mut ctx = ContextConfig::default();
    ctx.tool_output_tokens = 10;
    let mut engine = LcmEngine::new(ctx, None);
    let mut payload = String::new();
    for i in 0..100 {
        payload.push_str(&format!("log line {i}\n"));
    }
    let msg = Message::Tool { call_id: "c1".into(), content: payload.clone() };
    assert_eq!(
        intercept_large(&msg, &ctx),
        Interception::Externalize(SummaryStrategy::Mechanical)
    );
    assert!(matches!(
        summarize_payload(&payload, None, SummaryStrategy::Mechanical, 400),
        ExplorationStep::Done(_)
    ));
    push(&mut engine, msg);

    let content = stored_content(&engine, 0);
    assert!(content.starts_with("<file id=\"file_"));
    assert!(content.contains("log line 0"));
    assert!(content.contains("log line 99"));
    assert!(content.contains("bytes omitted]"));
    assert!(!content.contains("log line 50\n"));

    // The excerpt is the stored exploration summary.
    let row = &engine.file(&file_id(&payload)).unwrap().row;
    assert!(row.exploration_summary.contains("bytes omitted]"));
}

#[test]
fn tool_threshold_is_lower_than_user_threshold() {
    // 1000 tokens of content: over tool_output_tokens (10), well under
    // large_file_threshold (default 25k).
    let mut ctx = ContextConfig::default();
    ctx.tool_output_tokens = 10;
    let mut engine = LcmEngine::new(ctx, None);
    let payload = "w".repeat(4000);
    push(&mut engine, Message::Tool { call_id: "c1".into(), content: payload.clone() });
    push(&mut engine, user(&payload));
    assert!(stored_content(&engine, 0).starts_with("<file id=\"file_"));
    assert_eq!(stored_content(&engine, 1), payload);
}

#[test]
fn oversized_assistant_message_not_intercepted() {
    let mut engine = temp_engine_small_threshold();
    let payload = "a".repeat(100);
    push(&mut engine, Message::Assistant { content: payload.clone() });
    assert_eq!(stored_content(&engine, 0), payload);
}

#[test]
fn a_payload_is_filed_once() {
    let mut engine = temp_engine_small_threshold();
    let payload = "z".repeat(400);
    push(&mut engine, user(&payload));
    push(&mut engine, user(&payload));
    assert_eq!(engine.file_count(), 1);
    assert_eq!(engine.file(&file_id(&payload)).unwrap().first_seen_message_id, Some(1));
}

#[test]
fn an_unanswered_exploration_falls_back() {
    let mut engine = temp_engine_small_threshold();
    push_with(&mut engine, user(&"duck ".repeat(20)), None);
    assert!(stored_content(&engine, 0).contains("Text exploration summary"));
}

// ── messages ────────────────────────────────────────────────────────

#[test]
fn engine_push_message_persists_row_and_context_item() {
    let mut engine = temp_engine();
    push(&mut engine, user("hello"));
    assert_eq!(engine.current().message_count(), 1);
    assert_eq!(engine.current().item_count(), 1);
}

#[test]
fn engine_push_message_sequences_within_conversation() {
    let mut engine = temp_engine();
    for i in 0..3 {
        push(&mut engine, user(&format!("msg {i}")));
    }
    let seqs: Vec<i64> = (0..3).map(|i| engine.current().message(i).seq).collect();
    assert_eq!(seqs, vec![0, 1, 2]);
}

fn two_calls() -> Message {
    Message::ToolCalls {
        content: "thinking".into(),
        calls: vec![
            ToolCall::new(
                "c1".into(),
                ToolFunction { name: "exec".into(), arguments: r#"{"cmd":"ls"}"#.into() },
            ),
            ToolCall::new(
                "c2".into(),
                ToolFunction { name: "read".into(), arguments: r#"{"path":"a"}"#.into() },
            ),
        ],
    }
}

#[test]
fn engine_push_tool_calls_decomposes_parts() {
    let mut engine = temp_engine();
    push(&mut engine, two_calls());
    let parts = &engine.current().message(0).parts;
    assert_eq!(parts.len(), 3);
    assert!(matches!(&parts[0], Part::Text { content } if content == "thinking"));
    assert!(matches!(&parts[1], Part::ToolCall { name, .. } if name == "exec"));
    assert!(matches!(&parts[2], Part::ToolCall { name, .. } if name == "read"));
}

#[test]
fn engine_push_tool_result_records_call_id() {
    let mut engine = temp_engine();
    push(&mut engine, Message::Tool { call_id: "c1".into(), content: "result".into() });
    let parts = &engine.current().message(0).parts;
    assert_eq!(parts.len(), 1);
    assert!(matches!(
        &parts[0],
        Part::ToolOutput { content, call_id } if content == "result" && call_id == "c1"
    ));
}

#[test]
fn part_ids_tell_message_and_place() {
    assert_eq!(decompose(&two_calls()).len(), 3);
    assert_ne!(part_id(7, 0), part_id(7, 1));
    assert_ne!(part_id(7, 0), part_id(8, 0));
    assert_eq!(part_id(7, 1), part_id(7, 1));
}

#[test]
fn engine_stats_reflects_context_items() {
    let mut engine = temp_engine();
    let initial = engine.stats();
    assert_eq!(initial.message_count, 0);
    assert_eq!(initial.token_estimate, 0);

    push(&mut engine, user(&"a".repeat(40)));
    let after = engine.stats();
    assert_eq!(after.message_count, 1);
    assert_eq!(after.token_estimate, 10); // 40 chars / 4
}

#[test]
fn engine_clear_drops_context_items_but_keeps_messages() {
    let mut engine = temp_engine();
    push(&mut engine, user("kept"));
    engine.clear();
    // Active context is empty.
    assert_eq!(engine.stats().message_count, 0);
    // But the raw store still has the row.
    assert_eq!(engine.current().message_count(), 1);
}

// ── sessions ────────────────────────────────────────────────────────

#[test]
fn engine_switch_session_creates_and_isolates() {
    let mut engine = temp_engine();
    push(&mut engine, user("in general"));

    engine.switch_session("project-a");
    assert_eq!(engine.active_session(), "project-a");
    assert_eq!(engine.stats().message_count, 0);
    push(&mut engine, user("in project-a"));

    engine.switch_session("general");
    assert_eq!(engine.stats().message_count, 1);
}

#[test]
fn engine_switch_session_idempotent() {
    let mut engine = temp_engine();
    push(&mut engine, user("x"));
    engine.switch_session("general");
    assert_eq!(engine.stats().message_count, 1);
}

#[test]
fn engine_switch_session_persists_active_name() {
    let mut engine = temp_engine();
    engine.switch_session("kitaebot");
    let kept = format!("{}\n", engine.active_session());
    let engine = LcmEngine::new(ContextConfig::default(), Some(&kept));
    assert_eq!(engine.active_session(), "kitaebot");
    assert_eq!(read_active_session(Some(" \n")), None);
    assert_eq!(LcmEngine::new(ContextConfig::default(), Some("")).active_session(), "general");
}

#[test]
fn engine_list_sessions_enumerates_all_conversations() {
    let mut engine = temp_engine();
    push(&mut engine, user("g"));
    engine.switch_session("beta");
    push(&mut engine, user("b1"));
    push(&mut engine, user("b2"));

    let sessions = engine.list_sessions();
    let names: Vec<&str> = sessions.iter().map(|s| s.name.as_str()).collect();
    assert!(names.contains(&"general"));
    assert!(names.contains(&"beta"));
    let beta = sessions.iter().find(|s| s.name == "beta").unwrap();
    assert_eq!(beta.message_count, 2);
}

#[test]
fn engine_slashed_session_name_sanitized_to_double_dash() {
    let mut engine = temp_engine();
    engine.switch_session("owner/repo");
    assert_eq!(engine.active_session(), "owner--repo");
    // The list view reverses sanitization for display.
    assert!(engine.list_sessions().iter().any(|s| s.name == "owner/repo"));
}

// ── distillation ────────────────────────────────────────────────────

fn marks(rows: &[(&str, u64)]) -> Table<u64> {
    let mut t = Table::new();
    for (name, mark) in rows {
        t.insert(name, *mark);
    }
    t
}

fn span(engine: &LcmEngine, session: &str, after: u64, max: u64) -> Vec<Message> {
    match engine.transcript_since(session, after, max) {
        Ok(messages) => messages,
        Err(_) => panic!("the stored rows can be read"),
    }
}

#[test]
fn engine_latest_positions_reports_session_tips() {
    let mut engine = temp_engine();
    assert_eq!(engine.latest_positions().len(), 0);
    push(&mut engine, user("one"));
    push(&mut engine, user("two"));

    let tips = engine.latest_positions();
    let tip = *tips.get("general").expect("session has a tip");
    // The tip is exactly where a full transcript would advance to:
    // nothing pending beyond it.
    let pending = engine.pending_distill_tokens(&marks(&[("general", tip)]));
    assert!(pending.get("general").is_none());
}

#[test]
fn engine_pending_distill_tokens_sums_undistilled_per_session() {
    let mut engine = temp_engine();
    push(&mut engine, user(&"g".repeat(40)));
    engine.switch_session("beta");
    push(&mut engine, user(&"b".repeat(40)));

    // Empty watermarks: every session counts from the start.
    let all = engine.pending_distill_tokens(&Table::new());
    assert!(all.get("general").copied().unwrap_or(0) > 0);
    assert!(all.get("beta").copied().unwrap_or(0) > 0);

    // A watermark at the tip omits a caught-up session.
    let pending = engine.pending_distill_tokens(&marks(&[("beta", 1)]));
    assert!(pending.get("beta").is_none());
    assert!(pending.get("general").is_some());
}

#[test]
fn engine_transcript_since_returns_span_after_watermark() {
    let mut engine = temp_engine();
    for i in 0..3 {
        push(&mut engine, user(&format!("m{i}")));
    }
    let found = span(&engine, "general", 1, u64::MAX);
    assert_eq!(found.len(), 2);
    assert!(matches!(&found[0], Message::User { content } if content == "m1"));
    assert!(matches!(&found[1], Message::User { content } if content == "m2"));
    // At the tip, nothing pending.
    assert!(span(&engine, "general", 3, u64::MAX).is_empty());
    // Unknown session yields an empty span.
    assert!(span(&engine, "nope", 0, u64::MAX).is_empty());
}

#[test]
fn engine_transcript_since_clamps_but_makes_progress() {
    let mut engine = temp_engine();
    for i in 0..3 {
        push(&mut engine, user(&format!("message number {i}")));
    }
    // A zero budget still yields the head so the watermark can advance.
    assert_eq!(span(&engine, "general", 0, 0).len(), 1);
}

#[test]
fn transcript_since_clamp_cuts_mid_tail() {
    let mut engine = temp_engine();
    // 5 messages of 400 chars = 100 tokens each.
    for i in 0..5 {
        push(&mut engine, user(&format!("{i} ").repeat(200)));
    }
    // Budget 250: keeps m0..m1 (m2 would reach 300), cuts at m2.
    let found = span(&engine, "general", 0, 250);
    assert_eq!(found.len(), 2);
    for (i, msg) in found.iter().enumerate() {
        assert!(
            matches!(msg, Message::User { content } if content.starts_with(&format!("{i} "))),
            "expected message {i}"
        );
    }
    // Resuming after the clamp returns the next slice, not all the
    // rest: the budget applies per fetch.
    assert_eq!(span(&engine, "general", 2, 250).len(), 2);
    // Exact boundary: a budget the first two rows sum to exactly keeps
    // both.
    assert_eq!(span(&engine, "general", 0, 200).len(), 2);
}

#[test]
fn transcript_since_zero_budget_returns_oversized_head() {
    let mut engine = temp_engine();
    push(&mut engine, user(&"huge".repeat(1000)));
    push(&mut engine, user("tail"));
    // The head alone exceeds any budget; progress demands it anyway.
    let found = span(&engine, "general", 0, 0);
    assert_eq!(found.len(), 1);
    assert!(matches!(&found[0], Message::User { content } if content.starts_with("huge")));
}

// ── assembly ────────────────────────────────────────────────────────

#[test]
fn engine_assemble_prepends_system_and_preserves_order() {
    let mut engine = temp_engine();
    push(&mut engine, user("u1"));
    push(&mut engine, Message::Assistant { content: "a1".into() });
    push(&mut engine, user("u2"));

    let ctx = assembled(&engine);
    assert_eq!(ctx.messages.len(), 4);
    assert_eq!(system(&ctx, 0), "SYS");
    assert!(matches!(&ctx.messages[1], Message::User { content } if content == "u1"));
    assert!(matches!(&ctx.messages[2], Message::Assistant { content } if content == "a1"));
    assert!(matches!(&ctx.messages[3], Message::User { content } if content == "u2"));
}

#[test]
fn engine_assemble_roundtrips_tool_call_messages() {
    let mut engine = temp_engine();
    push(&mut engine, two_calls());
    push(&mut engine, Message::Tool { call_id: "c1".into(), content: "ls output".into() });

    let ctx = assembled(&engine);
    match &ctx.messages[1] {
        Message::ToolCalls { content, calls: round } => {
            assert_eq!(content, "thinking");
            assert_eq!(round.len(), 2);
            assert_eq!(round[0].id, "c1");
            assert_eq!(round[0].function.name, "exec");
            assert_eq!(round[0].function.arguments, r#"{"cmd":"ls"}"#);
            assert_eq!(round[1].id, "c2");
            assert_eq!(round[1].function.name, "read");
        }
        _ => panic!("expected tool calls"),
    }
    match &ctx.messages[2] {
        Message::Tool { call_id, content } => {
            assert_eq!(call_id, "c1");
            assert_eq!(content, "ls output");
        }
        _ => panic!("expected tool"),
    }
}

#[test]
fn engine_assemble_after_clear_only_has_system() {
    let mut engine = temp_engine();
    push(&mut engine, user("kept"));
    engine.clear();
    let ctx = assembled(&engine);
    assert_eq!(ctx.messages.len(), 1);
    assert!(matches!(&ctx.messages[0], Message::System { .. }));
}

#[test]
fn engine_assemble_isolates_per_session() {
    let mut engine = temp_engine();
    push(&mut engine, user("in general"));
    engine.switch_session("other");
    push(&mut engine, user("in other"));
    let ctx = assembled(&engine);
    assert_eq!(ctx.messages.len(), 2);
    assert!(matches!(&ctx.messages[1], Message::User { content } if content == "in other"));
}

// ── compaction ──────────────────────────────────────────────────────

#[test]
fn thresholds_are_shares_of_the_window() {
    let mut ctx = ContextConfig::default();
    ctx.max_tokens = 1000;
    assert_eq!(soft_threshold(&ctx), 700);
    assert_eq!(hard_threshold(&ctx), 900);
}

fn fill(engine: &mut LcmEngine, count: usize, filler: &str) {
    for i in 0..count {
        push(engine, user(&format!("m{i} {filler}")));
    }
}

#[test]
fn compact_if_urgent_no_op_below_soft_threshold() {
    let mut engine = temp_engine_with_max_tokens(1000);
    for i in 0..5 {
        push(&mut engine, user(&format!("m{i}")));
    }
    assert!(compact_if_urgent(&mut engine, "s").is_none());
}

#[test]
fn compact_if_urgent_blocks_above_hard_threshold() {
    // hard=900. 35 messages × ~51 tokens = ~1785, above hard.
    let mut engine = temp_engine_with_max_tokens(1000);
    fill(&mut engine, 35, &"x".repeat(200));
    let event = compact_if_urgent(&mut engine, SUMMARY)
        .expect("hard threshold must produce an event");
    assert!(event.before > 0);
    assert!(event.after <= event.before);
    assert!(engine.current().summary_count() >= 1);
}

#[test]
fn soft_band_waits_for_the_turn_boundary() {
    // soft=700, hard=900. 35 messages × ~21 tokens = ~735, between.
    let mut engine = temp_engine_with_max_tokens(1000);
    fill(&mut engine, 35, &"x".repeat(80));
    let mid_turn = compact_if_urgent(&mut engine, SUMMARY);
    assert!(mid_turn.is_none(), "soft band must not compact mid-turn");

    let event = compact_between_turns(&mut engine, SUMMARY)
        .expect("between-turns pass must take the soft band");
    assert!(event.before > 0);
    assert!(event.after <= event.before);

    // Once shrunk below soft, the boundary pass is a no-op too.
    assert!(compact_between_turns(&mut engine, SUMMARY).is_none());
}

#[test]
fn observed_tokens_trigger_blocking_compaction() {
    // 35 messages × ~11 estimated tokens ≈ 385, below soft — only the
    // observation can trigger anything.
    let mut engine = temp_engine_with_max_tokens(1000);
    fill(&mut engine, 35, &"x".repeat(40));
    assert!(compact_if_urgent(&mut engine, SUMMARY).is_none());

    engine.observe_tokens(950);
    let event = compact_if_urgent(&mut engine, SUMMARY)
        .expect("observation above hard threshold must block");
    assert!(event.before > 0);

    // Cleared: the next check must not see the stale 950.
    assert!(compact_if_urgent(&mut engine, SUMMARY).is_none());
}

#[test]
fn observed_tokens_reach_the_between_turns_pass() {
    let mut engine = temp_engine_with_max_tokens(1000);
    fill(&mut engine, 35, &"x".repeat(40));
    engine.observe_tokens(800);
    assert!(
        compact_if_urgent(&mut engine, SUMMARY).is_none(),
        "800 observed is below hard; urgent must not fire"
    );
    let event = compact_between_turns(&mut engine, SUMMARY)
        .expect("800 observed is above soft; boundary pass must fire");
    assert!(event.after <= event.before);
    assert!(engine.stats().token_estimate < 800);
}

#[test]
fn engine_observation_cleared_on_clear_and_switch() {
    let mut engine = temp_engine();
    engine.observe_tokens(500);
    assert_eq!(engine.stats().token_estimate, 500);
    engine.clear();
    assert_eq!(engine.stats().token_estimate, 0);

    engine.observe_tokens(500);
    engine.switch_session("other");
    assert_eq!(engine.stats().token_estimate, 0);
}

#[test]
fn force_compact_no_op_when_below_protected_tail() {
    let mut engine = temp_engine();
    for i in 0..5 {
        push(&mut engine, user(&format!("m{i}")));
    }
    let event = compact(&mut engine, "s");
    assert_eq!(event.before, event.after);
    assert_eq!(engine.current().summary_count(), 0);
}

#[test]
fn force_compact_creates_leaf_summary_for_eligible_messages() {
    let mut engine = temp_engine();
    // 32 protected + 3 eligible = 35 messages, one chunk.
    fill(&mut engine, 35, &"x".repeat(200));
    let event = compact(&mut engine, "compact");
    assert!(event.before > 0);

    let c = engine.current();
    assert_eq!(c.summary_count(), 1);
    assert_eq!(c.summary(0).source_messages.len(), 3); // three eligible messages
    // Active context now has 1 summary + 32 protected messages.
    assert_eq!(item_counts(&engine), (32, 1));
    // Raw messages are still in the store.
    assert_eq!(c.message_count(), 35);
}

#[test]
fn assemble_after_compaction_includes_summary_and_recall_guidance() {
    let mut engine = temp_engine();
    fill(&mut engine, 35, &"x".repeat(200));
    compact(&mut engine, "compact");

    let ctx = assembled(&engine);
    // System(prompt + recall) + 1 summary system message + 32 protected users.
    assert_eq!(ctx.messages.len(), 1 + 1 + 32);
    let content = system(&ctx, 0);
    assert!(content.starts_with("SYS"));
    assert!(content.contains("Compacted History"));
    assert!(content.contains("lcm_grep"));
    let content = system(&ctx, 1);
    assert!(content.starts_with("<summary id=\"sum_"));
    assert!(content.contains("kind=\"leaf\""));
    assert!(content.contains("depth=\"0\""));
    assert!(content.contains("compact"));
    assert!(content.ends_with("</summary>"));
}

/// A message with one `file_write` call for `path`, padded so that chunks
/// have real weight.
fn write_call_message(i: usize, path: &str) -> Message {
    Message::ToolCalls {
        content: format!("writing {i} {}", "x".repeat(120)),
        calls: vec![ToolCall::new(
            format!("c{i}"),
            ToolFunction {
                name: "file_write".into(),
                arguments: format!(r#"{{"path":"{path}","content":"data"}}"#),
            },
        )],
    }
}

#[test]
fn assemble_lists_written_files_after_compaction() {
    let mut engine = temp_engine();
    push(&mut engine, user("do the task"));
    // 36 write calls after the pin; the oldest 4 leave the tail.
    // old.rs is written first and again later: it must appear once,
    // after new.rs (newest first).
    for i in 0..36 {
        let path = match i {
            0..=17 | 30 => "old.rs",
            _ => "new.rs",
        };
        push(&mut engine, write_call_message(i, path));
    }
    compact(&mut engine, SUMMARY);

    let ctx = assembled(&engine);
    let content = system(&ctx, 0);
    assert!(content.contains("## Files Written For This Request"), "{content}");
    let new_at = content.find("new.rs").expect("new.rs listed");
    let old_at = content.find("old.rs").expect("old.rs listed");
    assert!(new_at < old_at, "newest first: {content}");
    assert_eq!(content.matches("old.rs").count(), 1, "deduped: {content}");
}

#[test]
fn written_files_omitted_while_calls_are_still_raw() {
    let mut engine = temp_engine();
    push(&mut engine, user("do the task"));
    push(&mut engine, write_call_message(0, "a.rs"));
    let ctx = assembled(&engine);
    assert!(!system(&ctx, 0).contains("Files Written"));
}

#[test]
fn assemble_without_compaction_omits_recall_guidance() {
    let mut engine = temp_engine();
    push(&mut engine, user("u"));
    let ctx = assembled(&engine);
    assert_eq!(system(&ctx, 0), "SYS");
}

#[test]
fn force_compact_runs_condensed_pass_when_multiple_leaves() {
    let mut engine = temp_engine();
    // Each message carries ~1000 tokens (4000 chars / 4). 25 eligible
    // messages exceed leaf_chunk_tokens = 20_000, forcing two leaf
    // chunks. The two resulting depth-0 summaries form a run with
    // fanout 2 so the condensed pass kicks in.
    fill(&mut engine, 32 + 25, &"x".repeat(4000));
    compact(&mut engine, "c");

    let c = engine.current();
    let all: Vec<_> = (0..c.summary_count()).map(|i| c.summary(i)).collect();
    assert_eq!(all.iter().filter(|s| s.kind == "leaf").count(), 2);
    let condensed: Vec<_> = all.iter().filter(|s| s.kind == "condensed").collect();
    assert_eq!(condensed.len(), 1);
    assert_eq!(condensed[0].depth, 1);
    assert_eq!(condensed[0].children.len(), 2);
    // The condensed summary aggregates descendants from both leaves.
    assert_eq!(condensed[0].descendant_count, 25, "should sum the 25 source messages");
    assert!(condensed[0].source_message_token_count > 0);
    // Active context: the condensed summary + 32 protected messages.
    assert_eq!(item_counts(&engine), (32, 1));
}

#[test]
fn condensed_pass_skips_singleton_runs() {
    // 32 protected + 3 eligible -> 1 leaf chunk -> 1 leaf summary. The
    // condensed pass sees a single depth-0 item, which fails the
    // fanout >= 2 check.
    let mut engine = temp_engine();
    fill(&mut engine, 35, &"x".repeat(200));
    compact(&mut engine, "c");
    let c = engine.current();
    assert!((0..c.summary_count()).all(|i| c.summary(i).kind != "condensed"));
}

#[test]
fn a_leaf_pass_keeps_the_summaries_between_messages() {
    let mut ctx = ContextConfig::default();
    ctx.lcm.fresh_tail_count = 1;
    ctx.lcm.min_condensed_fanout = 9;
    let mut engine = LcmEngine::new(ctx, None);
    let text = "x".repeat(200);
    for msg in [assistant(&text), user(&text), assistant(&text), assistant(&text)] {
        push(&mut engine, msg);
    }
    // The user's message stays between two summaries.
    compact(&mut engine, "c");
    assert_eq!(item_counts(&engine), (2, 2));
    // It is collapsed on its own once a newer one is there.
    push(&mut engine, user(&text));
    compact(&mut engine, "d");
    assert_eq!(engine.current().summary_count(), 4);
    assert_eq!(item_counts(&engine), (1, 4));
}

#[test]
fn a_summary_stored_twice_changes_nothing() {
    let mut engine = temp_engine();
    fill(&mut engine, 35, &"x".repeat(200));
    let chunks = match engine.leaf_chunks() {
        Ok(chunks) => chunks,
        Err(_) => panic!("the stored rows can be read"),
    };
    let outcome = summarized(chunks[0].messages(), "compact");
    assert!(engine.store_leaf(&chunks[0], &outcome, NOW));
    let items = engine.current().item_count();
    assert!(!engine.store_leaf(&chunks[0], &outcome, NOW));
    assert_eq!(engine.current().item_count(), items);
    assert_eq!(engine.current().summary_count(), 1);
}

#[test]
fn summarized_messages_are_listed_as_sources() {
    let mut engine = temp_engine();
    fill(&mut engine, 35, &"x".repeat(200));
    compact(&mut engine, "compact");
    let c = engine.current();
    for id in &c.summary(0).source_messages {
        assert!(c.has_message(*id));
    }
}

// ── health ──────────────────────────────────────────────────────────

#[test]
fn report_covers_raw_history_and_health() {
    let mut ctx = ContextConfig::default();
    // 10-token threshold so a small payload externalizes.
    ctx.lcm.large_file_threshold = 10;
    let mut engine = LcmEngine::new(ctx, None);
    push(
        &mut engine,
        Message::ToolCalls {
            content: String::new(),
            calls: vec![ToolCall::new(
                "c1".into(),
                ToolFunction {
                    name: "exec".into(),
                    arguments: r#"{"command":"git status"}"#.into(),
                },
            )],
        },
    );
    push(&mut engine, Message::Tool { call_id: "c1".into(), content: "clean".into() });
    // Over-threshold user payload -> a stored payload.
    push(&mut engine, user(&"x".repeat(200)));

    let report = health_section(&engine, "1.0 KiB");
    assert!(report.contains("LCM Health"), "{report}");
    assert!(report.contains("Summaries: none"), "{report}");
    assert!(report.contains("Large files: 1"), "{report}");
    assert!(report.contains("general"), "{report}");
}

#[test]
fn estimates_are_quarter_bytes() {
    assert_eq!(estimate_tokens("abcdefg"), 1);
    assert_eq!(estimate_tokens("€€€€"), 3);
}

#[test]
fn reading_on_from_the_mark_gives_every_message_once() {
    let mut engine = temp_engine();
    let texts: Vec<String> = (0..7).map(|i| format!("{i} ").repeat(50 * (i + 1))).collect();
    for (i, text) in texts.iter().enumerate() {
        push(&mut engine, user(text));
        if i == 3 {
            // Clearing the context does not change the places of messages.
            engine.clear();
        }
    }
    let tip = *engine.latest_positions().get("general").expect("session has a tip");
    let mut mark = 0;
    let mut read = Vec::new();
    while mark < tip {
        let found = span(&engine, "general", mark, 100);
        assert!(!found.is_empty());
        mark += found.len() as u64;
        read.extend(found.iter().map(|m| m.content().to_string()));
    }
    assert_eq!(mark, 7);
    assert_eq!(read, texts);
    assert!(span(&engine, "general", tip, u64::MAX).is_empty());
}

#[test]
fn the_store_only_grows() {
    let mut engine = temp_engine();
    for i in 0..40 {
        push(&mut engine, user(&format!("message {i} ").repeat(400)));
    }
    let stored: Vec<String> =
        (0..40).map(|i| engine.current().message(i).content.clone()).collect();
    compact(&mut engine, "short");
    let summaries = engine.current().summary_count();
    assert!(summaries > 0);
    engine.clear();
    push(&mut engine, user("after"));
    assert_eq!(engine.current().summary_count(), summaries);
    assert_eq!(engine.current().message_count(), 41);
    assert_eq!(engine.current().item_count(), 1);
    for (i, text) in stored.iter().enumerate() {
        assert_eq!(&engine.current().message(i).content, text);
        assert_eq!(engine.current().message(i).seq, i as i64);
    }
}
