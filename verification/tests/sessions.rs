use kitaebot::config::ContextConfig;
use kitaebot::context::ephemeral::EphemeralSession;
use kitaebot::context::flat::{session_file, FlatSession, SavedSession};
use kitaebot::engine;
use kitaebot::session::Session;
use kitaebot::table::Table;
use kitaebot::types::{Message, ToolCall, ToolFunction};

fn user(content: &str) -> Message {
    Message::User { content: content.to_string() }
}

fn assistant(content: &str) -> Message {
    Message::Assistant { content: content.to_string() }
}

fn tiny_config() -> ContextConfig {
    let mut ctx = ContextConfig::default();
    ctx.max_tokens = 100;
    ctx.budget_percent = 50;
    ctx
}

fn capped_config() -> ContextConfig {
    let mut ctx = ContextConfig::default();
    ctx.tool_output_tokens = 100;
    ctx
}

fn temp_engine(ctx: ContextConfig) -> FlatSession {
    FlatSession::new(ctx, None, Session::new())
}

fn first_engine(ctx: ContextConfig) -> engine::flat::FlatSession {
    engine::flat::FlatSession::new(ctx, None, Session::new())
}

/// A store of sessions, by the names of their files.
struct Disk {
    files: Vec<(String, Session)>,
}

impl Disk {
    fn new() -> Self {
        Disk { files: Vec::new() }
    }

    fn save(&mut self, stem: &str, session: &Session) {
        self.files.retain(|(s, _)| s != stem);
        self.files.push((stem.to_string(), session.copy()));
    }

    fn load(&self, stem: &str) -> Session {
        self.files
            .iter()
            .find(|(s, _)| s == stem)
            .map_or_else(Session::new, |(_, session)| session.copy())
    }

    fn saved(&self) -> Vec<SavedSession> {
        self.files
            .iter()
            .map(|(stem, session)| SavedSession {
                stem: stem.clone(),
                session: Some(session.copy()),
            })
            .collect()
    }
}

/// Switches, saving the session that is left.
fn switch(engine: &mut FlatSession, disk: &mut Disk, name: &str) {
    if let Some(target) = engine.switch_target(name) {
        let old = engine.active_session().to_string();
        if let Some(left) = engine.switch_session(name, disk.load(&target)) {
            disk.save(&old, &left);
        }
    }
}

fn save(engine: &FlatSession, disk: &mut Disk) {
    disk.save(engine.active_session(), engine.session());
}

// ── Basic operations ────────────────────────────────────────────────

#[test]
fn oversized_tool_output_is_truncated_tail_biased() {
    let mut engine = temp_engine(capped_config());
    let payload = format!("HEAD{}TAIL", "x".repeat(10_000));
    engine.push_message(Message::Tool { call_id: "c1".to_string(), content: payload });
    let stored = engine.session().messages()[0].content();
    assert!(stored.starts_with("HEAD"));
    assert!(stored.ends_with("TAIL"));
    assert!(stored.contains("tokens truncated"));
    assert!(stored.len() < 500);
}

#[test]
fn oversized_user_message_is_not_truncated() {
    let mut engine = temp_engine(capped_config());
    let payload = "u".repeat(10_000);
    engine.push_message(user(&payload));
    assert_eq!(engine.session().messages()[0].content(), payload);
}

#[test]
fn flat_push_and_assemble_roundtrip() {
    let mut engine = temp_engine(ContextConfig::default());
    engine.push_message(user("hello"));
    let mut first = first_engine(ContextConfig::default());
    first.push_message(user("hello"));
    for ctx in [engine.assemble("system prompt"), first.assemble("system prompt")] {
        assert_eq!(ctx.messages.len(), 2);
        assert!(
            matches!(&ctx.messages[0], Message::System { content } if content == "system prompt")
        );
        assert!(matches!(&ctx.messages[1], Message::User { content } if content == "hello"));
    }
}

#[test]
fn flat_no_compaction_under_budget() {
    let mut engine = temp_engine(ContextConfig::default());
    engine.push_message(user("short"));
    assert!(!engine.compact_if_needed());
    let mut first = first_engine(ContextConfig::default());
    first.push_message(user("short"));
    assert!(!first.compact_if_needed());
}

#[test]
fn flat_no_compaction_fewer_than_two_messages() {
    let mut engine = temp_engine(tiny_config());
    engine.push_message(user(&"x".repeat(10000)));
    assert!(!engine.compact_if_needed());
    let mut first = first_engine(tiny_config());
    first.push_message(user(&"x".repeat(10000)));
    assert!(!first.compact_if_needed());
}

#[test]
fn flat_compaction_triggers_over_budget() {
    let mut engine = temp_engine(tiny_config());
    engine.push_message(user(&"a".repeat(200)));
    engine.push_message(assistant(&"b".repeat(200)));
    assert!(engine.compact_if_needed());
    let event = engine.compact("Summary of conversation".to_string());
    assert!(event.before > event.after);
    assert_eq!(engine.stats().message_count, 1);

    let mut first = first_engine(tiny_config());
    first.push_message(user(&"a".repeat(200)));
    first.push_message(assistant(&"b".repeat(200)));
    assert!(first.compact_if_needed());
    let event = first.force_compact("Summary of conversation".to_string());
    assert!(event.before > event.after);
    assert_eq!(first.stats().message_count, 1);
}

// ── Observed token tests ────────────────────────────────────────────

#[test]
fn observed_tokens_trigger_compaction_when_estimate_is_low() {
    // Budget is 50; two tiny messages estimate near zero.
    let mut engine = temp_engine(tiny_config());
    engine.push_message(user("a"));
    engine.push_message(assistant("b"));
    assert!(!engine.compact_if_needed());

    engine.observe_tokens(100);
    assert!(engine.compact_if_needed());
    let event = engine.compact("summary".to_string());
    assert_eq!(event.before, 100);
    assert_eq!(engine.stats().message_count, 1);
}

#[test]
fn observation_cleared_after_compaction() {
    let mut engine = temp_engine(tiny_config());
    engine.push_message(user("a"));
    engine.push_message(assistant("b"));
    engine.observe_tokens(100);
    assert!(engine.compact_if_needed());
    engine.compact("summary".to_string());
    // A stale observation would re-trigger here forever.
    engine.push_message(user("c"));
    assert!(!engine.compact_if_needed());
}

#[test]
fn stats_report_observed_tokens_when_larger() {
    let mut engine = temp_engine(tiny_config());
    engine.observe_tokens(100);
    assert_eq!(engine.stats().token_estimate, 100);
}

#[test]
fn flat_observation_cleared_on_clear_and_switch() {
    let mut engine = temp_engine(tiny_config());
    engine.observe_tokens(100);
    engine.clear();
    assert_eq!(engine.stats().token_estimate, 0);

    engine.observe_tokens(100);
    switch(&mut engine, &mut Disk::new(), "other");
    assert_eq!(engine.stats().token_estimate, 0);
}

#[test]
fn flat_force_compact_runs_unconditionally() {
    let mut engine = temp_engine(ContextConfig::default());
    engine.push_message(user(&"a".repeat(100)));
    engine.push_message(user(&"b".repeat(100)));
    let event = engine.force_compact("forced".to_string());
    assert_eq!(engine.stats().message_count, 1);
    assert!(event.before > event.after);
}

#[test]
fn flat_force_compact_empty_session() {
    let mut engine = temp_engine(ContextConfig::default());
    let event = engine.force_compact("unused".to_string());
    assert_eq!(event.before, 0);
    assert_eq!(event.after, 0);
    let event = first_engine(ContextConfig::default()).force_compact("unused".to_string());
    assert_eq!((event.before, event.after), (0, 0));
}

#[test]
fn flat_clear_resets_session() {
    let mut engine = temp_engine(ContextConfig::default());
    engine.push_message(user("msg"));
    engine.clear();
    assert_eq!(engine.stats().message_count, 0);
}

#[test]
fn flat_save_and_reload() {
    let mut disk = Disk::new();
    let mut engine = temp_engine(ContextConfig::default());
    engine.push_message(user("persisted"));
    save(&engine, &mut disk);
    let engine = FlatSession::new(ContextConfig::default(), None, disk.load("general"));
    assert_eq!(engine.stats().message_count, 1);
}

#[test]
fn flat_stats_reflects_state() {
    let stats = temp_engine(tiny_config()).stats();
    assert_eq!(stats.message_count, 0);
    assert_eq!(stats.token_estimate, 0);
    assert_eq!(stats.budget, 50); // 100 * 50 / 100
    let stats = first_engine(tiny_config()).stats();
    assert_eq!((stats.message_count, stats.token_estimate, stats.budget), (0, 0, 50));
}

#[test]
fn flat_active_session_defaults_to_general() {
    assert_eq!(temp_engine(ContextConfig::default()).active_session(), "general");
    assert_eq!(first_engine(ContextConfig::default()).active_session(), "general");
}

// ── Multi-session tests ─────────────────────────────────────────────

#[test]
fn flat_switch_session_roundtrip() {
    let mut disk = Disk::new();
    let mut engine = temp_engine(ContextConfig::default());
    engine.push_message(user("in general"));
    save(&engine, &mut disk);

    switch(&mut engine, &mut disk, "project-a");
    assert_eq!(engine.active_session(), "project-a");
    assert_eq!(engine.stats().message_count, 0);
    engine.push_message(user("in project-a"));
    save(&engine, &mut disk);

    switch(&mut engine, &mut disk, "general");
    assert_eq!(engine.active_session(), "general");
    assert_eq!(engine.stats().message_count, 1);
}

#[test]
fn flat_switch_session_is_idempotent() {
    let mut engine = temp_engine(ContextConfig::default());
    engine.push_message(user("msg"));
    // Switching to the already-active session should be a no-op.
    assert_eq!(engine.switch_target("general"), None);
    assert!(engine.switch_session("general", Session::new()).is_none());
    assert_eq!(engine.stats().message_count, 1);
    let mut first = first_engine(ContextConfig::default());
    first.push_message(user("msg"));
    assert!(first.switch_session("general", Session::new()).is_none());
    assert_eq!(first.stats().message_count, 1);
}

#[test]
fn flat_sessions_are_isolated() {
    let mut disk = Disk::new();
    let mut engine = temp_engine(ContextConfig::default());
    engine.push_message(user("general msg"));
    save(&engine, &mut disk);
    switch(&mut engine, &mut disk, "other");
    engine.push_message(user("other msg"));
    save(&engine, &mut disk);

    // Each session has exactly one message.
    assert_eq!(engine.stats().message_count, 1);
    switch(&mut engine, &mut disk, "general");
    assert_eq!(engine.stats().message_count, 1);
    // And the content is correct.
    let ctx = engine.assemble("sys");
    assert!(matches!(&ctx.messages[1], Message::User { content } if content == "general msg"));
}

#[test]
fn flat_active_session_persists_across_recreation() {
    let mut engine = temp_engine(ContextConfig::default());
    switch(&mut engine, &mut Disk::new(), "my-project");
    let kept = engine.active_session().to_string();
    let engine = FlatSession::new(ContextConfig::default(), Some(&kept), Session::new());
    assert_eq!(engine.active_session(), "my-project");
}

#[test]
fn report_counts_a_repo_session_once() {
    let mut disk = Disk::new();
    let mut engine = temp_engine(ContextConfig::default());
    switch(&mut engine, &mut disk, "owner/repo");
    engine.push_message(user("only once"));
    save(&engine, &mut disk);
    // One entry per session file, however many that is.
    let sessions = engine.report_sessions(&disk.saved());
    assert_eq!(sessions.len(), disk.files.len());
}

#[test]
fn flat_list_sessions_enumerates_all() {
    let mut disk = Disk::new();
    let mut engine = temp_engine(ContextConfig::default());
    engine.push_message(user("a"));
    save(&engine, &mut disk);
    switch(&mut engine, &mut disk, "beta");
    save(&engine, &mut disk);

    let sessions = engine.list_sessions(&disk.saved());
    let names: Vec<&str> = sessions.iter().map(|s| s.name.as_str()).collect();
    assert!(names.contains(&"general"));
    assert!(names.contains(&"beta"));
    // In the order of their names.
    assert_eq!(names, ["beta", "general"]);
}

#[test]
fn a_session_with_a_slash_in_its_name_is_listed_once() {
    let mut disk = Disk::new();
    let mut engine = temp_engine(ContextConfig::default());
    save(&engine, &mut disk);
    switch(&mut engine, &mut disk, "owner/repo");
    engine.push_message(user("here"));
    save(&engine, &mut disk);
    let sessions = engine.list_sessions(&disk.saved());
    let names: Vec<&str> = sessions.iter().map(|s| s.name.as_str()).collect();
    assert_eq!(names, ["general", "owner/repo"]);
}

#[test]
fn session_files_are_named_by_their_stem() {
    assert_eq!(session_file("owner/repo"), "owner--repo.json");
    let mut engine = temp_engine(ContextConfig::default());
    assert_eq!(engine.switch_target("owner/repo").as_deref(), Some("owner--repo"));
    engine.switch_session("owner/repo", Session::new());
    assert_eq!(engine.active_session(), "owner--repo");
}

#[test]
fn an_unreadable_session_file_is_left_out() {
    let engine = temp_engine(ContextConfig::default());
    let saved = vec![SavedSession { stem: "broken".to_string(), session: None }];
    assert!(engine.session_messages("broken", &saved).is_none());
    assert_eq!(engine.report_sessions(&saved).len(), 1);
}

// ── Distillation tests ──────────────────────────────────────────────

#[test]
fn flat_latest_positions_reports_session_tips() {
    let mut engine = temp_engine(ContextConfig::default());
    assert_eq!(engine.latest_positions(&vec![]).len(), 0);
    engine.push_message(user("one"));
    engine.push_message(user("two"));
    let tips = engine.latest_positions(&vec![]);
    assert_eq!(tips.get("general"), Some(&2));
}

#[test]
fn flat_pending_distill_tokens_sums_undistilled_per_session() {
    let mut engine = temp_engine(ContextConfig::default());
    engine.push_message(user(&"a".repeat(400)));
    // No watermark: the whole session is pending.
    let pending = engine.pending_distill_tokens(&vec![], &Table::new());
    assert!(pending.get("general").copied().unwrap_or(0) > 0);
    assert_eq!(pending.get("general"), Some(&100));

    // Watermark past the only message: nothing pending.
    let mut since = Table::new();
    since.insert("general", 1);
    let pending = engine.pending_distill_tokens(&vec![], &since);
    assert!(pending.get("general").is_none());
}

#[test]
fn flat_transcript_since_returns_span_after_watermark() {
    let mut engine = temp_engine(ContextConfig::default());
    engine.push_message(user("first"));
    engine.push_message(assistant("second"));
    let span = engine.transcript_since(&vec![], "general", 1, u64::MAX);
    assert_eq!(span.len(), 1);
    assert!(matches!(&span[0], Message::Assistant { content } if content == "second"));
}

#[test]
fn flat_transcript_since_clamps_but_makes_progress() {
    let mut engine = temp_engine(ContextConfig::default());
    engine.push_message(user(&"a".repeat(400)));
    engine.push_message(user(&"b".repeat(400)));
    // Zero budget still yields the head event.
    assert_eq!(engine.transcript_since(&vec![], "general", 0, 0).len(), 1);
}

#[test]
fn report_covers_all_sessions() {
    let call = |id: &str, name: &str| Message::ToolCalls {
        content: String::new(),
        calls: vec![ToolCall::new(
            id.into(),
            ToolFunction { name: name.into(), arguments: "{}".into() },
        )],
    };
    let mut disk = Disk::new();
    let mut engine = temp_engine(ContextConfig::default());
    // A tool call in "general", saved.
    engine.push_message(call("c1", "exec"));
    save(&engine, &mut disk);
    // A tool call in "other", in memory only.
    switch(&mut engine, &mut disk, "other");
    engine.push_message(call("c2", "file_read"));

    let sessions = engine.report_sessions(&disk.saved());
    assert_eq!(sessions.len(), 2);
    let names: Vec<String> = sessions
        .iter()
        .flat_map(|s| s.messages().iter())
        .map(|m| match m {
            Message::ToolCalls { calls, .. } => calls[0].function.name.clone(),
            _ => String::new(),
        })
        .collect();
    assert!(names.contains(&"exec".to_string()));
    assert!(names.contains(&"file_read".to_string()));
}

// ── Sub-agents ──────────────────────────────────────────────────────

#[test]
fn ephemeral_assemble_prepends_system_prompt_in_order() {
    let mut engine = EphemeralSession::new(20_000);
    let mut first = engine::ephemeral::EphemeralSession::new();
    for m in [user("one"), assistant("two")] {
        first.push_message(m.clone());
        engine.push_message(m);
    }
    for ctx in [engine.assemble("sys"), first.assemble("sys")] {
        assert_eq!(ctx.messages.len(), 3);
        assert!(matches!(&ctx.messages[0], Message::System { content } if content == "sys"));
        assert!(matches!(&ctx.messages[1], Message::User { content } if content == "one"));
        assert!(matches!(&ctx.messages[2], Message::Assistant { content } if content == "two"));
    }
}

#[test]
fn tool_output_within_cap_is_untouched() {
    // 20k tokens = 80k bytes; a result just under the cap must survive
    // whole.
    let mut engine = EphemeralSession::new(20_000);
    let payload = "y".repeat(79_000);
    engine.push_message(Message::Tool { call_id: "c1".to_string(), content: payload.clone() });
    let ctx = engine.assemble("");
    assert!(matches!(&ctx.messages[1], Message::Tool { content, .. } if *content == payload));
}

#[test]
fn tool_output_over_cap_is_truncated() {
    let mut engine = EphemeralSession::new(100);
    engine.push_message(Message::Tool { call_id: "c1".to_string(), content: "z".repeat(10_000) });
    let ctx = engine.assemble("");
    assert!(matches!(
        &ctx.messages[1],
        Message::Tool { content, .. } if content.contains("tokens truncated")
    ));
}

#[test]
fn ephemeral_compaction_is_a_noop() {
    let mut engine = EphemeralSession::new(20_000);
    engine.push_message(user(&"x".repeat(10_000)));
    assert!(engine.compact_if_urgent().is_none());
    assert_eq!(engine.stats().message_count, 1);
    let event = engine.force_compact();
    assert_eq!(event.before, event.after);

    let mut first = engine::ephemeral::EphemeralSession::new();
    first.push_message(user(&"x".repeat(10_000)));
    assert!(first.compact_if_needed().is_none());
    assert_eq!(first.stats().message_count, 1);
    first.clear();
    assert_eq!(first.stats().message_count, 0);
}

#[test]
fn distillation_is_a_noop() {
    let mut engine = EphemeralSession::new(20_000);
    engine.push_message(user(&"x".repeat(10_000)));
    assert_eq!(engine.pending_distill_tokens(&Table::new()).len(), 0);
    assert!(engine.transcript_since("ephemeral", 0, u64::MAX).is_empty());
    assert!(engine.list_sessions().is_empty());
    assert_eq!(engine.active_session(), "ephemeral");
}

// ── The first database engine ───────────────────────────────────────

#[test]
fn compact_methods_return_not_implemented() {
    let engine = engine::lcm::LcmEngine::new(ContextConfig::default(), None);
    let err = engine.compact_if_needed().unwrap_err();
    assert!(err.contains("not implemented"), "{err}");
    let err = engine.force_compact().unwrap_err();
    assert!(err.contains("not implemented"), "{err}");
}

#[test]
fn the_first_database_engine_keeps_sessions_apart() {
    let mut engine = engine::lcm::LcmEngine::new(ContextConfig::default(), None);
    assert!(engine.has_room());
    engine.push_message(&user(&"a".repeat(40)), "2025-01-01");
    assert_eq!(engine.stats().message_count, 1);
    assert_eq!(engine.stats().token_estimate, 10);
    engine.switch_session("owner/repo");
    assert_eq!(engine.active_session(), "owner--repo");
    assert_eq!(engine.stats().message_count, 0);
    engine.switch_session("general");
    engine.clear();
    assert_eq!(engine.stats().message_count, 0);
    let listed = engine.list_sessions();
    assert!(listed.iter().any(|s| s.name == "owner/repo"));
    let ctx = match engine.assemble("SYS") {
        Ok(ctx) => ctx,
        Err(_) => panic!("the stored rows can be read"),
    };
    assert_eq!(ctx.messages.len(), 1);
}

#[test]
fn flat_reading_on_from_the_mark_gives_every_message_once() {
    let mut engine = temp_engine(ContextConfig::default());
    let texts: Vec<String> = (1..6).map(|i| "word ".repeat(10 * i)).collect();
    for text in &texts {
        engine.push_message(user(text));
    }
    let mut mark = 0;
    let mut read = Vec::new();
    while mark < 5 {
        let found = engine.transcript_since(&vec![], "general", mark, 40);
        assert!(!found.is_empty());
        mark += found.len() as u64;
        read.extend(found.iter().map(|m| m.content().to_string()));
    }
    assert_eq!(read, texts);
    assert!(engine.transcript_since(&vec![], "general", 5, u64::MAX).is_empty());
}
