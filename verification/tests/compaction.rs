use kitaebot::config::{ContextConfig, LcmConfig};
use kitaebot::context::lcm::chunks::{
    entries_are_countable, load_condensed_chunks, load_leaf_chunks, rows_are_countable, ChunkRow,
    CondensedChunk, CondensedRow, LeafChunk, MessageRow,
};
use kitaebot::context::lcm::compaction::{
    replace_range, run_compaction, write_condensed_summary, write_leaf_summary, CompactionNews,
    CompactionPhase, CompactionTask, ContextItem, ItemRef, Summary,
};
use kitaebot::context::lcm::engine::{LcmEngine, Session};
use kitaebot::context::lcm::report::health_section;
use kitaebot::context::lcm::rows::{reconstruct_message, Part, RowError};
use kitaebot::context::lcm::store::Conversation;
use kitaebot::context::lcm::summarize::{EscalationLevel, EscalationOutcome};
use kitaebot::digest::{derive_summary_id, derive_summary_id_str};
use kitaebot::types::{estimate_tokens, Message};

fn outcome(content: &str) -> EscalationOutcome {
    EscalationOutcome {
        content: content.to_string(),
        level: EscalationLevel::Normal,
        input_tokens: 100,
        output_tokens: estimate_tokens(content),
    }
}

fn chunk_row(ordinal: i64, message_id: i64, content: &str) -> ChunkRow {
    ChunkRow {
        ordinal,
        message_id,
        token_count: i64::try_from(estimate_tokens(content)).unwrap(),
        created_at: "2025-01-01".into(),
        message: Message::User { content: content.into() },
    }
}

#[test]
fn leaf_summary_records_referenced_files() {
    // One message references a known file, one an id that was never
    // stored: only the known one is recorded.
    let known = "see <file id=\"file_00000000000000aa\" tokens=\"1\">sum</file>";
    let unknown = "mentions file_ffffffffffffffff in passing";
    let chunk = LeafChunk { rows: vec![chunk_row(0, 1, known), chunk_row(1, 2, unknown)] };
    let files = vec!["file_00000000000000aa".to_string()];
    let write = write_leaf_summary(&chunk, &outcome("leaf summary"), &files, "2025-01-01");
    assert_eq!(write.summary.files, vec!["file_00000000000000aa"]);
}

#[test]
fn condensed_summary_inherits_child_file_associations() {
    let a = "ref <file id=\"file_00000000000000aa\" tokens=\"1\">s</file>";
    let b = "ref <file id=\"file_00000000000000bb\" tokens=\"1\">s</file>";
    let known = vec!["file_00000000000000aa".to_string(), "file_00000000000000bb".to_string()];
    let leaf_a = write_leaf_summary(
        &LeafChunk { rows: vec![chunk_row(0, 1, a)] },
        &outcome("leaf a"),
        &known,
        "2025-01-01",
    );
    let leaf_b = write_leaf_summary(
        &LeafChunk { rows: vec![chunk_row(1, 2, b)] },
        &outcome("leaf b"),
        &known,
        "2025-01-01",
    );
    let child_files = vec![leaf_a.summary.files.clone(), leaf_b.summary.files.clone()];
    let rows = [(0, leaf_a.summary), (1, leaf_b.summary)]
        .into_iter()
        .map(|(ordinal, s)| summary_row(ordinal, &s.summary_id, 0, 2))
        .collect();
    let chunk = CondensedChunk { rows, depth: 0 };
    let write = write_condensed_summary(&chunk, &outcome("condensed"), &child_files, "2025-01-01");
    assert_eq!(write.summary.depth, 1);
    assert_eq!(
        write.summary.files,
        vec!["file_00000000000000aa", "file_00000000000000bb"],
    );
}

fn summary_row(ordinal: i64, id: &str, depth: i64, tokens: i64) -> CondensedRow {
    CondensedRow {
        ordinal,
        summary_id: id.to_string(),
        depth,
        token_count: tokens,
        earliest_at: "2025-01-01".into(),
        latest_at: "2025-01-01".into(),
        descendant_count: 1,
        descendant_token_count: 2,
        source_message_token_count: 2,
        content: "text".into(),
    }
}

/// Rows 0..n with the given roles, all in the active context.
fn seeded(roles: &[&str]) -> Vec<Option<MessageRow>> {
    roles
        .iter()
        .enumerate()
        .map(|(i, role)| {
            Some(MessageRow {
                ordinal: i as i64,
                message_id: i as i64 + 1,
                role: role.to_string(),
                content: format!("msg {i}"),
                token_count: i64::try_from(estimate_tokens(&format!("msg {i}"))).unwrap(),
                created_at: "2025-01-01".into(),
                parts: vec![Part::Text { content: format!("msg {i}") }],
            })
        })
        .collect()
}

fn chunk_ordinals(rows: &Vec<Option<MessageRow>>, cfg: &LcmConfig) -> Vec<Vec<i64>> {
    assert!(rows_are_countable(rows));
    match load_leaf_chunks(rows, cfg) {
        Ok(chunks) => {
            chunks.iter().map(|c| c.rows.iter().map(|r| r.ordinal).collect()).collect()
        }
        Err(_) => panic!("the rows can be read"),
    }
}

fn cfg_with_tail(fresh_tail_count: u32) -> LcmConfig {
    let mut cfg = ContextConfig::default().lcm;
    cfg.fresh_tail_count = fresh_tail_count;
    cfg
}

#[test]
fn newest_user_message_outside_tail_is_pinned_and_splits_chunks() {
    // user, assistant, user, assistant, assistant, assistant; tail=2
    // -> eligible ordinals 0..=3, newest user message is ordinal 2.
    let rows = seeded(&["user", "assistant", "user", "assistant", "assistant", "assistant"]);
    // The pin splits the run: [0, 1] and [3].
    assert_eq!(chunk_ordinals(&rows, &cfg_with_tail(2)), vec![vec![0, 1], vec![3]]);
}

#[test]
fn superseded_user_message_is_compactable() {
    // Two user messages outside the tail: only the newest (1) pins.
    let rows = seeded(&["user", "user", "assistant", "assistant", "assistant", "assistant"]);
    assert_eq!(chunk_ordinals(&rows, &cfg_with_tail(2)), vec![vec![0], vec![2, 3]]);
}

#[test]
fn pin_inside_tail_changes_nothing() {
    // Newest user message (4) sits inside the protected tail.
    let rows =
        seeded(&["assistant", "assistant", "assistant", "assistant", "user", "assistant"]);
    assert_eq!(chunk_ordinals(&rows, &cfg_with_tail(2)), vec![vec![0, 1, 2, 3]]);
}

#[test]
fn a_chunk_ends_where_its_budget_does() {
    let mut rows = seeded(&["assistant"; 5]);
    for row in rows.iter_mut().flatten() {
        row.token_count = 6;
    }
    let mut cfg = cfg_with_tail(1);
    cfg.leaf_chunk_tokens = 12;
    assert_eq!(chunk_ordinals(&rows, &cfg), vec![vec![0, 1], vec![2, 3]]);
    cfg.leaf_chunk_tokens = 5;
    assert_eq!(chunk_ordinals(&rows, &cfg), vec![vec![0], vec![1], vec![2], vec![3]]);
}

#[test]
fn a_summary_between_messages_splits_chunks() {
    let mut rows = seeded(&["assistant", "assistant", "assistant", "user"]);
    rows[1] = None;
    assert_eq!(chunk_ordinals(&rows, &cfg_with_tail(1)), vec![vec![0], vec![2]]);
    // Only messages count towards the tail.
    rows.push(None);
    assert_eq!(chunk_ordinals(&rows, &cfg_with_tail(1)), vec![vec![0], vec![2]]);
    assert_eq!(chunk_ordinals(&rows, &cfg_with_tail(2)), vec![vec![0]]);
    assert!(chunk_ordinals(&rows, &cfg_with_tail(3)).is_empty());
}

#[test]
fn a_row_that_cannot_be_read_is_reported() {
    let rows = seeded(&["assistant", "wizard", "assistant"]);
    match load_leaf_chunks(&rows, &cfg_with_tail(1)) {
        Err(RowError::UnknownRole(role)) => assert_eq!(role, "wizard"),
        _ => panic!("the role is not known"),
    }
    let none: Vec<Part> = Vec::new();
    assert!(matches!(reconstruct_message(1, "tool", "x", &none), Err(RowError::NoCallId)));
}

#[test]
fn a_stored_call_of_no_tool_is_reported() {
    let call = |name: &str, refused: Option<&str>| Part::ToolCall {
        id: "c1".into(),
        name: name.into(),
        input: "{}".into(),
        refused: refused.map(Into::into),
    };
    let good = vec![call("exec", None)];
    assert!(matches!(
        reconstruct_message(7, "assistant", "", &good),
        Ok(Message::ToolCalls { .. })
    ));
    // The first bad name counts, and only where calls are read.
    let bad = vec![call("exec", None), call("a b", Some("no: a b")), call("", Some("no: "))];
    match reconstruct_message(7, "assistant", "", &bad) {
        Err(e) => assert_eq!(e.message(), "message 7: no: a b"),
        Ok(_) => panic!("the name is refused"),
    }
    assert!(matches!(reconstruct_message(7, "user", "x", &bad), Ok(Message::User { .. })));
    // A leaf pass stops at it.
    let mut rows = seeded(&["assistant", "assistant"]);
    rows[0].as_mut().unwrap().parts = bad;
    match load_leaf_chunks(&rows, &cfg_with_tail(1)) {
        Err(RowError::BadToolName { message_id, .. }) => assert_eq!(message_id, 1),
        _ => panic!("the name is refused"),
    }
}

#[test]
fn rows_whose_counts_overflow_are_not_countable() {
    let mut rows = seeded(&["user", "user"]);
    rows[0].as_mut().unwrap().token_count = i64::MAX;
    rows[1].as_mut().unwrap().token_count = 1;
    assert!(!rows_are_countable(&rows));
}

#[test]
fn summaries_of_one_depth_form_a_run() {
    let mut cfg = cfg_with_tail(1);
    cfg.min_condensed_fanout = 2;
    let entries = vec![
        Some(summary_row(0, "sum_a", 0, 5)),
        Some(summary_row(1, "sum_b", 0, 5)),
        Some(summary_row(2, "sum_c", 1, 5)),
        None,
        Some(summary_row(4, "sum_d", 0, 5)),
    ];
    assert!(entries_are_countable(&entries));
    let chunks = load_condensed_chunks(&entries, &cfg);
    assert_eq!(chunks.len(), 1);
    assert_eq!(chunks[0].depth, 0);
    let ids: Vec<&str> = chunks[0].rows.iter().map(|r| r.summary_id.as_str()).collect();
    assert_eq!(ids, ["sum_a", "sum_b"]);
    assert_eq!(chunks[0].messages().len(), 2);
}

#[test]
fn summary_id_is_deterministic_and_includes_source_ids() {
    let id_a = derive_summary_id("hello", &vec![1, 2, 3]);
    let id_b = derive_summary_id("hello", &vec![3, 2, 1]);
    assert_eq!(id_a, id_b, "ordering of source ids must not matter");
    assert!(id_a.starts_with("sum_"));
    assert_eq!(id_a.len(), 4 + 16);

    let id_diff_content = derive_summary_id("world", &vec![1, 2, 3]);
    assert_ne!(id_a, id_diff_content);

    let id_diff_sources = derive_summary_id("hello", &vec![1, 2, 4]);
    assert_ne!(id_a, id_diff_sources);
}

#[test]
fn condensed_ids_ignore_the_order_of_children() {
    let a = derive_summary_id_str("x", &vec!["sum_1".to_string(), "sum_2".to_string()]);
    let b = derive_summary_id_str("x", &vec!["sum_2".to_string(), "sum_1".to_string()]);
    assert_eq!(a, b);
    assert_ne!(a, derive_summary_id_str("x", &vec!["sum_1".to_string()]));
}

#[test]
fn a_summary_takes_the_place_of_its_range() {
    let items = (0..4)
        .map(|i| ContextItem { ordinal: i, item: ItemRef::Message(i + 10) })
        .collect::<Vec<_>>();
    let out = replace_range(&items, 1, 2, "sum_x");
    let ordinals: Vec<i64> = out.iter().map(|i| i.ordinal).collect();
    assert_eq!(ordinals, [0, 1, 3]);
    assert!(matches!(&out[1].item, ItemRef::Summary(id) if id == "sum_x"));
    assert!(matches!(&out[2].item, ItemRef::Message(13)));
}

#[test]
fn a_cycle_condenses_until_nothing_is_left_to_condense() {
    let (phase, task) = run_compaction(CompactionPhase::Start, CompactionNews::Began);
    assert!(task == CompactionTask::LoadLeafChunks);
    let (phase, task) = run_compaction(phase, CompactionNews::Loaded(1));
    assert!(task == CompactionTask::SummarizeLeaf(0));
    let (phase, task) = run_compaction(phase, CompactionNews::Stored);
    assert!(task == CompactionTask::LoadCondensedChunks);
    let (phase, task) = run_compaction(phase, CompactionNews::Loaded(2));
    assert!(task == CompactionTask::SummarizeCondensed(0));
    let (phase, task) = run_compaction(phase, CompactionNews::Stored);
    assert!(task == CompactionTask::SummarizeCondensed(1));
    let (phase, task) = run_compaction(phase, CompactionNews::Stored);
    assert!(task == CompactionTask::LoadCondensedChunks);
    let (_, task) = run_compaction(phase, CompactionNews::Loaded(0));
    assert!(task == CompactionTask::Finish);
}

fn stored_summary(id: &str, depth: i64, model: &str) -> Summary {
    Summary {
        summary_id: id.to_string(),
        kind: "leaf".to_string(),
        depth,
        content: "text".to_string(),
        token_count: 10,
        earliest_at: "2025-01-01".to_string(),
        latest_at: "2025-01-01".to_string(),
        descendant_count: 2,
        descendant_token_count: 100,
        source_message_token_count: 100,
        model: model.to_string(),
        created_at: "2025-01-01".to_string(),
        source_messages: Vec::new(),
        children: Vec::new(),
        files: Vec::new(),
    }
}

#[test]
fn health_counts_summaries_and_truncations() {
    let summaries = vec![
        stored_summary("s1", 1, "test-model"),
        stored_summary("s2", 1, "level3-truncate"),
        stored_summary("s3", 2, "test-model"),
    ];
    let conversation = Conversation::load(Vec::new(), summaries, Vec::new()).unwrap();
    let sessions = vec![Session { name: "general".to_string(), conversation }];
    let engine =
        LcmEngine::open(ContextConfig::default(), sessions, 0, 1, Vec::new()).unwrap();
    let out = health_section(&engine, "0 B");
    assert!(out.contains("depth 1: 2"), "{out}");
    assert!(out.contains("depth 2: 1"));
    assert!(out.contains("Failed summarizations (truncated): 1"));
}

#[test]
fn stored_rows_that_make_up_no_conversation_are_refused() {
    let dangling = vec![ContextItem { ordinal: 0, item: ItemRef::Message(1) }];
    assert!(Conversation::load(Vec::new(), Vec::new(), dangling).is_none());
    assert!(LcmEngine::open(ContextConfig::default(), Vec::new(), 0, 1, Vec::new()).is_none());
}
