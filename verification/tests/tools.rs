use kitaebot::context::lcm::compaction::Summary;
use kitaebot::context::lcm::engine::StoredFile;
use kitaebot::context::lcm::ingest::LargeFileRow;
use kitaebot::context::lcm::store::Conversation;
use kitaebot::context::lcm::tools::describe::{
    classify_id, describe_file, describe_summary, NodeKind,
};
use kitaebot::context::lcm::tools::expand::{expand, Expansion, ExpandArgs, ExpandPlan, Payload};
use kitaebot::context::lcm::tools::grep::{
    after_first, after_retry, fts_phrase, grep_regex, is_fts_parse_error, left_for_summaries,
    list_hits, message_hit, snippet, summary_hit, uses_fts_operators, GrepArgs, GrepMode, GrepPlan, GrepScope, GrepStep,
    QueryResult, SNIPPET_CHARS,
};
use kitaebot::types::Message;

fn user(content: &str) -> Message {
    Message::User { content: content.to_string() }
}

fn conversation(messages: &[Message]) -> Conversation {
    let mut c = Conversation::new();
    for (i, m) in messages.iter().enumerate() {
        c.push_message(i as i64 + 1, m, "2025-01-01");
    }
    c
}

/// The messages of `c`, with these summaries beside them.
fn with_summaries(c: &Conversation, summaries: Vec<Summary>) -> Conversation {
    let mut messages = Vec::new();
    for i in 0..c.message_count() {
        let m = c.message(i);
        messages.push(kitaebot::context::lcm::store::StoredMessage {
            message_id: m.message_id,
            seq: m.seq,
            role: m.role.clone(),
            content: m.content.clone(),
            token_count: m.token_count,
            created_at: m.created_at.clone(),
            parts: kitaebot::context::lcm::store::copy_parts(&m.parts),
        });
    }
    Conversation::load(messages, summaries, Vec::new()).unwrap_or_else(|| panic!("rows fit"))
}

fn leaf(id: &str, content: &str, sources: &[i64]) -> Summary {
    Summary {
        summary_id: id.to_string(),
        kind: "leaf".to_string(),
        depth: 0,
        content: content.to_string(),
        token_count: 4,
        earliest_at: "2025-01-01".to_string(),
        latest_at: "2025-01-02".to_string(),
        descendant_count: 1,
        descendant_token_count: 4,
        source_message_token_count: 4,
        model: "mock".to_string(),
        created_at: "2025-01-03".to_string(),
        source_messages: sources.to_vec(),
        children: Vec::new(),
        files: Vec::new(),
    }
}

fn condensed(id: &str, content: &str, children: &[&str]) -> Summary {
    Summary {
        kind: "condensed".to_string(),
        depth: 1,
        source_messages: Vec::new(),
        children: children.iter().map(ToString::to_string).collect(),
        ..leaf(id, content, &[])
    }
}

fn search(pattern: &str, mode: &str, scope: &str) -> (GrepArgs, GrepPlan) {
    let args = GrepArgs {
        pattern: pattern.to_string(),
        mode: Some(mode.to_string()),
        scope: Some(scope.to_string()),
        limit: None,
    };
    let plan = args.plan().unwrap();
    (args, plan)
}

fn done(e: Expansion) -> String {
    match e {
        Expansion::Done(text) => text,
        _ => panic!("the expansion ends"),
    }
}

// ── grep ──────────────────────────────────────────────────────────

#[test]
fn fts_phrase_quotes_and_escapes() {
    assert_eq!(fts_phrase("isl-0.20"), "\"isl-0.20\"");
    assert_eq!(fts_phrase("a \"b\" c"), "\"a \"\"b\"\" c\"");
}

#[test]
fn uses_fts_operators_detects_intent() {
    assert!(uses_fts_operators("a OR b"));
    assert!(uses_fts_operators("NOT b"));
    assert!(uses_fts_operators("NEAR(a b)"));
    assert!(uses_fts_operators("\"a phrase\""));
    assert!(!uses_fts_operators("isl-0.20"));
    assert!(!uses_fts_operators("or and near"));
    assert!(!uses_fts_operators("schema::open"));
}

#[test]
fn snippet_truncates_long_input() {
    let s = "a".repeat(SNIPPET_CHARS + 50);
    let out = snippet(&s);
    assert!(out.ends_with("..."));
    assert!(out.chars().count() <= SNIPPET_CHARS + 3);
}

#[test]
fn snippet_collapses_newlines() {
    assert_eq!(snippet("a\nb\nc"), "a b c");
}

#[test]
fn hits_name_their_source() {
    assert_eq!(message_hit(3, "user", "a\nb"), "[message_id=3 role=user] a b");
    assert_eq!(
        summary_hit("sum_x", "leaf", 0, "text"),
        "[summary_id=sum_x kind=leaf depth=0] text"
    );
}

#[test]
fn lcm_grep_fts_dotted_literal_falls_back_to_phrase() {
    let (args, plan) = search("isl-0.20", "fts", "both");
    let failed = QueryResult::Failed("fts5: syntax error near \".\"".to_string());
    match after_first(&args.pattern, plan, failed) {
        GrepStep::Retry(p) => assert_eq!(p, "\"isl-0.20\""),
        _ => panic!("a plain pattern is tried again"),
    }
}

#[test]
fn lcm_grep_fts_hyphenated_literal_falls_back_to_phrase() {
    let (args, plan) = search("security-lane", "fts", "both");
    let failed = QueryResult::Failed("no such column: lane".to_string());
    assert!(matches!(after_first(&args.pattern, plan, failed), GrepStep::Retry(_)));
}

#[test]
fn lcm_grep_fts_operator_pattern_with_bad_term_names_the_pattern() {
    let pattern = "security lane OR security-lane OR \"fix every alert\"";
    let (args, plan) = search(pattern, "fts", "both");
    let failed = QueryResult::Failed("no such column: lane".to_string());
    match after_first(&args.pattern, plan, failed) {
        GrepStep::BadQuery(m) => assert_eq!(m, "no such column: lane"),
        _ => panic!("operators are not quoted away"),
    }
}

#[test]
fn a_failed_retry_tells_of_the_first_failure() {
    let (args, plan) = search("a:b", "fts", "both");
    let second = QueryResult::Failed("fts5: syntax error near \"\"".to_string());
    match after_retry(&args.pattern, plan, "no such column: a", second) {
        GrepStep::BadQuery(m) => assert_eq!(m, "no such column: a"),
        _ => panic!("the first failure is told"),
    }
    let broken = QueryResult::Failed("disk I/O error".to_string());
    assert!(matches!(after_retry("a", plan, "x", broken), GrepStep::Failed(_)));
    let found = QueryResult::Found(vec!["hit".to_string()]);
    assert!(matches!(after_retry("a", plan, "x", found), GrepStep::Answer(_)));
}

#[test]
fn other_database_failures_are_passed_on() {
    let (_, plan) = search("x", "fts", "both");
    let broken = QueryResult::Failed("disk I/O error".to_string());
    assert!(matches!(after_first("x", plan, broken), GrepStep::Failed(_)));
    assert!(is_fts_parse_error("fts5: syntax error near \"x\""));
    assert!(is_fts_parse_error("no such column: x"));
    assert!(!is_fts_parse_error("what: no such column: x"));
}

#[test]
fn lcm_grep_regex_mode_messages() {
    let c = conversation(&[user("phone: 555-1234"), user("alpha bravo charlie")]);
    let (args, plan) = search(r"\d{3}-\d{4}", "regex", "messages");
    let hits = grep_regex(&c, &args.pattern, plan.scope, plan.limit).unwrap();
    let out = list_hits(&args.pattern, plan, &hits);
    assert!(out.contains("555-1234"));
    assert!(!out.contains("bravo"));
    assert!(out.starts_with("1 match(es):\n[message_id=1 role=user] "));
}

#[test]
fn a_regex_search_covers_its_scope_up_to_the_limit() {
    let c = with_summaries(
        &conversation(&[user("duck one"), user("duck two")]),
        vec![leaf("sum_a", "duck three", &[1])],
    );
    let all = grep_regex(&c, "duck", GrepScope::Both, 50).unwrap();
    assert_eq!(all.len(), 3);
    assert_eq!(grep_regex(&c, "duck", GrepScope::Summaries, 50).unwrap().len(), 1);
    assert_eq!(grep_regex(&c, "duck", GrepScope::Messages, 1).unwrap().len(), 1);
    assert!(grep_regex(&c, "(", GrepScope::Messages, 5).is_none());
}

#[test]
fn lcm_grep_no_matches_message_is_friendly() {
    let (args, plan) = search("nothingmatches", "fts", "both");
    let out = match after_first(&args.pattern, plan, QueryResult::Found(vec![])) {
        GrepStep::Answer(a) => a,
        _ => panic!("an empty list is an answer"),
    };
    assert!(out.starts_with("No matches"));
    assert_eq!(out, "No matches for \"nothingmatches\" in both (fts).");
}

#[test]
fn lcm_grep_rejects_unknown_mode() {
    let args = GrepArgs {
        pattern: "x".to_string(),
        mode: Some("fuzzy".to_string()),
        scope: None,
        limit: None,
    };
    assert_eq!(args.plan().unwrap_err(), "mode must be \"fts\" or \"regex\", got \"fuzzy\"");
    let args = GrepArgs { mode: None, scope: Some("all".to_string()), ..args };
    assert!(args.plan().unwrap_err().ends_with("got \"all\""));
}

#[test]
fn grep_defaults_and_caps_apply() {
    let args =
        GrepArgs { pattern: "x".to_string(), mode: None, scope: None, limit: Some(1_000) };
    assert_eq!(
        args.plan().unwrap(),
        GrepPlan { mode: GrepMode::Fts, scope: GrepScope::Both, limit: 200 }
    );
    let args = GrepArgs { limit: None, ..args };
    assert_eq!(args.plan().unwrap().limit, 50);
}

#[test]
fn lcm_grep_isolates_conversation() {
    let general = conversation(&[user("general realm")]);
    let other = conversation(&[user("other realm")]);
    let hits = grep_regex(&other, "realm", GrepScope::Both, 50).unwrap();
    assert!(hits[0].contains("other realm"));
    assert!(!hits.iter().any(|h| h.contains("general realm")));
    assert_eq!(grep_regex(&general, "realm", GrepScope::Both, 50).unwrap().len(), 1);
}

// ── describe ──────────────────────────────────────────────────────

#[test]
fn lcm_describe_unknown_summary_id() {
    let out = describe_summary(&Conversation::new(), "sum_missing");
    assert!(out.contains("No summary"));
}

#[test]
fn lcm_describe_unknown_file_id() {
    let out = describe_file("file_missing", None, "general");
    assert!(out.contains("No file"));
}

#[test]
fn lcm_describe_rejects_bad_prefix() {
    let err = classify_id("garbage").err().unwrap();
    assert_eq!(err, "id must start with \"sum_\" or \"file_\", got \"garbage\"");
    assert!(matches!(classify_id("sum_x"), Ok(NodeKind::Summary)));
    assert!(matches!(classify_id("file_x"), Ok(NodeKind::File)));
}

#[test]
fn a_summary_is_described_with_its_links() {
    let c = with_summaries(
        &conversation(&[user("raw")]),
        vec![
            leaf("sum_b", "leaf b", &[1]),
            leaf("sum_a", "leaf a", &[]),
            condensed("sum_c", "both", &["sum_b", "sum_a"]),
        ],
    );
    let out = describe_summary(&c, "sum_b");
    assert!(out.starts_with("summary_id: sum_b\nkind: leaf\ndepth: 0\n"), "{out}");
    assert!(out.contains("\nparents: sum_c\n"), "{out}");
    assert!(out.contains("\nchildren: (none)\n"), "{out}");
    assert!(out.contains("\nsource_messages: 1\n"), "{out}");
    assert!(out.ends_with("\n\ncontent:\nleaf b"), "{out}");
    let out = describe_summary(&c, "sum_c");
    assert!(out.contains("\nchildren: sum_a, sum_b\n"), "{out}");
}

#[test]
fn a_file_is_described_in_its_session_only() {
    let file = StoredFile {
        row: LargeFileRow {
            file_id: "file_x".to_string(),
            path: "a.json".to_string(),
            mime_type: "application/json".to_string(),
            byte_size: 12,
            token_count: 3,
            exploration_summary: "shape".to_string(),
        },
        session: "general".to_string(),
        first_seen_message_id: Some(7),
        created_at: "2025-01-01".to_string(),
    };
    let out = describe_file("file_x", Some(&file), "general");
    assert!(out.contains("first_seen_message_id: 7\n"), "{out}");
    assert!(out.ends_with("\n\nexploration_summary:\nshape"), "{out}");
    assert!(describe_file("file_x", Some(&file), "other").contains("No file"));
}

// ── expand ────────────────────────────────────────────────────────

const DEFAULT_PLAN: ExpandPlan = ExpandPlan { depth: 1, include_messages: true, cap: 5_000 };

#[test]
fn lcm_expand_unknown_summary() {
    let out = done(expand(&Conversation::new(), "sum_missing", DEFAULT_PLAN, &vec![]));
    assert!(out.contains("No summary"));
}

#[test]
fn lcm_expand_returns_existing_leaf_content() {
    let c = with_summaries(
        &conversation(&[user("raw raw raw")]),
        vec![leaf("sum_test", "leaf summary text", &[1])],
    );
    // The leaf itself is level 0, its messages are one level down.
    let out = done(expand(&c, "sum_test", DEFAULT_PLAN, &vec![]));
    assert!(out.contains("leaf summary text"), "out was: {out}");
    assert!(out.contains("raw raw raw"), "missing raw msg: {out}");
}

/// A leaf summary over one message whose content is a reference to a payload.
fn leaf_with_file_ref(file_id: &str) -> Conversation {
    let content = format!("<file id=\"{file_id}\" tokens=\"100\">explored</file>");
    let c = conversation(&[Message::Tool { call_id: "c1".to_string(), content }]);
    with_summaries(
        &c,
        vec![Summary { token_count: 5, ..leaf("sum_test", "covers a big file", &[1]) }],
    )
}

#[test]
fn lcm_expand_recovers_externalized_payload_from_disk() {
    let file_id = "file_00000000000000aa";
    let c = leaf_with_file_ref(file_id);
    match expand(&c, "sum_test", DEFAULT_PLAN, &vec![]) {
        Expansion::Read(id) => assert_eq!(id, file_id),
        _ => panic!("the payload is asked for"),
    }
    let payloads =
        vec![(file_id.to_string(), Payload::Found("the original payload bytes".to_string()))];
    let out = done(expand(&c, "sum_test", DEFAULT_PLAN, &payloads));
    assert!(out.contains("the original payload bytes"), "payload missing: {out}");
    assert!(out.contains(file_id), "file header missing: {out}");
}

#[test]
fn lcm_expand_truncates_oversized_payload_at_token_cap() {
    let file_id = "file_00000000000000bb";
    let c = leaf_with_file_ref(file_id);
    // Way past the default 5000-token cap (20k chars).
    let payloads = vec![(file_id.to_string(), Payload::Found("y".repeat(100_000)))];
    let out = done(expand(&c, "sum_test", DEFAULT_PLAN, &payloads));
    assert!(out.contains("truncated at token_cap"), "no cap notice: {out}");
    assert!(out.contains("yyyy"), "payload head missing: {out}");
    assert!(out.len() < 100_000, "cap not applied: len={}", out.len());
}

#[test]
fn lcm_expand_reports_missing_payload() {
    let file_id = "file_00000000000000cc";
    let c = leaf_with_file_ref(file_id);
    let payloads = vec![(file_id.to_string(), Payload::Missing("not found".to_string()))];
    let out = done(expand(&c, "sum_test", DEFAULT_PLAN, &payloads));
    assert!(out.contains("payload unavailable"), "out was: {out}");
}

#[test]
fn an_expansion_goes_down_its_levels() {
    let c = with_summaries(
        &conversation(&[user("raw one"), user("raw two")]),
        vec![
            leaf("sum_b", "second leaf", &[2]),
            leaf("sum_a", "first leaf", &[1]),
            condensed("sum_c", "both leaves", &["sum_b", "sum_a"]),
        ],
    );
    let one = done(expand(&c, "sum_c", DEFAULT_PLAN, &vec![]));
    assert!(one.contains("both leaves") && one.contains("first leaf"), "{one}");
    assert!(!one.contains("raw one"), "{one}");
    let plan = ExpandPlan { depth: 2, ..DEFAULT_PLAN };
    let two = done(expand(&c, "sum_c", plan, &vec![]));
    assert!(two.contains("raw one") && two.contains("raw two"), "{two}");
    let plan = ExpandPlan { include_messages: false, ..plan };
    assert!(!done(expand(&c, "sum_c", plan, &vec![])).contains("raw one"));
}

#[test]
fn an_expansion_stops_at_its_cap() {
    let c = with_summaries(&conversation(&[]), vec![leaf("sum_a", &"w".repeat(400), &[])]);
    let plan = ExpandPlan { cap: 10, ..DEFAULT_PLAN };
    assert_eq!(
        done(expand(&c, "sum_a", plan, &vec![])),
        "[truncated at token_cap=10; remaining frontier: 1 node(s)]\n"
    );
}

/// The response without the notice that it was cut off.
fn without_notice(out: &str) -> &str {
    match out.rfind("[truncated at token_cap=") {
        Some(at) => &out[..at],
        None => out,
    }
}

#[test]
fn an_expansion_keeps_to_its_cap_whatever_it_writes() {
    let file_id = "file_00000000000000dd";
    let content = format!("<file id=\"{file_id}\" tokens=\"100\">explored</file>");
    let c = conversation(&[
        user("raw one"),
        Message::Tool { call_id: "c1".to_string(), content },
        user("raw two"),
    ]);
    // The stored counts are far below what the summaries take.
    let c = with_summaries(
        &c,
        vec![
            Summary { token_count: 0, ..leaf("sum_a", &"a".repeat(100), &[1, 2, 3]) },
            Summary { token_count: 0, ..leaf("sum_b", &"b".repeat(100), &[1]) },
            Summary { token_count: 0, ..condensed("sum_c", "both leaves", &["sum_a", "sum_b"]) },
        ],
    );
    let found = vec![(file_id.to_string(), Payload::Found("é".repeat(300)))];
    let missing = vec![(file_id.to_string(), Payload::Missing("e".repeat(300)))];
    for cap in 0..400 {
        let plan = ExpandPlan { depth: 2, include_messages: true, cap };
        for payloads in [&found, &missing] {
            let out = done(expand(&c, "sum_c", plan, payloads));
            assert!(without_notice(&out).len() / 4 <= cap as usize, "cap {cap}: {out}");
        }
    }
    let plan = ExpandPlan { depth: 2, include_messages: true, cap: 400 };
    let whole = done(expand(&c, "sum_c", plan, &found));
    assert_eq!(whole, without_notice(&whole));
    assert!(whole.contains(&"é".repeat(300)));
}

#[test]
fn a_payload_that_does_not_fit_is_cut_behind_its_heading() {
    let file_id = "file_00000000000000ee";
    let c = leaf_with_file_ref(file_id);
    let payloads = vec![(file_id.to_string(), Payload::Found("y".repeat(1_000)))];
    let plan = ExpandPlan { cap: 100, ..DEFAULT_PLAN };
    let out = done(expand(&c, "sum_test", plan, &payloads));
    let before = format!(
        "## sum_test (kind=leaf, depth=0, level=0)\ncovers a big file\n\n\
         ### message_id=1 role=tool\n<file id=\"{file_id}\" tokens=\"100\">explored</file>\n\n"
    );
    let widest = format!("### {file_id} (externalized payload, first 1000 of 1000 bytes)\n\n");
    let kept = 403 - before.len() - widest.len();
    assert_eq!(
        out,
        format!(
            "{before}### {file_id} (externalized payload, first {kept} of 1000 bytes)\n{}\n\
             [truncated at token_cap=100]\n",
            "y".repeat(kept)
        )
    );
}

#[test]
fn a_summary_that_two_others_share_is_written_once() {
    let c = with_summaries(
        &conversation(&[]),
        vec![
            leaf("sum_a", "shared leaf", &[]),
            condensed("sum_b", "b", &["sum_a"]),
            condensed("sum_c", "c", &["sum_a", "sum_c"]),
            condensed("sum_d", "d", &["sum_b", "sum_c"]),
        ],
    );
    let plan = ExpandPlan { depth: 9, ..DEFAULT_PLAN };
    let out = done(expand(&c, "sum_d", plan, &vec![]));
    for id in ["sum_a", "sum_b", "sum_c", "sum_d"] {
        assert_eq!(out.matches(&format!("## {id} (")).count(), 1, "{out}");
    }
    let plan = ExpandPlan { depth: 1, ..DEFAULT_PLAN };
    assert!(!done(expand(&c, "sum_d", plan, &vec![])).contains("shared leaf"));
}

#[test]
fn a_dangling_link_is_reported() {
    let c = with_summaries(&conversation(&[]), vec![condensed("sum_c", "x", &["sum_gone"])]);
    match expand(&c, "sum_c", DEFAULT_PLAN, &vec![]) {
        Expansion::Lost(id) => assert_eq!(id, "sum_gone"),
        _ => panic!("the missing summary is named"),
    }
}

#[test]
fn expansion_arguments_have_defaults_and_a_cap() {
    let args = ExpandArgs {
        summary_id: "sum_x".to_string(),
        depth: None,
        include_messages: None,
        token_cap: None,
    };
    assert_eq!(
        args.plan(),
        ExpandPlan { depth: 1, include_messages: false, cap: 5_000 }
    );
    let args = ExpandArgs {
        depth: Some(0),
        include_messages: Some(true),
        token_cap: Some(50_000),
        ..args
    };
    assert_eq!(
        args.plan(),
        ExpandPlan { depth: 1, include_messages: true, cap: 20_000 }
    );
}

#[test]
fn a_search_is_capped_over_messages_and_summaries() {
    let messages: Vec<Message> = (0..5).map(|i| user(&format!("duck {i}"))).collect();
    let c = with_summaries(
        &conversation(&messages),
        vec![leaf("sum_a", "duck", &[1]), leaf("sum_b", "duck", &[2]), leaf("sum_c", "duck", &[3])],
    );
    assert_eq!(
        grep_regex(&c, "duck", GrepScope::Both, 2).unwrap(),
        vec!["[message_id=1 role=user] duck 0", "[message_id=2 role=user] duck 1"]
    );
    assert_eq!(grep_regex(&c, "duck", GrepScope::Both, 1).unwrap().len(), 1);
    let hits = grep_regex(&c, "duck", GrepScope::Both, 7).unwrap();
    assert_eq!(hits.len(), 7);
    assert_eq!(
        hits[4..],
        [
            "[message_id=5 role=user] duck 4",
            "[summary_id=sum_a kind=leaf depth=0] duck",
            "[summary_id=sum_b kind=leaf depth=0] duck",
        ]
    );
    assert!(grep_regex(&c, "duck", GrepScope::Both, 0).unwrap().is_empty());
    assert_eq!(left_for_summaries(7, 5), 2);
    assert_eq!(left_for_summaries(7, 9), 0);
}

#[test]
fn an_answer_lists_no_more_than_the_limit() {
    let plan = GrepPlan { mode: GrepMode::Fts, scope: GrepScope::Both, limit: 2 };
    let found: Vec<String> = ["one", "two", "three"].iter().map(|s| s.to_string()).collect();
    assert_eq!(list_hits("x", plan, &found), "2 match(es):\none\ntwo");
}
