use std::borrow::Cow;

use kitaebot::context::lcm::explore::{
    detect_kind, extension, extract_file_ids, format_file_reference, looks_binary,
    looks_like_test_run, mime_hint, next_step, normalize_ids, normalize_line, unique_ordered, words,
    FileKind,
};
use kitaebot::context::lcm::framing::{
    frame_text, framed_numbering, mechanical_excerpt, normalize_payload, store_pretty,
    strip_line_numbering, strip_tool_framing, strip_tool_output_wrapper,
};
use kitaebot::context::lcm::survey::{
    build_text_instructions, build_text_sample, exploration_summary, explore_binary, explore_code,
    explore_delimited, explore_json, explore_sql, explore_text_fallback, explore_xml,
    explore_yaml, extract_text_headers, settle_exploration, survey_code, survey_sql,
    ExplorationStep,
};
use kitaebot::digest::file_id;
use kitaebot::engine;
use kitaebot::types::Message;

/// What an exploration comes to when the model answers `reply`.
fn explored(content: &str, path: Option<&str>, reply: Option<&str>) -> String {
    match exploration_summary(content, path, 400) {
        ExplorationStep::Done(text) => text,
        ExplorationStep::Ask { .. } => {
            settle_exploration(content, path, &reply.map(str::to_string))
        }
    }
}

// ── file id and reference format ──────────────────────────────────

#[test]
fn explore_file_id_is_stable_and_well_formed() {
    let a = file_id("hello");
    let b = file_id("hello");
    assert_eq!(a, b);
    assert!(a.starts_with("file_"));
    assert_eq!(a.len(), 5 + 16);
    let hex = a.strip_prefix("file_").unwrap();
    assert!(hex.chars().all(|c| c.is_ascii_hexdigit()));
    assert_ne!(a, file_id("world"));
    // The start of the SHA-256 digest of "hello".
    assert_eq!(a, "file_2cf24dba5fb0a30e");
}

#[test]
fn explore_file_reference_includes_attributes() {
    let r = format_file_reference("file_0123456789abcdef", "data/out.json", 42, "sum", "");
    assert_eq!(
        r,
        "<file id=\"file_0123456789abcdef\" path=\"data/out.json\" tokens=\"42\">\nsum\n</file>"
    );
    let r = engine::explore::format_file_reference(
        "file_0123456789abcdef",
        Some("data/out.json"),
        42,
        "sum",
    );
    assert_eq!(
        r,
        "<file id=\"file_0123456789abcdef\" path=\"data/out.json\" tokens=\"42\">\nsum\n</file>"
    );
}

#[test]
fn file_reference_omits_missing_path() {
    let r = engine::explore::format_file_reference("file_0123456789abcdef", None, 7, "sum");
    assert!(r.starts_with("<file id=\"file_0123456789abcdef\" tokens=\"7\">"));
}

#[test]
fn file_reference_carries_the_next_step_line() {
    let r = format_file_reference("file_0123456789abcdef", "src/a.rs", 42, "sum", "Next: x");
    assert!(r.ends_with("\nsum\nNext: x\n</file>"), "{r}");
}

// ── next-step guidance ────────────────────────────────────────────

#[test]
fn test_run_payload_points_at_the_stored_copy_not_rerun() {
    let step = next_step(FileKind::Text, true, false, "context/lcm/payloads/file_ab");
    assert!(step.contains("grep pattern="), "{step}");
    assert!(step.contains("path=context/lcm/payloads/file_ab"), "{step}");
    assert!(step.contains("do not re-run"), "{step}");
    assert!(!step.contains("lcm_grep"), "{step}");
}

#[test]
fn source_file_payload_points_at_windowed_file_read() {
    let step = next_step(FileKind::Code, false, true, "src/tools/exec.rs");
    assert!(step.contains("file_read src/tools/exec.rs"), "{step}");
    assert!(step.contains("offset"), "{step}");
}

#[test]
fn structured_payload_names_the_stored_copy() {
    let step = next_step(FileKind::Json, false, false, "context/lcm/payloads/file_ab");
    assert!(step.contains("line-oriented"), "{step}");
    assert!(step.contains("file_ab"), "{step}");
}

#[test]
fn test_run_detection_spans_ecosystems() {
    assert!(looks_like_test_run("test result: FAILED. 1 passed; 1 failed"));
    assert!(looks_like_test_run("thread 'x' panicked at src/a.rs"));
    assert!(looks_like_test_run("=== RUN   TestFoo"));
    assert!(looks_like_test_run("2 passed, 1 failed in 0.3s"));
    assert!(!looks_like_test_run("plain build output, nothing here"));
    // The word alone is not a test run: source files and logs say
    // FAILED without being one.
    assert!(!looks_like_test_run("const MSG: &str = \"FAILED to connect\";"));
}

// ── payload normalization ─────────────────────────────────────────

#[test]
fn normalize_pretty_prints_minified_json() {
    let raw = r#"{"a":1,"b":[2,3]}"#;
    let out = normalize_payload(raw);
    assert!(matches!(out, Cow::Owned(_)));
    assert_eq!(out.trim(), "{\n  \"a\": 1,\n  \"b\": [\n    2,\n    3\n  ]\n}");
}

#[test]
fn normalize_leaves_non_json_untouched() {
    let raw = "just a log line\nwith two lines";
    assert!(matches!(normalize_payload(raw), Cow::Borrowed(_)));
}

#[test]
fn normalize_rebuilds_framed_line_numbering() {
    let framed = "<tool_output name=\"file_read\">\n\
                  1\t{\"k\":[1,2]}\n\n\
                  (1 lines shown, 1 total, 13 bytes)\n\
                  </tool_output>";
    let out = normalize_payload(framed);
    assert!(out.starts_with("<tool_output name=\"file_read\">\n1\t{"));
    assert!(out.contains("2\t  \"k\": ["));
    assert!(out.contains("(6 lines shown, 6 total,"), "{out}");
    assert!(out.ends_with("</tool_output>"));
    // The stored copy must survive the same strip that parsed the
    // original.
    let round = strip_tool_framing(&out);
    assert!(serde_json::from_str::<serde_json::Value>(&round).is_ok());
}

#[test]
fn normalize_skips_framing_when_unnumbered() {
    let wrapped = "<tool_output name=\"github_api\">\n{\"a\":1}\n</tool_output>";
    let out = normalize_payload(wrapped);
    assert!(out.trim_start().starts_with('{'));
    assert!(!out.contains("<tool_output"));
    assert!(out.contains("  \"a\": 1"));
}

#[test]
fn normalize_skips_empty_frame() {
    let out = normalize_payload("");
    assert!(matches!(out, Cow::Borrowed(_)));
}

#[test]
fn a_normalized_payload_reads_back_as_the_same_value() {
    let raw = r#"{"b":[1,-2,18446744073709551615],"a":{"t":"x\ty\r\n<"},"n":null,"e":[]}"#;
    let value: serde_json::Value = serde_json::from_str(raw).unwrap();
    let numbered = format!(
        "<tool_output name=\"file_read\">\n1\t{raw}\n\n(1 lines shown, 1 total, 9 bytes)\n\
         </tool_output>"
    );
    let wrapped = format!("<tool_output name=\"exec\">\n{raw}\n</tool_output>");
    for content in [raw, numbered.as_str(), wrapped.as_str()] {
        let out = normalize_payload(content);
        let text = strip_tool_framing(&out);
        assert_eq!(text, serde_json::to_string_pretty(&value).unwrap());
        assert_eq!(serde_json::from_str::<serde_json::Value>(&text).unwrap(), value);
        assert_eq!(out.starts_with("<tool_output"), content == numbered);
    }
}

#[test]
fn a_framed_text_strips_back_to_it() {
    let text = "one\n\ntwo";
    let framed = frame_text("<tool_output name=\"file_read\">", text);
    assert_eq!(strip_tool_framing(&framed), text);
    assert_eq!(
        framed_numbering(&framed).as_deref(),
        Some("<tool_output name=\"file_read\">")
    );
    assert_eq!(store_pretty("{}", "{ }"), "{ }");
}

#[test]
fn explore_extract_file_ids_dedupes_and_normalizes() {
    let content = "see file_0123456789ABCDEF and <file id=\"file_00000000000000aa\">x</file> \
                   plus file_0123456789abcdef again";
    assert_eq!(
        extract_file_ids(content),
        vec!["file_0123456789abcdef", "file_00000000000000aa"],
    );
}

#[test]
fn explore_extract_file_ids_rejects_malformed_ids() {
    // Too short, too long, and non-hex must not match.
    let content = "file_0123456789abcde file_0123456789abcdef0 file_0123456789abcdeg";
    assert_eq!(extract_file_ids(content), Vec::<String>::new());
}

#[test]
fn ids_are_lowered_and_kept_once() {
    let found = vec!["file_AB".to_string(), "file_ab".to_string(), "file_cd".to_string()];
    assert_eq!(normalize_ids(&found), vec!["file_ab", "file_cd"]);
    assert_eq!(unique_ordered(&found).len(), 3);
}

// ── mechanical excerpt ────────────────────────────────────────────

#[test]
fn mechanical_excerpt_keeps_head_and_tail() {
    let mut content = String::new();
    for i in 0..200 {
        content.push_str(&format!("line {i}\n"));
    }
    let excerpt = mechanical_excerpt(&content);
    assert!(excerpt.starts_with("Tool output excerpt (200 lines,"));
    assert!(excerpt.contains("line 0\n"));
    assert!(excerpt.contains("line 29\n"));
    assert!(excerpt.contains("line 170\n"));
    assert!(excerpt.contains("line 199\n"));
    assert!(!excerpt.contains("line 100\n"));
    assert!(excerpt.contains("[140 lines / "));
    assert!(excerpt.contains(" bytes omitted]"));
}

#[test]
fn mechanical_excerpt_passes_small_content_through() {
    let content = "one\ntwo\nthree";
    assert_eq!(mechanical_excerpt(content), content);
}

#[test]
fn mechanical_excerpt_byte_caps_few_line_content() {
    // One giant line: the line limit never kicks in, the byte cap
    // must.
    let content = "x".repeat(100_000);
    let excerpt = mechanical_excerpt(&content);
    assert!(excerpt.len() < 5_000);
    assert!(excerpt.contains("bytes omitted]"));
}

#[test]
fn mechanical_excerpt_is_multibyte_safe() {
    let content = "€".repeat(50_000);
    let excerpt = mechanical_excerpt(&content);
    assert!(excerpt.len() < content.len());
}

// ── tool framing ──────────────────────────────────────────────────

#[test]
fn strip_tool_framing_recovers_file_content() {
    let framed = "1\t{\n2\t  \"a\": 1\n3\t}\n\n(3 lines shown, 3 total, 20 bytes)";
    assert_eq!(strip_tool_framing(framed), "{\n  \"a\": 1\n}");
}

#[test]
fn strip_tool_framing_preserves_offset_reads() {
    let framed = "500\tfoo\n501\tbar\n\n(2 lines shown, 900 total, 9000 bytes)";
    assert_eq!(strip_tool_framing(framed), "foo\nbar");
}

#[test]
fn strip_tool_framing_is_noop_without_trailer() {
    let content = "1\t{\n2\t}";
    assert_eq!(strip_tool_framing(content), content);
}

#[test]
fn strip_tool_framing_is_noop_on_nonsequential_numbers() {
    // Numeric-first-column data that happens to end with a
    // trailer-shaped line must pass through untouched.
    let content = "1\ta\n5\tb\n\n(2 lines shown, 2 total, 8 bytes)";
    assert_eq!(strip_tool_framing(content), content);
}

#[test]
fn strip_tool_framing_is_noop_on_unnumbered_lines() {
    let content = "plain text\n(1 lines shown, 1 total, 11 bytes)";
    assert_eq!(strip_tool_framing(content), content);
}

#[test]
fn strip_tool_framing_peels_wrapped_file_read_output() {
    // The full live shape: safety wrapper around numbered lines.
    let content = "<tool_output name=\"file_read\">\n\
                   1\t{\n2\t  \"a\": 1\n3\t}\n\n\
                   (3 lines shown, 3 total, 20 bytes)\n\
                   </tool_output>";
    assert_eq!(strip_tool_framing(content), "{\n  \"a\": 1\n}");
}

#[test]
fn strip_tool_framing_peels_wrapper_without_line_numbers() {
    // e.g. an exec tool result: wrapper comes off, body stays.
    let content = "<tool_output name=\"exec\">\n{\"a\": 1}\n</tool_output>";
    assert_eq!(strip_tool_framing(content), "{\"a\": 1}");
    assert_eq!(strip_tool_output_wrapper(content), "{\"a\": 1}");
}

#[test]
fn strip_tool_framing_keeps_unterminated_wrapper() {
    let content = "<tool_output name=\"exec\">\ntruncated";
    assert_eq!(strip_tool_framing(content), content);
}

#[test]
fn strip_tool_framing_gives_lines_back_from_any_first_number() {
    for start in [0u64, 1, 500, u64::MAX - 2] {
        for blank in ["", "\n", "\n\n"] {
            let rows: String = ["a\tb", "", "c\rd"]
                .iter()
                .enumerate()
                .map(|(i, line)| format!("{}\t{line}\n", start + i as u64))
                .collect();
            let inner = format!("{rows}{blank}(3 lines shown, 12 total, 99 bytes)");
            assert_eq!(strip_tool_framing(&inner), "a\tb\n\nc\rd");
            let wrapped = format!("<tool_output name=\"x\">\n{inner}\n</tool_output>");
            assert_eq!(strip_tool_framing(&wrapped), "a\tb\n\nc\rd");
        }
    }
}

#[test]
fn numbering_ends_in_a_trailer() {
    assert_eq!(
        strip_line_numbering("7\tx\n\n(1 lines shown, 9 total, 2 bytes)").as_deref(),
        Some("x")
    );
    assert_eq!(strip_line_numbering("7\tx\n\n(one lines shown, 9 total, 2 bytes)"), None);
}

// ── kind detection ────────────────────────────────────────────────

#[test]
fn explore_detect_by_extension() {
    assert_eq!(detect_kind(Some("a/b.json"), "x"), FileKind::Json);
    assert_eq!(detect_kind(Some("b.csv"), "x"), FileKind::Csv);
    assert_eq!(detect_kind(Some("b.tsv"), "x"), FileKind::Tsv);
    assert_eq!(detect_kind(Some("b.yml"), "x"), FileKind::Yaml);
    assert_eq!(detect_kind(Some("b.xml"), "x"), FileKind::Xml);
    assert_eq!(detect_kind(Some("dump.sql"), "x"), FileKind::Sql);
    assert_eq!(detect_kind(Some("main.rs"), "x"), FileKind::Code);
    assert_eq!(detect_kind(Some("notes.md"), "x"), FileKind::Text);
    assert_eq!(detect_kind(Some("README"), "x"), FileKind::Text);
    assert_eq!(detect_kind(Some(".gitignore"), "x"), FileKind::Text);
}

#[test]
fn explore_detect_by_sniffing_without_path() {
    assert_eq!(detect_kind(None, "  {\"a\": 1}"), FileKind::Json);
    assert_eq!(detect_kind(None, "[1, 2]"), FileKind::Json);
    assert_eq!(detect_kind(None, "<root><a/></root>"), FileKind::Xml);
    assert_eq!(detect_kind(None, "plain prose"), FileKind::Text);
}

#[test]
fn explore_detect_binary_overrides_extension() {
    assert_eq!(detect_kind(Some("a.json"), "x\0y"), FileKind::Binary);
    assert!(looks_binary("x\0y"));
}

#[test]
fn page_breaks_are_not_binary() {
    assert!(!looks_binary("page one\u{c}page two\u{b}\r\n\t"));
    assert_eq!(detect_kind(None, "page one\u{c}page two"), FileKind::Text);
    assert!(looks_binary("a\u{8}b"));
}

#[test]
fn explore_ansi_escapes_are_not_binary() {
    assert_eq!(detect_kind(None, "\u{1b}[31mred\u{1b}[0m"), FileKind::Text);
}

#[test]
fn kinds_have_mime_types() {
    assert_eq!(mime_hint(FileKind::Json), "application/json");
    assert_eq!(mime_hint(FileKind::Binary), "application/octet-stream");
    assert_eq!(extension(Some("a/B.JSON")).as_deref(), Some("json"));
    assert_eq!(extension(Some("dir.d/file")), None);
    assert_eq!(extension(None), None);
}

// ── dispatchers ───────────────────────────────────────────────────

#[test]
fn explore_json_shape() {
    let doc = r#"{"users": [{"id": 1}, {"id": 2}], "total": 2}"#;
    for s in [explore_json(doc).unwrap(), engine::explore::explore_json(doc)] {
        assert!(s.contains("Top-level type: object"));
        assert!(s.contains("keys=2"));
        assert!(s.contains("users: array(len=2"));
        assert!(s.contains("total: number"));
    }
}

#[test]
fn explore_json_parse_failure() {
    assert_eq!(explore_json("{not json"), None);
    let s = engine::explore::explore_json("{not json");
    assert!(s.contains("failed to parse"));
}

#[test]
fn explore_csv_columns_and_rows() {
    let s = explore_delimited("id,name,age\n1,alice,30\n2,bob,25\n", ',', "CSV");
    assert!(s.contains("Rows: 2."));
    assert!(s.contains("Columns (3): id, name, age."));
    assert!(s.contains("1, alice") || s.contains("1,alice"));
}

#[test]
fn explore_csv_empty() {
    assert!(explore_delimited("", ',', "CSV").contains("no rows found"));
}

#[test]
fn explore_yaml_top_level_keys() {
    let s = explore_yaml("name: test\nversion: 1\n  nested: skipped\nname: dup\n");
    assert!(s.contains("Top-level keys (2): name, version."));
}

#[test]
fn explore_xml_root_and_children() {
    let s = explore_xml("<root>\n<item a=\"1\">x</item>\n<meta>y</meta>\n</root>");
    assert!(s.contains("Root element: root."));
    assert!(s.contains("item"));
    assert!(s.contains("meta"));
}

#[test]
fn explore_sql_tables_and_inserts() {
    let s = explore_sql(
        "CREATE TABLE users (id INT);\ncreate table if not exists posts (id INT);\nINSERT INTO users VALUES (1);\n",
    );
    assert!(s.contains("Tables (2): users, posts."));
    assert!(s.contains("INSERT statements: 1."));
}

#[test]
fn tables_are_listed_once_without_quotes() {
    let found = vec!["a".to_string(), "b".to_string(), "a".to_string()];
    let s = survey_sql(&found, 3);
    assert!(s.contains("Tables (2): a, b."), "{s}");
    assert!(s.contains("INSERT statements: 3."), "{s}");
}

#[test]
fn explore_code_imports_and_signatures() {
    let body = ["to", "do"].concat();
    let src = format!(
        "use std::fs;\nuse serde::Serialize;\n\npub struct Config {{\n    x: u32,\n}}\n\npub async fn load(path: &str) -> Config {{\n    {body}!()\n}}\n"
    );
    let s = explore_code(&src, Some("src/config.rs"));
    assert!(s.contains("(src/config.rs)"));
    assert!(s.contains("use std::fs;"));
    assert!(s.contains("pub struct Config {"));
    assert!(s.contains("pub async fn load(path: &str) -> Config {"));
}

#[test]
fn code_without_a_path_names_none() {
    let s = survey_code(None, 3, &vec![], &vec!["fn a() {".to_string()]);
    assert!(s.contains("fn a() {"), "{s}");
    assert!(!s.contains("()("), "{s}");
}

#[test]
fn explore_binary_hex_dump() {
    let s = explore_binary("AB\0");
    assert!(s.contains("Bytes: 3."));
    assert!(s.contains("41 42 00"));
}

// ── text dispatcher ───────────────────────────────────────────────

#[test]
fn explore_text_uses_llm_summary() {
    let s = explored("Ducks are great.\n", None, Some("A fine document about ducks."));
    assert_eq!(s, "A fine document about ducks.");
}

#[test]
fn explore_text_falls_back_on_provider_error() {
    let s = explored("# Ducks\n\nDucks are great.\n", None, None);
    assert!(s.contains("Text exploration summary"));
    assert!(s.contains("# Ducks"));
    assert!(s.contains("Opening excerpt: # Ducks Ducks are great.."));
}

#[test]
fn invalid_json_falls_back_to_text_exploration() {
    // A truncated partial read of a JSON file: extension says
    // JSON, content doesn't parse.
    let s = explored(
        "{\"users\": [{\"id\": 1}, {\"id\":",
        Some("big-data.json"),
        Some("Partial JSON dump of user records."),
    );
    assert_eq!(s, "Partial JSON dump of user records.");
}

#[test]
fn explore_text_falls_back_on_empty_summary() {
    let s = explored("hello world\n", None, Some("   "));
    assert!(s.contains("Text exploration summary"));
    assert!(s.contains("Words: 2."));
}

#[test]
fn the_model_is_shown_a_sample_of_plain_text() {
    match exploration_summary("Ducks are great.\n", None, 400) {
        ExplorationStep::Ask { instructions, sample } => {
            assert!(instructions.contains("at most 400 tokens"));
            assert_eq!(sample.len(), 1);
            match &sample[0] {
                Message::User { content } => assert!(content.contains("Ducks are great.")),
                _ => panic!("the sample is from the user"),
            }
        }
        ExplorationStep::Done(_) => panic!("plain text is put before the model"),
    }
    assert!(matches!(
        engine::explore::exploration_summary("{x", Some("a.json"), 400),
        ExplorationStep::Done(_)
    ));
}

#[test]
fn explore_text_sample_slices_large_content() {
    let content = "a".repeat(10_000);
    let sample = build_text_sample(&content);
    assert!(sample.contains("[Document Start]"));
    assert!(sample.contains("[Document Middle]"));
    assert!(sample.contains("[Document End]"));
    assert!(sample.len() < content.len());
}

#[test]
fn explore_multibyte_content_is_sliced_safely() {
    let content = "€".repeat(5_000);
    // Must not panic on char boundaries.
    let _ = build_text_sample(&content);
    let _ = explore_text_fallback(&content, None);
    assert_eq!(detect_kind(None, &content), FileKind::Text);
}

#[test]
fn explore_instructions_carry_token_bound_and_headers() {
    let content = "# Intro\n\nbody\n";
    let headers = extract_text_headers(content);
    let i = build_text_instructions(content, Some("notes.md"), &headers, 400);
    assert!(i.contains("at most 400 tokens"));
    assert!(i.contains("# Intro"));
    assert!(i.contains("Path: notes.md"));
}

#[test]
fn words_and_lines_are_normalized() {
    assert_eq!(words("  a b\tc\n"), vec!["a", "b", "c"]);
    assert_eq!(normalize_line("  a \n b  ", 100), "a b");
}
