use kitaebot::duty::self_analysis::{
    end_of_sources, errors_delta, format_prompt, is_notify_entry, journal_delta, probe,
    proposal_query, proposal_title, Cursor, Delta, ErrorFile, Probe, Sources,
};

const NOTIFY: &str = "[2026-08-05T03:50:53Z] [notify] turn halted by policy gate\n";
const ROUTINE: &str = "[2026-08-05T16:30:27Z] [duty] warm: all warm\n";

fn sources(journal: Option<&str>, errors: &[(&str, &str)]) -> Sources {
    Sources {
        journal: journal.map(|j| j.as_bytes().to_vec()),
        errors: errors
            .iter()
            .map(|(name, text)| ErrorFile {
                name: name.to_string(),
                bytes: text.as_bytes().to_vec(),
            })
            .collect(),
    }
}

fn primed(sources: &Sources) -> Cursor {
    match probe(sources, None, 1) {
        Probe::Prime(cursor) => cursor,
        _ => panic!("expected prime"),
    }
}

#[test]
fn no_cursor_primes_at_end_of_sources() {
    let s = sources(Some(ROUTINE), &[("errors.2026-08-06.jsonl", "{\"level\":\"WARN\"}\n")]);
    let cursor = primed(&s);
    assert_eq!(cursor.journal, ROUTINE.len() as u64);
    assert_eq!(cursor.errors_file.as_deref(), Some("errors.2026-08-06.jsonl"));
    // A second probe from the primed cursor sees nothing.
    assert!(matches!(probe(&s, Some(cursor), 1), Probe::Closed));
}

#[test]
fn routine_journal_entries_never_enter_the_delta() {
    let cursor = primed(&sources(Some(""), &[]));
    let text = format!("{ROUTINE}{NOTIFY}{ROUTINE}");
    let Probe::Open { delta, .. } = probe(&sources(Some(&text), &[]), Some(cursor), 1) else {
        panic!("expected open");
    };
    assert!(delta.notify.contains("turn halted by policy gate"));
    assert!(!delta.notify.contains("warm"));
}

#[test]
fn below_threshold_stays_closed_and_accumulates() {
    let cursor = primed(&sources(Some(""), &[]));
    let s = sources(Some(NOTIFY), &[]);
    assert!(matches!(probe(&s, Some(cursor), 10_000), Probe::Closed));
    // The cursor never advanced, so the same material still counts
    // once the threshold drops.
    assert!(matches!(probe(&s, Some(Cursor::default()), 1), Probe::Open { .. }));
}

#[test]
fn errors_delta_spans_rolled_files() {
    let cursor = primed(&sources(Some(""), &[("errors.2026-08-05.jsonl", "old-a\n")]));
    // The cursored file grows, and a newer file appears.
    let s = sources(
        Some(""),
        &[
            ("errors.2026-08-05.jsonl", "old-a\nnew-b\n"),
            ("errors.2026-08-06.jsonl", "new-c\n"),
        ],
    );
    let Probe::Open { delta, next } = probe(&s, Some(cursor), 1) else {
        panic!("expected open");
    };
    assert!(!delta.errors.contains("old-a"));
    assert!(delta.errors.contains("new-b"));
    assert!(delta.errors.contains("new-c"));
    assert_eq!(next.errors_file.as_deref(), Some("errors.2026-08-06.jsonl"));
    // Nothing new after advancing.
    assert!(matches!(probe(&s, Some(next), 1), Probe::Closed));
}

#[test]
fn missing_sources_prime_at_zero() {
    let cursor = primed(&sources(None, &[]));
    assert_eq!(cursor.journal, 0);
    assert_eq!(cursor.errors_file, None);
    assert_eq!(cursor.errors_offset, 0);
}

#[test]
fn prompt_carries_symptoms_proposals_and_contract() {
    let delta = Delta {
        notify: "halted by policy gate".into(),
        errors: "{\"level\":\"ERROR\"}".into(),
    };
    let prompt =
        format_prompt("owner/repo", &delta, &vec!["#12 exec leaks process groups".into()]);

    assert!(prompt.contains("halted by policy gate"));
    assert!(prompt.contains("{\"level\":\"ERROR\"}"));
    assert!(prompt.contains("#12 exec leaks process groups"));
    assert!(prompt.contains("file ONE issue on owner/repo"));
    assert!(prompt.contains("github_issue_create"));
}

#[test]
fn an_empty_delta_leaves_its_sections_out() {
    let delta = Delta { notify: String::new(), errors: String::new() };
    let prompt = format_prompt("o/r", &delta, &vec![]);
    assert!(!prompt.contains("Problem reports"));
    assert!(!prompt.contains("Error events"));
    assert!(!prompt.contains("Open issues"));
}

#[test]
fn a_long_section_is_cut() {
    let delta = Delta { notify: "n".repeat(40_000), errors: String::new() };
    let prompt = format_prompt("o/r", &delta, &vec![]);
    assert!(prompt.contains("\n... [output truncated]\n"));
    assert!(prompt.len() < 40_000);
}

#[test]
fn only_notify_entries_count() {
    assert!(is_notify_entry(NOTIFY.trim_end()));
    assert!(!is_notify_entry(ROUTINE.trim_end()));
    assert!(!is_notify_entry("prose about [t] [notify] entries"));
    assert!(!is_notify_entry("[t] [duty] a run that quotes [t] [notify] entries"));
}

#[test]
fn the_journal_is_read_from_the_offset() {
    let text = format!("{NOTIFY}{NOTIFY}");
    let bytes = Some(text.as_bytes().to_vec());
    let (delta, end) = journal_delta(&bytes, NOTIFY.len() as u64);
    assert_eq!(delta, NOTIFY.trim_end());
    assert_eq!(end, text.len() as u64);
    let (delta, _) = journal_delta(&None, 3);
    assert_eq!(delta, "");
}

#[test]
fn older_error_files_are_not_read_again() {
    let s = sources(None, &[("a", "1\n"), ("b", "2\n3\n"), ("c", "4\n")]);
    let (text, file, offset) = errors_delta(&s.errors, &Some("b".to_string()), 2);
    assert_eq!(text, "3\n4\n");
    assert_eq!(file.as_deref(), Some("c"));
    assert_eq!(offset, 2);
    let end = end_of_sources(&s);
    assert_eq!(end.errors_file.as_deref(), Some("c"));
    assert_eq!(end.errors_offset, 2);
}

#[test]
fn proposals_are_queried_and_listed() {
    assert_eq!(
        proposal_query("bot", "o/r"),
        "is:issue is:open author:bot repo:o/r"
    );
    assert_eq!(proposal_title(12, "exec leaks"), "#12 exec leaks");
}
