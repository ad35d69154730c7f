use kitaebot::duty::state::{DutyDocument, DutyState};

/// The document that a stored text holds, where it holds one.
fn document(text: &str) -> Option<DutyDocument> {
    let value: serde_json::Value = serde_json::from_str(text).ok()?;
    let runs = value.get("last_run")?.as_object()?;
    let cursors = value.get("cursors").and_then(|c| c.as_object()).cloned().unwrap_or_default();
    Some(DutyDocument {
        last_run: runs.iter().map(|(k, v)| (k.clone(), v.as_u64().unwrap())).collect(),
        cursors: cursors
            .iter()
            .map(|(k, v)| (k.clone(), v.as_str().unwrap().to_string()))
            .collect(),
    })
}

#[test]
fn roundtrip() {
    let mut state = DutyState::new();
    state.record_run("distill", 12_345);
    state.set_cursor("watch", "abc123");
    let stored = state.save();

    let loaded = DutyState::load(Some(stored));
    assert_eq!(loaded.last_run("distill"), Some(12_345));
    assert_eq!(loaded.last_run("unknown"), None);
    assert_eq!(loaded.cursor("watch"), Some("abc123"));
    assert_eq!(loaded.cursor("unknown"), None);
}

#[test]
fn cursorless_document_loads() {
    let state = DutyState::load(document(r#"{"last_run":{"distill":5}}"#));
    assert_eq!(state.last_run("distill"), Some(5));
    assert_eq!(state.cursor("distill"), None);
}

#[test]
fn missing_document_starts_fresh() {
    let state = DutyState::load(None);
    assert_eq!(state.last_run("distill"), None);
}

#[test]
fn corrupt_document_starts_fresh() {
    let state = DutyState::load(document("not json"));
    assert_eq!(state.last_run("distill"), None);
}

#[test]
fn a_later_run_replaces_the_earlier() {
    let mut state = DutyState::new();
    state.record_run("a", 1);
    state.record_run("b", 2);
    state.record_run("a", 3);
    assert_eq!(state.last_run("a"), Some(3));
    assert_eq!(state.last_run("b"), Some(2));
}
