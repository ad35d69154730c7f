use kitaebot::distill::{gate_open, total_pending, DistillState};
use kitaebot::table::Table;

fn table(rows: &[(&str, u64)]) -> Table<u64> {
    let mut t = Table::new();
    for (name, value) in rows {
        t.insert(name, *value);
    }
    t
}

#[test]
fn save_and_load_round_trip() {
    let mut state = DistillState::load(None);
    state.watermarks.insert("general", 12);
    state.watermarks.insert("owner/repo", 3);
    let stored = state.save();

    let loaded = DistillState::load(Some(stored));
    assert_eq!(loaded.watermarks.get("general"), Some(&12));
    assert_eq!(loaded.watermarks.get("owner/repo"), Some(&3));
}

#[test]
fn load_missing_file_is_empty() {
    assert_eq!(DistillState::load(None).watermarks.len(), 0);
}

#[test]
fn total_pending_sums_all_sessions() {
    let pending = table(&[("a", 100), ("b", 250)]);
    assert_eq!(total_pending(&pending), 350);
    assert_eq!(total_pending(&Table::new()), 0);
}

#[test]
fn gate_opens_at_threshold() {
    assert!(!gate_open(999, 1000));
    assert!(gate_open(1000, 1000));
    assert!(gate_open(1001, 1000));
}

#[test]
fn an_empty_backlog_does_not_open_the_gate() {
    assert!(!gate_open(0, 1));
}

#[test]
fn a_session_filed_twice_keeps_its_last_watermark() {
    let rows = vec![("s".to_string(), 1), ("s".to_string(), 7)];
    let state = DistillState::load(Some(rows));
    assert_eq!(state.watermarks.len(), 1);
    assert_eq!(state.watermarks.get("s"), Some(&7));
    assert_eq!(state.watermarks.get("t"), None);
}
