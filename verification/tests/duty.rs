use kitaebot::duty::schedule::Schedule;
use kitaebot::duty::self_analysis::{Cursor, Delta, Probe};
use kitaebot::duty::state::DutyState;
use kitaebot::duty::{
    analysis_step, are_due_times_fit, due, finish_run, new_commits_decision, next_wake,
    plan_dispatch, resolve, settle_dispatch, warm_cursor_key, warm_gate, warm_settle, warm_summary, Action,
    AnalysisAction, AnalysisEvent, AnalysisPhase, Dispatch, Duty, Gate, NewCommits,
};

fn duty(name: &str, schedule: Schedule) -> Duty {
    Duty {
        name: name.to_string(),
        action: Action::Dispatch { input: format!("/{name}"), session_hint: None },
        schedule,
        gate: None,
    }
}

fn duties() -> Vec<Duty> {
    vec![duty("first", Schedule::Every(3_600)), duty("second", Schedule::Daily(6 * 3_600))]
}

#[test]
fn resolve_all_one_and_unknown() {
    let duties = duties();
    let all = resolve(&duties, None).unwrap_or_else(|e| panic!("{e}"));
    assert_eq!(all.len(), 2);
    let one = resolve(&duties, Some("second")).unwrap_or_else(|e| panic!("{e}"));
    assert_eq!(one.len(), 1);
    assert_eq!(one[0].name, "second");
    let Err(err) = resolve(&duties, Some("nope")) else {
        panic!("unknown name must be rejected");
    };
    assert!(err.contains("unknown duty \"nope\""), "{err}");
    assert!(err.contains("first, second"), "{err}");
    assert_eq!(err, "unknown duty \"nope\"; known: first, second");
}

#[test]
fn new_commits_decision_matrix() {
    assert_eq!(new_commits_decision(None, "abc"), NewCommits::Prime);
    assert_eq!(new_commits_decision(Some("abc"), "abc"), NewCommits::Closed);
    assert_eq!(new_commits_decision(Some("abc"), "def"), NewCommits::Open);
}

#[test]
fn due_preserves_declaration_order() {
    let state = DutyState::new();
    // No recorded runs: everything is due, in declaration order.
    let duties = duties();
    let names: Vec<&str> = due(&duties, &state, 1_000).iter().map(|d| d.name.as_str()).collect();
    assert_eq!(names, ["first", "second"]);
}

#[test]
fn ran_duties_are_not_due() {
    let mut state = DutyState::new();
    let now = 100_000;
    state.record_run("first", now);
    state.record_run("second", now);
    assert!(due(&duties(), &state, now).is_empty());
}

#[test]
fn next_wake_targets_earliest_duty() {
    let mut state = DutyState::new();
    let now = 100_000;
    state.record_run("first", now); // due in 3600
    state.record_run("second", now); // due later
    assert_eq!(next_wake(&duties(), &state, now), 600); // capped
    let short = vec![duty("soon", Schedule::Every(30))];
    state.record_run("soon", now);
    assert_eq!(next_wake(&short, &state, now), 30);
}

#[test]
fn next_wake_never_busy_loops() {
    let state = DutyState::new();
    // Everything due now: still sleeps at least a second.
    assert_eq!(next_wake(&duties(), &state, 1_000), 1);
}

#[test]
fn without_duties_the_scheduler_sleeps_its_longest() {
    assert_eq!(next_wake(&Vec::new(), &DutyState::new(), 5), 600);
}

#[test]
fn duty_run_persists_state() {
    let mut state = DutyState::new();
    finish_run(&duty("distill", Schedule::Every(3600)), 77, &mut state);
    let state = DutyState::load(Some(state.save()));
    assert_eq!(state.last_run("distill"), Some(77));
}

fn gated(name: &str) -> Duty {
    Duty { gate: Some(Gate::NewCommits { repo: "o/r".into() }), ..duty(name, Schedule::Every(60)) }
}

#[test]
fn an_ungated_duty_is_dispatched_as_it_is() {
    let mut state = DutyState::new();
    let d = duty("plain", Schedule::Every(60));
    let sent = plan_dispatch(&d, "/plain", None, &mut state).unwrap();
    assert_eq!(sent.input, "/plain");
    assert_eq!(sent.cursor, None);
}

#[test]
fn a_gated_duty_is_primed_then_dispatched_with_its_range() {
    let mut state = DutyState::new();
    let d = gated("watch");
    assert!(plan_dispatch(&d, "look", None, &mut state).is_none());
    assert_eq!(state.cursor("watch"), None);
    assert!(plan_dispatch(&d, "look", Some("abc"), &mut state).is_none());
    assert_eq!(state.cursor("watch"), Some("abc"));
    assert!(plan_dispatch(&d, "look", Some("abc"), &mut state).is_none());
    let sent = plan_dispatch(&d, "look", Some("def"), &mut state).unwrap();
    assert_eq!(sent.input, "look\n\n[new commits: abc..def]");
    assert_eq!(sent.cursor.as_deref(), Some("def"));

    settle_dispatch(&d, &sent, false, &mut state);
    assert_eq!(state.cursor("watch"), Some("abc"));
    settle_dispatch(&d, &sent, true, &mut state);
    assert_eq!(state.cursor("watch"), Some("def"));
}

#[test]
fn a_dispatch_without_a_cursor_leaves_the_state() {
    let mut state = DutyState::new();
    let d = duty("plain", Schedule::Every(60));
    let sent = Dispatch { input: "x".into(), cursor: None };
    settle_dispatch(&d, &sent, true, &mut state);
    assert_eq!(state.cursor("plain"), None);
}

// --- warm gate ---

#[test]
fn warm_gate_skips_when_cursor_matches_head() {
    let mut state = DutyState::new();
    state.set_cursor(&warm_cursor_key("o/r"), "head");
    let line = warm_gate("o/r", Some("head"), true, &state).unwrap();
    let summary = warm_summary(&vec![line]);
    assert!(
        summary.contains("skipped (no new commits)"),
        "unchanged cursor must skip: {summary}"
    );
    assert_eq!(state.cursor(&warm_cursor_key("o/r")), Some("head"));
}

#[test]
fn warm_gate_warms_when_head_moved() {
    let mut state = DutyState::new();
    state.set_cursor(&warm_cursor_key("o/r"), "stale-sha");
    assert!(warm_gate("o/r", Some("head"), true, &state).is_none());
    let line = warm_settle("o/r", "head", "warm", &mut state);
    let summary = warm_summary(&vec![line]);
    assert!(summary.contains("o/r: warm"), "moved HEAD must warm: {summary}");
    assert_eq!(state.cursor(&warm_cursor_key("o/r")), Some("head"));
}

#[test]
fn warm_gate_warms_enrollment_no_cursor() {
    let mut state = DutyState::new();
    assert!(warm_gate("o/r", Some("head"), true, &state).is_none());
    let line = warm_settle("o/r", "head", "warm", &mut state);
    assert!(line.contains("o/r: warm"), "no cursor must warm (enrollment): {line}");
    assert_eq!(state.cursor(&warm_cursor_key("o/r")), Some("head"));
}

#[test]
fn warm_gate_warms_when_checkout_missing() {
    let mut state = DutyState::new();
    state.set_cursor(&warm_cursor_key("o/r"), "head");
    assert!(
        warm_gate("o/r", Some("head"), false, &state).is_none(),
        "missing checkout must not be skipped"
    );
}

#[test]
fn warm_gate_does_not_advance_cursor_on_failure() {
    let mut state = DutyState::new();
    assert!(warm_gate("o/r", Some("head"), true, &state).is_none());
    let line = warm_settle("o/r", "head", "failed", &mut state);
    assert!(line.contains("o/r: failed"), "failing command must report failed: {line}");
    assert_eq!(state.cursor(&warm_cursor_key("o/r")), None);
}

#[test]
fn warm_gate_empty_repos() {
    assert_eq!(warm_summary(&vec![]), "no warm commands configured");
}

#[test]
fn warm_gate_skips_a_repo_whose_head_is_unknown() {
    let state = DutyState::new();
    assert_eq!(
        warm_gate("o/r", None, true, &state).as_deref(),
        Some("o/r: skipped (ls-remote failed)")
    );
    assert_eq!(warm_summary(&vec!["a: x".into(), "b: y".into()]), "a: x; b: y");
}

// --- self-analysis runs ---

fn delta() -> Delta {
    Delta { notify: "halted".into(), errors: String::new() }
}

#[test]
fn an_analysis_run_goes_from_probe_to_cursor() {
    let begin = AnalysisEvent::Begin { has_client: true };
    let (phase, action) = analysis_step(AnalysisPhase::Start, begin, "o/r");
    assert!(matches!(action, AnalysisAction::Probe));
    let next = Cursor { journal: 5, errors_file: None, errors_offset: 0 };
    let found = AnalysisEvent::Probed(Some(Probe::Open { delta: delta(), next }));
    let (phase, action) = analysis_step(phase, found, "o/r");
    assert!(matches!(action, AnalysisAction::CountProposals));
    let open = AnalysisEvent::Proposals(Some(vec!["#1 a".into()]));
    let (phase, action) = analysis_step(phase, open, "o/r");
    match action {
        AnalysisAction::Send { prompt } => {
            assert!(prompt.contains("halted"));
            assert!(prompt.contains("- #1 a\n"));
        }
        _ => panic!("the prompt is sent"),
    }
    let (phase, action) = analysis_step(phase, AnalysisEvent::Replied { succeeded: true }, "o/r");
    match action {
        AnalysisAction::MoveCursor(c) => assert_eq!(c.journal, 5),
        _ => panic!("the cursor moves"),
    }
    assert!(matches!(phase, AnalysisPhase::Done));
}

#[test]
fn an_analysis_run_stops_at_the_proposal_cap() {
    let counting = AnalysisPhase::Counting { delta: delta(), next: Cursor::default() };
    let open = vec!["#1 a".to_string(), "#2 b".to_string(), "#3 c".to_string()];
    let (phase, action) = analysis_step(counting, AnalysisEvent::Proposals(Some(open)), "o/r");
    assert!(matches!(phase, AnalysisPhase::Done));
    match action {
        AnalysisAction::Journal(line) => {
            assert_eq!(line, "skipped: proposal cap reached (3 open on o/r)")
        }
        _ => panic!("the cap is journaled"),
    }
}

#[test]
fn an_analysis_run_keeps_its_cursor_when_a_step_fails() {
    let steps = vec![
        (AnalysisPhase::Start, AnalysisEvent::Begin { has_client: false }),
        (AnalysisPhase::Probing, AnalysisEvent::Probed(None)),
        (AnalysisPhase::Probing, AnalysisEvent::Probed(Some(Probe::Closed))),
        (
            AnalysisPhase::Counting { delta: delta(), next: Cursor::default() },
            AnalysisEvent::Proposals(None),
        ),
        (
            AnalysisPhase::Sent { next: Cursor::default() },
            AnalysisEvent::Replied { succeeded: false },
        ),
        (AnalysisPhase::Done, AnalysisEvent::Begin { has_client: true }),
    ];
    for (phase, event) in steps {
        let (phase, action) = analysis_step(phase, event, "o/r");
        assert!(matches!(phase, AnalysisPhase::Done));
        assert!(matches!(action, AnalysisAction::Stop));
    }
}

#[test]
fn a_first_analysis_run_files_the_end_of_the_sources() {
    let cursor = Cursor { journal: 9, errors_file: Some("e".into()), errors_offset: 2 };
    let event = AnalysisEvent::Probed(Some(Probe::Prime(cursor)));
    let (_, action) = analysis_step(AnalysisPhase::Probing, event, "o/r");
    match action {
        AnalysisAction::MoveCursor(c) => {
            assert_eq!((c.journal, c.errors_offset), (9, 2));
            assert_eq!(c.errors_file.as_deref(), Some("e"));
        }
        _ => panic!("the cursor is primed"),
    }
}

#[test]
fn due_times_are_checked_before_they_are_asked_for() {
    let duties = vec![duty("first", Schedule::Every(3_600)), duty("last", Schedule::Every(u64::MAX))];
    let mut state = DutyState::new();
    assert!(are_due_times_fit(&duties, &state, 1_000));
    state.record_run("first", 1_000);
    assert!(are_due_times_fit(&duties, &state, 1_000));
    state.record_run("last", 1_000);
    assert!(!are_due_times_fit(&duties, &state, 1_000));
}
