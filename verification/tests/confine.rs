use kitaebot::confine::{
    after_enforcing, after_exec, parse, start, Confine, ConfineAction, Enforcement, Tier, UsageError,
};

fn args(s: &[&str]) -> Vec<String> {
    s.iter().map(ToString::to_string).collect()
}

#[test]
fn parses_a_full_invocation() {
    let parsed = parse(&args(&["exec", "/ws", "--", "bash", "-c", "ls"])).unwrap();
    assert_eq!(
        parsed,
        Confine {
            tier: Tier::Exec,
            workspace: "/ws".to_string(),
            argv: vec!["bash".into(), "-c".into(), "ls".into()],
        }
    );
}

#[test]
fn rejects_unknown_tier() {
    assert!(matches!(parse(&args(&["root", "/ws", "--", "ls"])), Err(UsageError::UnknownTier(_))));
}

#[test]
fn rejects_relative_workspace() {
    assert!(matches!(
        parse(&args(&["exec", "ws", "--", "ls"])),
        Err(UsageError::RelativeWorkspace(_))
    ));
}

#[test]
fn rejects_missing_separator() {
    assert_eq!(parse(&args(&["exec", "/ws", "ls"])), Err(UsageError::MissingSeparator));
}

#[test]
fn rejects_empty_command() {
    assert_eq!(parse(&args(&["exec", "/ws", "--"])), Err(UsageError::EmptyCommand));
    assert_eq!(parse(&args(&["exec", "/ws"])), Err(UsageError::MissingSeparator));
    assert_eq!(parse(&args(&[])), Err(UsageError::MissingTier));
}

#[test]
fn the_git_tier_is_known() {
    let parsed = parse(&args(&["git", "/", "--", "git"])).unwrap();
    assert_eq!(parsed.tier, Tier::Git);
    assert_eq!(parsed.workspace, "/");
}

#[test]
fn an_unknown_tier_is_reported_before_a_missing_workspace() {
    assert_eq!(parse(&args(&["root"])), Err(UsageError::UnknownTier("root".into())));
    assert_eq!(parse(&args(&["exec"])), Err(UsageError::MissingWorkspace));
}

#[test]
fn usage_errors_say_what_is_wrong() {
    assert_eq!(UsageError::EmptyCommand.message(), "missing command");
    assert_eq!(UsageError::MissingSeparator.message(), "expected `--` before the command");
    assert_eq!(UsageError::MissingTier.message(), "missing tier");
    assert_eq!(UsageError::MissingWorkspace.message(), "missing workspace");
    assert_eq!(
        UsageError::RelativeWorkspace("ws".into()).message(),
        "workspace must be absolute: ws"
    );
    assert_eq!(UsageError::UnknownTier("root".into()).message(), "unknown tier: root");
}

#[test]
fn a_malformed_invocation_exits_with_the_usage() {
    assert_eq!(
        start(&args(&["exec", "/ws", "--"])).unwrap_err(),
        (
            2,
            "confine: missing command\n\
             usage: kitaebot confine <tier> <workspace> -- <command...>"
                .to_string()
        )
    );
    assert_eq!(start(&args(&["git", "/ws", "--", "git"])).unwrap().argv, ["git"]);
}

#[test]
fn only_full_enforcement_runs_the_command() {
    assert!(matches!(after_enforcing(&Enforcement::Full), ConfineAction::Exec));
    for (outcome, text) in [
        (
            Enforcement::Partial,
            "confine: landlock not fully enforced by this kernel (PartiallyEnforced)",
        ),
        (
            Enforcement::Not,
            "confine: landlock not fully enforced by this kernel (NotEnforced)",
        ),
        (
            Enforcement::Failed("no ruleset".into()),
            "confine: sandbox enforcement failed: no ruleset",
        ),
    ] {
        match after_enforcing(&outcome) {
            ConfineAction::Exit { code, said } => {
                assert_eq!(code, 1);
                assert_eq!(said, text);
            }
            ConfineAction::Exec => panic!("the command must not run"),
        }
    }
}

#[test]
fn a_command_that_does_not_start_is_reported() {
    assert_eq!(after_exec("nope", "not found"), (127, "confine: exec nope: not found".to_string()));
}
