use kitaebot::daemon::{loops, Integrations, Loops};

const NOTHING: Integrations = Integrations {
    telegram: false,
    github_client: false,
    git: false,
    github_enabled: false,
    issues_enabled: false,
    linear: false,
};

#[test]
fn without_integrations_no_poller_runs() {
    assert_eq!(
        loops(NOTHING),
        Loops { telegram: false, github: false, github_issues: false, linear: false }
    );
}

#[test]
fn github_needs_a_client_git_and_its_switch() {
    let set = Integrations { github_client: true, git: true, github_enabled: true, ..NOTHING };
    assert!(loops(set).github);
    assert!(!loops(set).github_issues);
    assert!(!loops(Integrations { git: false, ..set }).github);
    assert!(!loops(Integrations { github_client: false, ..set }).github);
    assert!(!loops(Integrations { github_enabled: false, ..set }).github);
    assert!(loops(Integrations { issues_enabled: true, ..set }).github_issues);
}

#[test]
fn telegram_and_linear_run_when_set_up() {
    let r = loops(Integrations { telegram: true, linear: true, ..NOTHING });
    assert!(r.telegram && r.linear);
}
