//! Which loops of the daemon run.

use vstd::prelude::*;

verus! {

/// What the daemon was set up with.
#[derive(Clone, Copy, Debug, PartialEq, Eq, Structural)]
pub struct Integrations {
    pub telegram: bool,
    pub github_client: bool,
    pub git: bool,
    pub github_enabled: bool,
    pub issues_enabled: bool,
    pub linear: bool,
}

/// The loops that run beside those for duties and the socket, which always
/// do.
#[derive(Clone, Copy, Debug, PartialEq, Eq, Structural)]
pub struct Loops {
    pub telegram: bool,
    pub github: bool,
    pub github_issues: bool,
    pub linear: bool,
}

/// Which loops run. Those for GitHub need a client and git, and each its own
/// switch.
pub fn loops(set: Integrations) -> (r: Loops)
    ensures
        r.telegram == set.telegram,
        r.github == (set.github_client && set.github_enabled && set.git),
        r.github_issues == (set.github_client && set.issues_enabled && set.git),
        r.linear == set.linear,
{
    Loops {
        telegram: set.telegram,
        github: set.github_client && set.github_enabled && set.git,
        github_issues: set.github_client && set.issues_enabled && set.git,
        linear: set.linear,
    }
}

} // verus!
