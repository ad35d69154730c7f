//! The `confine <tier> <workspace> -- <command...>` invocation: what it asks
//! for, and how it can be malformed.

use vstd::prelude::*;

use crate::text::{has_prefix, same, starts_with, views};

verus! {

/// How tightly a child is confined.
#[derive(Clone, Copy, Debug, PartialEq, Eq, Structural)]
pub enum Tier {
    /// Commands of the agent.
    Exec,
    /// Git, which may also reach the keyring.
    Git,
}

impl Tier {
    /// The tier of a name.
    pub open spec fn named(name: Seq<char>) -> Option<Tier> {
        if name == "exec"@ {
            Some(Tier::Exec)
        } else if name == "git"@ {
            Some(Tier::Git)
        } else {
            None
        }
    }

    /// The tier of a name.
    pub fn from_name(name: &str) -> (r: Option<Tier>)
        ensures
            r == Tier::named(name@),
    {
        if same(name, "exec") {
            Some(Tier::Exec)
        } else if same(name, "git") {
            Some(Tier::Git)
        } else {
            None
        }
    }
}

/// An invocation.
#[derive(Debug, PartialEq, Eq)]
pub struct Confine {
    pub tier: Tier,
    pub workspace: String,
    pub argv: Vec<String>,
}

/// The view of a [`Confine`].
pub struct ConfineView {
    pub tier: Tier,
    pub workspace: Seq<char>,
    pub argv: Seq<Seq<char>>,
}

impl View for Confine {
    type V = ConfineView;

    open spec fn view(&self) -> ConfineView {
        ConfineView { tier: self.tier, workspace: self.workspace@, argv: views(self.argv@) }
    }
}

/// How an invocation can be malformed.
#[derive(Debug, PartialEq, Eq)]
pub enum UsageError {
    EmptyCommand,
    MissingSeparator,
    MissingTier,
    MissingWorkspace,
    RelativeWorkspace(String),
    UnknownTier(String),
}

/// The view of a [`UsageError`].
pub enum UsageFault {
    EmptyCommand,
    MissingSeparator,
    MissingTier,
    MissingWorkspace,
    RelativeWorkspace(Seq<char>),
    UnknownTier(Seq<char>),
}

impl View for UsageError {
    type V = UsageFault;

    open spec fn view(&self) -> UsageFault {
        match self {
            UsageError::EmptyCommand => UsageFault::EmptyCommand,
            UsageError::MissingSeparator => UsageFault::MissingSeparator,
            UsageError::MissingTier => UsageFault::MissingTier,
            UsageError::MissingWorkspace => UsageFault::MissingWorkspace,
            UsageError::RelativeWorkspace(path) => UsageFault::RelativeWorkspace(path@),
            UsageError::UnknownTier(name) => UsageFault::UnknownTier(name@),
        }
    }
}

impl UsageFault {
    /// What is said of the mistake.
    pub open spec fn says(self) -> Seq<char> {
        match self {
            UsageFault::EmptyCommand => "missing command"@,
            UsageFault::MissingSeparator => "expected `--` before the command"@,
            UsageFault::MissingTier => "missing tier"@,
            UsageFault::MissingWorkspace => "missing workspace"@,
            UsageFault::RelativeWorkspace(path) => "workspace must be absolute: "@ + path,
            UsageFault::UnknownTier(name) => "unknown tier: "@ + name,
        }
    }
}

impl UsageError {
    /// What is said of the mistake.
    pub fn message(&self) -> (r: String)
        ensures
            r@ == self@.says(),
    {
        match self {
            UsageError::EmptyCommand => "missing command".to_owned(),
            UsageError::MissingSeparator => "expected `--` before the command".to_owned(),
            UsageError::MissingTier => "missing tier".to_owned(),
            UsageError::MissingWorkspace => "missing workspace".to_owned(),
            UsageError::RelativeWorkspace(path) => {
                let mut out = "workspace must be absolute: ".to_owned();
                out.append(path.as_str());
                out
            },
            UsageError::UnknownTier(name) => {
                let mut out = "unknown tier: ".to_owned();
                out.append(name.as_str());
                out
            },
        }
    }
}

/// What an invocation asks for: a known tier, an absolute workspace, the
/// separator, and a command. The first that is missing or wrong is the fault.
pub open spec fn meaning(args: Seq<Seq<char>>) -> Result<ConfineView, UsageFault> {
    if args.len() == 0 {
        Err(UsageFault::MissingTier)
    } else {
        match Tier::named(args[0]) {
            None => Err(UsageFault::UnknownTier(args[0])),
            Some(tier) => if args.len() == 1 {
                Err(UsageFault::MissingWorkspace)
            } else if !has_prefix(args[1], "/"@) {
                Err(UsageFault::RelativeWorkspace(args[1]))
            } else if args.len() == 2 || args[2] != "--"@ {
                Err(UsageFault::MissingSeparator)
            } else if args.len() == 3 {
                Err(UsageFault::EmptyCommand)
            } else {
                Ok(ConfineView { tier, workspace: args[1], argv: args.skip(3) })
            },
        }
    }
}

/// Reads the arguments after `confine`.
pub fn parse(args: &Vec<String>) -> (r: Result<Confine, UsageError>)
    ensures
        match r {
            Ok(c) => meaning(views(args@)) == Ok::<ConfineView, UsageFault>(c@),
            Err(e) => meaning(views(args@)) == Err::<ConfineView, UsageFault>(e@),
        },
{
    let ghost all = views(args@);
    let n: usize = args.len();
    assert(all.len() == n);
    if n == 0 {
        return Err(UsageError::MissingTier);
    }
    assert(all[0] == args@[0]@);
    let tier = match Tier::from_name(args[0].as_str()) {
        Some(tier) => tier,
        None => {
            return Err(UsageError::UnknownTier(args[0].clone()));
        },
    };
    if n == 1 {
        return Err(UsageError::MissingWorkspace);
    }
    assert(all[1] == args@[1]@);
    if !starts_with(args[1].as_str(), "/") {
        return Err(UsageError::RelativeWorkspace(args[1].clone()));
    }
    if n == 2 {
        return Err(UsageError::MissingSeparator);
    }
    assert(all[2] == args@[2]@);
    if !same(args[2].as_str(), "--") {
        return Err(UsageError::MissingSeparator);
    }
    if n == 3 {
        return Err(UsageError::EmptyCommand);
    }
    let mut argv: Vec<String> = Vec::new();
    let mut i: usize = 3;
    while i < n
        invariant
            3 <= i <= n,
            n == args@.len(),
            all == views(args@),
            argv@.len() == i - 3,
            forall|k: int| 0 <= k < argv@.len() ==> (#[trigger] argv@[k])@ == all[k + 3],
        decreases n - i,
    {
        assert(all[i as int] == args@[i as int]@);
        argv.push(args[i].clone());
        i += 1;
    }
    assert(views(argv@) =~= all.skip(3));
    Ok(Confine { tier, workspace: args[1].clone(), argv })
}

// ── Running ─────────────────────────────────────────────────────────

/// What came of confining the process.
pub enum Enforcement {
    /// Every restriction is enforced.
    Full,
    /// Some restrictions are enforced.
    Partial,
    /// The kernel enforces none.
    Not,
    /// Why it failed.
    Failed(String),
}

/// What to do then.
pub enum ConfineAction {
    /// Become the command.
    Exec,
    /// Say why, and exit without running it.
    Exit { code: i32, said: String },
}

/// What is said of a mistake in an invocation.
pub open spec fn usage_text(fault: UsageFault) -> Seq<char> {
    "confine: "@ + fault.says() + "\nusage: kitaebot confine <tier> <workspace> -- <command...>"@
}

/// What is said where the process is not fully confined; `None` where it is.
pub open spec fn shortfall(outcome: Enforcement) -> Option<Seq<char>> {
    match outcome {
        Enforcement::Full => None,
        Enforcement::Partial => Some(
            "confine: landlock not fully enforced by this kernel (PartiallyEnforced)"@,
        ),
        Enforcement::Not => Some(
            "confine: landlock not fully enforced by this kernel (NotEnforced)"@,
        ),
        Enforcement::Failed(error) => Some("confine: sandbox enforcement failed: "@ + error@),
    }
}

/// What an invocation asks for, or how it ends where it is malformed.
pub fn start(args: &Vec<String>) -> (r: Result<Confine, (i32, String)>)
    ensures
        match r {
            Ok(c) => meaning(views(args@)) == Ok::<ConfineView, UsageFault>(c@),
            Err((code, said)) => meaning(views(args@)) matches Err(fault) && code == 2 && said@
                == usage_text(fault),
        },
{
    match parse(args) {
        Ok(c) => Ok(c),
        Err(e) => {
            let mut said = "confine: ".to_owned();
            said.append(e.message().as_str());
            said.append("\nusage: kitaebot confine <tier> <workspace> -- <command...>");
            assert(said@ =~= usage_text(e@));
            Err((2, said))
        },
    }
}

/// What to do after confining the process: the command runs only where every
/// restriction is enforced.
pub fn after_enforcing(outcome: &Enforcement) -> (r: ConfineAction)
    ensures
        (r is Exec) == (*outcome is Full),
        match shortfall(*outcome) {
            None => r is Exec,
            Some(text) => r matches ConfineAction::Exit { code, said } && code == 1 && said@ == text,
        },
{
    let said = match outcome {
        Enforcement::Full => {
            return ConfineAction::Exec;
        },
        Enforcement::Partial =>
            "confine: landlock not fully enforced by this kernel (PartiallyEnforced)".to_owned(),
        Enforcement::Not =>
            "confine: landlock not fully enforced by this kernel (NotEnforced)".to_owned(),
        Enforcement::Failed(error) => {
            let mut said = "confine: sandbox enforcement failed: ".to_owned();
            said.append(error.as_str());
            said
        },
    };
    ConfineAction::Exit { code: 1, said }
}

/// How it ends where the command could not be run.
pub fn after_exec(command: &str, error: &str) -> (r: (i32, String))
    ensures
        r.0 == 127,
        r.1@ == "confine: exec "@ + command@ + ": "@ + error@,
{
    let mut said = "confine: exec ".to_owned();
    said.append(command);
    said.append(": ");
    said.append(error);
    (127, said)
}

/// An invocation is well formed exactly where it is a tier, an absolute
/// workspace, the separator and a command, and it asks for these.
pub proof fn an_invocation_reads_as_written(args: Seq<Seq<char>>)
    ensures
        meaning(args) is Ok <==> args.len() >= 4 && (args[0] == "exec"@ || args[0] == "git"@)
            && args[1].len() > 0 && args[1][0] == '/' && args[2] == "--"@,
        meaning(args) matches Ok(c) ==> args == seq![
            match c.tier {
                Tier::Exec => "exec"@,
                Tier::Git => "git"@,
            },
            c.workspace,
            "--"@,
        ] + c.argv,
{
    reveal_strlit("/");
    if args.len() >= 2 {
        let w = args[1];
        if w.len() > 0 && w[0] == '/' {
            assert(w.take(1) =~= "/"@);
        }
        if has_prefix(w, "/"@) {
            assert(w.take(1)[0] == w[0]);
        }
    }
}

/// What is wrong with a malformed invocation is told by its first fault.
pub proof fn the_first_mistake_is_told(args: Seq<Seq<char>>, fault: UsageFault)
    requires
        meaning(args) == Err::<ConfineView, UsageFault>(fault),
    ensures
        fault is MissingTier ==> args.len() == 0,
        fault matches UsageFault::UnknownTier(name) ==> args.len() > 0 && args[0] == name && name
            != "exec"@ && name != "git"@,
        fault is MissingWorkspace ==> args.len() == 1,
        fault matches UsageFault::RelativeWorkspace(path) ==> args.len() > 1 && args[1] == path
            && !has_prefix(path, "/"@),
        fault is MissingSeparator ==> args.len() == 2 || args.len() > 2 && args[2] != "--"@,
        fault is EmptyCommand ==> args.len() == 3 && args[2] == "--"@,
{
}

} // verus!
