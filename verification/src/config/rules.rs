//! The rules that configuration values keep, and what is said where one is
//! broken. The first broken rule, in the order of the checks, is reported.

use vstd::prelude::*;

use super::{
    repo_names, Config, ContextConfig, LcmConfig, PromptDutyConfig, RepoConfig, ScheduleError,
    ScheduleFault,
};
use crate::duty::schedule::interval_of;
use crate::text::number::{all_digits, digits_value};
use crate::text::split::{
    blank, has_space, is_blank, is_space, lemma_joined_cons, split, split_at_char,
    split_pieces_join_back,
};
use crate::text::{find_from, lemma_find_char_unique, quote, quoted, same, to_chars, views};

verus! {

/// A rule on single values.
#[derive(Clone, Copy, Debug, PartialEq, Eq, Structural)]
pub enum Rule {
    AgentIterations,
    SubAgentIterations,
    ContextWindow,
    ContextBudget,
    ToolOutput,
    FreshTail,
    LeafChunk,
    Fanout,
    SoftBudget,
    HardBudget,
    BudgetOrder,
    LargeFile,
    LargeFileSummary,
    OutputReserve,
    MemoryIndexCap,
    MemoryThreshold,
    ProviderTokens,
    Temperature,
    TelegramChat,
    TelegramTimeout,
    GithubPoll,
    GithubOwner,
    LinearPoll,
    LinearUsers,
    ExecTimeout,
    FetchTimeout,
    FetchBytes,
    SearchTokens,
    SearchTimeout,
}

impl Rule {
    /// What is said where the rule is broken.
    pub open spec fn says(self) -> Seq<char> {
        match self {
            Rule::AgentIterations => "max_iterations must be > 0"@,
            Rule::SubAgentIterations => "sub_agents max_iterations must be > 0"@,
            Rule::ContextWindow => "context max_tokens must be > 0"@,
            Rule::ContextBudget => "context budget_percent must be 1..=100"@,
            Rule::ToolOutput => "context tool_output_tokens must be > 0"@,
            Rule::FreshTail => "context.lcm fresh_tail_count must be > 0"@,
            Rule::LeafChunk => "context.lcm leaf_chunk_tokens must be > 0"@,
            Rule::Fanout => "context.lcm min_condensed_fanout must be >= 2"@,
            Rule::SoftBudget => "context.lcm soft_budget_percent must be 1..=100"@,
            Rule::HardBudget => "context.lcm hard_budget_percent must be 1..=100"@,
            Rule::BudgetOrder => "context.lcm soft_budget_percent must be < hard_budget_percent"@,
            Rule::LargeFile => "context.lcm large_file_threshold must be > 0"@,
            Rule::LargeFileSummary => "context.lcm large_file_summary_tokens must be > 0"@,
            Rule::OutputReserve => "context max_tokens must be > provider max_tokens (output reserve)"@,
            Rule::MemoryIndexCap => "memory index_cap_bytes must be > 0"@,
            Rule::MemoryThreshold => "memory distill_threshold_tokens must be > 0"@,
            Rule::ProviderTokens => "max_tokens must be > 0"@,
            Rule::Temperature => "temperature must be between 0.0 and 2.0"@,
            Rule::TelegramChat => "telegram chat_id must be set when enabled"@,
            Rule::TelegramTimeout => "telegram poll_timeout_secs must be > 0"@,
            Rule::GithubPoll => "github poll_interval_secs must be > 0"@,
            Rule::GithubOwner => "github owner must be set when enabled"@,
            Rule::LinearPoll => "linear poll_interval_secs must be > 0"@,
            Rule::LinearUsers => "linear trusted_users must be non-empty when enabled"@,
            Rule::ExecTimeout => "timeout_secs must be > 0"@,
            Rule::FetchTimeout => "web_fetch timeout_secs must be > 0"@,
            Rule::FetchBytes => "web_fetch max_response_bytes must be > 0"@,
            Rule::SearchTokens => "web_search max_tokens must be > 0"@,
            Rule::SearchTimeout => "web_search timeout_secs must be > 0"@,
        }
    }

    /// What is said where the rule is broken.
    pub fn text(self) -> (r: &'static str)
        ensures
            r@ == self.says(),
    {
        match self {
            Rule::AgentIterations => "max_iterations must be > 0",
            Rule::SubAgentIterations => "sub_agents max_iterations must be > 0",
            Rule::ContextWindow => "context max_tokens must be > 0",
            Rule::ContextBudget => "context budget_percent must be 1..=100",
            Rule::ToolOutput => "context tool_output_tokens must be > 0",
            Rule::FreshTail => "context.lcm fresh_tail_count must be > 0",
            Rule::LeafChunk => "context.lcm leaf_chunk_tokens must be > 0",
            Rule::Fanout => "context.lcm min_condensed_fanout must be >= 2",
            Rule::SoftBudget => "context.lcm soft_budget_percent must be 1..=100",
            Rule::HardBudget => "context.lcm hard_budget_percent must be 1..=100",
            Rule::BudgetOrder => "context.lcm soft_budget_percent must be < hard_budget_percent",
            Rule::LargeFile => "context.lcm large_file_threshold must be > 0",
            Rule::LargeFileSummary => "context.lcm large_file_summary_tokens must be > 0",
            Rule::OutputReserve => "context max_tokens must be > provider max_tokens (output reserve)",
            Rule::MemoryIndexCap => "memory index_cap_bytes must be > 0",
            Rule::MemoryThreshold => "memory distill_threshold_tokens must be > 0",
            Rule::ProviderTokens => "max_tokens must be > 0",
            Rule::Temperature => "temperature must be between 0.0 and 2.0",
            Rule::TelegramChat => "telegram chat_id must be set when enabled",
            Rule::TelegramTimeout => "telegram poll_timeout_secs must be > 0",
            Rule::GithubPoll => "github poll_interval_secs must be > 0",
            Rule::GithubOwner => "github owner must be set when enabled",
            Rule::LinearPoll => "linear poll_interval_secs must be > 0",
            Rule::LinearUsers => "linear trusted_users must be non-empty when enabled",
            Rule::ExecTimeout => "timeout_secs must be > 0",
            Rule::FetchTimeout => "web_fetch timeout_secs must be > 0",
            Rule::FetchBytes => "web_fetch max_response_bytes must be > 0",
            Rule::SearchTokens => "web_search max_tokens must be > 0",
            Rule::SearchTimeout => "web_search timeout_secs must be > 0",
        }
    }
}

/// What is wrong with a prompt duty.
pub enum PromptError {
    /// The name is empty or holds whitespace.
    Name,
    /// The name is that of a built-in duty.
    Shadows,
    /// An earlier duty has the name.
    Duplicate,
    /// The prompt is blank.
    Prompt,
    /// The schedule is not one.
    Schedule(ScheduleError),
    /// The repository is not listed.
    Repo { repo: String },
    /// No such gate is known.
    Gate { gate: String },
    /// A gate needs the GitHub integration.
    NeedsGithub,
}

/// What is wrong with a prompt duty, by views.
pub enum PromptFault {
    Name,
    Shadows,
    Duplicate,
    Prompt,
    Schedule(ScheduleFault),
    Repo { repo: Seq<char> },
    Gate { gate: Seq<char> },
    NeedsGithub,
}

/// What is wrong with a repository entry.
#[derive(Clone, Copy, Debug, PartialEq, Eq, Structural)]
pub enum RepositoryFault {
    /// The key is no exact `owner/repo`.
    Key,
    /// A check command needs the git tools.
    NeedsGit,
    /// The check command is blank.
    Check,
}

/// Why a configuration is refused.
pub enum ConfigError {
    Rule(Rule),
    DistillSchedule(ScheduleError),
    WarmSchedule(ScheduleError),
    PromptDuty { name: String, error: PromptError },
    Repository { name: String, fault: RepositoryFault },
}

/// Why a configuration is refused, by views.
pub enum ConfigFault {
    Rule(Rule),
    DistillSchedule(ScheduleFault),
    WarmSchedule(ScheduleFault),
    PromptDuty { name: Seq<char>, cause: PromptFault },
    Repository { name: Seq<char>, fault: RepositoryFault },
}

impl View for PromptError {
    type V = PromptFault;

    open spec fn view(&self) -> PromptFault {
        match *self {
            PromptError::Name => PromptFault::Name,
            PromptError::Shadows => PromptFault::Shadows,
            PromptError::Duplicate => PromptFault::Duplicate,
            PromptError::Prompt => PromptFault::Prompt,
            PromptError::Schedule(e) => PromptFault::Schedule(e@),
            PromptError::Repo { repo } => PromptFault::Repo { repo: repo@ },
            PromptError::Gate { gate } => PromptFault::Gate { gate: gate@ },
            PromptError::NeedsGithub => PromptFault::NeedsGithub,
        }
    }
}

impl View for ConfigError {
    type V = ConfigFault;

    open spec fn view(&self) -> ConfigFault {
        match *self {
            ConfigError::Rule(rule) => ConfigFault::Rule(rule),
            ConfigError::DistillSchedule(e) => ConfigFault::DistillSchedule(e@),
            ConfigError::WarmSchedule(e) => ConfigFault::WarmSchedule(e@),
            ConfigError::PromptDuty { name, error } => ConfigFault::PromptDuty {
                name: name@,
                cause: error@,
            },
            ConfigError::Repository { name, fault } => ConfigFault::Repository {
                name: name@,
                fault,
            },
        }
    }
}

// ── Messages ────────────────────────────────────────────────────────

impl PromptFault {
    /// What is said of the fault.
    pub open spec fn text(self) -> Seq<char> {
        match self {
            PromptFault::Name => "name must be a single non-empty token"@,
            PromptFault::Shadows => "name shadows a built-in duty"@,
            PromptFault::Duplicate => "duplicate duty name"@,
            PromptFault::Prompt => "prompt must be non-empty"@,
            PromptFault::Schedule(fault) => fault.text(),
            PromptFault::Repo { repo } => "repo "@ + quoted(repo)
                + " is not in git.repositories"@,
            PromptFault::Gate { gate } => "unknown gate "@ + quoted(gate)
                + "; expected \"new-commits\""@,
            PromptFault::NeedsGithub => "gate \"new-commits\" requires github.enabled"@,
        }
    }
}

impl RepositoryFault {
    /// What is said of the fault.
    pub open spec fn says(self) -> Seq<char> {
        match self {
            RepositoryFault::Key => "key must be an exact owner/repo"@,
            RepositoryFault::NeedsGit => "check requires git.enabled (warming serves git_commit)"@,
            RepositoryFault::Check => "check command must be non-empty"@,
        }
    }

    /// What is said of the fault.
    pub fn text(self) -> (r: &'static str)
        ensures
            r@ == self.says(),
    {
        match self {
            RepositoryFault::Key => "key must be an exact owner/repo",
            RepositoryFault::NeedsGit => "check requires git.enabled (warming serves git_commit)",
            RepositoryFault::Check => "check command must be non-empty",
        }
    }
}

impl ConfigFault {
    /// What is said of the fault.
    pub open spec fn text(self) -> Seq<char> {
        match self {
            ConfigFault::Rule(rule) => rule.says(),
            ConfigFault::DistillSchedule(fault) => "duties.distill: "@ + fault.text(),
            ConfigFault::WarmSchedule(fault) => "duties.warm: "@ + fault.text(),
            ConfigFault::PromptDuty { name, cause } => "duties.prompt "@ + quoted(name) + ": "@
                + cause.text(),
            ConfigFault::Repository { name, fault } => "git.repositories "@ + quoted(name) + ": "@
                + fault.says(),
        }
    }
}

impl PromptError {
    /// What is said of the fault.
    pub fn message(&self) -> (r: String)
        ensures
            r@ == self@.text(),
    {
        match self {
            PromptError::Name => "name must be a single non-empty token".to_owned(),
            PromptError::Shadows => "name shadows a built-in duty".to_owned(),
            PromptError::Duplicate => "duplicate duty name".to_owned(),
            PromptError::Prompt => "prompt must be non-empty".to_owned(),
            PromptError::Schedule(e) => e.message(),
            PromptError::Repo { repo } => {
                let mut out = String::new();
                out.append("repo ");
                out.append(quote(repo.as_str()).as_str());
                out.append(" is not in git.repositories");
                assert(out@ =~= self@.text());
                out
            },
            PromptError::Gate { gate } => {
                let mut out = String::new();
                out.append("unknown gate ");
                out.append(quote(gate.as_str()).as_str());
                out.append("; expected \"new-commits\"");
                assert(out@ =~= self@.text());
                out
            },
            PromptError::NeedsGithub => "gate \"new-commits\" requires github.enabled".to_owned(),
        }
    }
}

impl ConfigError {
    /// What is said of the fault.
    pub fn message(&self) -> (r: String)
        ensures
            r@ == self@.text(),
    {
        let mut out = String::new();
        match self {
            ConfigError::Rule(rule) => out.append(rule.text()),
            ConfigError::DistillSchedule(e) => {
                out.append("duties.distill: ");
                out.append(e.message().as_str());
            },
            ConfigError::WarmSchedule(e) => {
                out.append("duties.warm: ");
                out.append(e.message().as_str());
            },
            ConfigError::PromptDuty { name, error } => {
                out.append("duties.prompt ");
                out.append(quote(name.as_str()).as_str());
                out.append(": ");
                out.append(error.message().as_str());
            },
            ConfigError::Repository { name, fault } => {
                out.append("git.repositories ");
                out.append(quote(name.as_str()).as_str());
                out.append(": ");
                out.append(fault.text());
            },
        }
        assert(out@ =~= self@.text());
        out
    }
}

// ── The context section ─────────────────────────────────────────────

impl LcmConfig {
    /// The first rule that the section breaks.
    pub open spec fn fault(&self) -> Option<Rule> {
        if self.fresh_tail_count == 0 {
            Some(Rule::FreshTail)
        } else if self.leaf_chunk_tokens == 0 {
            Some(Rule::LeafChunk)
        } else if self.min_condensed_fanout < 2 {
            Some(Rule::Fanout)
        } else if self.soft_budget_percent == 0 || self.soft_budget_percent > 100 {
            Some(Rule::SoftBudget)
        } else if self.hard_budget_percent == 0 || self.hard_budget_percent > 100 {
            Some(Rule::HardBudget)
        } else if self.soft_budget_percent >= self.hard_budget_percent {
            Some(Rule::BudgetOrder)
        } else if self.large_file_threshold == 0 {
            Some(Rule::LargeFile)
        } else if self.large_file_summary_tokens == 0 {
            Some(Rule::LargeFileSummary)
        } else {
            None
        }
    }

    /// Whether the section keeps every rule.
    pub open spec fn valid(&self) -> bool {
        &&& !(self.fresh_tail_count == 0)
        &&& !(self.leaf_chunk_tokens == 0)
        &&& !(self.min_condensed_fanout < 2)
        &&& !(self.soft_budget_percent == 0 || self.soft_budget_percent > 100)
        &&& !(self.hard_budget_percent == 0 || self.hard_budget_percent > 100)
        &&& !(self.soft_budget_percent >= self.hard_budget_percent)
        &&& !(self.large_file_threshold == 0)
        &&& !(self.large_file_summary_tokens == 0)
    }

    /// The section-local rules.
    pub fn validate(&self) -> (r: Result<(), Rule>)
        ensures
            r is Ok <==> self.valid(),
            match r {
                Ok(()) => self.fault() is None,
                Err(rule) => self.fault() == Some(rule),
            },
    {
        if self.fresh_tail_count == 0 {
            return Err(Rule::FreshTail);
        }
        if self.leaf_chunk_tokens == 0 {
            return Err(Rule::LeafChunk);
        }
        if self.min_condensed_fanout < 2 {
            return Err(Rule::Fanout);
        }
        if self.soft_budget_percent == 0 || self.soft_budget_percent > 100 {
            return Err(Rule::SoftBudget);
        }
        if self.hard_budget_percent == 0 || self.hard_budget_percent > 100 {
            return Err(Rule::HardBudget);
        }
        if self.soft_budget_percent >= self.hard_budget_percent {
            return Err(Rule::BudgetOrder);
        }
        if self.large_file_threshold == 0 {
            return Err(Rule::LargeFile);
        }
        if self.large_file_summary_tokens == 0 {
            return Err(Rule::LargeFileSummary);
        }
        Ok(())
    }
}

impl ContextConfig {
    /// The first rule that the section breaks.
    pub open spec fn fault(&self) -> Option<Rule> {
        if self.max_tokens == 0 {
            Some(Rule::ContextWindow)
        } else if self.budget_percent == 0 || self.budget_percent > 100 {
            Some(Rule::ContextBudget)
        } else if self.tool_output_tokens == 0 {
            Some(Rule::ToolOutput)
        } else {
            self.lcm.fault()
        }
    }

    /// Whether the section keeps every rule.
    pub open spec fn valid(&self) -> bool {
        &&& !(self.max_tokens == 0)
        &&& !(self.budget_percent == 0 || self.budget_percent > 100)
        &&& !(self.tool_output_tokens == 0)
        &&& self.lcm.valid()
    }

    /// The section-local rules.
    pub fn validate(&self) -> (r: Result<(), Rule>)
        ensures
            r is Ok <==> self.valid(),
            match r {
                Ok(()) => self.fault() is None,
                Err(rule) => self.fault() == Some(rule),
            },
    {
        if self.max_tokens == 0 {
            return Err(Rule::ContextWindow);
        }
        if self.budget_percent == 0 || self.budget_percent > 100 {
            return Err(Rule::ContextBudget);
        }
        if self.tool_output_tokens == 0 {
            return Err(Rule::ToolOutput);
        }
        self.lcm.validate()
    }
}

// ── Prompt duties ───────────────────────────────────────────────────

/// `c` as an ASCII lower-case letter where it is an upper-case one.
pub open spec fn ascii_lower(c: char) -> char {
    if 'A' <= c <= 'Z' {
        (c as u32 + 32) as char
    } else {
        c
    }
}

/// Whether two texts differ at most in the case of ASCII letters.
pub open spec fn same_ignoring_case(a: Seq<char>, b: Seq<char>) -> bool {
    a.len() == b.len() && forall|i: int|
        0 <= i < a.len() ==> ascii_lower(#[trigger] a[i]) == ascii_lower(b[i])
}

/// Whether `repo` is on the trust list.
pub open spec fn is_listed(repo: Seq<char>, trusted: Seq<Seq<char>>) -> bool {
    exists|i: int| 0 <= i < trusted.len() && same_ignoring_case(repo, #[trigger] trusted[i])
}

/// `c` as an ASCII lower-case letter where it is an upper-case one.
fn lower(c: char) -> (r: char)
    ensures
        r == ascii_lower(c),
{
    if 'A' <= c && c <= 'Z' {
        (c as u8 + 32) as char
    } else {
        c
    }
}

/// Whether two texts differ at most in the case of ASCII letters.
pub fn eq_ignore_case(a: &str, b: &str) -> (r: bool)
    ensures
        r == same_ignoring_case(a@, b@),
{
    let va = to_chars(a);
    let vb = to_chars(b);
    if va.len() != vb.len() {
        return false;
    }
    let mut i: usize = 0;
    while i < va.len()
        invariant
            va@ == a@,
            vb@ == b@,
            va@.len() == vb@.len(),
            i <= va@.len(),
            forall|j: int| 0 <= j < i ==> ascii_lower(#[trigger] a@[j]) == ascii_lower(b@[j]),
        decreases va@.len() - i,
    {
        if lower(va[i]) != lower(vb[i]) {
            assert(ascii_lower(a@[i as int]) != ascii_lower(b@[i as int]));
            return false;
        }
        i += 1;
    }
    true
}

/// Whether `repo` is on the trust list, whatever the case of its letters.
pub fn is_trusted_repo(repo: &str, trusted: &Vec<String>) -> (r: bool)
    ensures
        r == is_listed(repo@, views(trusted@)),
{
    let mut i: usize = 0;
    while i < trusted.len()
        invariant
            i <= trusted@.len(),
            forall|j: int|
                0 <= j < i ==> !same_ignoring_case(repo@, #[trigger] views(trusted@)[j]),
        decreases trusted@.len() - i,
    {
        assert(views(trusted@)[i as int] == trusted@[i as int]@);
        if eq_ignore_case(repo, trusted[i].as_str()) {
            return true;
        }
        i += 1;
    }
    false
}

/// What is wrong with the prompt duty at `i`.
pub open spec fn prompt_fault(
    duties: Seq<PromptDutyConfig>,
    i: int,
    trusted: Seq<Seq<char>>,
    github_enabled: bool,
) -> Option<PromptFault> {
    let p = duties[i];
    if p.name@.len() == 0 || exists|k: int| 0 <= k < p.name@.len() && is_space(#[trigger] p.name@[k]) {
        Some(PromptFault::Name)
    } else if p.name@ == "distill"@ || p.name@ == "warm"@ {
        Some(PromptFault::Shadows)
    } else if exists|j: int| 0 <= j < i && (#[trigger] duties[j]).name@ == p.name@ {
        Some(PromptFault::Duplicate)
    } else if is_blank(p.prompt@) {
        Some(PromptFault::Prompt)
    } else if p.schedule.meaning() is Err {
        Some(PromptFault::Schedule(p.schedule.meaning()->Err_0))
    } else if !is_listed(p.repo@, trusted) {
        Some(PromptFault::Repo { repo: p.repo@ })
    } else {
        match p.gate {
            None => None,
            Some(gate) => if gate@ != "new-commits"@ {
                Some(PromptFault::Gate { gate: gate@ })
            } else if !github_enabled {
                Some(PromptFault::NeedsGithub)
            } else {
                None
            },
        }
    }
}

/// The first fault among the prompt duties from `i` on.
pub open spec fn prompt_faults(
    duties: Seq<PromptDutyConfig>,
    i: int,
    trusted: Seq<Seq<char>>,
    github_enabled: bool,
) -> Option<ConfigFault>
    decreases duties.len() - i,
{
    if i >= duties.len() {
        None
    } else {
        match prompt_fault(duties, i, trusted, github_enabled) {
            Some(cause) => Some(ConfigFault::PromptDuty { name: duties[i].name@, cause }),
            None => prompt_faults(duties, i + 1, trusted, github_enabled),
        }
    }
}

/// Whether every interval among the prompt duties can be read.
pub open spec fn prompts_readable(duties: Seq<PromptDutyConfig>) -> bool {
    forall|i: int| 0 <= i < duties.len() ==> (#[trigger] duties[i]).schedule.readable()
}

/// Whether an earlier duty has the name of the one at `i`.
fn name_taken(duties: &Vec<PromptDutyConfig>, i: usize) -> (r: bool)
    requires
        i < duties@.len(),
    ensures
        r == exists|j: int| 0 <= j < i && (#[trigger] duties@[j]).name@ == duties@[i as int].name@,
{
    let mut j: usize = 0;
    while j < i
        invariant
            j <= i < duties@.len(),
            forall|k: int| 0 <= k < j ==> (#[trigger] duties@[k]).name@ != duties@[i as int].name@,
        decreases i - j,
    {
        if duties[j].name == duties[i].name {
            return true;
        }
        j += 1;
    }
    false
}

/// Checks the prompt duty at `i`.
pub fn check_prompt(
    duties: &Vec<PromptDutyConfig>,
    i: usize,
    trusted: &Vec<String>,
    github_enabled: bool,
) -> (r: Result<(), PromptError>)
    requires
        i < duties@.len(),
        duties@[i as int].schedule.readable(),
    ensures
        match r {
            Ok(()) => prompt_fault(duties@, i as int, views(trusted@), github_enabled) is None,
            Err(e) => prompt_fault(duties@, i as int, views(trusted@), github_enabled) == Some(e@),
        },
{
    let p = &duties[i];
    if p.name.as_str().is_empty() || has_space(p.name.as_str()) {
        return Err(PromptError::Name);
    }
    if same(p.name.as_str(), "distill") || same(p.name.as_str(), "warm") {
        return Err(PromptError::Shadows);
    }
    if name_taken(duties, i) {
        return Err(PromptError::Duplicate);
    }
    if blank(p.prompt.as_str()) {
        return Err(PromptError::Prompt);
    }
    match p.schedule.read() {
        Ok(_) => {},
        Err(e) => {
            return Err(PromptError::Schedule(e));
        },
    }
    if !is_trusted_repo(p.repo.as_str(), trusted) {
        return Err(PromptError::Repo { repo: p.repo.clone() });
    }
    match &p.gate {
        None => Ok(()),
        Some(gate) => {
            if !same(gate.as_str(), "new-commits") {
                Err(PromptError::Gate { gate: gate.clone() })
            } else if !github_enabled {
                Err(PromptError::NeedsGithub)
            } else {
                Ok(())
            }
        },
    }
}

// ── Repositories ────────────────────────────────────────────────────

/// Whether `s` holds `c`.
pub open spec fn holds(s: Seq<char>, c: char) -> bool {
    exists|i: int| 0 <= i < s.len() && #[trigger] s[i] == c
}

/// Whether `nwo` is an exact `owner/repo`: two non-empty parts, no wildcard.
pub open spec fn is_exact(nwo: Seq<char>) -> bool {
    let parts = split_at_char(nwo, '/');
    &&& parts.len() == 2
    &&& parts[0].len() > 0
    &&& parts[1].len() > 0
    &&& !holds(nwo, '*')
}

/// Whether `s` holds `c`.
pub fn has_char(s: &str, c: char) -> (r: bool)
    ensures
        r == holds(s@, c),
{
    let v = to_chars(s);
    assert(v@.skip(0) =~= v@);
    let k = find_from(&v, c, 0);
    k < v.len()
}

/// Whether `nwo` is an exact `owner/repo`.
pub fn exact(nwo: &str) -> (r: bool)
    ensures
        r == is_exact(nwo@),
{
    let parts = split(nwo, '/');
    assert(views(parts@).len() == parts@.len());
    if parts.len() != 2 {
        return false;
    }
    assert(views(parts@)[0] == parts@[0]@);
    assert(views(parts@)[1] == parts@[1]@);
    !parts[0].as_str().is_empty() && !parts[1].as_str().is_empty() && !has_char(nwo, '*')
}

/// What is wrong with a repository entry.
pub open spec fn repository_fault(
    name: Seq<char>,
    check: Option<Seq<char>>,
    git_enabled: bool,
) -> Option<RepositoryFault> {
    if !is_exact(name) {
        Some(RepositoryFault::Key)
    } else {
        match check {
            None => None,
            Some(command) => if !git_enabled {
                Some(RepositoryFault::NeedsGit)
            } else if is_blank(command) {
                Some(RepositoryFault::Check)
            } else {
                None
            },
        }
    }
}

/// The check command by its view.
pub open spec fn check_view(repo: RepoConfig) -> Option<Seq<char>> {
    match repo.check {
        Some(command) => Some(command@),
        None => None,
    }
}

/// The first fault among the repositories from `i` on.
pub open spec fn repository_faults(
    repositories: Seq<(String, RepoConfig)>,
    i: int,
    git_enabled: bool,
) -> Option<ConfigFault>
    decreases repositories.len() - i,
{
    if i >= repositories.len() {
        None
    } else {
        let (name, repo) = repositories[i];
        match repository_fault(name@, check_view(repo), git_enabled) {
            Some(fault) => Some(ConfigFault::Repository { name: name@, fault }),
            None => repository_faults(repositories, i + 1, git_enabled),
        }
    }
}

/// Checks a repository entry.
pub fn check_repository(name: &str, repo: &RepoConfig, git_enabled: bool) -> (r: Result<
    (),
    RepositoryFault,
>)
    ensures
        match r {
            Ok(()) => repository_fault(name@, check_view(*repo), git_enabled) is None,
            Err(fault) => repository_fault(name@, check_view(*repo), git_enabled) == Some(fault),
        },
{
    if !exact(name) {
        return Err(RepositoryFault::Key);
    }
    match &repo.check {
        None => Ok(()),
        Some(command) => {
            if !git_enabled {
                Err(RepositoryFault::NeedsGit)
            } else if blank(command.as_str()) {
                Err(RepositoryFault::Check)
            } else {
                Ok(())
            }
        },
    }
}

// ── The whole ───────────────────────────────────────────────────────

impl Config {
    /// Whether every interval that would be read can be.
    pub open spec fn readable(&self) -> bool {
        &&& self.duties.distill.readable()
        &&& self.duties.warm.readable()
        &&& prompts_readable(self.duties.prompt@)
    }

    /// Whether every interval that would be read can be.
    pub fn is_readable(&self) -> (r: bool)
        ensures
            r == self.readable(),
    {
        if !self.duties.distill.is_readable() || !self.duties.warm.is_readable() {
            return false;
        }
        let mut i: usize = 0;
        while i < self.duties.prompt.len()
            invariant
                i <= self.duties.prompt@.len(),
                forall|j: int|
                    0 <= j < i ==> (#[trigger] self.duties.prompt@[j]).schedule.readable(),
            decreases self.duties.prompt@.len() - i,
        {
            if !self.duties.prompt[i].schedule.is_readable() {
                assert(!self.duties.prompt@[i as int].schedule.readable());
                return false;
            }
            i += 1;
        }
        true
    }

    /// The first fault of the limits on agents, context and duties.
    pub open spec fn fault_in_limits(&self) -> Option<ConfigFault> {
        if self.agent.max_iterations == 0 {
            Some(ConfigFault::Rule(Rule::AgentIterations))
        } else if self.sub_agents.max_iterations == 0 {
            Some(ConfigFault::Rule(Rule::SubAgentIterations))
        } else if self.context.fault() is Some {
            Some(ConfigFault::Rule(self.context.fault()->0))
        } else if self.context.max_tokens <= self.provider.max_tokens {
            Some(ConfigFault::Rule(Rule::OutputReserve))
        } else if self.duties.distill.meaning() is Err {
            Some(ConfigFault::DistillSchedule(self.duties.distill.meaning()->Err_0))
        } else if self.duties.warm.meaning() is Err {
            Some(ConfigFault::WarmSchedule(self.duties.warm.meaning()->Err_0))
        } else {
            None
        }
    }

    /// The first fault of the operator's lists: prompt duties, then
    /// repositories.
    pub open spec fn fault_in_lists(&self) -> Option<ConfigFault> {
        match prompt_faults(
            self.duties.prompt@,
            0,
            repo_names(self.git.repositories@),
            self.github.enabled,
        ) {
            Some(fault) => Some(fault),
            None => repository_faults(self.git.repositories@, 0, self.git.enabled),
        }
    }

    /// The first broken rule of memory, provider, channels and tools.
    pub open spec fn fault_in_services(&self, temperature_in_range: bool) -> Option<Rule> {
        if self.memory.index_cap_bytes == 0 {
            Some(Rule::MemoryIndexCap)
        } else if self.memory.distill_threshold_tokens == 0 {
            Some(Rule::MemoryThreshold)
        } else if self.provider.max_tokens == 0 {
            Some(Rule::ProviderTokens)
        } else if !temperature_in_range {
            Some(Rule::Temperature)
        } else if self.telegram.enabled && self.telegram.chat_id == 0 {
            Some(Rule::TelegramChat)
        } else if self.telegram.enabled && self.telegram.poll_timeout_secs == 0 {
            Some(Rule::TelegramTimeout)
        } else if self.github.enabled && self.github.poll_interval_secs == 0 {
            Some(Rule::GithubPoll)
        } else if self.github.enabled && self.github.owner@.len() == 0 {
            Some(Rule::GithubOwner)
        } else if self.linear.enabled && self.linear.poll_interval_secs == 0 {
            Some(Rule::LinearPoll)
        } else if self.linear.enabled && self.linear.trusted_users@.len() == 0 {
            Some(Rule::LinearUsers)
        } else if self.tools.exec_tool.timeout_secs == 0 {
            Some(Rule::ExecTimeout)
        } else if self.tools.web_fetch.timeout_secs == 0 {
            Some(Rule::FetchTimeout)
        } else if self.tools.web_fetch.max_response_bytes == 0 {
            Some(Rule::FetchBytes)
        } else if self.tools.web_search.max_tokens == 0 {
            Some(Rule::SearchTokens)
        } else if self.tools.web_search.timeout_secs == 0 {
            Some(Rule::SearchTimeout)
        } else {
            None
        }
    }

    /// The first fault of the configuration.
    pub open spec fn fault(&self, temperature_in_range: bool) -> Option<ConfigFault> {
        match self.fault_in_limits() {
            Some(fault) => Some(fault),
            None => match self.fault_in_lists() {
                Some(fault) => Some(fault),
                None => match self.fault_in_services(temperature_in_range) {
                    Some(rule) => Some(ConfigFault::Rule(rule)),
                    None => None,
                },
            },
        }
    }

    /// Checks `[[duties.prompt]]`: a readable schedule, a single-token unique
    /// name that shadows no built-in, a prompt, and a listed repository.
    pub fn validate_prompt_duties(&self) -> (r: Result<(), ConfigError>)
        requires
            prompts_readable(self.duties.prompt@),
        ensures
            ({
                let fault = prompt_faults(
                    self.duties.prompt@,
                    0,
                    repo_names(self.git.repositories@),
                    self.github.enabled,
                );
                match r {
                    Ok(()) => fault is None,
                    Err(e) => fault == Some(e@),
                }
            }),
    {
        let trusted = self.git.trusted_repos();
        let ghost names = repo_names(self.git.repositories@);
        let mut i: usize = 0;
        while i < self.duties.prompt.len()
            invariant
                i <= self.duties.prompt@.len(),
                prompts_readable(self.duties.prompt@),
                views(trusted@) == names,
                names == repo_names(self.git.repositories@),
                prompt_faults(self.duties.prompt@, 0, names, self.github.enabled) == prompt_faults(
                    self.duties.prompt@,
                    i as int,
                    names,
                    self.github.enabled,
                ),
            decreases self.duties.prompt@.len() - i,
        {
            assert(self.duties.prompt@[i as int].schedule.readable());
            match check_prompt(&self.duties.prompt, i, &trusted, self.github.enabled) {
                Ok(()) => {},
                Err(error) => {
                    return Err(
                        ConfigError::PromptDuty { name: self.duties.prompt[i].name.clone(), error },
                    );
                },
            }
            i += 1;
        }
        Ok(())
    }

    /// Checks `[git.repositories]`: exact `owner/repo` keys; check commands
    /// that are not blank, and only with the git tools enabled.
    pub fn validate_repositories(&self) -> (r: Result<(), ConfigError>)
        ensures
            ({
                let fault = repository_faults(self.git.repositories@, 0, self.git.enabled);
                match r {
                    Ok(()) => fault is None,
                    Err(e) => fault == Some(e@),
                }
            }),
    {
        let mut i: usize = 0;
        while i < self.git.repositories.len()
            invariant
                i <= self.git.repositories@.len(),
                repository_faults(self.git.repositories@, 0, self.git.enabled)
                    == repository_faults(self.git.repositories@, i as int, self.git.enabled),
            decreases self.git.repositories@.len() - i,
        {
            let entry = &self.git.repositories[i];
            match check_repository(entry.0.as_str(), &entry.1, self.git.enabled) {
                Ok(()) => {},
                Err(fault) => {
                    return Err(ConfigError::Repository { name: entry.0.clone(), fault });
                },
            }
            i += 1;
        }
        Ok(())
    }

    /// Checks memory, provider, channels and tools.
    fn validate_services(&self, temperature_in_range: bool) -> (r: Result<(), Rule>)
        ensures
            match r {
                Ok(()) => self.fault_in_services(temperature_in_range) is None,
                Err(rule) => self.fault_in_services(temperature_in_range) == Some(rule),
            },
    {
        if self.memory.index_cap_bytes == 0 {
            return Err(Rule::MemoryIndexCap);
        }
        if self.memory.distill_threshold_tokens == 0 {
            return Err(Rule::MemoryThreshold);
        }
        if self.provider.max_tokens == 0 {
            return Err(Rule::ProviderTokens);
        }
        if !temperature_in_range {
            return Err(Rule::Temperature);
        }
        if self.telegram.enabled {
            if self.telegram.chat_id == 0 {
                return Err(Rule::TelegramChat);
            }
            if self.telegram.poll_timeout_secs == 0 {
                return Err(Rule::TelegramTimeout);
            }
        }
        if self.github.enabled && self.github.poll_interval_secs == 0 {
            return Err(Rule::GithubPoll);
        }
        if self.github.enabled && self.github.owner.as_str().is_empty() {
            return Err(Rule::GithubOwner);
        }
        if self.linear.enabled {
            if self.linear.poll_interval_secs == 0 {
                return Err(Rule::LinearPoll);
            }
            if self.linear.trusted_users.len() == 0 {
                return Err(Rule::LinearUsers);
            }
        }
        if self.tools.exec_tool.timeout_secs == 0 {
            return Err(Rule::ExecTimeout);
        }
        if self.tools.web_fetch.timeout_secs == 0 {
            return Err(Rule::FetchTimeout);
        }
        if self.tools.web_fetch.max_response_bytes == 0 {
            return Err(Rule::FetchBytes);
        }
        if self.tools.web_search.max_tokens == 0 {
            return Err(Rule::SearchTokens);
        }
        if self.tools.web_search.timeout_secs == 0 {
            return Err(Rule::SearchTimeout);
        }
        Ok(())
    }

    /// Checks the rules that the types alone cannot hold, and reports the
    /// first that is broken. Whether the sampling temperature lies between 0
    /// and 2 is for the caller to say.
    pub fn validate(&self, temperature_in_range: bool) -> (r: Result<(), ConfigError>)
        requires
            self.readable(),
        ensures
            match r {
                Ok(()) => self.fault(temperature_in_range) is None,
                Err(e) => self.fault(temperature_in_range) == Some(e@),
            },
    {
        if self.agent.max_iterations == 0 {
            return Err(ConfigError::Rule(Rule::AgentIterations));
        }
        if self.sub_agents.max_iterations == 0 {
            return Err(ConfigError::Rule(Rule::SubAgentIterations));
        }
        match self.context.validate() {
            Ok(()) => {},
            Err(rule) => {
                return Err(ConfigError::Rule(rule));
            },
        }
        if self.context.max_tokens <= self.provider.max_tokens {
            return Err(ConfigError::Rule(Rule::OutputReserve));
        }
        match self.duties.distill.read() {
            Ok(_) => {},
            Err(e) => {
                return Err(ConfigError::DistillSchedule(e));
            },
        }
        match self.duties.warm.read() {
            Ok(_) => {},
            Err(e) => {
                return Err(ConfigError::WarmSchedule(e));
            },
        }
        match self.validate_prompt_duties() {
            Ok(()) => {},
            Err(e) => {
                return Err(e);
            },
        }
        match self.validate_repositories() {
            Ok(()) => {},
            Err(e) => {
                return Err(e);
            },
        }
        match self.validate_services(temperature_in_range) {
            Ok(()) => Ok(()),
            Err(rule) => Err(ConfigError::Rule(rule)),
        }
    }
}

// ── Laws ────────────────────────────────────────────────────────────

/// A configuration that passes validation leaves a positive window once the
/// provider's output budget is reserved, and both schedules of the built-in
/// duties mean something.
pub proof fn valid_config_is_usable(c: Config, temperature_in_range: bool)
    requires
        c.fault(temperature_in_range) is None,
    ensures
        c.context.max_tokens > c.provider.max_tokens > 0,
        c.context.valid(),
        c.duties.distill.meaning() is Ok,
        c.duties.warm.meaning() is Ok,
        temperature_in_range,
{
}

proof fn lemma_no_prompt_fault(
    duties: Seq<PromptDutyConfig>,
    i: int,
    k: int,
    trusted: Seq<Seq<char>>,
    github_enabled: bool,
)
    requires
        0 <= i <= k < duties.len(),
        prompt_faults(duties, i, trusted, github_enabled) is None,
    ensures
        prompt_fault(duties, k, trusted, github_enabled) is None,
    decreases k - i,
{
    if i < k {
        lemma_no_prompt_fault(duties, i + 1, k, trusted, github_enabled);
    }
}

/// In a configuration that passes validation the prompt duties have names of
/// their own, none that of a built-in duty, and work on listed repositories.
pub proof fn valid_prompt_duties_are_distinct(
    c: Config,
    temperature_in_range: bool,
    i: int,
    j: int,
)
    requires
        c.fault(temperature_in_range) is None,
        0 <= i < j < c.duties.prompt@.len(),
    ensures
        c.duties.prompt@[i].name@ != c.duties.prompt@[j].name@,
        c.duties.prompt@[j].name@ != "distill"@,
        c.duties.prompt@[j].name@ != "warm"@,
        c.duties.prompt@[j].schedule.meaning() is Ok,
        is_listed(c.duties.prompt@[j].repo@, repo_names(c.git.repositories@)),
{
    lemma_no_prompt_fault(
        c.duties.prompt@,
        0,
        j,
        repo_names(c.git.repositories@),
        c.github.enabled,
    );
    assert(c.duties.prompt@[i].name@ == c.duties.prompt@[i].name@);
}

proof fn lemma_no_repository_fault(
    repositories: Seq<(String, RepoConfig)>,
    i: int,
    k: int,
    git_enabled: bool,
)
    requires
        0 <= i <= k < repositories.len(),
        repository_faults(repositories, i, git_enabled) is None,
    ensures
        repository_fault(repositories[k].0@, check_view(repositories[k].1), git_enabled) is None,
    decreases k - i,
{
    if i < k {
        lemma_no_repository_fault(repositories, i + 1, k, git_enabled);
    }
}

/// In a configuration that passes validation every repository is an exact
/// `owner/repo`, and a check command means that the git tools are enabled.
pub proof fn valid_repositories_are_exact(c: Config, temperature_in_range: bool, i: int)
    requires
        c.fault(temperature_in_range) is None,
        0 <= i < c.git.repositories@.len(),
    ensures
        is_exact(c.git.repositories@[i].0@),
        c.git.repositories@[i].1.check is Some ==> c.git.enabled,
{
    lemma_no_repository_fault(c.git.repositories@, 0, i, c.git.enabled);
}

proof fn lemma_hours_mean_something(s: Seq<char>, n: nat)
    requires
        s.len() >= 2,
        s.last() == 'h',
        s[0] != '+',
        all_digits(s.drop_last()),
        digits_value(s.drop_last()) == n,
        0 < n < 1000,
    ensures
        interval_of(s) is Ok,
{
    assert(s.take(s.len() - 1) =~= s.drop_last());
    assert(s.drop_last()[0] == s[0]);
}

/// The default configuration passes validation.
pub proof fn lemma_defaults_are_valid(c: Config)
    requires
        c.agent.max_iterations == 100,
        c.sub_agents.max_iterations == 30,
        c.context.fault() is None,
        c.context.max_tokens == 200_000,
        c.provider.max_tokens == 32_768,
        c.duties.distill.every matches Some(e) && e@ == "1h"@,
        c.duties.distill.daily is None,
        c.duties.warm.every matches Some(e) && e@ == "24h"@,
        c.duties.warm.daily is None,
        c.duties.prompt@.len() == 0,
        c.git.repositories@.len() == 0,
        c.fault_in_services(true) is None,
    ensures
        c.fault(true) is None,
{
    reveal_strlit("1h");
    reveal_strlit("24h");
    let one = "1h"@;
    let day = "24h"@;
    assert(one.drop_last() =~= Seq::empty().push('1'));
    assert(one.drop_last().drop_last() =~= Seq::empty());
    assert(digits_value(one.drop_last()) == 1) by {
        reveal_with_fuel(digits_value, 2);
    }
    lemma_hours_mean_something(one, 1);
    assert(day.drop_last() =~= Seq::empty().push('2').push('4'));
    assert(day.drop_last().drop_last() =~= Seq::empty().push('2'));
    assert(day.drop_last().drop_last().drop_last() =~= Seq::empty());
    assert(digits_value(day.drop_last()) == 24) by {
        reveal_with_fuel(digits_value, 3);
    }
    lemma_hours_mean_something(day, 24);
}

/// Whether a configuration breaks a rule on single values.
pub open spec fn breaks(c: Config, temperature_in_range: bool, rule: Rule) -> bool {
    let lcm = c.context.lcm;
    match rule {
        Rule::AgentIterations => c.agent.max_iterations == 0,
        Rule::SubAgentIterations => c.sub_agents.max_iterations == 0,
        Rule::ContextWindow => c.context.max_tokens == 0,
        Rule::ContextBudget => !(1 <= c.context.budget_percent <= 100),
        Rule::ToolOutput => c.context.tool_output_tokens == 0,
        Rule::FreshTail => lcm.fresh_tail_count == 0,
        Rule::LeafChunk => lcm.leaf_chunk_tokens == 0,
        Rule::Fanout => lcm.min_condensed_fanout < 2,
        Rule::SoftBudget => !(1 <= lcm.soft_budget_percent <= 100),
        Rule::HardBudget => !(1 <= lcm.hard_budget_percent <= 100),
        Rule::BudgetOrder => lcm.soft_budget_percent >= lcm.hard_budget_percent,
        Rule::LargeFile => lcm.large_file_threshold == 0,
        Rule::LargeFileSummary => lcm.large_file_summary_tokens == 0,
        Rule::OutputReserve => c.context.max_tokens <= c.provider.max_tokens,
        Rule::MemoryIndexCap => c.memory.index_cap_bytes == 0,
        Rule::MemoryThreshold => c.memory.distill_threshold_tokens == 0,
        Rule::ProviderTokens => c.provider.max_tokens == 0,
        Rule::Temperature => !temperature_in_range,
        Rule::TelegramChat => c.telegram.enabled && c.telegram.chat_id == 0,
        Rule::TelegramTimeout => c.telegram.enabled && c.telegram.poll_timeout_secs == 0,
        Rule::GithubPoll => c.github.enabled && c.github.poll_interval_secs == 0,
        Rule::GithubOwner => c.github.enabled && c.github.owner@.len() == 0,
        Rule::LinearPoll => c.linear.enabled && c.linear.poll_interval_secs == 0,
        Rule::LinearUsers => c.linear.enabled && c.linear.trusted_users@.len() == 0,
        Rule::ExecTimeout => c.tools.exec_tool.timeout_secs == 0,
        Rule::FetchTimeout => c.tools.web_fetch.timeout_secs == 0,
        Rule::FetchBytes => c.tools.web_fetch.max_response_bytes == 0,
        Rule::SearchTokens => c.tools.web_search.max_tokens == 0,
        Rule::SearchTimeout => c.tools.web_search.timeout_secs == 0,
    }
}

/// The rule that is reported is one that is broken, and a configuration that is
/// accepted breaks none.
pub proof fn reported_rules_are_broken(c: Config, temperature_in_range: bool, rule: Rule)
    ensures
        c.fault(temperature_in_range) == Some(ConfigFault::Rule(rule)) ==> breaks(
            c,
            temperature_in_range,
            rule,
        ),
        c.fault(temperature_in_range) is None ==> !breaks(c, temperature_in_range, rule),
{
    lemma_lists_report_no_rule(c.duties.prompt@, 0, repo_names(c.git.repositories@), c.github.enabled);
    lemma_repositories_report_no_rule(c.git.repositories@, 0, c.git.enabled);
}

proof fn lemma_lists_report_no_rule(
    duties: Seq<PromptDutyConfig>,
    i: int,
    trusted: Seq<Seq<char>>,
    github_enabled: bool,
)
    ensures
        prompt_faults(duties, i, trusted, github_enabled) matches Some(f) ==> f is PromptDuty,
    decreases duties.len() - i,
{
    if i < duties.len() {
        lemma_lists_report_no_rule(duties, i + 1, trusted, github_enabled);
    }
}

proof fn lemma_repositories_report_no_rule(
    repositories: Seq<(String, RepoConfig)>,
    i: int,
    git_enabled: bool,
)
    ensures
        repository_faults(repositories, i, git_enabled) matches Some(f) ==> f is Repository,
    decreases repositories.len() - i,
{
    if i < repositories.len() {
        lemma_repositories_report_no_rule(repositories, i + 1, git_enabled);
    }
}

/// A configuration is accepted exactly where it breaks no rule, both built-in
/// schedules mean something, and every prompt duty and every repository is as
/// it must be.
pub proof fn exactly_sound_configurations_are_accepted(c: Config, temperature_in_range: bool)
    ensures
        c.fault(temperature_in_range) is None <==> {
            &&& forall|rule: Rule| !#[trigger] breaks(c, temperature_in_range, rule)
            &&& c.duties.distill.meaning() is Ok
            &&& c.duties.warm.meaning() is Ok
            &&& forall|i: int|
                0 <= i < c.duties.prompt@.len() ==> #[trigger] is_sound_prompt(
                    c.duties.prompt@,
                    i,
                    repo_names(c.git.repositories@),
                    c.github.enabled,
                )
            &&& forall|i: int|
                0 <= i < c.git.repositories@.len() ==> is_sound_repository(
                    (#[trigger] c.git.repositories@[i]).0@,
                    check_view(c.git.repositories@[i].1),
                    c.git.enabled,
                )
        },
{
    let trusted = repo_names(c.git.repositories@);
    lemma_prompts_are_sound(c.duties.prompt@, 0, trusted, c.github.enabled);
    lemma_repositories_are_sound(c.git.repositories@, 0, c.git.enabled);
    if c.fault(temperature_in_range) is None {
        assert forall|rule: Rule| !#[trigger] breaks(c, temperature_in_range, rule) by {
            reported_rules_are_broken(c, temperature_in_range, rule);
        }
    }
    if forall|rule: Rule| !#[trigger] breaks(c, temperature_in_range, rule) {
        lemma_nothing_is_broken(c, temperature_in_range);
    }
}

/// Where no rule is broken, none is reported.
proof fn lemma_nothing_is_broken(c: Config, temperature_in_range: bool)
    requires
        forall|rule: Rule| !#[trigger] breaks(c, temperature_in_range, rule),
    ensures
        c.context.fault() is None,
        c.agent.max_iterations > 0,
        c.sub_agents.max_iterations > 0,
        c.context.max_tokens > c.provider.max_tokens,
        c.fault_in_services(temperature_in_range) is None,
{
    let t = temperature_in_range;
    assert(!breaks(c, t, Rule::AgentIterations));
    assert(!breaks(c, t, Rule::SubAgentIterations));
    assert(!breaks(c, t, Rule::ContextWindow));
    assert(!breaks(c, t, Rule::ContextBudget));
    assert(!breaks(c, t, Rule::ToolOutput));
    assert(!breaks(c, t, Rule::FreshTail));
    assert(!breaks(c, t, Rule::LeafChunk));
    assert(!breaks(c, t, Rule::Fanout));
    assert(!breaks(c, t, Rule::SoftBudget));
    assert(!breaks(c, t, Rule::HardBudget));
    assert(!breaks(c, t, Rule::BudgetOrder));
    assert(!breaks(c, t, Rule::LargeFile));
    assert(!breaks(c, t, Rule::LargeFileSummary));
    assert(!breaks(c, t, Rule::OutputReserve));
    assert(!breaks(c, t, Rule::MemoryIndexCap));
    assert(!breaks(c, t, Rule::MemoryThreshold));
    assert(!breaks(c, t, Rule::ProviderTokens));
    assert(!breaks(c, t, Rule::Temperature));
    assert(!breaks(c, t, Rule::TelegramChat));
    assert(!breaks(c, t, Rule::TelegramTimeout));
    assert(!breaks(c, t, Rule::GithubPoll));
    assert(!breaks(c, t, Rule::GithubOwner));
    assert(!breaks(c, t, Rule::LinearPoll));
    assert(!breaks(c, t, Rule::LinearUsers));
    assert(!breaks(c, t, Rule::ExecTimeout));
    assert(!breaks(c, t, Rule::FetchTimeout));
    assert(!breaks(c, t, Rule::FetchBytes));
    assert(!breaks(c, t, Rule::SearchTokens));
    assert(!breaks(c, t, Rule::SearchTimeout));
}

/// Whether a prompt duty is as it must be: a name of one word that is neither
/// built in nor taken, a prompt, a schedule, a listed repository, and at most
/// the one gate there is, which needs the GitHub integration.
pub open spec fn is_sound_prompt(
    duties: Seq<PromptDutyConfig>,
    i: int,
    trusted: Seq<Seq<char>>,
    github_enabled: bool,
) -> bool {
    let p = duties[i];
    &&& p.name@.len() > 0
    &&& forall|k: int| 0 <= k < p.name@.len() ==> !is_space(#[trigger] p.name@[k])
    &&& p.name@ != "distill"@ && p.name@ != "warm"@
    &&& forall|j: int| 0 <= j < i ==> (#[trigger] duties[j]).name@ != p.name@
    &&& exists|k: int| 0 <= k < p.prompt@.len() && !is_space(#[trigger] p.prompt@[k])
    &&& p.schedule.meaning() is Ok
    &&& exists|k: int| 0 <= k < trusted.len() && same_ignoring_case(p.repo@, #[trigger] trusted[k])
    &&& p.gate matches Some(gate) ==> gate@ == "new-commits"@ && github_enabled
}

proof fn lemma_prompts_are_sound(
    duties: Seq<PromptDutyConfig>,
    i: int,
    trusted: Seq<Seq<char>>,
    github_enabled: bool,
)
    requires
        0 <= i,
    ensures
        prompt_faults(duties, i, trusted, github_enabled) is None <==> forall|k: int|
            i <= k < duties.len() ==> #[trigger] is_sound_prompt(
                duties,
                k,
                trusted,
                github_enabled,
            ),
    decreases duties.len() - i,
{
    if i < duties.len() {
        lemma_prompts_are_sound(duties, i + 1, trusted, github_enabled);
        assert(prompt_fault(duties, i, trusted, github_enabled) is None <==> is_sound_prompt(
            duties,
            i,
            trusted,
            github_enabled,
        ));
    }
}

/// Whether a repository entry is as it must be: its key names an owner and a
/// repository, and a check command is not blank and needs the git tools.
pub open spec fn is_sound_repository(
    name: Seq<char>,
    check: Option<Seq<char>>,
    git_enabled: bool,
) -> bool {
    &&& exists|owner: Seq<char>, repo: Seq<char>| #[trigger]
        is_owner_and_repo(name, owner, repo)
    &&& !name.contains('*')
    &&& check matches Some(command) ==> git_enabled && exists|k: int|
        0 <= k < command.len() && !is_space(#[trigger] command[k])
}

/// Whether a key is an owner, a slash and a repository.
pub open spec fn is_owner_and_repo(name: Seq<char>, owner: Seq<char>, repo: Seq<char>) -> bool {
    &&& name == owner + seq!['/'] + repo
    &&& owner.len() > 0 && !owner.contains('/')
    &&& repo.len() > 0 && !repo.contains('/')
}

proof fn lemma_exact(nwo: Seq<char>)
    ensures
        is_exact(nwo) <==> !nwo.contains('*') && exists|owner: Seq<char>, repo: Seq<char>| #[trigger]
            is_owner_and_repo(nwo, owner, repo),
{
    let parts = split_at_char(nwo, '/');
    split_pieces_join_back(nwo, '/');
    assert(holds(nwo, '*') <==> nwo.contains('*'));
    if is_exact(nwo) {
        assert(parts =~= seq![parts[0]] + seq![parts[1]]);
        lemma_joined_cons(parts[0], seq![parts[1]], seq!['/']);
        assert(is_owner_and_repo(nwo, parts[0], parts[1]));
    }
    if exists|owner: Seq<char>, repo: Seq<char>| #[trigger] is_owner_and_repo(nwo, owner, repo) {
        let (owner, repo) = choose|owner: Seq<char>, repo: Seq<char>| #[trigger]
            is_owner_and_repo(nwo, owner, repo);
        lemma_split_in_two(owner, repo);
    }
}

proof fn lemma_split_in_two(owner: Seq<char>, repo: Seq<char>)
    requires
        !owner.contains('/'),
        !repo.contains('/'),
    ensures
        split_at_char(owner + seq!['/'] + repo, '/') == seq![owner, repo],
{
    let s = owner + seq!['/'] + repo;
    let n = owner.len() as int;
    assert(s[n] == '/');
    assert forall|j: int| 0 <= j < n implies s[j] != '/' by {
        assert(s[j] == owner[j]);
        assert(owner.contains(owner[j]));
    }
    lemma_find_char_unique(s, '/', n);
    assert(s.take(n) =~= owner);
    assert(s.skip(n + 1) =~= repo);
    assert forall|j: int| 0 <= j < repo.len() implies repo[j] != '/' by {
        assert(repo.contains(repo[j]));
    }
    lemma_find_char_unique(repo, '/', repo.len() as int);
    assert(split_at_char(repo, '/') == seq![repo]);
    assert(seq![owner] + seq![repo] =~= seq![owner, repo]);
}

proof fn lemma_repositories_are_sound(
    repositories: Seq<(String, RepoConfig)>,
    i: int,
    git_enabled: bool,
)
    requires
        0 <= i,
    ensures
        repository_faults(repositories, i, git_enabled) is None <==> forall|k: int|
            i <= k < repositories.len() ==> is_sound_repository(
                (#[trigger] repositories[k]).0@,
                check_view(repositories[k].1),
                git_enabled,
            ),
    decreases repositories.len() - i,
{
    if i < repositories.len() {
        lemma_repositories_are_sound(repositories, i + 1, git_enabled);
        let name = repositories[i].0@;
        let check = check_view(repositories[i].1);
        lemma_exact(name);
        assert(repository_fault(name, check, git_enabled) is None <==> is_sound_repository(
            name,
            check,
            git_enabled,
        ));
        if repository_fault(name, check, git_enabled) is Some {
            assert(repositories[i].0@ == name);
        }
    }
}

/// Case does not matter for letters of ASCII, and nothing else is taken for
/// another: texts are alike where each character is the same, or the two are a
/// letter in its two cases.
pub proof fn only_the_case_of_letters_is_ignored(a: Seq<char>, b: Seq<char>)
    ensures
        same_ignoring_case(a, b) <==> a.len() == b.len() && forall|i: int|
            0 <= i < a.len() ==> #[trigger] a[i] == b[i] || ('A' <= a[i] <= 'Z' && b[i] as u32
                == a[i] as u32 + 32) || ('A' <= b[i] <= 'Z' && a[i] as u32 == b[i] as u32 + 32),
{
    if same_ignoring_case(a, b) {
        assert forall|i: int| 0 <= i < a.len() implies #[trigger] a[i] == b[i] || ('A' <= a[i]
            <= 'Z' && b[i] as u32 == a[i] as u32 + 32) || ('A' <= b[i] <= 'Z' && a[i] as u32
            == b[i] as u32 + 32) by {
            assert(ascii_lower(a[i]) == ascii_lower(b[i]));
        }
    }
}

} // verus!
