//! The agent's configuration: its sections, their defaults and their rules.
//!
//! The daemon reads the file and hands the values over; what makes them valid
//! is said in [`rules`].

pub mod rules;

use vstd::prelude::*;

use crate::duty::schedule::{
    interval_of, interval_readable, is_interval_readable, read_interval, read_time, time_fault,
    time_fault_text, time_of_day, IntervalFault, Schedule,
};
use crate::text::{has_prefix, has_suffix, quote, quoted, same, starts_with, views};

verus! {

/// Top-level configuration. The sampling temperature is not held here; the
/// daemon says whether it is in range when it asks for validation.
#[derive(Debug)]
pub struct Config {
    pub agent: AgentConfig,
    pub context: ContextConfig,
    pub git: GitConfig,
    pub github: GithubConfig,
    pub duties: DutiesConfig,
    pub linear: LinearConfig,
    pub mcp: McpConfig,
    pub memory: MemoryConfig,
    pub provider: ProviderConfig,
    pub review: ReviewConfig,
    pub socket: SocketConfig,
    pub sub_agents: SubAgentsConfig,
    pub telegram: TelegramConfig,
    pub tools: ToolsConfig,
}

/// Agent loop settings.
#[derive(Debug)]
pub struct AgentConfig {
    pub max_iterations: usize,
}

/// MCP servers. No servers means no MCP anywhere.
#[derive(Debug)]
pub struct McpConfig {
    /// Spawn, handshake and listing budget per server, in seconds.
    pub startup_timeout_secs: u64,
    /// Per-call budget, in seconds.
    pub call_timeout_secs: u64,
    /// The servers by name.
    pub servers: Vec<(String, McpServerConfig)>,
}

/// One MCP server child.
#[derive(Debug)]
pub struct McpServerConfig {
    /// Executable to spawn, resolved via `PATH`.
    pub command: String,
    /// Argument vector.
    pub args: Vec<String>,
    /// Extra environment variables.
    pub env: Vec<(String, String)>,
    /// Environment variable to credential name.
    pub env_credentials: Vec<(String, String)>,
    /// Advertised tool names to register; unset means all.
    pub tools: Option<Vec<String>>,
    /// Admit this server's tools to the read-only sub-agent sets.
    pub explore: bool,
}

/// Self-review pipeline.
#[derive(Debug)]
pub struct ReviewConfig {
    /// Opens the ledger of findings on pull requests.
    pub enabled: bool,
}

/// Sub-agent settings.
#[derive(Debug)]
pub struct SubAgentsConfig {
    /// Tool-loop iteration cap per sub-agent turn.
    pub max_iterations: usize,
}

/// Model provider settings.
#[derive(Debug)]
pub struct ProviderConfig {
    /// Chat completions API to use.
    pub api: Api,
    pub model: String,
    /// Output budget per request.
    pub max_tokens: u32,
    /// Per-role model overrides. Unset roles use `model`.
    pub model_overrides: ModelOverrides,
}

/// Per-role model overrides.
#[derive(Debug)]
pub struct ModelOverrides {
    /// Model for read-only research.
    pub explore: Option<String>,
    /// Model for delegated implementation.
    pub worker: Option<String>,
    /// Model for self-review gates.
    pub reviewer: Option<String>,
    /// Model for context-compaction summaries.
    pub summarizer: Option<String>,
    /// Model for memory distillation turns.
    pub memory: Option<String>,
}

/// Chat completions API: a known provider, or a custom endpoint.
#[derive(Debug)]
pub enum Api {
    OpenRouter,
    OpenAi,
    Groq,
    Together,
    Mistral,
    Custom(String),
}

/// Tool-level settings.
#[derive(Debug)]
pub struct ToolsConfig {
    /// Tool names to leave out of the agent's toolbox.
    pub disabled: Vec<String>,
    pub exec_tool: ExecConfig,
    pub web_fetch: WebFetchConfig,
    pub web_search: WebSearchConfig,
}

/// Settings for the `exec` tool.
#[derive(Debug)]
pub struct ExecConfig {
    pub timeout_secs: u64,
    /// Wrap each command in a sandbox.
    pub sandbox: bool,
}

/// Settings for the `web_fetch` tool.
#[derive(Debug)]
pub struct WebFetchConfig {
    pub timeout_secs: u64,
    pub max_response_bytes: usize,
}

/// Settings for the `web_search` tool.
#[derive(Debug)]
pub struct WebSearchConfig {
    pub model: String,
    pub max_tokens: u32,
    pub timeout_secs: u64,
}

/// Duty scheduler settings.
#[derive(Debug)]
pub struct DutiesConfig {
    /// Schedule for the distillation duty.
    pub distill: ScheduleConfig,
    /// Operator-defined prompt duties.
    pub prompt: Vec<PromptDutyConfig>,
    /// Schedule for the build-warm duty.
    pub warm: ScheduleConfig,
}

/// One operator-defined prompt duty.
#[derive(Debug)]
pub struct PromptDutyConfig {
    /// A single token, unique across all duties.
    pub name: String,
    pub schedule: ScheduleConfig,
    /// Repository the duty works on (`owner/repo`).
    pub repo: String,
    /// Optional gate; `"new-commits"` dispatches only on new commits.
    pub gate: Option<String>,
    /// The turn's prompt text.
    pub prompt: String,
}

/// One duty's schedule: exactly one of `every` (an interval) or `daily` (a
/// UTC time of day).
#[derive(Debug)]
pub struct ScheduleConfig {
    pub every: Option<String>,
    pub daily: Option<String>,
}

/// Memory subsystem settings.
#[derive(Clone, Copy, Debug)]
pub struct MemoryConfig {
    /// Byte cap on the memory index in the system prompt.
    pub index_cap_bytes: usize,
    /// Undistilled tokens that open the distillation gate.
    pub distill_threshold_tokens: u64,
}

/// Telegram channel settings.
#[derive(Debug)]
pub struct TelegramConfig {
    pub api_base: String,
    pub enabled: bool,
    /// Chat to accept messages from. Must be set when enabled.
    pub chat_id: i64,
    /// Long-poll timeout in seconds.
    pub poll_timeout_secs: u64,
}

/// Unix domain socket channel settings.
#[derive(Debug)]
pub struct SocketConfig {
    pub path: String,
    /// Peer uids that the socket serves.
    pub allowed_uids: Vec<u32>,
}

/// Context window management settings.
#[derive(Clone, Copy, Debug)]
pub struct ContextConfig {
    pub engine: EngineKind,
    /// Maximum context window size in tokens.
    pub max_tokens: u32,
    /// Percentage of `max_tokens` at which the flat engine compacts.
    pub budget_percent: u8,
    /// Tool results above this many estimated tokens are size-limited.
    pub tool_output_tokens: u32,
    pub lcm: LcmConfig,
}

/// Compaction tuning of the LCM engine.
#[derive(Clone, Copy, Debug)]
pub struct LcmConfig {
    /// The newest messages that are never compacted.
    pub fresh_tail_count: u32,
    /// Maximum tokens per leaf or condensed chunk.
    pub leaf_chunk_tokens: u32,
    /// Minimum children to form a condensed summary.
    pub min_condensed_fanout: u32,
    /// Percent of `max_tokens` at which background compaction starts.
    pub soft_budget_percent: u8,
    /// Percent of `max_tokens` at which compaction blocks.
    pub hard_budget_percent: u8,
    /// Messages above this many estimated tokens are stored on disk.
    pub large_file_threshold: u32,
    /// Token bound on exploration summaries.
    pub large_file_summary_tokens: u32,
}

/// Which context engine to use.
#[derive(Clone, Copy, Debug, PartialEq, Eq, Structural)]
pub enum EngineKind {
    Flat,
    Lcm,
}

/// Git settings.
#[derive(Debug)]
pub struct GitConfig {
    /// Base URL that clones and fetches resolve `owner/repo` against.
    pub clone_base: String,
    pub enabled: bool,
    /// `Co-authored-by` trailers, each `"Name <email>"`.
    pub co_authors: Vec<String>,
    /// The trusted repositories in the order of their names, no name twice.
    pub repositories: Vec<(String, RepoConfig)>,
}

/// Settings for one repository.
#[derive(Debug)]
pub struct RepoConfig {
    /// The repository's check command.
    pub check: Option<String>,
}

/// GitHub integration settings.
#[derive(Debug)]
pub struct GithubConfig {
    pub api_base: String,
    pub enabled: bool,
    /// Seconds between polling cycles.
    pub poll_interval_secs: u64,
    /// Username of the bot owner. Required when enabled.
    pub owner: String,
    /// Further usernames allowed to interact with the bot.
    pub trusted_users: Vec<String>,
    /// App bot logins whose feedback the bot acts on.
    pub trusted_bots: Vec<String>,
}

/// Linear channel settings.
#[derive(Debug)]
pub struct LinearConfig {
    pub api_base: String,
    pub enabled: bool,
    /// Seconds between polling cycles.
    pub poll_interval_secs: u64,
    /// Email addresses allowed to interact with the bot.
    pub trusted_users: Vec<String>,
}

// ── Defaults ────────────────────────────────────────────────────────

impl Default for McpConfig {
    fn default() -> (c: Self)
        ensures
            c.startup_timeout_secs == 30,
            c.call_timeout_secs == 60,
            c.servers@.len() == 0,
    {
        McpConfig {
            startup_timeout_secs: 30,
            call_timeout_secs: 60,
            servers: Vec::new(),
        }
    }
}

impl Default for ReviewConfig {
    fn default() -> (c: Self)
        ensures
            c.enabled,
    {
        ReviewConfig {
            enabled: true,
        }
    }
}

impl Default for AgentConfig {
    fn default() -> (c: Self)
        ensures
            c.max_iterations == 100,
    {
        AgentConfig {
            max_iterations: 100,
        }
    }
}

impl Default for SubAgentsConfig {
    fn default() -> (c: Self)
        ensures
            c.max_iterations == 30,
    {
        SubAgentsConfig {
            max_iterations: 30,
        }
    }
}

impl Default for Api {
    fn default() -> (c: Self)
        ensures
            c is OpenRouter,
    {
        Api::OpenRouter
    }
}

impl Default for ModelOverrides {
    fn default() -> (c: Self)
        ensures
            c.explore is None,
            c.worker is None,
            c.reviewer is None,
            c.summarizer is None,
            c.memory is None,
    {
        ModelOverrides {
            explore: None,
            worker: None,
            reviewer: None,
            summarizer: None,
            memory: None,
        }
    }
}

impl Default for ProviderConfig {
    fn default() -> (c: Self)
        ensures
            c.api is OpenRouter,
            c.model@ == "arcee-ai/trinity-large-preview:free"@,
            c.max_tokens == 32_768,
            c.model_overrides.explore is None,
            c.model_overrides.worker is None,
            c.model_overrides.reviewer is None,
            c.model_overrides.summarizer is None,
            c.model_overrides.memory is None,
    {
        ProviderConfig {
            api: Api::OpenRouter,
            model: "arcee-ai/trinity-large-preview:free".to_owned(),
            max_tokens: 32_768,
            model_overrides: ModelOverrides::default(),
        }
    }
}

impl Default for ExecConfig {
    fn default() -> (c: Self)
        ensures
            c.timeout_secs == 600,
            !c.sandbox,
    {
        ExecConfig {
            timeout_secs: 600,
            sandbox: false,
        }
    }
}

impl Default for WebFetchConfig {
    fn default() -> (c: Self)
        ensures
            c.timeout_secs == 30,
            c.max_response_bytes == 524_288,
    {
        WebFetchConfig {
            timeout_secs: 30,
            max_response_bytes: 524_288,
        }
    }
}

impl Default for WebSearchConfig {
    fn default() -> (c: Self)
        ensures
            c.model@ == "perplexity/sonar"@,
            c.max_tokens == 1024,
            c.timeout_secs == 30,
    {
        WebSearchConfig {
            model: "perplexity/sonar".to_owned(),
            max_tokens: 1024,
            timeout_secs: 30,
        }
    }
}

impl Default for ToolsConfig {
    fn default() -> (c: Self)
        ensures
            c.disabled@.len() == 0,
            c.exec_tool.timeout_secs == 600,
            !c.exec_tool.sandbox,
            c.web_fetch.timeout_secs == 30,
            c.web_fetch.max_response_bytes == 524_288,
            c.web_search.model@ == "perplexity/sonar"@,
            c.web_search.max_tokens == 1024,
            c.web_search.timeout_secs == 30,
    {
        ToolsConfig {
            disabled: Vec::new(),
            exec_tool: ExecConfig::default(),
            web_fetch: WebFetchConfig::default(),
            web_search: WebSearchConfig::default(),
        }
    }
}

impl Default for ScheduleConfig {
    fn default() -> (c: Self)
        ensures
            c.every is None,
            c.daily is None,
    {
        ScheduleConfig {
            every: None,
            daily: None,
        }
    }
}

impl Default for DutiesConfig {
    fn default() -> (c: Self)
        ensures
            c.distill.every matches Some(e) && e@ == "1h"@,
            c.distill.daily is None,
            c.prompt@.len() == 0,
            c.warm.every matches Some(e) && e@ == "24h"@,
            c.warm.daily is None,
    {
        DutiesConfig {
            distill: ScheduleConfig { every: Some("1h".to_owned()), daily: None },
            prompt: Vec::new(),
            warm: ScheduleConfig { every: Some("24h".to_owned()), daily: None },
        }
    }
}

impl Default for MemoryConfig {
    fn default() -> (c: Self)
        ensures
            c.index_cap_bytes == 8192,
            c.distill_threshold_tokens == 40_000,
    {
        MemoryConfig {
            index_cap_bytes: 8192,
            distill_threshold_tokens: 40_000,
        }
    }
}

impl Default for TelegramConfig {
    fn default() -> (c: Self)
        ensures
            c.api_base@ == "https://api.telegram.org"@,
            !c.enabled,
            c.chat_id == 0,
            c.poll_timeout_secs == 30,
    {
        TelegramConfig {
            api_base: "https://api.telegram.org".to_owned(),
            enabled: false,
            chat_id: 0,
            poll_timeout_secs: 30,
        }
    }
}

impl Default for SocketConfig {
    fn default() -> (c: Self)
        ensures
            c.path@ == "/run/kitaebot/chat.sock"@,
            c.allowed_uids@ == seq![0u32],
    {
        let mut allowed_uids: Vec<u32> = Vec::new();
        allowed_uids.push(0);
        SocketConfig { path: "/run/kitaebot/chat.sock".to_owned(), allowed_uids }
    }
}

impl Default for LcmConfig {
    fn default() -> (c: Self)
        ensures
            c.fresh_tail_count == 32,
            c.leaf_chunk_tokens == 20_000,
            c.min_condensed_fanout == 2,
            c.soft_budget_percent == 70,
            c.hard_budget_percent == 90,
            c.large_file_threshold == 25_000,
            c.large_file_summary_tokens == 400,
    {
        LcmConfig {
            fresh_tail_count: 32,
            leaf_chunk_tokens: 20_000,
            min_condensed_fanout: 2,
            soft_budget_percent: 70,
            hard_budget_percent: 90,
            large_file_threshold: 25_000,
            large_file_summary_tokens: 400,
        }
    }
}

impl Default for EngineKind {
    fn default() -> (c: Self)
        ensures
            c == EngineKind::Flat,
    {
        EngineKind::Flat
    }
}

impl Default for ContextConfig {
    fn default() -> (c: Self)
        ensures
            c.engine == EngineKind::Flat,
            c.max_tokens == 200_000,
            c.budget_percent == 80,
            c.tool_output_tokens == 4096,
            c.lcm == (LcmConfig {
                fresh_tail_count: 32,
                leaf_chunk_tokens: 20_000,
                min_condensed_fanout: 2,
                soft_budget_percent: 70,
                hard_budget_percent: 90,
                large_file_threshold: 25_000,
                large_file_summary_tokens: 400,
            }),
    {
        ContextConfig {
            engine: EngineKind::Flat,
            max_tokens: 200_000,
            budget_percent: 80,
            tool_output_tokens: 4096,
            lcm: LcmConfig::default(),
        }
    }
}

impl Default for RepoConfig {
    fn default() -> (c: Self)
        ensures
            c.check is None,
    {
        RepoConfig {
            check: None,
        }
    }
}

impl Default for GitConfig {
    fn default() -> (c: Self)
        ensures
            c.clone_base@ == "https://github.com"@,
            !c.enabled,
            c.co_authors@.len() == 0,
            c.repositories@.len() == 0,
    {
        GitConfig {
            clone_base: "https://github.com".to_owned(),
            enabled: false,
            co_authors: Vec::new(),
            repositories: Vec::new(),
        }
    }
}

impl Default for GithubConfig {
    fn default() -> (c: Self)
        ensures
            c.api_base@ == "https://api.github.com"@,
            !c.enabled,
            c.poll_interval_secs == 300,
            c.owner@ == Seq::<char>::empty(),
            c.trusted_users@.len() == 0,
            c.trusted_bots@.len() == 0,
    {
        GithubConfig {
            api_base: "https://api.github.com".to_owned(),
            enabled: false,
            poll_interval_secs: 300,
            owner: String::new(),
            trusted_users: Vec::new(),
            trusted_bots: Vec::new(),
        }
    }
}

impl Default for LinearConfig {
    fn default() -> (c: Self)
        ensures
            c.api_base@ == "https://api.linear.app"@,
            !c.enabled,
            c.poll_interval_secs == 120,
            c.trusted_users@.len() == 0,
    {
        LinearConfig {
            api_base: "https://api.linear.app".to_owned(),
            enabled: false,
            poll_interval_secs: 120,
            trusted_users: Vec::new(),
        }
    }
}

impl Default for Config {
    fn default() -> (c: Self)
        ensures
            c.fault(true) is None,
            c.agent.max_iterations == 100,
            c.context.engine == EngineKind::Flat,
            c.context.max_tokens == 200_000,
            c.context.budget_percent == 80,
            c.context.tool_output_tokens == 4096,
            c.context.lcm == (LcmConfig {
                fresh_tail_count: 32,
                leaf_chunk_tokens: 20_000,
                min_condensed_fanout: 2,
                soft_budget_percent: 70,
                hard_budget_percent: 90,
                large_file_threshold: 25_000,
                large_file_summary_tokens: 400,
            }),
            c.git.clone_base@ == "https://github.com"@,
            !c.git.enabled,
            c.git.co_authors@.len() == 0,
            c.git.repositories@.len() == 0,
            c.github.api_base@ == "https://api.github.com"@,
            !c.github.enabled,
            c.github.poll_interval_secs == 300,
            c.github.owner@ == Seq::<char>::empty(),
            c.github.trusted_users@.len() == 0,
            c.github.trusted_bots@.len() == 0,
            c.duties.distill.every matches Some(e) && e@ == "1h"@,
            c.duties.distill.daily is None,
            c.duties.prompt@.len() == 0,
            c.duties.warm.every matches Some(e) && e@ == "24h"@,
            c.duties.warm.daily is None,
            c.linear.api_base@ == "https://api.linear.app"@,
            !c.linear.enabled,
            c.linear.poll_interval_secs == 120,
            c.linear.trusted_users@.len() == 0,
            c.mcp.startup_timeout_secs == 30,
            c.mcp.call_timeout_secs == 60,
            c.mcp.servers@.len() == 0,
            c.memory.index_cap_bytes == 8192,
            c.memory.distill_threshold_tokens == 40_000,
            c.provider.api is OpenRouter,
            c.provider.model@ == "arcee-ai/trinity-large-preview:free"@,
            c.provider.max_tokens == 32_768,
            c.provider.model_overrides.explore is None,
            c.provider.model_overrides.worker is None,
            c.provider.model_overrides.reviewer is None,
            c.provider.model_overrides.summarizer is None,
            c.provider.model_overrides.memory is None,
            c.review.enabled,
            c.socket.path@ == "/run/kitaebot/chat.sock"@,
            c.socket.allowed_uids@ == seq![0u32],
            c.sub_agents.max_iterations == 30,
            c.telegram.api_base@ == "https://api.telegram.org"@,
            !c.telegram.enabled,
            c.telegram.chat_id == 0,
            c.telegram.poll_timeout_secs == 30,
            c.tools.disabled@.len() == 0,
            c.tools.exec_tool.timeout_secs == 600,
            !c.tools.exec_tool.sandbox,
            c.tools.web_fetch.timeout_secs == 30,
            c.tools.web_fetch.max_response_bytes == 524_288,
            c.tools.web_search.model@ == "perplexity/sonar"@,
            c.tools.web_search.max_tokens == 1024,
            c.tools.web_search.timeout_secs == 30,
    {
        let c = Config {
            agent: AgentConfig::default(),
            context: ContextConfig::default(),
            git: GitConfig::default(),
            github: GithubConfig::default(),
            duties: DutiesConfig::default(),
            linear: LinearConfig::default(),
            mcp: McpConfig::default(),
            memory: MemoryConfig::default(),
            provider: ProviderConfig::default(),
            review: ReviewConfig::default(),
            socket: SocketConfig::default(),
            sub_agents: SubAgentsConfig::default(),
            telegram: TelegramConfig::default(),
            tools: ToolsConfig::default(),
        };
        proof {
            rules::lemma_defaults_are_valid(c);
        }
        c
    }
}

// ── Reading single values ───────────────────────────────────────────

impl Api {
    /// Endpoint URL of the API.
    pub open spec fn url(self) -> Seq<char> {
        match self {
            Api::OpenRouter => "https://openrouter.ai/api/v1/chat/completions"@,
            Api::OpenAi => "https://api.openai.com/v1/chat/completions"@,
            Api::Groq => "https://api.groq.com/openai/v1/chat/completions"@,
            Api::Together => "https://api.together.xyz/v1/chat/completions"@,
            Api::Mistral => "https://api.mistral.ai/v1/chat/completions"@,
            Api::Custom(url) => url@,
        }
    }

    /// Endpoint URL for the chat completions API.
    pub fn endpoint(&self) -> (r: &str)
        ensures
            r@ == self.url(),
    {
        match self {
            Api::OpenRouter => "https://openrouter.ai/api/v1/chat/completions",
            Api::OpenAi => "https://api.openai.com/v1/chat/completions",
            Api::Groq => "https://api.groq.com/openai/v1/chat/completions",
            Api::Together => "https://api.together.xyz/v1/chat/completions",
            Api::Mistral => "https://api.mistral.ai/v1/chat/completions",
            Api::Custom(url) => url.as_str(),
        }
    }

    /// Whether `s` is the name of a provider.
    pub open spec fn names_provider(s: Seq<char>) -> bool {
        ||| s == "groq"@
        ||| s == "mistral"@
        ||| s == "openai"@
        ||| s == "openrouter"@
        ||| s == "together"@
    }

    /// Whether `s` names an API: a provider, or an http(s) URL.
    pub open spec fn names_api(s: Seq<char>) -> bool {
        Api::names_provider(s) || has_prefix(s, "http://"@) || has_prefix(s, "https://"@)
    }

    /// Whether `s` is the name of this API.
    pub open spec fn is_named(self, s: Seq<char>) -> bool {
        match self {
            Api::Groq => s == "groq"@,
            Api::Mistral => s == "mistral"@,
            Api::OpenAi => s == "openai"@,
            Api::OpenRouter => s == "openrouter"@,
            Api::Together => s == "together"@,
            Api::Custom(url) => url@ == s && Api::names_api(s) && !Api::names_provider(s),
        }
    }

    /// The API that `s` names; `None` where it names none.
    pub fn from_name(s: &str) -> (r: Option<Self>)
        ensures
            match r {
                Some(api) => api.is_named(s@),
                None => !Api::names_api(s@),
            },
    {
        if same(s, "groq") {
            Some(Api::Groq)
        } else if same(s, "mistral") {
            Some(Api::Mistral)
        } else if same(s, "openai") {
            Some(Api::OpenAi)
        } else if same(s, "openrouter") {
            Some(Api::OpenRouter)
        } else if same(s, "together") {
            Some(Api::Together)
        } else if starts_with(s, "http://") || starts_with(s, "https://") {
            Some(Api::Custom(s.to_owned()))
        } else {
            None
        }
    }

    /// What is said of a text that names no API, the text given in quotes.
    pub open spec fn unknown_text(quoted: Seq<char>) -> Seq<char> {
        "unknown api "@ + quoted + ": expected a provider name or an http(s) URL"@
    }

    /// What is said of a text that names no API, the text given in quotes.
    pub fn unknown(quoted: &str) -> (r: String)
        ensures
            r@ == Api::unknown_text(quoted@),
    {
        let mut out = String::new();
        out.append("unknown api ");
        out.append(quoted);
        out.append(": expected a provider name or an http(s) URL");
        assert(out@ =~= Api::unknown_text(quoted@));
        out
    }

    /// The API that `s` names, or why it names none.
    pub fn parse(s: &str) -> (r: Result<Self, String>)
        ensures
            match r {
                Ok(api) => api.is_named(s@),
                Err(e) => !Api::names_api(s@) && e@ == Api::unknown_text(quoted(s@)),
            },
    {
        match Api::from_name(s) {
            Some(api) => Ok(api),
            None => Err(Api::unknown(quote(s).as_str())),
        }
    }
}

/// What is wrong with a schedule.
#[derive(Debug)]
pub enum ScheduleError {
    /// `every` is no interval.
    Interval { text: String, fault: IntervalFault },
    /// `daily` is no time of day.
    Time { text: String },
    /// Neither `every` nor `daily` is set.
    Missing,
    /// Both `every` and `daily` are set.
    Both,
}

/// What is wrong with a schedule, by views.
pub enum ScheduleFault {
    Interval { text: Seq<char>, fault: IntervalFault },
    Time { text: Seq<char> },
    Missing,
    Both,
}

impl View for ScheduleError {
    type V = ScheduleFault;

    open spec fn view(&self) -> ScheduleFault {
        match *self {
            ScheduleError::Interval { text, fault } => ScheduleFault::Interval {
                text: text@,
                fault,
            },
            ScheduleError::Time { text } => ScheduleFault::Time { text: text@ },
            ScheduleError::Missing => ScheduleFault::Missing,
            ScheduleError::Both => ScheduleFault::Both,
        }
    }
}

impl ScheduleFault {
    /// What is said of the fault.
    pub open spec fn text(self) -> Seq<char> {
        match self {
            ScheduleFault::Interval { text, fault } => fault.text(quoted(text)),
            ScheduleFault::Time { text } => time_fault_text(quoted(text)),
            ScheduleFault::Missing => "schedule needs `every` or `daily`"@,
            ScheduleFault::Both => "schedule takes `every` or `daily`, not both"@,
        }
    }
}

impl ScheduleError {
    /// What is said of the fault.
    pub fn message(&self) -> (r: String)
        ensures
            r@ == self@.text(),
    {
        match self {
            ScheduleError::Interval { text, fault } => fault.message(
                quote(text.as_str()).as_str(),
            ),
            ScheduleError::Time { text } => time_fault(quote(text.as_str()).as_str()),
            ScheduleError::Missing => "schedule needs `every` or `daily`".to_owned(),
            ScheduleError::Both => "schedule takes `every` or `daily`, not both".to_owned(),
        }
    }
}

impl ScheduleConfig {
    /// Whether an interval that would be read can be.
    pub open spec fn readable(&self) -> bool {
        match (self.every, self.daily) {
            (Some(e), None) => interval_readable(e@),
            _ => true,
        }
    }

    /// Whether an interval that would be read can be.
    pub fn is_readable(&self) -> (r: bool)
        ensures
            r == self.readable(),
    {
        match (&self.every, &self.daily) {
            (Some(e), None) => is_interval_readable(e.as_str()),
            _ => true,
        }
    }

    /// The schedule that the settings spell, or what is wrong with them.
    pub open spec fn meaning(&self) -> Result<Schedule, ScheduleFault> {
        match (self.every, self.daily) {
            (Some(e), None) => match interval_of(e@) {
                Ok(secs) => Ok(Schedule::Every(secs as u64)),
                Err(fault) => Err(ScheduleFault::Interval { text: e@, fault }),
            },
            (None, Some(d)) => match time_of_day(d@) {
                Some(secs) => Ok(Schedule::Daily(secs as u32)),
                None => Err(ScheduleFault::Time { text: d@ }),
            },
            (None, None) => Err(ScheduleFault::Missing),
            (Some(_), Some(_)) => Err(ScheduleFault::Both),
        }
    }

    /// The schedule that the settings spell, or what is wrong with them.
    pub fn read(&self) -> (r: Result<Schedule, ScheduleError>)
        requires
            self.readable(),
        ensures
            match r {
                Ok(schedule) => self.meaning() == Ok::<Schedule, ScheduleFault>(schedule),
                Err(e) => self.meaning() == Err::<Schedule, ScheduleFault>(e@),
            },
    {
        match (&self.every, &self.daily) {
            (Some(e), None) => match read_interval(e.as_str()) {
                Ok(secs) => Ok(Schedule::Every(secs)),
                Err(fault) => Err(ScheduleError::Interval { text: e.clone(), fault }),
            },
            (None, Some(d)) => match read_time(d.as_str()) {
                Some(secs) => Ok(Schedule::Daily(secs)),
                None => Err(ScheduleError::Time { text: d.clone() }),
            },
            (None, None) => Err(ScheduleError::Missing),
            (Some(_), Some(_)) => Err(ScheduleError::Both),
        }
    }

    /// Parses the settings into a [`Schedule`].
    pub fn parse(&self) -> (r: Result<Schedule, String>)
        requires
            self.readable(),
        ensures
            match r {
                Ok(schedule) => self.meaning() == Ok::<Schedule, ScheduleFault>(schedule),
                Err(e) => self.meaning() matches Err(fault) && e@ == fault.text(),
            },
    {
        match self.read() {
            Ok(schedule) => Ok(schedule),
            Err(e) => Err(e.message()),
        }
    }
}

// ── Repositories ────────────────────────────────────────────────────

/// The names of the listed repositories.
pub open spec fn repo_names(repositories: Seq<(String, RepoConfig)>) -> Seq<Seq<char>> {
    repositories.map_values(|r: (String, RepoConfig)| r.0@)
}

/// The repositories with a check command, each with that command.
pub open spec fn checked_repos(repositories: Seq<(String, RepoConfig)>) -> Seq<
    (Seq<char>, Seq<char>),
>
    decreases repositories.len(),
{
    if repositories.len() == 0 {
        Seq::empty()
    } else {
        let rest = checked_repos(repositories.drop_last());
        match repositories.last().1.check {
            Some(check) => rest.push((repositories.last().0@, check@)),
            None => rest,
        }
    }
}

/// Pairs of texts by their views.
pub open spec fn pair_views(pairs: Seq<(String, String)>) -> Seq<(Seq<char>, Seq<char>)> {
    pairs.map_values(|p: (String, String)| (p.0@, p.1@))
}

impl GitConfig {
    /// The trust list: the name of every listed repository.
    pub fn trusted_repos(&self) -> (r: Vec<String>)
        ensures
            views(r@) == repo_names(self.repositories@),
    {
        let mut out: Vec<String> = Vec::new();
        let mut i: usize = 0;
        while i < self.repositories.len()
            invariant
                i <= self.repositories@.len(),
                views(out@) == repo_names(self.repositories@).take(i as int),
            decreases self.repositories@.len() - i,
        {
            let name = self.repositories[i].0.clone();
            let ghost before = out@;
            out.push(name);
            proof {
                crate::text::lemma_views_push(before, name);
                let all = repo_names(self.repositories@);
                assert(all.take(i + 1) =~= all.take(i as int).push(name@));
            }
            i += 1;
        }
        assert(repo_names(self.repositories@).take(i as int) =~= repo_names(self.repositories@));
        out
    }

    /// The repositories with a check command, each with that command.
    pub fn warm_commands(&self) -> (r: Vec<(String, String)>)
        ensures
            pair_views(r@) == checked_repos(self.repositories@),
    {
        let mut out: Vec<(String, String)> = Vec::new();
        let mut i: usize = 0;
        assert(self.repositories@.take(0) =~= Seq::empty());
        assert(pair_views(out@) =~= Seq::empty());
        while i < self.repositories.len()
            invariant
                i <= self.repositories@.len(),
                pair_views(out@) == checked_repos(self.repositories@.take(i as int)),
            decreases self.repositories@.len() - i,
        {
            proof {
                let next = self.repositories@.take(i + 1);
                assert(next.drop_last() =~= self.repositories@.take(i as int));
                assert(next.last() == self.repositories@[i as int]);
            }
            match &self.repositories[i].1.check {
                Some(check) => {
                    let ghost before = out@;
                    let pair = (self.repositories[i].0.clone(), check.clone());
                    out.push(pair);
                    assert(pair_views(out@) =~= pair_views(before).push((pair.0@, pair.1@)));
                },
                None => {},
            }
            i += 1;
        }
        assert(self.repositories@.take(i as int) =~= self.repositories@);
        out
    }
}

impl Config {
    /// Context settings with the provider's output budget reserved: the
    /// provider can generate that much on top of the prompt, so compaction
    /// thresholds apply to the window minus the reserve.
    pub fn effective_context(&self) -> (c: ContextConfig)
        requires
            self.provider.max_tokens <= self.context.max_tokens,
        ensures
            c.max_tokens == self.context.max_tokens - self.provider.max_tokens,
            c.engine == self.context.engine,
            c.budget_percent == self.context.budget_percent,
            c.tool_output_tokens == self.context.tool_output_tokens,
            c.lcm == self.context.lcm,
    {
        ContextConfig {
            engine: self.context.engine,
            max_tokens: self.context.max_tokens - self.provider.max_tokens,
            budget_percent: self.context.budget_percent,
            tool_output_tokens: self.context.tool_output_tokens,
            lcm: self.context.lcm,
        }
    }
}

// ── What settings mean ──────────────────────────────────────────────

/// A schedule is spelled by exactly one of its two settings, and means what
/// that one says.
pub proof fn a_schedule_is_spelled_once(c: ScheduleConfig)
    ensures
        c.every is Some && c.daily is Some ==> c.meaning() == Err::<Schedule, ScheduleFault>(
            ScheduleFault::Both,
        ),
        c.every is None && c.daily is None ==> c.meaning() == Err::<Schedule, ScheduleFault>(
            ScheduleFault::Missing,
        ),
        c.every matches Some(e) ==> (c.daily is None ==> (c.meaning() is Ok <==> interval_of(
            e@,
        ) is Ok) && (interval_of(e@) matches Ok(secs) ==> c.meaning() == Ok::<
            Schedule,
            ScheduleFault,
        >(Schedule::Every(secs as u64)))),
        c.daily matches Some(d) ==> (c.every is None ==> (c.meaning() is Ok <==> time_of_day(
            d@,
        ) is Some) && (time_of_day(d@) matches Some(secs) ==> c.meaning() == Ok::<
            Schedule,
            ScheduleFault,
        >(Schedule::Daily(secs as u32)))),
{
}

/// The repositories that are warmed are those with a check command, in order,
/// each with its own.
pub proof fn repositories_with_a_check_are_warmed(repositories: Seq<(String, RepoConfig)>)
    ensures
        checked_repos(repositories) == repositories.filter(
            |r: (String, RepoConfig)| r.1.check is Some,
        ).map_values(|r: (String, RepoConfig)| (r.0@, r.1.check->0@)),
    decreases repositories.len(),
{
    reveal(Seq::filter);
    let picked = repositories.filter(|r: (String, RepoConfig)| r.1.check is Some);
    if repositories.len() > 0 {
        repositories_with_a_check_are_warmed(repositories.drop_last());
    }
    assert(checked_repos(repositories) =~= picked.map_values(
        |r: (String, RepoConfig)| (r.0@, r.1.check->0@),
    ));
}

/// A name stands for one service at most, and a URL for itself.
pub proof fn a_name_stands_for_one_service(a: Api, b: Api, s: Seq<char>)
    requires
        a.is_named(s),
        b.is_named(s),
    ensures
        a.url() == b.url(),
        a matches Api::Custom(url) ==> a.url() == s && (has_prefix(s, "http://"@) || has_prefix(
            s,
            "https://"@,
        )),
        !(a is Custom) ==> has_prefix(a.url(), "https://"@) && has_suffix(
            a.url(),
            "/v1/chat/completions"@,
        ),
{
    reveal_strlit("groq");
    reveal_strlit("mistral");
    reveal_strlit("openai");
    reveal_strlit("openrouter");
    reveal_strlit("together");
    assert("groq"@.len() == 4 && "mistral"@.len() == 7 && "openai"@.len() == 6);
    assert("openrouter"@.len() == 10 && "together"@.len() == 8);
    reveal_strlit("https://");
    reveal_strlit("/v1/chat/completions");
    reveal_strlit("https://openrouter.ai/api/v1/chat/completions");
    reveal_strlit("https://api.openai.com/v1/chat/completions");
    reveal_strlit("https://api.groq.com/openai/v1/chat/completions");
    reveal_strlit("https://api.together.xyz/v1/chat/completions");
    reveal_strlit("https://api.mistral.ai/v1/chat/completions");
    if !(a is Custom) {
        let u = a.url();
        let e = "/v1/chat/completions"@;
        assert(u.take(8) =~= "https://"@);
        assert(u.skip(u.len() - e.len()) =~= e);
    }
}

/// Every provider is known by its name, and so is any HTTP URL; nothing else
/// names a service.
pub proof fn services_are_known_by_name_or_url(url: String, s: Seq<char>)
    requires
        url@ == s,
    ensures
        Api::names_api("groq"@),
        Api::names_api("mistral"@),
        Api::names_api("openai"@),
        Api::names_api("openrouter"@),
        Api::names_api("together"@),
        Api::names_api("http://"@ + s),
        Api::names_api("https://"@ + s),
        Api::names_api(s) <==> Api::Groq.is_named(s) || Api::Mistral.is_named(s)
            || Api::OpenAi.is_named(s) || Api::OpenRouter.is_named(s) || Api::Together.is_named(s)
            || Api::Custom(url).is_named(s),
        Api::names_api(s) && !has_prefix(s, "http"@) ==> s == "groq"@ || s == "mistral"@ || s
            == "openai"@ || s == "openrouter"@ || s == "together"@,
{
    reveal_strlit("http");
    reveal_strlit("http://");
    reveal_strlit("https://");
    assert(("http://"@ + s).take(7) =~= "http://"@);
    assert(("https://"@ + s).take(8) =~= "https://"@);
    if has_prefix(s, "http://"@) {
        assert(s.take(4) =~= s.take(7).take(4));
        assert(s.take(4) =~= "http"@);
    }
    if has_prefix(s, "https://"@) {
        assert(s.take(4) =~= s.take(8).take(4));
        assert(s.take(4) =~= "http"@);
    }
}

} // verus!
