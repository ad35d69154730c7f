use kitaebot::config::rules::{
    eq_ignore_case, exact, is_trusted_repo, ConfigError, PromptError, RepositoryFault, Rule,
};
use kitaebot::config::{
    Api, Config, ContextConfig, EngineKind, LcmConfig, PromptDutyConfig, RepoConfig,
    ScheduleConfig,
};
use kitaebot::duty::schedule::Schedule;

/// Validates a configuration with a temperature in range.
fn check(cfg: &Config) -> Result<(), ConfigError> {
    assert!(cfg.is_readable());
    cfg.validate(true)
}

/// The rule that the defaults break once `change` was made.
fn broken(change: fn(&mut Config)) -> Option<Rule> {
    let mut cfg = Config::default();
    change(&mut cfg);
    match check(&cfg) {
        Err(ConfigError::Rule(rule)) => Some(rule),
        Err(_) => panic!("another error"),
        Ok(()) => None,
    }
}

fn every(s: &str) -> ScheduleConfig {
    ScheduleConfig { every: Some(s.to_string()), daily: None }
}

fn daily(s: &str) -> ScheduleConfig {
    ScheduleConfig { every: None, daily: Some(s.to_string()) }
}

#[test]
fn load_missing_file_returns_defaults() {
    let cfg = Config::default();
    assert_eq!(cfg.provider.model, "arcee-ai/trinity-large-preview:free");
    assert_eq!(cfg.provider.max_tokens, 32_768);
    assert_eq!(cfg.agent.max_iterations, 100);
    assert_eq!(cfg.tools.exec_tool.timeout_secs, 600);
    assert_eq!(cfg.tools.web_fetch.max_response_bytes, 512 * 1024);
    assert!(check(&cfg).is_ok());
}

#[test]
fn reject_context_window_not_larger_than_output_budget() {
    assert!(broken(|c| c.provider.max_tokens = 300_000).is_some());
    assert!(broken(|c| c.provider.max_tokens = 200_000).is_some());
    assert!(broken(|c| c.provider.max_tokens = 199_999).is_none());
}

#[test]
fn effective_context_reserves_output_budget() {
    let mut cfg = Config::default();
    cfg.provider.max_tokens = 32_768;
    cfg.context.max_tokens = 200_000;
    assert_eq!(cfg.effective_context().max_tokens, 200_000 - 32_768);
}

#[test]
fn tools_disabled_defaults_empty() {
    assert!(Config::default().tools.disabled.is_empty());
}

#[test]
fn mcp_defaults_to_no_servers() {
    let cfg = Config::default();
    assert!(cfg.mcp.servers.is_empty());
    assert_eq!(cfg.mcp.startup_timeout_secs, 30);
    assert_eq!(cfg.mcp.call_timeout_secs, 60);
}

#[test]
fn review_enabled_by_default() {
    assert!(Config::default().review.enabled);
}

#[test]
fn model_overrides_default_unset() {
    let overrides = Config::default().provider.model_overrides;
    assert!(overrides.explore.is_none());
    assert!(overrides.worker.is_none());
    assert!(overrides.reviewer.is_none());
    assert!(overrides.summarizer.is_none());
    assert!(overrides.memory.is_none());
}

#[test]
fn reject_invalid_temperature() {
    let cfg = Config::default();
    assert!(matches!(cfg.validate(false), Err(ConfigError::Rule(Rule::Temperature))));
}

#[test]
fn reject_zero_max_tokens() {
    assert!(matches!(broken(|c| c.provider.max_tokens = 0), Some(Rule::ProviderTokens)));
}

#[test]
fn zero_iterations_are_refused() {
    assert!(matches!(broken(|c| c.agent.max_iterations = 0), Some(Rule::AgentIterations)));
}

#[test]
fn duties_defaults() {
    let cfg = Config::default();
    assert_eq!(cfg.duties.distill.parse().ok(), Some(Schedule::Every(3600)));
}

#[test]
fn duties_parse_every_and_daily() {
    assert_eq!(every("2h").parse().ok(), Some(Schedule::Every(7200)));
    assert_eq!(daily("06:00").parse().ok(), Some(Schedule::Daily(6 * 3600)));
}

#[test]
fn duties_reject_both_and_garbage_schedules() {
    let both = ScheduleConfig { every: Some("1h".into()), daily: Some("06:00".into()) };
    let none = ScheduleConfig { every: None, daily: None };
    for schedule in [both, none, every("soon"), daily("25:00")] {
        let mut cfg = Config::default();
        cfg.duties.distill = schedule;
        let err = check(&cfg).unwrap_err();
        assert!(matches!(err, ConfigError::DistillSchedule(_)));
        assert!(err.message().starts_with("duties.distill: "));
    }
    let mut cfg = Config::default();
    cfg.duties.warm = every("soon");
    assert!(matches!(check(&cfg), Err(ConfigError::WarmSchedule(_))));
}

/// A well-formed prompt duty on a trusted repository.
fn with_prompt_duty() -> Config {
    let mut cfg = Config::default();
    cfg.git.enabled = true;
    cfg.git.repositories = vec![("owner/repo".to_string(), RepoConfig { check: None })];
    cfg.duties.prompt = vec![prompt_duty()];
    cfg
}

fn prompt_duty() -> PromptDutyConfig {
    PromptDutyConfig {
        name: "security-watch".to_string(),
        schedule: daily("06:00"),
        repo: "owner/repo".to_string(),
        gate: None,
        prompt: "Review recent commits for security issues.".to_string(),
    }
}

fn prompt_error(cfg: &Config) -> PromptError {
    match check(cfg) {
        Err(ConfigError::PromptDuty { error, .. }) => error,
        _ => panic!("the prompt duty is refused"),
    }
}

#[test]
fn prompt_duty_parses() {
    let cfg = with_prompt_duty();
    assert!(check(&cfg).is_ok());
    assert!(cfg.duties.prompt[0].schedule.parse().is_ok());
}

#[test]
fn prompt_duty_rejects_untrusted_repo() {
    let mut cfg = with_prompt_duty();
    cfg.duties.prompt[0].repo = "evil/repo".to_string();
    assert!(matches!(prompt_error(&cfg), PromptError::Repo { .. }));
}

#[test]
fn prompt_duty_rejects_bad_names() {
    for name in ["two tokens", "", "distill"] {
        let mut cfg = with_prompt_duty();
        cfg.duties.prompt[0].name = name.to_string();
        assert!(
            matches!(prompt_error(&cfg), PromptError::Name | PromptError::Shadows),
            "{name}"
        );
    }
}

#[test]
fn prompt_duty_rejects_duplicate_names() {
    let mut cfg = with_prompt_duty();
    cfg.duties.prompt.push(PromptDutyConfig {
        schedule: every("1h"),
        prompt: "again".to_string(),
        ..prompt_duty()
    });
    assert!(matches!(prompt_error(&cfg), PromptError::Duplicate));
}

#[test]
fn prompt_duty_gate_requires_github() {
    // A gate on a configuration without github.enabled.
    let mut cfg = with_prompt_duty();
    cfg.duties.prompt[0].gate = Some("new-commits".to_string());
    assert!(matches!(prompt_error(&cfg), PromptError::NeedsGithub));

    // With github enabled it passes.
    cfg.github.enabled = true;
    cfg.github.owner = "o".to_string();
    assert!(check(&cfg).is_ok());
}

#[test]
fn prompt_duty_rejects_unknown_gate() {
    let mut cfg = with_prompt_duty();
    cfg.github.enabled = true;
    cfg.github.owner = "o".to_string();
    cfg.duties.prompt[0].gate = Some("full-moon".to_string());
    assert!(matches!(prompt_error(&cfg), PromptError::Gate { .. }));
}

#[test]
fn prompt_duty_rejects_empty_prompt() {
    let mut cfg = with_prompt_duty();
    cfg.duties.prompt[0].prompt = "  ".to_string();
    assert!(matches!(prompt_error(&cfg), PromptError::Prompt));
}

#[test]
fn prompt_duty_rejects_a_garbage_schedule() {
    let mut cfg = with_prompt_duty();
    cfg.duties.prompt[0].schedule = every("soon");
    assert!(matches!(prompt_error(&cfg), PromptError::Schedule(_)));
}

#[test]
fn memory_defaults() {
    let cfg = Config::default();
    assert_eq!(cfg.memory.index_cap_bytes, 8192);
    assert_eq!(cfg.memory.distill_threshold_tokens, 40_000);
}

#[test]
fn memory_reject_zero_cap() {
    assert!(broken(|c| c.memory.index_cap_bytes = 0).is_some());
}

#[test]
fn memory_reject_zero_distill_threshold() {
    let rule = broken(|c| c.memory.distill_threshold_tokens = 0).unwrap();
    assert_eq!(rule.text(), "memory distill_threshold_tokens must be > 0");
}

#[test]
fn sub_agents_defaults() {
    assert_eq!(Config::default().sub_agents.max_iterations, 30);
}

#[test]
fn sub_agents_reject_zero_max_iterations() {
    assert!(matches!(
        broken(|c| c.sub_agents.max_iterations = 0),
        Some(Rule::SubAgentIterations)
    ));
}

#[test]
fn telegram_defaults() {
    let cfg = Config::default();
    assert!(!cfg.telegram.enabled);
    assert_eq!(cfg.telegram.chat_id, 0);
    assert_eq!(cfg.telegram.poll_timeout_secs, 30);
}

#[test]
fn telegram_reject_zero_chat_id_when_enabled() {
    assert!(broken(|c| c.telegram.enabled = true).is_some());
}

#[test]
fn telegram_reject_zero_poll_timeout_when_enabled() {
    assert!(broken(|c| {
        c.telegram.enabled = true;
        c.telegram.chat_id = 1;
        c.telegram.poll_timeout_secs = 0;
    })
    .is_some());
}

#[test]
fn telegram_disabled_skips_validation() {
    assert!(broken(|c| c.telegram.chat_id = 0).is_none());
}

#[test]
fn context_defaults() {
    let cfg = Config::default();
    assert_eq!(cfg.context.max_tokens, 200_000);
    assert_eq!(cfg.context.budget_percent, 80);
    assert_eq!(cfg.context.tool_output_tokens, 4096);
    assert_eq!(cfg.context.engine, EngineKind::Flat);
}

#[test]
fn context_reject_zero_tool_output_tokens() {
    assert!(matches!(broken(|c| c.context.tool_output_tokens = 0), Some(Rule::ToolOutput)));
}

#[test]
fn context_reject_zero_max_tokens() {
    assert!(matches!(broken(|c| c.context.max_tokens = 0), Some(Rule::ContextWindow)));
}

#[test]
fn context_reject_zero_budget_percent() {
    assert!(matches!(broken(|c| c.context.budget_percent = 0), Some(Rule::ContextBudget)));
}

#[test]
fn context_reject_budget_percent_over_100() {
    assert!(matches!(broken(|c| c.context.budget_percent = 101), Some(Rule::ContextBudget)));
}

#[test]
fn lcm_large_file_defaults() {
    let lcm = LcmConfig::default();
    assert_eq!(lcm.large_file_threshold, 25_000);
    assert_eq!(lcm.large_file_summary_tokens, 400);
}

#[test]
fn lcm_reject_zero_large_file_threshold() {
    assert!(broken(|c| c.context.lcm.large_file_threshold = 0).is_some());
}

#[test]
fn lcm_reject_zero_large_file_summary_tokens() {
    assert!(broken(|c| c.context.lcm.large_file_summary_tokens = 0).is_some());
}

#[test]
fn lcm_settings_have_bounds() {
    assert!(matches!(broken(|c| c.context.lcm.fresh_tail_count = 0), Some(Rule::FreshTail)));
    assert!(matches!(broken(|c| c.context.lcm.leaf_chunk_tokens = 0), Some(Rule::LeafChunk)));
    assert!(matches!(broken(|c| c.context.lcm.min_condensed_fanout = 1), Some(Rule::Fanout)));
    assert!(broken(|c| c.context.lcm.soft_budget_percent = 0).is_some());
    assert!(broken(|c| c.context.lcm.hard_budget_percent = 101).is_some());
    assert!(ContextConfig::default().validate().is_ok());
    assert!(LcmConfig::default().validate().is_ok());
}

// ── linear ────────────────────────────────────────────────────────

#[test]
fn linear_defaults() {
    let cfg = Config::default();
    assert!(!cfg.linear.enabled);
    assert_eq!(cfg.linear.poll_interval_secs, 120);
    assert!(cfg.linear.trusted_users.is_empty());
}

#[test]
fn linear_reject_zero_poll_interval_when_enabled() {
    assert!(broken(|c| {
        c.linear.enabled = true;
        c.linear.trusted_users = vec!["me@example.com".to_string()];
        c.linear.poll_interval_secs = 0;
    })
    .is_some());
}

#[test]
fn linear_reject_empty_trusted_users_when_enabled() {
    assert!(broken(|c| c.linear.enabled = true).is_some());
}

#[test]
fn linear_disabled_skips_validation() {
    assert!(broken(|c| c.linear.poll_interval_secs = 0).is_none());
}

// ── git ───────────────────────────────────────────────────────────

fn with_repository(name: &str, check: Option<&str>, git: bool) -> Config {
    let mut cfg = Config::default();
    cfg.git.enabled = git;
    let repo = RepoConfig { check: check.map(str::to_string) };
    cfg.git.repositories = vec![(name.to_string(), repo)];
    cfg
}

fn repository_fault(cfg: &Config) -> (RepositoryFault, String) {
    match check(cfg) {
        Err(e) => {
            let message = e.message();
            match e {
                ConfigError::Repository { fault, .. } => (fault, message),
                _ => panic!("another error"),
            }
        }
        Ok(()) => panic!("the repository is refused"),
    }
}

#[test]
fn git_defaults() {
    let cfg = Config::default();
    assert!(!cfg.git.enabled);
    assert!(cfg.git.co_authors.is_empty());
    assert!(cfg.git.repositories.is_empty());
    assert!(cfg.git.warm_commands().is_empty());
}

#[test]
fn git_parse() {
    let mut cfg = Config::default();
    cfg.git.enabled = true;
    cfg.git.repositories = vec![
        ("alice/other".to_string(), RepoConfig { check: None }),
        ("alice/repo".to_string(), RepoConfig { check: Some("just check".to_string()) }),
    ];
    assert!(check(&cfg).is_ok());
    assert_eq!(cfg.git.trusted_repos(), vec!["alice/other", "alice/repo"]);
    assert_eq!(
        cfg.git.warm_commands(),
        vec![("alice/repo".to_string(), "just check".to_string())]
    );
}

#[test]
fn trust_only_entry_needs_no_git_enabled() {
    let cfg = with_repository("alice/repo", None, false);
    assert!(check(&cfg).is_ok());
    assert_eq!(cfg.git.trusted_repos(), vec!["alice/repo"]);
}

#[test]
fn check_requires_git_enabled() {
    let (_, message) = repository_fault(&with_repository("alice/repo", Some("just check"), false));
    assert!(message.contains("git.enabled"), "{message}");
}

#[test]
fn repositories_reject_wildcard_and_malformed_keys() {
    for key in ["alice/*", "alice", "alice/repo/extra", "/repo", "alice/"] {
        let (_, message) = repository_fault(&with_repository(key, None, false));
        assert!(message.contains("owner/repo"), "key {key:?} must be rejected");
    }
}

#[test]
fn check_rejects_empty_command() {
    let (_, message) = repository_fault(&with_repository("alice/repo", Some("  "), true));
    assert!(message.contains("non-empty"), "{message}");
}

#[test]
fn trust_ignores_case() {
    let trusted = vec!["Alice/Repo".to_string()];
    assert!(is_trusted_repo("alice/repo", &trusted));
    assert!(!is_trusted_repo("alice/repos", &trusted));
    assert!(eq_ignore_case("aBc", "AbC"));
    assert!(exact("a/b") && !exact("a/*"));
}

// ── github ────────────────────────────────────────────────────────

#[test]
fn github_defaults() {
    let cfg = Config::default();
    assert!(!cfg.github.enabled);
    assert_eq!(cfg.github.poll_interval_secs, 300);
    assert!(cfg.github.owner.is_empty());
    assert!(cfg.github.trusted_users.is_empty());
    assert!(cfg.github.trusted_bots.is_empty());
}

#[test]
fn github_reject_missing_owner_when_enabled() {
    assert!(broken(|c| c.github.enabled = true).is_some());
}

#[test]
fn github_reject_zero_poll_interval_when_enabled() {
    assert!(broken(|c| {
        c.github.enabled = true;
        c.github.poll_interval_secs = 0;
    })
    .is_some());
}

#[test]
fn github_disabled_skips_validation() {
    assert!(broken(|c| c.github.poll_interval_secs = 0).is_none());
}

// ── api ───────────────────────────────────────────────────────────

#[test]
fn apis_have_endpoints() {
    assert_eq!(
        Api::parse("groq").unwrap_or_else(|e| panic!("{e}")).endpoint(),
        "https://api.groq.com/openai/v1/chat/completions"
    );
    let custom = Api::parse("http://localhost:1").unwrap_or_else(|e| panic!("{e}"));
    assert_eq!(custom.endpoint(), "http://localhost:1");
    assert_eq!(
        Api::parse("nope").err().unwrap(),
        "unknown api \"nope\": expected a provider name or an http(s) URL"
    );
    assert_eq!(
        Api::unknown("\"x\""),
        "unknown api \"x\": expected a provider name or an http(s) URL"
    );
}
