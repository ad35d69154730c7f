//! `lcm_grep`: searching the history of the active session.

use vstd::prelude::*;

use crate::context::lcm::compaction::SummaryView;
use crate::context::lcm::explore::{first, first_of, words, words_of};
use crate::context::lcm::store::{Conversation, ConversationView, StoredView};
use crate::patterns::{is_match, regex_is_match};
use crate::text::number::{decimal, push_i64, push_usize, signed_decimal};
use crate::text::split::{join, joined, replace, replaced, replacing_a_character_is_local};
use crate::text::{
    contains, from_chars, has_prefix, lemma_occurs_within, lemma_views_push, occurs, quote, quoted,
    same, starts_with, to_chars, views,
};

verus! {

/// How many matches are returned where no limit is asked for.
pub const DEFAULT_GREP_LIMIT: u32 = 50;

/// How many matches are returned at most.
pub const MAX_GREP_LIMIT: u32 = 200;

/// Characters of a match that are shown.
pub const SNIPPET_CHARS: usize = 200;

// ── Snippets ────────────────────────────────────────────────────────

/// A text on one line.
pub open spec fn on_one_line(s: Seq<char>) -> Seq<char> {
    s.map_values(
        |c: char|
            if c == '\n' {
                ' '
            } else {
                c
            },
    )
}

/// What is shown of a match: one line, cut off where it is long.
pub open spec fn snippet_of(s: Seq<char>) -> Seq<char> {
    let line = on_one_line(s);
    if line.len() <= SNIPPET_CHARS {
        line
    } else {
        line.take(SNIPPET_CHARS as int) + "..."@
    }
}

/// What is shown of a match: one line, cut off where it is long, so that a
/// single match does not fill the answer.
pub fn snippet(s: &str) -> (r: String)
    ensures
        r@ == snippet_of(s@),
{
    let v = to_chars(s);
    let n: usize = v.len();
    let mut line: Vec<char> = Vec::new();
    let mut i: usize = 0;
    while i < n
        invariant
            i <= n,
            n == v@.len(),
            v@ == s@,
            line@.len() == i,
            forall|k: int| 0 <= k < i ==> line@[k] == on_one_line(s@)[k],
        decreases n - i,
    {
        line.push(
            if v[i] == '\n' {
                ' '
            } else {
                v[i]
            },
        );
        i += 1;
    }
    assert(line@ =~= on_one_line(s@));
    if n <= SNIPPET_CHARS {
        let out = from_chars(&line, 0, n);
        assert(out@ =~= on_one_line(s@));
        out
    } else {
        let mut out = from_chars(&line, 0, SNIPPET_CHARS);
        assert(out@ =~= on_one_line(s@).take(SNIPPET_CHARS as int));
        out.append("...");
        out
    }
}

/// What is shown of a match is on one line, and short, whatever it matched.
pub proof fn snippet_is_one_short_line(s: Seq<char>)
    ensures
        !snippet_of(s).contains('\n'),
        snippet_of(s).len() <= SNIPPET_CHARS + 3,
{
    reveal_strlit("...");
}

/// A match in a message.
pub open spec fn message_hit_text(id: i64, role: Seq<char>, content: Seq<char>) -> Seq<char> {
    "[message_id="@ + signed_decimal(id as int) + " role="@ + role + "] "@ + snippet_of(content)
}

/// A match in a message.
pub fn message_hit(id: i64, role: &str, content: &str) -> (r: String)
    ensures
        r@ == message_hit_text(id, role@, content@),
{
    let mut out = "[message_id=".to_owned();
    push_i64(&mut out, id);
    out.append(" role=");
    out.append(role);
    out.append("] ");
    out.append(snippet(content).as_str());
    out
}

/// A match in a summary.
pub open spec fn summary_hit_text(id: Seq<char>, kind: Seq<char>, depth: i64, content: Seq<char>) -> Seq<
    char,
> {
    "[summary_id="@ + id + " kind="@ + kind + " depth="@ + signed_decimal(depth as int) + "] "@
        + snippet_of(content)
}

/// A match in a summary.
pub fn summary_hit(id: &str, kind: &str, depth: i64, content: &str) -> (r: String)
    ensures
        r@ == summary_hit_text(id@, kind@, depth, content@),
{
    let mut out = "[summary_id=".to_owned();
    out.append(id);
    out.append(" kind=");
    out.append(kind);
    out.append(" depth=");
    push_i64(&mut out, depth);
    out.append("] ");
    out.append(snippet(content).as_str());
    out
}

// ── Arguments ───────────────────────────────────────────────────────

/// How a pattern is meant.
#[derive(Clone, Copy, Debug, PartialEq, Eq, Structural)]
pub enum GrepMode {
    /// A full-text query.
    Fts,
    /// A regular expression.
    Regex,
}

/// Where to search.
#[derive(Clone, Copy, Debug, PartialEq, Eq, Structural)]
pub enum GrepScope {
    Messages,
    Summaries,
    Both,
}

impl GrepMode {
    /// The name of the mode.
    pub open spec fn label(self) -> Seq<char> {
        match self {
            GrepMode::Fts => "fts"@,
            GrepMode::Regex => "regex"@,
        }
    }

    /// The name of the mode.
    pub fn name(self) -> (r: &'static str)
        ensures
            r@ == self.label(),
    {
        match self {
            GrepMode::Fts => "fts",
            GrepMode::Regex => "regex",
        }
    }

    /// The mode of a name.
    pub open spec fn named(name: Seq<char>) -> Option<GrepMode> {
        if name == "fts"@ {
            Some(GrepMode::Fts)
        } else if name == "regex"@ {
            Some(GrepMode::Regex)
        } else {
            None
        }
    }
}

impl GrepScope {
    /// The name of the scope.
    pub open spec fn label(self) -> Seq<char> {
        match self {
            GrepScope::Messages => "messages"@,
            GrepScope::Summaries => "summaries"@,
            GrepScope::Both => "both"@,
        }
    }

    /// The name of the scope.
    pub fn name(self) -> (r: &'static str)
        ensures
            r@ == self.label(),
    {
        match self {
            GrepScope::Messages => "messages",
            GrepScope::Summaries => "summaries",
            GrepScope::Both => "both",
        }
    }

    /// The scope of a name.
    pub open spec fn named(name: Seq<char>) -> Option<GrepScope> {
        if name == "messages"@ {
            Some(GrepScope::Messages)
        } else if name == "summaries"@ {
            Some(GrepScope::Summaries)
        } else if name == "both"@ {
            Some(GrepScope::Both)
        } else {
            None
        }
    }

    /// Whether messages are searched.
    pub open spec fn has_messages(self) -> bool {
        self is Messages || self is Both
    }

    /// Whether summaries are searched.
    pub open spec fn has_summaries(self) -> bool {
        self is Summaries || self is Both
    }
}

/// A search as it was asked for.
pub struct GrepArgs {
    pub pattern: String,
    /// `fts`, the default, or `regex`.
    pub mode: Option<String>,
    /// `messages`, `summaries`, or `both`, the default.
    pub scope: Option<String>,
    pub limit: Option<u32>,
}

/// How a search is done.
#[derive(Clone, Copy, Debug, PartialEq, Eq, Structural)]
pub struct GrepPlan {
    pub mode: GrepMode,
    pub scope: GrepScope,
    pub limit: u32,
}

/// The name that was given, or a default.
pub open spec fn given(name: Option<String>, default: Seq<char>) -> Seq<char> {
    match name {
        Some(n) => n@,
        None => default,
    }
}

/// The limit that is applied.
pub open spec fn limit_of(asked: Option<u32>) -> u32 {
    let n = match asked {
        Some(n) => n,
        None => DEFAULT_GREP_LIMIT,
    };
    if n > MAX_GREP_LIMIT {
        MAX_GREP_LIMIT
    } else {
        n
    }
}

/// What is said of an unknown mode.
pub open spec fn bad_mode(name: Seq<char>) -> Seq<char> {
    "mode must be \"fts\" or \"regex\", got "@ + quoted(name)
}

/// What is said of an unknown scope.
pub open spec fn bad_scope(name: Seq<char>) -> Seq<char> {
    "scope must be \"messages\", \"summaries\", or \"both\", got "@ + quoted(name)
}

impl GrepArgs {
    /// How to search, or what is wrong with the arguments: the mode is looked
    /// at first.
    pub open spec fn meaning(self) -> Result<GrepPlan, Seq<char>> {
        let mode = given(self.mode, "fts"@);
        let scope = given(self.scope, "both"@);
        match GrepMode::named(mode) {
            None => Err(bad_mode(mode)),
            Some(m) => match GrepScope::named(scope) {
                None => Err(bad_scope(scope)),
                Some(s) => Ok(GrepPlan { mode: m, scope: s, limit: limit_of(self.limit) }),
            },
        }
    }

    /// How to search, or what is wrong with the arguments.
    pub fn plan(&self) -> (r: Result<GrepPlan, String>)
        ensures
            match r {
                Ok(p) => self.meaning() == Ok::<GrepPlan, Seq<char>>(p),
                Err(e) => self.meaning() == Err::<GrepPlan, Seq<char>>(e@),
            },
    {
        let mode_name: &str = match &self.mode {
            Some(n) => n.as_str(),
            None => "fts",
        };
        let scope_name: &str = match &self.scope {
            Some(n) => n.as_str(),
            None => "both",
        };
        let mode = if same(mode_name, "fts") {
            GrepMode::Fts
        } else if same(mode_name, "regex") {
            GrepMode::Regex
        } else {
            let mut e = "mode must be \"fts\" or \"regex\", got ".to_owned();
            e.append(quote(mode_name).as_str());
            return Err(e);
        };
        let scope = if same(scope_name, "messages") {
            GrepScope::Messages
        } else if same(scope_name, "summaries") {
            GrepScope::Summaries
        } else if same(scope_name, "both") {
            GrepScope::Both
        } else {
            let mut e = "scope must be \"messages\", \"summaries\", or \"both\", got ".to_owned();
            e.append(quote(scope_name).as_str());
            return Err(e);
        };
        let asked: u32 = match self.limit {
            Some(n) => n,
            None => DEFAULT_GREP_LIMIT,
        };
        let limit: u32 = if asked > MAX_GREP_LIMIT {
            MAX_GREP_LIMIT
        } else {
            asked
        };
        Ok(GrepPlan { mode, scope, limit })
    }
}

// ── Full-text queries ───────────────────────────────────────────────

/// A pattern as a phrase of a full-text query.
pub open spec fn phrase(pattern: Seq<char>) -> Seq<char> {
    "\""@ + replaced(pattern, "\""@, "\"\""@) + "\""@
}

/// A pattern as a phrase of a full-text query: in double quotes, with those
/// inside doubled. So punctuation is taken for text.
pub fn fts_phrase(pattern: &str) -> (r: String)
    ensures
        r@ == phrase(pattern@),
{
    proof {
        reveal_strlit("\"");
    }
    let mut out = "\"".to_owned();
    out.append(replace(pattern, "\"", "\"\"").as_str());
    out.append("\"");
    out
}

/// Whether a word is an operator of full-text queries.
pub open spec fn is_operator(word: Seq<char>) -> bool {
    word == "AND"@ || word == "NOT"@ || word == "OR"@ || has_prefix(word, "NEAR("@)
}

/// Whether a pattern is written in query syntax.
pub open spec fn has_operators(pattern: Seq<char>) -> bool {
    pattern.contains('"') || exists|i: int|
        0 <= i < words_of(pattern).len() && is_operator(#[trigger] words_of(pattern)[i])
}

/// Whether a pattern is written in query syntax, so that quoting it whole
/// would drop its operators.
pub fn uses_fts_operators(pattern: &str) -> (r: bool)
    ensures
        r == has_operators(pattern@),
{
    let v = to_chars(pattern);
    let n: usize = v.len();
    let mut i: usize = 0;
    while i < n
        invariant
            i <= n,
            n == v@.len(),
            v@ == pattern@,
            forall|k: int| 0 <= k < i ==> pattern@[k] != '"',
        decreases n - i,
    {
        if v[i] == '"' {
            assert(pattern@.contains('"'));
            return true;
        }
        i += 1;
    }
    assert(!pattern@.contains('"'));
    let all = words(pattern);
    let ghost tokens = words_of(pattern@);
    let count: usize = all.len();
    assert(views(all@).len() == count);
    let mut k: usize = 0;
    while k < count
        invariant
            k <= count,
            count == all@.len(),
            tokens == views(all@),
            tokens == words_of(pattern@),
            !pattern@.contains('"'),
            forall|j: int| 0 <= j < k ==> !is_operator(#[trigger] tokens[j]),
        decreases count - k,
    {
        let word = all[k].as_str();
        assert(tokens[k as int] == word@);
        if same(word, "AND") || same(word, "NOT") || same(word, "OR") || starts_with(word, "NEAR(") {
            assert(is_operator(words_of(pattern@)[k as int]));
            return true;
        }
        k += 1;
    }
    false
}

/// Whether a database message says that a query does not parse.
pub open spec fn is_parse_failure(message: Seq<char>) -> bool {
    occurs(message, "fts5: syntax error"@) || has_prefix(message, "no such column:"@)
}

/// Whether a database message says that a query does not parse: a term with
/// a dash or a colon is taken for a filter on a column.
pub fn is_fts_parse_error(message: &str) -> (r: bool)
    ensures
        r == is_parse_failure(message@),
{
    contains(message, "fts5: syntax error") || starts_with(message, "no such column:")
}

// ── Answers ─────────────────────────────────────────────────────────

/// What a query came back with.
pub enum QueryResult {
    Found(Vec<String>),
    /// The message of the database.
    Failed(String),
}

/// What to do after a query.
pub enum GrepStep {
    Answer(String),
    /// Ask again with another pattern.
    Retry(String),
    /// The pattern is no query: name it, with what the database said.
    BadQuery(String),
    /// The database failed.
    Failed(String),
}

/// The answer that lists matches, as many as the limit allows.
pub open spec fn listed(pattern: Seq<char>, plan: GrepPlan, found: Seq<Seq<char>>) -> Seq<char> {
    let hits = first_of(found, plan.limit as nat);
    if hits.len() == 0 {
        "No matches for "@ + quoted(pattern) + " in "@ + plan.scope.label() + " ("@
            + plan.mode.label() + ")."@
    } else {
        decimal(hits.len()) + " match(es):\n"@ + joined(hits, "\n"@)
    }
}

/// The answer that lists matches, as many as the limit allows.
pub fn list_hits(pattern: &str, plan: GrepPlan, found: &Vec<String>) -> (r: String)
    ensures
        r@ == listed(pattern@, plan, views(found@)),
{
    let hits = first(found, plan.limit as usize);
    assert(views(hits@).len() == hits@.len());
    let mut out = String::new();
    if hits.len() == 0 {
        out.append("No matches for ");
        out.append(quote(pattern).as_str());
        out.append(" in ");
        out.append(plan.scope.name());
        out.append(" (");
        out.append(plan.mode.name());
        out.append(").");
        assert(out@ =~= listed(pattern@, plan, views(found@)));
    } else {
        push_usize(&mut out, hits.len());
        out.append(" match(es):\n");
        out.append(join(&hits, "\n").as_str());
        assert(out@ =~= listed(pattern@, plan, views(found@)));
    }
    out
}

/// What to do after the first query. Patterns are often literal text full of
/// punctuation: where a plain one does not parse, it is tried again as a
/// phrase. One with operators is refused instead.
pub fn after_first(pattern: &str, plan: GrepPlan, result: QueryResult) -> (r: GrepStep)
    ensures
        match result {
            QueryResult::Found(hits) => r matches GrepStep::Answer(a) && a@ == listed(
                pattern@,
                plan,
                views(hits@),
            ),
            QueryResult::Failed(message) => if plan.mode is Fts && is_parse_failure(message@) {
                if has_operators(pattern@) {
                    r matches GrepStep::BadQuery(m) && m@ == message@
                } else {
                    r matches GrepStep::Retry(p) && p@ == phrase(pattern@)
                }
            } else {
                r matches GrepStep::Failed(m) && m@ == message@
            },
        },
{
    match result {
        QueryResult::Found(hits) => GrepStep::Answer(list_hits(pattern, plan, &hits)),
        QueryResult::Failed(message) => {
            if plan.mode == GrepMode::Fts && is_fts_parse_error(message.as_str()) {
                if uses_fts_operators(pattern) {
                    GrepStep::BadQuery(message)
                } else {
                    GrepStep::Retry(fts_phrase(pattern))
                }
            } else {
                GrepStep::Failed(message)
            }
        },
    }
}

/// What to do after the second query. Where it does not parse either, the
/// first failure is what is told.
pub fn after_retry(pattern: &str, plan: GrepPlan, first: &str, result: QueryResult) -> (r: GrepStep)
    ensures
        match result {
            QueryResult::Found(hits) => r matches GrepStep::Answer(a) && a@ == listed(
                pattern@,
                plan,
                views(hits@),
            ),
            QueryResult::Failed(message) => if is_parse_failure(message@) {
                r matches GrepStep::BadQuery(m) && m@ == first@
            } else {
                r matches GrepStep::Failed(m) && m@ == message@
            },
        },
{
    match result {
        QueryResult::Found(hits) => GrepStep::Answer(list_hits(pattern, plan, &hits)),
        QueryResult::Failed(message) => {
            if is_fts_parse_error(message.as_str()) {
                GrepStep::BadQuery(first.to_owned())
            } else {
                GrepStep::Failed(message)
            }
        },
    }
}

// ── Regular expressions ─────────────────────────────────────────────

/// The first `limit` of some lines that an answer picks, going through them
/// in order. `None` where an answer is missing before the limit is reached.
pub open spec fn picked(lines: Seq<Seq<char>>, answers: Seq<Option<bool>>, limit: nat, n: nat)
    -> Option<Seq<Seq<char>>>
    decreases n,
{
    if n == 0 {
        Some(Seq::empty())
    } else {
        match picked(lines, answers, limit, (n - 1) as nat) {
            None => None,
            Some(hits) => if hits.len() >= limit {
                Some(hits)
            } else {
                match answers[n - 1] {
                    None => None,
                    Some(true) => Some(hits.push(lines[n - 1])),
                    Some(false) => Some(hits),
                }
            },
        }
    }
}

proof fn lemma_picked_none(
    lines: Seq<Seq<char>>,
    answers: Seq<Option<bool>>,
    limit: nat,
    i: nat,
    n: nat,
)
    requires
        i <= n,
        picked(lines, answers, limit, i) is None,
    ensures
        picked(lines, answers, limit, n) is None,
    decreases n - i,
{
    if i < n {
        lemma_picked_none(lines, answers, limit, i, (n - 1) as nat);
    }
}

proof fn lemma_picked_full(
    lines: Seq<Seq<char>>,
    answers: Seq<Option<bool>>,
    limit: nat,
    i: nat,
    n: nat,
)
    requires
        i <= n,
        picked(lines, answers, limit, i) matches Some(hits) && hits.len() >= limit,
    ensures
        picked(lines, answers, limit, n) == picked(lines, answers, limit, i),
    decreases n - i,
{
    if i < n {
        lemma_picked_full(lines, answers, limit, i, (n - 1) as nat);
    }
}

/// The answers of a regular expression on some texts.
pub open spec fn answers_on(pattern: Seq<char>, texts: Seq<Seq<char>>) -> Seq<Option<bool>> {
    texts.map_values(|t: Seq<char>| regex_is_match(pattern, t))
}

/// The first `limit` of some lines whose text a regular expression matches.
/// `None` where the pattern is none.
fn pick(lines: &Vec<String>, texts: &Vec<String>, pattern: &str, limit: u32) -> (r: Option<
    Vec<String>,
>)
    requires
        lines@.len() == texts@.len(),
    ensures
        ({
            let p = picked(
                views(lines@),
                answers_on(pattern@, views(texts@)),
                limit as nat,
                lines@.len(),
            );
            match r {
                Some(hits) => p == Some(views(hits@)),
                None => p is None,
            }
        }),
{
    let ghost all = views(lines@);
    let ghost answers = answers_on(pattern@, views(texts@));
    let n: usize = lines.len();
    let mut hits: Vec<String> = Vec::new();
    let mut i: usize = 0;
    assert(views(hits@) =~= Seq::empty());
    while i < n
        invariant
            i <= n,
            n == lines@.len(),
            n == texts@.len(),
            all == views(lines@),
            answers == answers_on(pattern@, views(texts@)),
            picked(all, answers, limit as nat, i as nat) == Some(views(hits@)),
        decreases n - i,
    {
        assert(views(hits@).len() == hits@.len());
        if hits.len() >= limit as usize {
            proof {
                lemma_picked_full(all, answers, limit as nat, i as nat, n as nat);
            }
            return Some(hits);
        }
        assert(answers[i as int] == regex_is_match(pattern@, texts@[i as int]@));
        assert(all[i as int] == lines@[i as int]@);
        match is_match(pattern, texts[i].as_str()) {
            None => {
                proof {
                    lemma_picked_none(all, answers, limit as nat, (i + 1) as nat, n as nat);
                }
                return None;
            },
            Some(found) => {
                if found {
                    let ghost before = hits@;
                    let line = lines[i].clone();
                    hits.push(line);
                    proof {
                        lemma_views_push(before, line);
                    }
                }
            },
        }
        i += 1;
    }
    Some(hits)
}

/// The texts of raw messages.
pub open spec fn message_texts(messages: Seq<StoredView>) -> Seq<Seq<char>> {
    messages.map_values(|m: StoredView| m.content)
}

/// The matches that raw messages would be shown as.
pub open spec fn message_hits(messages: Seq<StoredView>) -> Seq<Seq<char>> {
    messages.map_values(|m: StoredView| message_hit_text(m.message_id, m.role, m.content))
}

/// The texts of summaries.
pub open spec fn summary_texts(summaries: Seq<SummaryView>) -> Seq<Seq<char>> {
    summaries.map_values(|s: SummaryView| s.content)
}

/// The matches that summaries would be shown as.
pub open spec fn summary_hits(summaries: Seq<SummaryView>) -> Seq<Seq<char>> {
    summaries.map_values(
        |s: SummaryView| summary_hit_text(s.summary_id, s.kind, s.depth, s.content),
    )
}

/// The matches in messages, given the answer on each.
pub open spec fn grep_messages(v: ConversationView, answers: Seq<Option<bool>>, limit: nat) -> Option<
    Seq<Seq<char>>,
> {
    picked(message_hits(v.messages), answers, limit, v.messages.len())
}

/// The matches in summaries, given the answer on each.
pub open spec fn grep_summaries(v: ConversationView, answers: Seq<Option<bool>>, limit: nat) -> Option<
    Seq<Seq<char>>,
> {
    picked(summary_hits(v.summaries), answers, limit, v.summaries.len())
}

/// How many hits are left for summaries where messages gave `found`.
pub open spec fn hits_left(limit: nat, found: nat) -> nat {
    if found < limit {
        (limit - found) as nat
    } else {
        0
    }
}

/// The matches in a scope: those in messages, then those in summaries, up to
/// the limit together.
pub open spec fn grep_all(
    v: ConversationView,
    scope: GrepScope,
    on_messages: Seq<Option<bool>>,
    on_summaries: Seq<Option<bool>>,
    limit: nat,
) -> Option<Seq<Seq<char>>> {
    let first = if scope.has_messages() {
        grep_messages(v, on_messages, limit)
    } else {
        Some(Seq::empty())
    };
    match first {
        None => None,
        Some(a) => if scope.has_summaries() {
            match grep_summaries(v, on_summaries, hits_left(limit, a.len())) {
                None => None,
                Some(b) => Some(a + b),
            }
        } else {
            Some(a)
        },
    }
}

proof fn lemma_picked_is_capped(
    lines: Seq<Seq<char>>,
    answers: Seq<Option<bool>>,
    limit: nat,
    n: nat,
)
    ensures
        picked(lines, answers, limit, n) matches Some(hits) ==> hits.len() <= limit,
    decreases n,
{
    if n > 0 {
        lemma_picked_is_capped(lines, answers, limit, (n - 1) as nat);
    }
}

/// A search cannot hand out a whole conversation: there are at most as many
/// hits as the limit says, whatever is searched.
pub proof fn search_is_capped(
    v: ConversationView,
    scope: GrepScope,
    on_messages: Seq<Option<bool>>,
    on_summaries: Seq<Option<bool>>,
    limit: nat,
)
    ensures
        grep_all(v, scope, on_messages, on_summaries, limit) matches Some(hits) ==> hits.len()
            <= limit,
{
    lemma_picked_is_capped(message_hits(v.messages), on_messages, limit, v.messages.len());
    if let Some(a) = grep_messages(v, on_messages, limit) {
        lemma_picked_is_capped(
            summary_hits(v.summaries),
            on_summaries,
            hits_left(limit, a.len()),
            v.summaries.len(),
        );
    }
    lemma_picked_is_capped(summary_hits(v.summaries), on_summaries, limit, v.summaries.len());
}

/// How many hits are left for summaries where messages gave `found`: the
/// limit is on both together.
pub fn left_for_summaries(limit: u32, found: usize) -> (r: u32)
    ensures
        r == hits_left(limit as nat, found as nat),
{
    if found < limit as usize {
        limit - found as u32
    } else {
        0
    }
}

/// The messages that a regular expression matches.
fn regex_messages(c: &Conversation, pattern: &str, limit: u32) -> (r: Option<Vec<String>>)
    ensures
        ({
            let p = grep_messages(
                c@,
                answers_on(pattern@, message_texts(c@.messages)),
                limit as nat,
            );
            match r {
                Some(hits) => p == Some(views(hits@)),
                None => p is None,
            }
        }),
{
    let n: usize = c.message_count();
    let mut lines: Vec<String> = Vec::new();
    let mut texts: Vec<String> = Vec::new();
    let mut i: usize = 0;
    while i < n
        invariant
            i <= n,
            n == c@.messages.len(),
            lines@.len() == i,
            texts@.len() == i,
            forall|k: int| 0 <= k < i ==> (#[trigger] lines@[k])@ == message_hits(c@.messages)[k],
            forall|k: int| 0 <= k < i ==> (#[trigger] texts@[k])@ == message_texts(c@.messages)[k],
        decreases n - i,
    {
        let m = c.message(i);
        lines.push(message_hit(m.message_id, m.role.as_str(), m.content.as_str()));
        texts.push(m.content.clone());
        i += 1;
    }
    assert(views(lines@) =~= message_hits(c@.messages));
    assert(views(texts@) =~= message_texts(c@.messages));
    pick(&lines, &texts, pattern, limit)
}

/// The summaries that a regular expression matches.
fn regex_summaries(c: &Conversation, pattern: &str, limit: u32) -> (r: Option<Vec<String>>)
    ensures
        ({
            let p = grep_summaries(
                c@,
                answers_on(pattern@, summary_texts(c@.summaries)),
                limit as nat,
            );
            match r {
                Some(hits) => p == Some(views(hits@)),
                None => p is None,
            }
        }),
{
    let n: usize = c.summary_count();
    let mut lines: Vec<String> = Vec::new();
    let mut texts: Vec<String> = Vec::new();
    let mut i: usize = 0;
    while i < n
        invariant
            i <= n,
            n == c@.summaries.len(),
            lines@.len() == i,
            texts@.len() == i,
            forall|k: int| 0 <= k < i ==> (#[trigger] lines@[k])@ == summary_hits(c@.summaries)[k],
            forall|k: int| 0 <= k < i ==> (#[trigger] texts@[k])@ == summary_texts(c@.summaries)[k],
        decreases n - i,
    {
        let s = c.summary(i);
        lines.push(
            summary_hit(s.summary_id.as_str(), s.kind.as_str(), s.depth, s.content.as_str()),
        );
        texts.push(s.content.clone());
        i += 1;
    }
    assert(views(lines@) =~= summary_hits(c@.summaries));
    assert(views(texts@) =~= summary_texts(c@.summaries));
    pick(&lines, &texts, pattern, limit)
}

/// Searches a conversation with a regular expression, for at most `limit`
/// hits. `None` where the pattern is none.
pub fn grep_regex(c: &Conversation, pattern: &str, scope: GrepScope, limit: u32) -> (r: Option<
    Vec<String>,
>)
    ensures
        ({
            let p = grep_all(
                c@,
                scope,
                answers_on(pattern@, message_texts(c@.messages)),
                answers_on(pattern@, summary_texts(c@.summaries)),
                limit as nat,
            );
            match r {
                Some(hits) => p == Some(views(hits@)),
                None => p is None,
            }
        }),
{
    let mut hits: Vec<String> = Vec::new();
    assert(views(hits@) =~= Seq::empty());
    if scope == GrepScope::Messages || scope == GrepScope::Both {
        match regex_messages(c, pattern, limit) {
            None => {
                return None;
            },
            Some(found) => {
                hits = found;
            },
        }
    }
    assert(views(hits@).len() == hits@.len());
    if scope == GrepScope::Summaries || scope == GrepScope::Both {
        match regex_summaries(c, pattern, left_for_summaries(limit, hits.len())) {
            None => {
                return None;
            },
            Some(found) => {
                let ghost first = views(hits@);
                let ghost second = views(found@);
                let n: usize = found.len();
                let mut i: usize = 0;
                assert(second.take(0) =~= Seq::empty());
                assert(views(hits@) =~= first + second.take(0));
                while i < n
                    invariant
                        i <= n,
                        n == found@.len(),
                        second == views(found@),
                        views(hits@) == first + second.take(i as int),
                    decreases n - i,
                {
                    let ghost before = hits@;
                    let line = found[i].clone();
                    hits.push(line);
                    proof {
                        lemma_views_push(before, line);
                        assert(second.take(i + 1) =~= second.take(i as int).push(
                            found@[i as int]@,
                        ));
                        assert(views(hits@) =~= first + second.take(i + 1));
                    }
                    i += 1;
                }
                assert(second.take(n as int) =~= second);
            },
        }
    }
    Some(hits)
}

// ── What a search shows ─────────────────────────────────────────────

/// A snippet shows the start of what was matched: a short text whole, and of
/// a longer one the first 200 characters with dots behind them. Newlines turn
/// into spaces, and nothing else changes.
pub proof fn a_snippet_shows_the_start(s: Seq<char>)
    ensures
        s.len() <= 200 ==> snippet_of(s).len() == s.len(),
        s.len() > 200 ==> snippet_of(s).len() == 203 && snippet_of(s).skip(200) == "..."@,
        forall|i: int|
            0 <= i < s.len() && i < 200 ==> #[trigger] snippet_of(s)[i] == if s[i] == '\n' {
                ' '
            } else {
                s[i]
            },
{
    reveal_strlit("...");
    if s.len() > 200 {
        assert(snippet_of(s).skip(200) =~= "..."@);
    }
}

/// A match names what it was found in, and shows its text.
pub proof fn a_hit_names_its_place(m: StoredView, s: SummaryView)
    ensures
        message_hit_text(m.message_id, m.role, m.content) == "[message_id="@ + signed_decimal(
            m.message_id as int,
        ) + " role="@ + m.role + "] "@ + snippet_of(m.content),
        summary_hit_text(s.summary_id, s.kind, s.depth, s.content) == "[summary_id="@ + s.summary_id
            + " kind="@ + s.kind + " depth="@ + signed_decimal(s.depth as int) + "] "@ + snippet_of(
            s.content,
        ),
{
}

/// The numbers from 0 on.
pub open spec fn places(n: nat) -> Seq<int> {
    Seq::new(n, |i: int| i)
}

/// Where the answer is yes, in order.
pub open spec fn yeses(answers: Seq<Option<bool>>, n: nat) -> Seq<int> {
    places(n).filter(|i: int| answers[i] == Some(true))
}

proof fn lemma_yeses(answers: Seq<Option<bool>>, n: nat)
    requires
        n > 0,
    ensures
        yeses(answers, n) == if answers[n - 1] == Some(true) {
            yeses(answers, (n - 1) as nat).push(n - 1)
        } else {
            yeses(answers, (n - 1) as nat)
        },
{
    reveal(Seq::filter);
    assert(places(n).drop_last() =~= places((n - 1) as nat));
}

proof fn lemma_picked_finds(
    lines: Seq<Seq<char>>,
    answers: Seq<Option<bool>>,
    limit: nat,
    n: nat,
)
    requires
        forall|i: int| 0 <= i < n ==> (#[trigger] answers[i]) is Some,
    ensures
        picked(lines, answers, limit, n) == Some(
            Seq::new(
                if yeses(answers, n).len() <= limit {
                    yeses(answers, n).len()
                } else {
                    limit
                },
                |k: int| lines[yeses(answers, n)[k]],
            ),
        ),
    decreases n,
{
    let want = Seq::new(
        if yeses(answers, n).len() <= limit {
            yeses(answers, n).len()
        } else {
            limit
        },
        |k: int| lines[yeses(answers, n)[k]],
    );
    if n == 0 {
        reveal(Seq::filter);
        assert(want =~= Seq::empty());
    } else {
        lemma_yeses(answers, n);
        lemma_picked_finds(lines, answers, limit, (n - 1) as nat);
        let hits = picked(lines, answers, limit, (n - 1) as nat)->0;
        assert(answers[n - 1] is Some);
        if hits.len() >= limit {
            assert(want =~= hits);
        } else if answers[n - 1] == Some(true) {
            assert(want =~= hits.push(lines[n - 1]));
        } else {
            assert(want =~= hits);
        }
    }
}

/// A search finds every match: where the pattern can be tried on each message,
/// the hits are the messages that it matches, in order, and as many of them as
/// the limit allows.
pub proof fn every_matching_message_is_found(
    v: ConversationView,
    answers: Seq<Option<bool>>,
    limit: nat,
)
    requires
        answers.len() == v.messages.len(),
        forall|i: int| 0 <= i < answers.len() ==> (#[trigger] answers[i]) is Some,
    ensures
        ({
            let at = yeses(answers, answers.len());
            &&& grep_messages(v, answers, limit) is Some
            &&& grep_messages(v, answers, limit)->0.len() == if at.len() <= limit {
                at.len()
            } else {
                limit
            }
            &&& forall|k: int|
                0 <= k < grep_messages(v, answers, limit)->0.len() ==> {
                    let m = v.messages[at[k]];
                    #[trigger] grep_messages(v, answers, limit)->0[k] == message_hit_text(
                        m.message_id,
                        m.role,
                        m.content,
                    )
                }
        }),
{
    let n = answers.len();
    lemma_picked_finds(message_hits(v.messages), answers, limit, n);
    lemma_yeses_are_places(answers, n);
}

/// A search finds every match: where the pattern can be tried on each summary,
/// the hits are the summaries that it matches, in order, and as many of them
/// as the limit allows.
pub proof fn every_matching_summary_is_found(
    v: ConversationView,
    answers: Seq<Option<bool>>,
    limit: nat,
)
    requires
        answers.len() == v.summaries.len(),
        forall|i: int| 0 <= i < answers.len() ==> (#[trigger] answers[i]) is Some,
    ensures
        ({
            let at = yeses(answers, answers.len());
            &&& grep_summaries(v, answers, limit) is Some
            &&& grep_summaries(v, answers, limit)->0.len() == if at.len() <= limit {
                at.len()
            } else {
                limit
            }
            &&& forall|k: int|
                0 <= k < grep_summaries(v, answers, limit)->0.len() ==> {
                    let s = v.summaries[at[k]];
                    #[trigger] grep_summaries(v, answers, limit)->0[k] == summary_hit_text(
                        s.summary_id,
                        s.kind,
                        s.depth,
                        s.content,
                    )
                }
        }),
{
    let n = answers.len();
    lemma_picked_finds(summary_hits(v.summaries), answers, limit, n);
    lemma_yeses_are_places(answers, n);
}

proof fn lemma_yeses_are_places(answers: Seq<Option<bool>>, n: nat)
    ensures
        yeses(answers, n).len() <= n,
        forall|k: int|
            0 <= k < yeses(answers, n).len() ==> 0 <= #[trigger] yeses(answers, n)[k] < n
                && answers[yeses(answers, n)[k]] == Some(true),
    decreases n,
{
    if n == 0 {
        reveal(Seq::filter);
    } else {
        lemma_yeses(answers, n);
        lemma_yeses_are_places(answers, (n - 1) as nat);
    }
}

/// Both places are searched where both are asked for: the hits in messages
/// come first, and those in summaries take what is left of the limit.
pub proof fn a_scope_is_searched_whole(
    v: ConversationView,
    on_messages: Seq<Option<bool>>,
    on_summaries: Seq<Option<bool>>,
    limit: nat,
)
    ensures
        grep_all(v, GrepScope::Messages, on_messages, on_summaries, limit) == grep_messages(
            v,
            on_messages,
            limit,
        ),
        grep_all(v, GrepScope::Summaries, on_messages, on_summaries, limit) == grep_summaries(
            v,
            on_summaries,
            limit,
        ),
        grep_messages(v, on_messages, limit) matches Some(a) ==> (grep_summaries(
            v,
            on_summaries,
            (limit - a.len()) as nat,
        ) matches Some(b) ==> (a.len() <= limit ==> grep_all(
            v,
            GrepScope::Both,
            on_messages,
            on_summaries,
            limit,
        ) == Some(a + b))),
{
    if let Some(b) = grep_summaries(v, on_summaries, limit) {
        assert(Seq::<Seq<char>>::empty() + b =~= b);
    }
}

/// An answer counts the matches that it lists, and lists the first of them up
/// to the limit; without any it says so.
pub proof fn an_answer_lists_what_was_found(
    pattern: Seq<char>,
    plan: GrepPlan,
    found: Seq<Seq<char>>,
)
    ensures
        ({
            let k = if found.len() <= plan.limit {
                found.len() as int
            } else {
                plan.limit as int
            };
            &&& k > 0 ==> listed(pattern, plan, found) == decimal(k as nat) + " match(es):\n"@
                + joined(found.take(k), "\n"@)
            &&& k == 0 ==> has_prefix(
                listed(pattern, plan, found),
                "No matches for "@ + quoted(pattern),
            )
        }),
{
    let none = listed(pattern, plan, Seq::empty());
    let head = "No matches for "@ + quoted(pattern);
    assert(none.take(head.len() as int) =~= head);
    if found.len() <= plan.limit {
        assert(found.take(found.len() as int) =~= found);
    }
    if found.len() == 0 || plan.limit == 0 {
        assert(first_of(found, plan.limit as nat) =~= Seq::empty());
    }
}

/// A limit is 50 unless another is asked for, which is taken up to 200.
pub proof fn limits_follow_the_arguments(n: u32)
    ensures
        limit_of(None) == 50,
        limit_of(Some(n)) == if n <= 200 {
            n as int
        } else {
            200
        },
{
}

/// A phrase stands for its pattern, character by character: a quote is
/// doubled, any other character stays, and quotes stand around them all.
pub proof fn a_phrase_keeps_every_character(a: Seq<char>, b: Seq<char>, x: char)
    ensures
        phrase(Seq::empty()) == "\"\""@,
        x == '"' ==> phrase(seq![x]) == "\"\"\"\""@,
        x != '"' ==> phrase(seq![x]) == "\""@ + seq![x] + "\""@,
        phrase(a + b) == phrase(a).drop_last() + phrase(b).drop_first(),
{
    reveal_strlit("\"");
    reveal_strlit("\"\"");
    reveal_strlit("\"\"\"\"");
    let q = "\""@;
    assert(q =~= seq!['"']);
    replacing_a_character_is_local(a, b, '"', x, "\"\""@);
    assert(phrase(Seq::empty()) =~= "\"\""@);
    assert(phrase(a + b) =~= phrase(a).drop_last() + phrase(b).drop_first());
    if x == '"' {
        assert(phrase(seq![x]) =~= "\"\"\"\""@);
    }
}

/// The arguments are read as they are written: a mode and a scope that are not
/// given are full text and both, and an unknown one is told, the mode first.
pub proof fn arguments_are_read_as_written(args: GrepArgs)
    ensures
        args.meaning() matches Ok(p) ==> {
            &&& (p.mode is Regex <==> args.mode is Some && args.mode->0@ == "regex"@)
            &&& (p.mode is Fts <==> args.mode is None || args.mode->0@ == "fts"@)
            &&& (p.scope is Messages <==> args.scope is Some && args.scope->0@ == "messages"@)
            &&& (p.scope is Summaries <==> args.scope is Some && args.scope->0@ == "summaries"@)
            &&& (p.scope is Both <==> args.scope is None || args.scope->0@ == "both"@)
            &&& args.limit is None ==> p.limit == 50
            &&& args.limit matches Some(n) ==> p.limit == if n <= 200 {
                n as int
            } else {
                200
            }
        },
        args.meaning() matches Err(e) ==> {
            ||| args.mode is Some && args.mode->0@ != "fts"@ && args.mode->0@ != "regex"@ && e
                == "mode must be \"fts\" or \"regex\", got "@ + quoted(args.mode->0@)
            ||| args.scope is Some && args.scope->0@ != "messages"@ && args.scope->0@
                != "summaries"@ && args.scope->0@ != "both"@ && e
                == "scope must be \"messages\", \"summaries\", or \"both\", got "@ + quoted(
                args.scope->0@,
            )
        },
{
    reveal_strlit("fts");
    reveal_strlit("regex");
    reveal_strlit("messages");
    reveal_strlit("summaries");
    reveal_strlit("both");
    assert("fts"@.len() == 3 && "regex"@.len() == 5);
    assert("messages"@.len() == 8 && "summaries"@.len() == 9 && "both"@.len() == 4);
}

/// A pattern is in query syntax where it holds a quote or an operator as a
/// word, and not otherwise.
pub proof fn query_syntax_is_told_by_its_words(pattern: Seq<char>, a: Seq<char>, b: Seq<char>)
    ensures
        has_operators(a + seq!['"'] + b),
        forall|i: int|
            0 <= i < words_of(pattern).len() && (#[trigger] words_of(pattern)[i] == "AND"@
                || words_of(pattern)[i] == "NOT"@ || words_of(pattern)[i] == "OR"@ || has_prefix(
                words_of(pattern)[i],
                "NEAR("@,
            )) ==> has_operators(pattern),
        !pattern.contains('"') && (forall|i: int|
            0 <= i < words_of(pattern).len() ==> #[trigger] words_of(pattern)[i] != "AND"@
                && words_of(pattern)[i] != "NOT"@ && words_of(pattern)[i] != "OR"@ && !has_prefix(
                words_of(pattern)[i],
                "NEAR("@,
            )) ==> !has_operators(pattern),
{
    let quoted_pattern = a + seq!['"'] + b;
    assert(quoted_pattern[a.len() as int] == '"');
    assert(quoted_pattern.contains('"'));
    assert forall|i: int|
        0 <= i < words_of(pattern).len() && (#[trigger] words_of(pattern)[i] == "AND"@
            || words_of(pattern)[i] == "NOT"@ || words_of(pattern)[i] == "OR"@ || has_prefix(
            words_of(pattern)[i],
            "NEAR("@,
        )) implies has_operators(pattern) by {
        assert(is_operator(words_of(pattern)[i]));
    }
}

/// A query that does not parse is told by the database's own words, wherever
/// it says that the syntax is wrong, or where it starts with a missing column.
pub proof fn parse_failures_are_told_by_their_words(a: Seq<char>, b: Seq<char>)
    ensures
        is_parse_failure(a + "fts5: syntax error"@ + b),
        is_parse_failure("no such column:"@ + b),
        is_parse_failure(a) && !has_prefix(a, "no such column:"@) ==> occurs(
            a,
            "fts5: syntax error"@,
        ),
{
    lemma_occurs_within(a, "fts5: syntax error"@, b);
    let m = "no such column:"@ + b;
    assert(m.take("no such column:"@.len() as int) =~= "no such column:"@);
}

} // verus!
