//! The engine: the conversations of all sessions, one of them active, and the
//! limits at which the active one is compacted.

use vstd::prelude::*;

use super::chunks::{
    are_runs, are_summary_runs, children_fit, condensed_runs, eligible, entries_fit, first_fault,
    leaf_runs, message_counts, rows_fit, CondensedChunk, LeafChunk,
};
use super::compaction::{child_ids, condensed_summary, leaf_summary};
use super::counts::{
    are_countable, counts_fit, from_stored_count, lemma_total, read_count, sum, total,
};
use super::ingest::{LargeFileRow, LargeFileView};
use super::rows::{RowError, RowFault};
use super::store::compact::{are_placed, is_placed};
use super::store::history::{span, token_counts, transcript};
use super::store::{message_with, summary_with, Conversation, ConversationView, StoredView};
use super::summarize::EscalationOutcome;
use crate::config::ContextConfig;
use crate::context::names::{desanitize_name, desanitized, sanitize_name, sanitized};
use crate::context::{percent_of, share, AssembledContext, ContextStats, SessionInfo, ToolScope};
use crate::table::Table;
use crate::text::order::{lemma_lt_irreflexive, lemma_lt_total, lemma_lt_transitive, lt, text_lt};
use crate::text::split::{
    is_blank, is_trim, lemma_blank_is_trimmed_empty, trim, trimmed, trimming_takes_off_whitespace,
};
use crate::text::{same, views};
use crate::types::{message_views, Message, MessageView};

verus! {

// ── Thresholds ──────────────────────────────────────────────────────

/// Whether the thresholds are within range.
pub open spec fn thresholds_fit(ctx: ContextConfig) -> bool {
    &&& ctx.max_tokens * ctx.lcm.soft_budget_percent <= usize::MAX
    &&& ctx.max_tokens * ctx.lcm.hard_budget_percent <= usize::MAX
}

/// The level at which the context is compacted between turns. It is reported
/// as the budget.
pub fn soft_threshold(ctx: &ContextConfig) -> (n: usize)
    requires
        thresholds_fit(*ctx),
    ensures
        n == percent_of(ctx.max_tokens, ctx.lcm.soft_budget_percent),
{
    share(ctx.max_tokens, ctx.lcm.soft_budget_percent)
}

/// The level at which the context is compacted before the next request.
pub fn hard_threshold(ctx: &ContextConfig) -> (n: usize)
    requires
        thresholds_fit(*ctx),
    ensures
        n == percent_of(ctx.max_tokens, ctx.lcm.hard_budget_percent),
{
    share(ctx.max_tokens, ctx.lcm.hard_budget_percent)
}

// ── Tools ───────────────────────────────────────────────────────────

/// The names of the retrieval tools in a scope.
pub open spec fn tools_in(scope: ToolScope) -> Seq<Seq<char>> {
    match scope {
        ToolScope::Root => seq!["lcm_grep"@, "lcm_describe"@],
        ToolScope::SubAgent => seq!["lcm_grep"@, "lcm_describe"@, "lcm_expand"@],
    }
}

/// The names of the retrieval tools in a scope. Expansion is for sub-agents
/// only: it would flood the very window that is being kept small.
pub fn tool_names(scope: ToolScope) -> (out: Vec<&'static str>)
    ensures
        out@.map_values(|s: &'static str| s@) == tools_in(scope),
{
    let mut out: Vec<&'static str> = Vec::new();
    out.push("lcm_grep");
    out.push("lcm_describe");
    match scope {
        ToolScope::Root => {},
        ToolScope::SubAgent => {
            out.push("lcm_expand");
        },
    }
    assert(out@.map_values(|s: &'static str| s@) =~= tools_in(scope));
    out
}

// ── The active session ──────────────────────────────────────────────

/// The session that was active last, from the text that was kept of it.
pub open spec fn remembered(text: Option<Seq<char>>) -> Option<Seq<char>> {
    match text {
        Some(t) if trimmed(t).len() > 0 => Some(trimmed(t)),
        _ => None,
    }
}

/// The session that was active last, from the text that was kept of it;
/// `None` where there is none, or it is blank.
pub fn read_active_session(text: Option<&str>) -> (r: Option<String>)
    ensures
        match (r, remembered(match text {
            Some(t) => Some(t@),
            None => None,
        })) {
            (Some(name), Some(v)) => name@ == v,
            (None, None) => true,
            _ => false,
        },
{
    match text {
        None => None,
        Some(t) => {
            let name = trim(t);
            if name.as_str().is_empty() {
                None
            } else {
                Some(name)
            }
        },
    }
}

// ── The engine ──────────────────────────────────────────────────────

/// A payload that is stored outside, with where it was seen first.
pub struct StoredFile {
    pub row: LargeFileRow,
    /// The session, by its stored name.
    pub session: String,
    pub first_seen_message_id: Option<i64>,
    pub created_at: String,
}

/// The view of a [`StoredFile`].
pub struct FileView {
    pub row: LargeFileView,
    pub session: Seq<char>,
    pub first_seen_message_id: Option<i64>,
    pub created_at: Seq<char>,
}

impl View for StoredFile {
    type V = FileView;

    open spec fn view(&self) -> FileView {
        FileView {
            row: self.row@,
            session: self.session@,
            first_seen_message_id: self.first_seen_message_id,
            created_at: self.created_at@,
        }
    }
}

/// The views of stored payloads.
pub open spec fn file_views(files: Seq<StoredFile>) -> Seq<FileView> {
    files.map_values(|f: StoredFile| f@)
}

/// Whether a payload is stored under an id.
pub open spec fn has_file(files: Seq<FileView>, id: Seq<char>) -> bool {
    exists|i: int| 0 <= i < files.len() && (#[trigger] files[i]).row.file_id == id
}

/// The ids of stored payloads.
pub open spec fn file_ids(files: Seq<FileView>) -> Seq<Seq<char>> {
    files.map_values(|f: FileView| f.row.file_id)
}

/// The sizes of stored payloads, in bytes.
pub open spec fn byte_sizes(files: Seq<FileView>) -> Seq<i64> {
    files.map_values(|f: FileView| f.row.byte_size)
}

/// A session: its stored name and its conversation.
pub struct Session {
    pub name: String,
    pub conversation: Conversation,
}

/// The view of a [`Session`].
pub struct SessionView {
    pub name: Seq<char>,
    pub conversation: ConversationView,
}

impl View for Session {
    type V = SessionView;

    open spec fn view(&self) -> SessionView {
        SessionView { name: self.name@, conversation: self.conversation@ }
    }
}

/// The views of sessions.
pub open spec fn session_views(sessions: Seq<Session>) -> Seq<SessionView> {
    sessions.map_values(|s: Session| s@)
}

/// A context engine that keeps every message and compacts what it shows.
pub struct LcmEngine {
    sessions: Vec<Session>,
    active: usize,
    next_id: i64,
    files: Vec<StoredFile>,
    ctx: ContextConfig,
    observed_tokens: Option<usize>,
}

/// The view of an [`LcmEngine`].
pub struct EngineView {
    /// In the order of their stored names.
    pub sessions: Seq<SessionView>,
    pub active: int,
    pub next_id: i64,
    pub files: Seq<FileView>,
    pub ctx: ContextConfig,
    pub observed: Option<usize>,
}

impl View for LcmEngine {
    type V = EngineView;

    closed spec fn view(&self) -> EngineView {
        EngineView {
            sessions: session_views(self.sessions@),
            active: self.active as int,
            next_id: self.next_id,
            files: file_views(self.files@),
            ctx: self.ctx,
            observed: self.observed_tokens,
        }
    }
}

/// A conversation without messages.
pub open spec fn empty_conversation() -> ConversationView {
    ConversationView { messages: Seq::empty(), summaries: Seq::empty(), items: Seq::empty() }
}

/// Whether the names are in order, each standing once.
pub open spec fn names_ordered(sessions: Seq<SessionView>) -> bool {
    forall|i: int, j: int|
        0 <= i < j < sessions.len() ==> text_lt(
            (#[trigger] sessions[i]).name,
            (#[trigger] sessions[j]).name,
        )
}

/// Whether a session has a name.
pub open spec fn has_session(sessions: Seq<SessionView>, name: Seq<char>) -> bool {
    exists|i: int| 0 <= i < sessions.len() && (#[trigger] sessions[i]).name == name
}

/// Where a session with a name stands, or would stand: after those with
/// lesser names.
pub open spec fn place_of(sessions: Seq<SessionView>, name: Seq<char>) -> int
    decreases sessions.len(),
{
    if sessions.len() == 0 {
        0
    } else if text_lt(sessions[0].name, name) {
        1 + place_of(sessions.drop_first(), name)
    } else {
        0
    }
}

/// The sessions with one of a name, a new one where there was none.
pub open spec fn with_session(sessions: Seq<SessionView>, name: Seq<char>) -> Seq<SessionView> {
    if has_session(sessions, name) {
        sessions
    } else {
        sessions.insert(
            place_of(sessions, name),
            SessionView { name, conversation: empty_conversation() },
        )
    }
}

impl EngineView {
    /// Whether a session is active, the sessions are in order and well-formed,
    /// and the next message id is free.
    pub open spec fn wf(self) -> bool {
        &&& 0 <= self.active < self.sessions.len()
        &&& names_ordered(self.sessions)
        &&& forall|i: int| 0 <= i < self.sessions.len() ==> (#[trigger] self.sessions[i]).conversation.wf()
        &&& forall|i: int, k: int|
            0 <= i < self.sessions.len() && 0 <= k < self.sessions[i].conversation.messages.len()
                ==> (#[trigger] self.sessions[i].conversation.messages[k]).message_id < self.next_id
        &&& thresholds_fit(self.ctx)
    }

    /// The active conversation.
    pub open spec fn current(self) -> ConversationView {
        self.sessions[self.active].conversation
    }

    /// The name of the active session.
    pub open spec fn active_name(self) -> Seq<char> {
        self.sessions[self.active].name
    }

    /// The engine with another active conversation.
    pub open spec fn with_current(self, c: ConversationView) -> EngineView {
        EngineView {
            sessions: self.sessions.update(
                self.active,
                SessionView { name: self.active_name(), conversation: c },
            ),
            ..self
        }
    }

    /// The stored payloads with one more, where its id is not taken. The same
    /// payload has the same id, and its first row stays.
    pub open spec fn files_with(self, file: Option<LargeFileView>, now: Seq<char>) -> Seq<FileView> {
        match file {
            Some(row) => if has_file(self.files, row.file_id) {
                self.files
            } else {
                self.files.push(
                    FileView {
                        row,
                        session: self.active_name(),
                        first_seen_message_id: Some(self.next_id),
                        created_at: now,
                    },
                )
            },
            None => self.files,
        }
    }

    /// The engine with a message at the end of the active conversation.
    pub open spec fn pushed(
        self,
        msg: MessageView,
        file: Option<LargeFileView>,
        now: Seq<char>,
    ) -> EngineView {
        EngineView {
            next_id: (self.next_id + 1) as i64,
            files: self.files_with(file, now),
            ..self.with_current(self.current().pushed(self.next_id, msg, now))
        }
    }

    /// The tokens of the active context: what is stored, or what the provider
    /// reported, whichever is more.
    pub open spec fn tokens(self) -> nat {
        let stored = read_count(total(self.current().counts()) as i64);
        let seen = match self.observed {
            Some(n) => n as nat,
            None => 0,
        };
        if seen > stored {
            seen
        } else {
            stored
        }
    }

    /// Whether the context must be compacted before the next request.
    pub open spec fn is_urgent(self) -> bool {
        self.tokens() >= percent_of(self.ctx.max_tokens, self.ctx.lcm.hard_budget_percent)
    }

    /// Whether the context is compacted at the end of the turn.
    pub open spec fn is_due(self) -> bool {
        self.tokens() >= percent_of(self.ctx.max_tokens, self.ctx.lcm.soft_budget_percent)
    }

    /// What is listed of a session.
    pub open spec fn is_listed(self, i: int, info: SessionInfo) -> bool {
        let s = self.sessions[i];
        &&& info.name@ == desanitized(s.name)
        &&& info.message_count == s.conversation.items.len()
        &&& info.estimated_tokens == read_count(total(s.conversation.counts()) as i64)
    }
}

proof fn lemma_id_is_free(messages: Seq<StoredView>, id: i64)
    requires
        forall|k: int| 0 <= k < messages.len() ==> (#[trigger] messages[k]).message_id < id,
    ensures
        message_with(messages, id) is None,
    decreases messages.len(),
{
    if messages.len() > 0 {
        assert(messages[messages.len() - 1].message_id < id);
        lemma_id_is_free(messages.drop_last(), id);
    }
}

proof fn lemma_place_of(sessions: Seq<SessionView>, name: Seq<char>, k: int)
    requires
        0 <= k <= sessions.len(),
        forall|i: int| 0 <= i < k ==> text_lt((#[trigger] sessions[i]).name, name),
        k < sessions.len() ==> !text_lt(sessions[k].name, name),
    ensures
        place_of(sessions, name) == k,
    decreases sessions.len(),
{
    if k > 0 {
        let rest = sessions.drop_first();
        assert(text_lt(sessions[0].name, name));
        assert forall|i: int| 0 <= i < k - 1 implies text_lt((#[trigger] rest[i]).name, name) by {
            assert(rest[i] == sessions[i + 1]);
        }
        lemma_place_of(rest, name, k - 1);
    }
}

/// A new session in its place keeps the order.
proof fn lemma_with_session_is_ordered(sessions: Seq<SessionView>, name: Seq<char>, k: int)
    requires
        names_ordered(sessions),
        !has_session(sessions, name),
        0 <= k <= sessions.len(),
        forall|i: int| 0 <= i < k ==> text_lt((#[trigger] sessions[i]).name, name),
        k < sessions.len() ==> !text_lt(sessions[k].name, name),
    ensures
        names_ordered(with_session(sessions, name)),
{
    lemma_place_of(sessions, name, k);
    let out = with_session(sessions, name);
    assert forall|i: int| k <= i < sessions.len() implies text_lt(
        name,
        (#[trigger] sessions[i]).name,
    ) by {
        lemma_lt_total(name, sessions[k].name);
        assert(sessions[k].name != name);
        assert(text_lt(name, sessions[k].name));
        if i > k {
            lemma_lt_transitive(name, sessions[k].name, sessions[i].name);
        }
    }
    assert forall|i: int, j: int| 0 <= i < j < out.len() implies text_lt(
        (#[trigger] out[i]).name,
        (#[trigger] out[j]).name,
    ) by {
        let a = if i < k {
            i
        } else {
            i - 1
        };
        let b = if j < k {
            j
        } else {
            j - 1
        };
        if i != k {
            assert(out[i] == sessions[a]);
        }
        if j != k {
            assert(out[j] == sessions[b]);
        }
    }
}

impl LcmEngine {
    /// An engine without messages. The session that was active last is active
    /// again, or else `general`.
    pub fn new(ctx: ContextConfig, active: Option<&str>) -> (r: Self)
        requires
            thresholds_fit(ctx),
        ensures
            r@.wf(),
            r@.sessions == seq![
                SessionView {
                    name: match remembered(
                        match active {
                            Some(t) => Some(t@),
                            None => None,
                        },
                    ) {
                        Some(name) => name,
                        None => "general"@,
                    },
                    conversation: empty_conversation(),
                },
            ],
            r@.active == 0,
            r@.next_id == 1,
            r@.files == Seq::<FileView>::empty(),
            r@.ctx == ctx,
            r@.observed is None,
    {
        let name = match read_active_session(active) {
            Some(name) => name,
            None => "general".to_owned(),
        };
        let mut sessions: Vec<Session> = Vec::new();
        sessions.push(Session { name, conversation: Conversation::new() });
        let r = LcmEngine {
            sessions,
            active: 0,
            next_id: 1,
            files: Vec::new(),
            ctx,
            observed_tokens: None,
        };
        proof {
            assert(r@.sessions[0] == r.sessions@[0]@);
            assert(r@.sessions.len() == 1);
            assert(r@.sessions[0].conversation == empty_conversation());
            assert(r@.sessions =~= seq![
                SessionView { name: name@, conversation: empty_conversation() },
            ]);
            assert(r@.files =~= Seq::empty());
        }
        r
    }

    /// An engine from what was stored; `None` where it makes up none. The
    /// sessions are given in the order of their names.
    pub fn open(
        ctx: ContextConfig,
        sessions: Vec<Session>,
        active: usize,
        next_id: i64,
        files: Vec<StoredFile>,
    ) -> (r: Option<Self>)
        requires
            thresholds_fit(ctx),
            forall|i: int|
                0 <= i < sessions@.len() ==> (#[trigger] sessions@[i]).conversation@.wf(),
        ensures
            ({
                let v = EngineView {
                    sessions: session_views(sessions@),
                    active: active as int,
                    next_id,
                    files: file_views(files@),
                    ctx,
                    observed: None,
                };
                match r {
                    Some(e) => e@ == v && v.wf(),
                    None => !v.wf(),
                }
            }),
    {
        let ghost v = EngineView {
            sessions: session_views(sessions@),
            active: active as int,
            next_id,
            files: file_views(files@),
            ctx,
            observed: None,
        };
        let n: usize = sessions.len();
        if active >= n {
            return None;
        }
        let mut i: usize = 0;
        while i < n
            invariant
                i <= n,
                n == sessions@.len(),
                v.sessions == session_views(sessions@),
                v.next_id == next_id,
                forall|j: int, k: int|
                    0 <= j < k < i ==> text_lt(
                        (#[trigger] v.sessions[j]).name,
                        (#[trigger] v.sessions[k]).name,
                    ),
                forall|j: int, k: int|
                    0 <= j < i && 0 <= k < v.sessions[j].conversation.messages.len()
                        ==> (#[trigger] v.sessions[j].conversation.messages[k]).message_id
                        < next_id,
            decreases n - i,
        {
            assert(v.sessions[i as int] == sessions@[i as int]@);
            if i > 0 {
                assert(v.sessions[i - 1] == sessions@[i - 1]@);
                if !lt(sessions[i - 1].name.as_str(), sessions[i].name.as_str()) {
                    return None;
                }
                proof {
                    assert forall|j: int| 0 <= j < i implies text_lt(
                        (#[trigger] v.sessions[j]).name,
                        v.sessions[i as int].name,
                    ) by {
                        if j < i - 1 {
                            lemma_lt_transitive(
                                v.sessions[j].name,
                                v.sessions[i - 1].name,
                                v.sessions[i as int].name,
                            );
                        }
                    }
                }
            }
            let conversation = &sessions[i].conversation;
            let count: usize = conversation.message_count();
            let mut k: usize = 0;
            while k < count
                invariant
                    k <= count,
                    count == conversation@.messages.len(),
                    i < n,
                    n == sessions@.len(),
                    v.sessions == session_views(sessions@),
                    v.sessions[i as int].conversation == conversation@,
                    v.next_id == next_id,
                    forall|m: int|
                        0 <= m < k ==> (#[trigger] conversation@.messages[m]).message_id < next_id,
                decreases count - k,
            {
                if conversation.message(k).message_id >= next_id {
                    assert(v.sessions[i as int].conversation.messages[k as int].message_id
                        >= next_id);
                    return None;
                }
                k += 1;
            }
            i += 1;
        }
        let r = LcmEngine { sessions, active, next_id, files, ctx, observed_tokens: None };
        assert(r@ == v);
        proof {
            assert forall|i: int| 0 <= i < v.sessions.len() implies (
            #[trigger] v.sessions[i]).conversation.wf() by {
                assert(v.sessions[i] == r.sessions@[i]@);
            }
        }
        Some(r)
    }

    /// The active conversation.
    pub fn current(&self) -> (c: &Conversation)
        requires
            self@.wf(),
        ensures
            c@ == self@.current(),
    {
        assert(self@.sessions[self.active as int] == self.sessions@[self.active as int]@);
        &self.sessions[self.active].conversation
    }

    /// The stored name of the active session.
    pub fn active_session(&self) -> (r: &str)
        requires
            self@.wf(),
        ensures
            r@ == self@.active_name(),
    {
        assert(self@.sessions[self.active as int] == self.sessions@[self.active as int]@);
        self.sessions[self.active].name.as_str()
    }

    /// How many sessions there are.
    pub fn session_count(&self) -> (n: usize)
        ensures
            n == self@.sessions.len(),
    {
        self.sessions.len()
    }

    /// A session, in the order of the stored names.
    pub fn session(&self, i: usize) -> (r: &Session)
        requires
            i < self@.sessions.len(),
        ensures
            r@ == self@.sessions[i as int],
    {
        &self.sessions[i]
    }

    /// How many payloads are stored outside.
    pub fn file_count(&self) -> (n: usize)
        ensures
            n == self@.files.len(),
    {
        self.files.len()
    }

    /// The sizes of the payloads that are stored outside.
    fn payload_sizes(&self) -> (sizes: Vec<i64>)
        ensures
            sizes@ == byte_sizes(self@.files),
    {
        let n: usize = self.files.len();
        let mut sizes: Vec<i64> = Vec::new();
        let mut i: usize = 0;
        while i < n
            invariant
                i <= n,
                n == self.files@.len(),
                sizes@ == byte_sizes(self@.files).take(i as int),
            decreases n - i,
        {
            assert(self@.files[i as int] == self.files@[i as int]@);
            let ghost all = byte_sizes(self@.files);
            sizes.push(self.files[i].row.byte_size);
            assert(all.take(i + 1) =~= all.take(i as int).push(all[i as int]));
            i += 1;
        }
        assert(sizes@ =~= byte_sizes(self@.files));
        sizes
    }

    /// Whether the sizes of the payloads that are stored outside can be
    /// summed up.
    pub fn payloads_are_countable(&self) -> (r: bool)
        ensures
            r == counts_fit(byte_sizes(self@.files)),
    {
        are_countable(&self.payload_sizes())
    }

    /// The bytes of all payloads that are stored outside.
    pub fn payload_bytes(&self) -> (n: i64)
        requires
            counts_fit(byte_sizes(self@.files)),
        ensures
            n == total(byte_sizes(self@.files)),
            n >= 0,
    {
        proof {
            lemma_total(byte_sizes(self@.files), 0);
        }
        sum(&self.payload_sizes())
    }

    /// The settings.
    pub fn config(&self) -> (c: ContextConfig)
        ensures
            c == self@.ctx,
    {
        self.ctx
    }

    /// Whether a message can be stored.
    pub fn has_room(&self) -> (r: bool)
        requires
            self@.wf(),
        ensures
            r == (self@.current().has_room() && self@.next_id < i64::MAX),
    {
        self.current().has_room() && self.next_id < i64::MAX
    }

    /// Where a payload is stored.
    fn find_file(&self, id: &str) -> (r: Option<usize>)
        ensures
            match r {
                Some(i) => i < self@.files.len() && self@.files[i as int].row.file_id == id@,
                None => !has_file(self@.files, id@),
            },
    {
        let n: usize = self.files.len();
        let mut i: usize = 0;
        while i < n
            invariant
                i <= n,
                n == self.files@.len(),
                forall|k: int| 0 <= k < i ==> (#[trigger] self@.files[k]).row.file_id != id@,
            decreases n - i,
        {
            assert(self@.files[i as int] == self.files@[i as int]@);
            if same(self.files[i].row.file_id.as_str(), id) {
                return Some(i);
            }
            i += 1;
        }
        None
    }

    /// The payload stored under an id.
    pub fn file(&self, id: &str) -> (r: Option<&StoredFile>)
        ensures
            match r {
                Some(f) => self@.files.contains(f@) && f@.row.file_id == id@,
                None => !has_file(self@.files, id@),
            },
    {
        match self.find_file(id) {
            Some(i) => {
                assert(self@.files[i as int] == self.files@[i as int]@);
                Some(&self.files[i])
            },
            None => None,
        }
    }

    /// Stores a message at the end of the active conversation, together with
    /// what is recorded of its payload where that is stored outside.
    pub fn push_message(&mut self, msg: &Message, file: Option<LargeFileRow>, now: &str)
        requires
            old(self)@.wf(),
            old(self)@.current().has_room(),
            old(self)@.next_id < i64::MAX,
            msg@.chars() <= usize::MAX,
        ensures
            final(self)@ == old(self)@.pushed(
                msg@,
                match file {
                    Some(f) => Some(f@),
                    None => None,
                },
                now@,
            ),
            final(self)@.wf(),
    {
        let ghost before = self@;
        let ghost a = self.active as int;
        let id: i64 = self.next_id;
        assert(self@.sessions[a] == self.sessions@[a]@);
        proof {
            assert forall|k: int| 0 <= k < before.current().messages.len() implies (
            #[trigger] before.current().messages[k]).message_id < id by {
                assert(before.sessions[a].conversation.messages[k].message_id < before.next_id);
            }
            lemma_id_is_free(before.current().messages, id);
        }
        if let Some(row) = file {
            if self.find_file(row.file_id.as_str()).is_none() {
                let session = self.sessions[self.active].name.clone();
                let ghost files = self.files@;
                let stored = StoredFile {
                    row,
                    session,
                    first_seen_message_id: Some(id),
                    created_at: now.to_owned(),
                };
                self.files.push(stored);
                assert(file_views(self.files@) =~= file_views(files).push(stored@));
            }
        }
        let ghost sessions = self.sessions@;
        let active: usize = self.active;
        self.sessions[active].conversation.push_message(id, msg, now);
        self.next_id = id + 1;
        proof {
            let c = before.current().pushed(id, msg@, now@);
            assert(self.sessions@[a]@ == (SessionView {
                name: before.active_name(),
                conversation: c,
            }));
            assert(session_views(self.sessions@) =~= session_views(sessions).update(
                a,
                SessionView { name: before.active_name(), conversation: c },
            ));
            let after = self@;
            assert forall|i: int, k: int|
                0 <= i < after.sessions.len() && 0 <= k
                    < after.sessions[i].conversation.messages.len() implies (
            #[trigger] after.sessions[i].conversation.messages[k]).message_id < after.next_id by {
                if i == a {
                    if k < before.current().messages.len() {
                        assert(after.sessions[i].conversation.messages[k]
                            == before.sessions[a].conversation.messages[k]);
                    }
                } else {
                    assert(after.sessions[i] == before.sessions[i]);
                    assert(before.sessions[i].conversation.messages[k].message_id
                        < before.next_id);
                }
            }
            assert(names_ordered(after.sessions)) by {
                assert forall|i: int, j: int| 0 <= i < j < after.sessions.len() implies text_lt(
                    (#[trigger] after.sessions[i]).name,
                    (#[trigger] after.sessions[j]).name,
                ) by {
                    assert(after.sessions[i].name == before.sessions[i].name);
                    assert(after.sessions[j].name == before.sessions[j].name);
                }
            }
        }
    }

    /// Builds the messages of a request from the active conversation.
    pub fn assemble(&self, system_prompt: &str) -> (r: Result<AssembledContext, RowError>)
        requires
            self@.wf(),
        ensures
            match r {
                Ok(c) => self@.current().request(system_prompt@) == Ok::<
                    Seq<MessageView>,
                    RowFault,
                >(message_views(c.messages@)),
                Err(e) => self@.current().request(system_prompt@) == Err::<
                    Seq<MessageView>,
                    RowFault,
                >(e@),
            },
    {
        self.current().assemble(system_prompt)
    }

    /// Notes the prompt size that the provider reported.
    pub fn observe_tokens(&mut self, prompt_tokens: usize)
        ensures
            final(self)@ == (EngineView { observed: Some(prompt_tokens), ..old(self)@ }),
    {
        self.observed_tokens = Some(prompt_tokens);
    }

    /// Forgets the reported prompt size, as after a compaction: a stale mark
    /// would trigger compaction again and again.
    pub fn forget_observation(&mut self)
        ensures
            final(self)@ == (EngineView { observed: None, ..old(self)@ }),
    {
        self.observed_tokens = None;
    }

    /// How full the active context is. Estimates miss the system prompt, and
    /// a report lags one turn, so the larger of the two counts.
    pub fn stats(&self) -> (r: ContextStats)
        requires
            self@.wf(),
            counts_fit(self@.current().counts()),
        ensures
            r.message_count == self@.current().items.len(),
            r.token_estimate == self@.tokens(),
            r.budget == percent_of(self@.ctx.max_tokens, self@.ctx.lcm.soft_budget_percent),
    {
        let stored: usize = from_stored_count(self.current().tokens());
        let seen: usize = match self.observed_tokens {
            Some(n) => n,
            None => 0,
        };
        ContextStats {
            token_estimate: if seen > stored {
                seen
            } else {
                stored
            },
            budget: soft_threshold(&self.ctx),
            message_count: self.current().item_count(),
        }
    }

    /// Whether the context must be compacted before the next request. Only
    /// the hard threshold counts here: compacting within a turn makes the
    /// provider's prompt cache start cold.
    pub fn is_urgent(&self) -> (r: bool)
        requires
            self@.wf(),
            counts_fit(self@.current().counts()),
        ensures
            r == self@.is_urgent(),
    {
        self.stats().token_estimate >= hard_threshold(&self.ctx)
    }

    /// Whether the context is compacted at the end of the turn.
    pub fn is_due(&self) -> (r: bool)
        requires
            self@.wf(),
            counts_fit(self@.current().counts()),
        ensures
            r == self@.is_due(),
    {
        self.stats().token_estimate >= soft_threshold(&self.ctx)
    }

    /// Empties the active context. Raw messages and summaries stay, for the
    /// retrieval tools.
    pub fn clear(&mut self)
        requires
            old(self)@.wf(),
        ensures
            final(self)@ == (EngineView {
                observed: None,
                ..old(self)@.with_current(old(self)@.current().cleared())
            }),
            final(self)@.wf(),
    {
        let ghost before = self@;
        let ghost a = self.active as int;
        let ghost sessions = self.sessions@;
        let active: usize = self.active;
        assert(before.sessions[a] == sessions[a]@);
        self.sessions[active].conversation.clear();
        self.observed_tokens = None;
        proof {
            let c = before.current().cleared();
            assert(self.sessions@[a]@ == (SessionView {
                name: before.active_name(),
                conversation: c,
            }));
            assert(session_views(self.sessions@) =~= session_views(sessions).update(
                a,
                SessionView { name: before.active_name(), conversation: c },
            ));
            lemma_same_messages_is_wf(before, self@);
        }
    }

    /// The chunks of messages that a leaf pass over the active conversation
    /// collapses.
    pub fn leaf_chunks(&self) -> (r: Result<Vec<LeafChunk>, RowError>)
        requires
            self@.wf(),
            rows_fit(self@.current().message_rows()),
        ensures
            match r {
                Ok(chunks) => {
                    let rows = self@.current().message_rows();
                    &&& first_fault(rows, eligible(rows, self@.ctx.lcm)) is None
                    &&& are_runs(chunks@, rows, leaf_runs(rows, self@.ctx.lcm))
                    &&& forall|k: int|
                        0 <= k < chunks@.len() ==> counts_fit(
                            message_counts((#[trigger] chunks@[k])@),
                        ) && is_placed(chunks@[k]@)
                },
                Err(e) => {
                    let rows = self@.current().message_rows();
                    first_fault(rows, eligible(rows, self@.ctx.lcm)) == Some(e@)
                },
            },
    {
        self.current().leaf_chunks(&self.ctx.lcm)
    }

    /// The chunks of summaries that a condensed pass over the active
    /// conversation collapses.
    pub fn condensed_chunks(&self) -> (chunks: Vec<CondensedChunk>)
        requires
            self@.wf(),
            entries_fit(self@.current().summary_rows()),
            self@.ctx.lcm.min_condensed_fanout >= 1,
        ensures
            are_summary_runs(
                chunks@,
                self@.current().summary_rows(),
                condensed_runs(self@.current().summary_rows(), self@.ctx.lcm),
            ),
            forall|k: int|
                0 <= k < chunks@.len() ==> children_fit((#[trigger] chunks@[k])@, chunks@[k].depth)
                    && are_placed(chunks@[k]@),
    {
        self.current().condensed_chunks(&self.ctx.lcm)
    }

    /// The ids of the stored payloads.
    fn known_files(&self) -> (out: Vec<String>)
        ensures
            views(out@) == file_ids(self@.files),
    {
        let n: usize = self.files.len();
        let mut out: Vec<String> = Vec::new();
        let mut i: usize = 0;
        while i < n
            invariant
                i <= n,
                n == self.files@.len(),
                out@.len() == i,
                forall|k: int| 0 <= k < i ==> (#[trigger] out@[k])@ == self@.files[k].row.file_id,
            decreases n - i,
        {
            assert(self@.files[i as int] == self.files@[i as int]@);
            out.push(self.files[i].row.file_id.clone());
            i += 1;
        }
        assert(views(out@) =~= file_ids(self@.files));
        out
    }

    /// Collapses a chunk of messages of the active conversation into the
    /// summary that was made of it. `false` where its id is taken, and then
    /// nothing changes.
    pub fn store_leaf(&mut self, chunk: &LeafChunk, outcome: &EscalationOutcome, now: &str) -> (r:
        bool)
        requires
            old(self)@.wf(),
            counts_fit(message_counts(chunk@)),
            is_placed(chunk@),
        ensures
            ({
                let before = old(self)@;
                let s = leaf_summary(chunk@, *outcome, file_ids(before.files), now@);
                &&& r == (summary_with(before.current().summaries, s.summary_id) is None)
                &&& final(self)@ == before.with_current(
                    before.current().after_storing(s, chunk@[0].ordinal, chunk@.last().ordinal),
                )
            }),
            final(self)@.wf(),
    {
        let ghost before = self@;
        let ghost a = self.active as int;
        let ghost sessions = self.sessions@;
        let known = self.known_files();
        let active: usize = self.active;
        assert(before.sessions[a] == sessions[a]@);
        let r = self.sessions[active].conversation.store_leaf(chunk, outcome, &known, now);
        proof {
            let s = leaf_summary(chunk@, *outcome, file_ids(before.files), now@);
            let c = before.current().after_storing(s, chunk@[0].ordinal, chunk@.last().ordinal);
            assert(self.sessions@[a]@ == (SessionView {
                name: before.active_name(),
                conversation: c,
            }));
            assert(session_views(self.sessions@) =~= session_views(sessions).update(
                a,
                SessionView { name: before.active_name(), conversation: c },
            ));
            lemma_same_messages_is_wf(before, self@);
        }
        r
    }

    /// Collapses a chunk of summaries of the active conversation into the
    /// summary that was made of it. `false` where its id is taken, and then
    /// nothing changes.
    pub fn store_condensed(
        &mut self,
        chunk: &CondensedChunk,
        outcome: &EscalationOutcome,
        now: &str,
    ) -> (r: bool)
        requires
            old(self)@.wf(),
            children_fit(chunk@, chunk.depth),
            are_placed(chunk@),
        ensures
            ({
                let before = old(self)@;
                let s = condensed_summary(
                    chunk@,
                    chunk.depth,
                    *outcome,
                    before.current().files_of(child_ids(chunk@)),
                    now@,
                );
                &&& r == (summary_with(before.current().summaries, s.summary_id) is None)
                &&& final(self)@ == before.with_current(
                    before.current().after_storing(s, chunk@[0].ordinal, chunk@.last().ordinal),
                )
            }),
            final(self)@.wf(),
    {
        let ghost before = self@;
        let ghost a = self.active as int;
        let ghost sessions = self.sessions@;
        let active: usize = self.active;
        assert(before.sessions[a] == sessions[a]@);
        let r = self.sessions[active].conversation.store_condensed(chunk, outcome, now);
        proof {
            let s = condensed_summary(
                chunk@,
                chunk.depth,
                *outcome,
                before.current().files_of(child_ids(chunk@)),
                now@,
            );
            let c = before.current().after_storing(s, chunk@[0].ordinal, chunk@.last().ordinal);
            assert(self.sessions@[a]@ == (SessionView {
                name: before.active_name(),
                conversation: c,
            }));
            assert(session_views(self.sessions@) =~= session_views(sessions).update(
                a,
                SessionView { name: before.active_name(), conversation: c },
            ));
            lemma_same_messages_is_wf(before, self@);
        }
        r
    }

    /// Where a session with a stored name stands, or would stand.
    fn find_session(&self, name: &str) -> (r: (usize, bool))
        requires
            self@.wf(),
        ensures
            0 <= r.0 <= self@.sessions.len(),
            r.1 == has_session(self@.sessions, name@),
            r.1 ==> r.0 < self@.sessions.len() && self@.sessions[r.0 as int].name == name@,
            forall|i: int| 0 <= i < r.0 ==> text_lt((#[trigger] self@.sessions[i]).name, name@),
            r.0 < self@.sessions.len() ==> !text_lt(self@.sessions[r.0 as int].name, name@),
    {
        let n: usize = self.sessions.len();
        let mut i: usize = 0;
        while i < n && lt(self.sessions[i].name.as_str(), name)
            invariant
                i <= n,
                n == self.sessions@.len(),
                forall|k: int| 0 <= k < i ==> text_lt((#[trigger] self@.sessions[k]).name, name@),
            decreases n - i,
        {
            assert(self@.sessions[i as int] == self.sessions@[i as int]@);
            i += 1;
        }
        proof {
            lemma_lt_irreflexive(name@);
            if i < n {
                assert(self@.sessions[i as int] == self.sessions@[i as int]@);
                if has_session(self@.sessions, name@) {
                    let k = choose|k: int|
                        0 <= k < self@.sessions.len() && (#[trigger] self@.sessions[k]).name == name@;
                    if k < i {
                        assert(text_lt(self@.sessions[k].name, name@));
                    } else if k > i {
                        assert(text_lt(self@.sessions[i as int].name, self@.sessions[k].name));
                    }
                }
            } else if has_session(self@.sessions, name@) {
                let k = choose|k: int|
                    0 <= k < self@.sessions.len() && (#[trigger] self@.sessions[k]).name == name@;
                assert(text_lt(self@.sessions[k].name, name@));
            }
        }
        if i < n && same(self.sessions[i].name.as_str(), name) {
            (i, true)
        } else {
            (i, false)
        }
    }

    /// Makes a session the active one, and creates it where there is none of
    /// that name. Switching to the active session changes nothing.
    pub fn switch_session(&mut self, name: &str)
        requires
            old(self)@.wf(),
        ensures
            final(self)@.wf(),
            final(self)@.active_name() == sanitized(name@),
            sanitized(name@) == old(self)@.active_name() ==> final(self)@ == old(self)@,
            sanitized(name@) != old(self)@.active_name() ==> final(self)@ == (EngineView {
                sessions: with_session(old(self)@.sessions, sanitized(name@)),
                active: final(self)@.active,
                observed: None,
                ..old(self)@
            }),
    {
        let stored = sanitize_name(name);
        if same(stored.as_str(), self.active_session()) {
            return ;
        }
        let ghost before = self@;
        let ghost sessions = self.sessions@;
        let (k, found) = self.find_session(stored.as_str());
        let ghost key = stored@;
        proof {
            lemma_place_of(before.sessions, key, k as int);
        }
        if !found {
            proof {
                lemma_with_session_is_ordered(before.sessions, key, k as int);
            }
            let fresh = Session { name: stored, conversation: Conversation::new() };
            let ghost view = fresh@;
            self.sessions.insert(k, fresh);
            proof {
                assert(view == (SessionView { name: key, conversation: empty_conversation() }));
                assert(session_views(self.sessions@) =~= session_views(sessions).insert(
                    k as int,
                    view,
                ));
            }
        }
        self.active = k;
        self.observed_tokens = None;
        proof {
            let after = self@;
            assert(after.sessions == with_session(before.sessions, key));
            assert forall|i: int| 0 <= i < after.sessions.len() implies (
            #[trigger] after.sessions[i]).conversation.wf() by {
                if !found && i == k {
                    assert(after.sessions[i].conversation == empty_conversation());
                } else if !found && i > k {
                    assert(after.sessions[i] == before.sessions[i - 1]);
                } else {
                    assert(after.sessions[i] == before.sessions[i]);
                }
            }
            assert forall|i: int, m: int|
                0 <= i < after.sessions.len() && 0 <= m
                    < after.sessions[i].conversation.messages.len() implies (
            #[trigger] after.sessions[i].conversation.messages[m]).message_id < after.next_id by {
                if !found && i == k {
                    assert(after.sessions[i].conversation == empty_conversation());
                } else if !found && i > k {
                    assert(after.sessions[i] == before.sessions[i - 1]);
                    assert(before.sessions[i - 1].conversation.messages[m].message_id
                        < before.next_id);
                } else {
                    assert(after.sessions[i] == before.sessions[i]);
                    assert(before.sessions[i].conversation.messages[m].message_id
                        < before.next_id);
                }
            }
        }
    }

    /// Whether the tokens of every session can be summed up.
    pub fn are_countable(&self) -> (r: bool)
        requires
            self@.wf(),
        ensures
            r == forall|i: int|
                0 <= i < self@.sessions.len() ==> counts_fit(
                    (#[trigger] self@.sessions[i]).conversation.counts(),
                ),
    {
        let n: usize = self.sessions.len();
        let mut i: usize = 0;
        while i < n
            invariant
                i <= n,
                n == self.sessions@.len(),
                self@.wf(),
                forall|k: int|
                    0 <= k < i ==> counts_fit((#[trigger] self@.sessions[k]).conversation.counts()),
            decreases n - i,
        {
            assert(self@.sessions[i as int] == self.sessions@[i as int]@);
            if !self.sessions[i].conversation.is_countable() {
                return false;
            }
            i += 1;
        }
        true
    }

    /// Every session with its size, in the order of the stored names.
    pub fn list_sessions(&self) -> (out: Vec<SessionInfo>)
        requires
            self@.wf(),
            forall|i: int|
                0 <= i < self@.sessions.len() ==> counts_fit(
                    (#[trigger] self@.sessions[i]).conversation.counts(),
                ),
        ensures
            out@.len() == self@.sessions.len(),
            forall|i: int| 0 <= i < out@.len() ==> #[trigger] self@.is_listed(i, out@[i]),
    {
        let n: usize = self.sessions.len();
        let mut out: Vec<SessionInfo> = Vec::new();
        let mut i: usize = 0;
        while i < n
            invariant
                i <= n,
                n == self.sessions@.len(),
                self@.wf(),
                forall|k: int|
                    0 <= k < self@.sessions.len() ==> counts_fit(
                        (#[trigger] self@.sessions[k]).conversation.counts(),
                    ),
                out@.len() == i,
                forall|k: int| 0 <= k < i ==> #[trigger] self@.is_listed(k, out@[k]),
            decreases n - i,
        {
            assert(self@.sessions[i as int] == self.sessions@[i as int]@);
            let session = &self.sessions[i];
            out.push(
                SessionInfo {
                    name: desanitize_name(session.name.as_str()),
                    message_count: session.conversation.item_count(),
                    estimated_tokens: from_stored_count(session.conversation.tokens()),
                },
            );
            assert(self@.is_listed(i as int, out@[i as int]));
            i += 1;
        }
        out
    }

    /// The place after the last message of each session that has messages,
    /// by the names that are shown.
    pub fn latest_positions(&self) -> (out: Table<u64>)
        requires
            self@.wf(),
        ensures
            out.wf(),
            out@ == positions(self@.sessions),
    {
        let ghost all = self@.sessions;
        let n: usize = self.sessions.len();
        let mut out: Table<u64> = Table::new();
        let mut i: usize = 0;
        assert(all.take(0) =~= Seq::empty());
        while i < n
            invariant
                i <= n,
                n == self.sessions@.len(),
                all == self@.sessions,
                self@.wf(),
                out.wf(),
                out@ == positions(all.take(i as int)),
            decreases n - i,
        {
            assert(all[i as int] == self.sessions@[i as int]@);
            assert(all.take(i + 1).drop_last() =~= all.take(i as int));
            let session = &self.sessions[i];
            if let Some(place) = session.conversation.latest_position() {
                out.insert(desanitize_name(session.name.as_str()).as_str(), place);
            }
            i += 1;
        }
        assert(all.take(n as int) =~= all);
        out
    }

    /// The tokens that are not yet distilled, of each session that has some,
    /// by the names that are shown. `since` says how far each was distilled.
    pub fn pending_distill_tokens(&self, since: &Table<u64>) -> (out: Table<u64>)
        requires
            self@.wf(),
            since.wf(),
            forall|i: int|
                0 <= i < self@.sessions.len() ==> counts_fit(
                    token_counts((#[trigger] self@.sessions[i]).conversation.messages),
                ),
        ensures
            out.wf(),
            out@ == pending(self@.sessions, since@),
    {
        let ghost all = self@.sessions;
        let n: usize = self.sessions.len();
        let mut out: Table<u64> = Table::new();
        let mut i: usize = 0;
        assert(all.take(0) =~= Seq::empty());
        while i < n
            invariant
                i <= n,
                n == self.sessions@.len(),
                all == self@.sessions,
                self@.wf(),
                since.wf(),
                forall|k: int|
                    0 <= k < all.len() ==> counts_fit(
                        token_counts((#[trigger] all[k]).conversation.messages),
                    ),
                out.wf(),
                out@ == pending(all.take(i as int), since@),
            decreases n - i,
        {
            assert(all[i as int] == self.sessions@[i as int]@);
            assert(all.take(i + 1).drop_last() =~= all.take(i as int));
            let session = &self.sessions[i];
            let name = desanitize_name(session.name.as_str());
            let mark: u64 = match since.get(name.as_str()) {
                Some(m) => *m,
                None => 0,
            };
            proof {
                lemma_span_counts(session.conversation@.messages, mark);
            }
            if let Some(tokens) = session.conversation.pending_tokens(mark) {
                out.insert(name.as_str(), tokens);
            }
            i += 1;
        }
        assert(all.take(n as int) =~= all);
        out
    }

    /// The transcript of a session from place `after` on, cut to a token
    /// budget; nothing for a session that does not exist.
    pub fn transcript_since(&self, session: &str, after: u64, max_tokens: u64) -> (r: Result<
        Vec<Message>,
        RowError,
    >)
        requires
            self@.wf(),
        ensures
            ({
                let t = transcript_in(
                    self@.sessions,
                    sanitized(session@),
                    after,
                    max_tokens as nat,
                );
                match r {
                    Ok(out) => t == Ok::<Seq<MessageView>, RowFault>(message_views(out@)),
                    Err(e) => t == Err::<Seq<MessageView>, RowFault>(e@),
                }
            }),
    {
        let stored = sanitize_name(session);
        let (k, found) = self.find_session(stored.as_str());
        if found {
            proof {
                lemma_place_of(self@.sessions, stored@, k as int);
            }
            assert(self@.sessions[k as int] == self.sessions@[k as int]@);
            self.sessions[k].conversation.transcript_since(after, max_tokens)
        } else {
            let none: Vec<Message> = Vec::new();
            assert(message_views(none@) =~= Seq::empty());
            Ok(none)
        }
    }
}

/// The place after the last message of each session that has messages.
pub open spec fn positions(sessions: Seq<SessionView>) -> Map<Seq<char>, u64>
    decreases sessions.len(),
{
    if sessions.len() == 0 {
        Map::empty()
    } else {
        let rest = positions(sessions.drop_last());
        let s = sessions.last();
        if s.conversation.messages.len() == 0 {
            rest
        } else {
            rest.insert(
                desanitized(s.name),
                (s.conversation.messages.last().seq + 1) as u64,
            )
        }
    }
}

/// How far a session was distilled.
pub open spec fn mark_of(since: Map<Seq<char>, u64>, name: Seq<char>) -> u64 {
    if since.contains_key(name) {
        since[name]
    } else {
        0
    }
}

/// The tokens that are not yet distilled, of each session that has some.
pub open spec fn pending(sessions: Seq<SessionView>, since: Map<Seq<char>, u64>) -> Map<
    Seq<char>,
    u64,
>
    decreases sessions.len(),
{
    if sessions.len() == 0 {
        Map::empty()
    } else {
        let rest = pending(sessions.drop_last(), since);
        let s = sessions.last();
        let name = desanitized(s.name);
        let n = total(token_counts(span(s.conversation.messages, mark_of(since, name))));
        if n > 0 {
            rest.insert(name, n as u64)
        } else {
            rest
        }
    }
}

/// The transcript of a session; nothing for one that does not exist.
pub open spec fn transcript_in(
    sessions: Seq<SessionView>,
    name: Seq<char>,
    after: u64,
    max_tokens: nat,
) -> Result<Seq<MessageView>, RowFault> {
    if has_session(sessions, name) {
        transcript(sessions[place_of(sessions, name)].conversation.messages, after, max_tokens)
    } else {
        Ok(Seq::empty())
    }
}

/// A span has no more tokens than the whole.
proof fn lemma_span_counts(messages: Seq<StoredView>, after: u64)
    requires
        counts_fit(token_counts(messages)),
    ensures
        counts_fit(token_counts(span(messages, after))),
        total(token_counts(span(messages, after))) <= total(token_counts(messages)),
    decreases messages.len(),
{
    let counts = token_counts(messages);
    let part = token_counts(span(messages, after));
    if messages.len() == 0 {
        assert(part =~= counts);
    } else {
        let rest = messages.drop_last();
        assert(counts.drop_last() =~= token_counts(rest));
        assert(counts.last() == messages.last().token_count);
        assert(counts[counts.len() - 1] >= 0);
        assert forall|i: int| 0 <= i < token_counts(rest).len() implies #[trigger] token_counts(rest)[i]
            >= 0 by {
            assert(counts[i] == token_counts(rest)[i]);
        }
        lemma_span_counts(rest, after);
        if messages.last().seq >= after {
            assert(part.drop_last() =~= token_counts(span(rest, after)));
            assert(part.last() == messages.last().token_count);
            assert forall|i: int| 0 <= i < part.len() implies #[trigger] part[i] >= 0 by {
                if i < part.len() - 1 {
                    assert(part[i] == token_counts(span(rest, after))[i]);
                }
            }
        }
    }
}

/// Changing what the active conversation shows keeps the engine well-formed.
proof fn lemma_same_messages_is_wf(before: EngineView, after: EngineView)
    requires
        before.wf(),
        after.sessions == before.sessions.update(
            before.active,
            SessionView {
                name: before.active_name(),
                conversation: after.sessions[before.active].conversation,
            },
        ),
        after.active == before.active,
        after.next_id == before.next_id,
        after.ctx == before.ctx,
        after.sessions[before.active].conversation.wf(),
        after.sessions[before.active].conversation.messages == before.current().messages,
    ensures
        after.wf(),
{
    let a = before.active;
    assert forall|i: int, k: int|
        0 <= i < after.sessions.len() && 0 <= k < after.sessions[i].conversation.messages.len() implies (
    #[trigger] after.sessions[i].conversation.messages[k]).message_id < after.next_id by {
        assert(after.sessions[i].conversation.messages == before.sessions[i].conversation.messages);
        assert(before.sessions[i].conversation.messages[k].message_id < before.next_id);
    }
    assert forall|i: int, j: int| 0 <= i < j < after.sessions.len() implies text_lt(
        (#[trigger] after.sessions[i]).name,
        (#[trigger] after.sessions[j]).name,
    ) by {
        assert(after.sessions[i].name == before.sessions[i].name);
        assert(after.sessions[j].name == before.sessions[j].name);
    }
}

/// A reference is never without its payload's row: storing a message with the
/// payload that it refers to files the payload. Storing the same payload
/// again adds nothing.
pub proof fn referenced_payload_is_filed(
    before: EngineView,
    msg: MessageView,
    file: LargeFileView,
    now: Seq<char>,
)
    requires
        before.wf(),
    ensures
        has_file(before.pushed(msg, Some(file), now).files, file.file_id),
        has_file(before.files, file.file_id) ==> before.pushed(msg, Some(file), now).files
            == before.files,
{
    let after = before.pushed(msg, Some(file), now);
    if !has_file(before.files, file.file_id) {
        assert(after.files[before.files.len() as int].row.file_id == file.file_id);
    }
}

/// Sessions are kept apart: storing a message, clearing and compacting change
/// the active session only.
pub proof fn sessions_are_isolated(before: EngineView, c: ConversationView, i: int)
    requires
        before.wf(),
        0 <= i < before.sessions.len(),
        i != before.active,
    ensures
        before.with_current(c).sessions[i] == before.sessions[i],
{
}

// ── What holds of every engine ──────────────────────────────────────

/// A message goes to the end of the active conversation under the next id.
/// Nothing else changes but the payload that is filed with it.
pub proof fn a_message_goes_to_the_active_session(
    before: EngineView,
    msg: MessageView,
    file: Option<LargeFileView>,
    now: Seq<char>,
    i: int,
)
    requires
        before.wf(),
        before.next_id < i64::MAX,
        0 <= i < before.sessions.len(),
    ensures
        ({
            let after = before.pushed(msg, file, now);
            &&& after.sessions.len() == before.sessions.len()
            &&& after.sessions[i].name == before.sessions[i].name
            &&& i != before.active ==> after.sessions[i] == before.sessions[i]
            &&& after.current() == before.current().pushed(before.next_id, msg, now)
            &&& after.active == before.active
            &&& after.next_id == before.next_id + 1
            &&& after.ctx == before.ctx
            &&& after.observed == before.observed
        }),
{
}

/// A new payload is filed once, under the session and the message that brought
/// it; those that were filed stay.
pub proof fn a_new_payload_is_filed_with_its_message(
    before: EngineView,
    row: LargeFileView,
    now: Seq<char>,
)
    requires
        before.wf(),
        !has_file(before.files, row.file_id),
    ensures
        ({
            let files = before.files_with(Some(row), now);
            let f = files.last();
            &&& files.len() == before.files.len() + 1
            &&& files.drop_last() == before.files
            &&& f.row == row
            &&& f.session == before.active_name()
            &&& f.first_seen_message_id == Some(before.next_id)
            &&& f.created_at == now
            &&& before.files_with(None, now) == before.files
        }),
{
    assert(before.files_with(Some(row), now).drop_last() =~= before.files);
}

/// The size of the context is the stored estimate or the reported size,
/// whichever is larger, and compaction starts where that size reaches its
/// share of the window.
pub proof fn compaction_starts_at_its_share(e: EngineView)
    requires
        counts_fit(e.current().counts()),
        total(e.current().counts()) <= usize::MAX,
    ensures
        e.tokens() >= total(e.current().counts()),
        e.observed matches Some(n) ==> e.tokens() >= n,
        e.tokens() == total(e.current().counts()) || e.observed == Some(e.tokens() as usize),
        e.is_urgent() <==> e.tokens() >= e.ctx.max_tokens * e.ctx.lcm.hard_budget_percent / 100,
        e.is_due() <==> e.tokens() >= e.ctx.max_tokens * e.ctx.lcm.soft_budget_percent / 100,
{
    lemma_total(e.current().counts(), 0);
}

/// A session is there once it was switched to: those that were there stay as
/// they were, and a new one has no messages.
pub proof fn a_session_is_created_once(sessions: Seq<SessionView>, name: Seq<char>, s: SessionView)
    requires
        names_ordered(sessions),
    ensures
        has_session(with_session(sessions, name), name),
        sessions.contains(s) ==> with_session(sessions, name).contains(s),
        with_session(sessions, name).contains(s) && !sessions.contains(s) ==> s.name == name
            && s.conversation.messages.len() == 0 && s.conversation.summaries.len() == 0
            && s.conversation.items.len() == 0,
        has_session(sessions, name) ==> with_session(sessions, name) == sessions,
        !has_session(sessions, name) ==> with_session(sessions, name).len() == sessions.len() + 1,
{
    let out = with_session(sessions, name);
    if !has_session(sessions, name) {
        lemma_place_is_within(sessions, name);
        let k = place_of(sessions, name);
        assert(out[k].name == name);
        if sessions.contains(s) {
            let i = choose|i: int| 0 <= i < sessions.len() && sessions[i] == s;
            if i < k {
                assert(out[i] == s);
            } else {
                assert(out[i + 1] == s);
            }
        }
        if out.contains(s) && !sessions.contains(s) {
            let i = choose|i: int| 0 <= i < out.len() && out[i] == s;
            if i < k {
                assert(sessions[i] == s);
            } else if i > k {
                assert(sessions[i - 1] == s);
            }
        }
    }
}

proof fn lemma_place_is_within(sessions: Seq<SessionView>, name: Seq<char>)
    ensures
        0 <= place_of(sessions, name) <= sessions.len(),
        forall|i: int|
            0 <= i < place_of(sessions, name) ==> text_lt((#[trigger] sessions[i]).name, name),
        place_of(sessions, name) < sessions.len() ==> !text_lt(
            sessions[place_of(sessions, name)].name,
            name,
        ),
    decreases sessions.len(),
{
    if sessions.len() > 0 && text_lt(sessions[0].name, name) {
        let rest = sessions.drop_first();
        lemma_place_is_within(rest, name);
        assert forall|i: int| 0 <= i < place_of(sessions, name) implies text_lt(
            (#[trigger] sessions[i]).name,
            name,
        ) by {
            if i > 0 {
                assert(rest[i - 1] == sessions[i]);
            }
        }
    }
}

/// The transcript of a session is read from that session, and from no other.
pub proof fn a_transcript_is_of_its_session(
    sessions: Seq<SessionView>,
    i: int,
    name: Seq<char>,
    after: u64,
    max_tokens: nat,
)
    requires
        names_ordered(sessions),
    ensures
        0 <= i < sessions.len() ==> transcript_in(sessions, sessions[i].name, after, max_tokens)
            == transcript(sessions[i].conversation.messages, after, max_tokens),
        !has_session(sessions, name) ==> transcript_in(sessions, name, after, max_tokens) == Ok::<
            Seq<MessageView>,
            RowFault,
        >(Seq::empty()),
{
    if 0 <= i < sessions.len() {
        let own = sessions[i].name;
        assert(has_session(sessions, own));
        lemma_lt_irreflexive(own);
        lemma_place_of(sessions, own, i);
    }
}

/// Whether the sessions are shown under different names. It holds of stored
/// names, which have no slash.
pub open spec fn shown_apart(sessions: Seq<SessionView>) -> bool {
    forall|i: int, j: int|
        0 <= i < j < sessions.len() ==> desanitized((#[trigger] sessions[i]).name) != desanitized(
            (#[trigger] sessions[j]).name,
        )
}

proof fn lemma_shown_apart(sessions: Seq<SessionView>)
    requires
        shown_apart(sessions),
        sessions.len() > 0,
    ensures
        shown_apart(sessions.drop_last()),
{
    let rest = sessions.drop_last();
    assert forall|i: int, j: int| 0 <= i < j < rest.len() implies desanitized(
        (#[trigger] rest[i]).name,
    ) != desanitized((#[trigger] rest[j]).name) by {
        assert(rest[i] == sessions[i] && rest[j] == sessions[j]);
    }
}

/// The tip of each session is the place after its last message, under the name
/// that is shown. A session without messages has none, and there are no others.
pub proof fn every_session_has_its_tip(sessions: Seq<SessionView>, i: int)
    requires
        shown_apart(sessions),
        0 <= i < sessions.len(),
    ensures
        ({
            let s = sessions[i];
            let name = desanitized(s.name);
            &&& positions(sessions).contains_key(name) <==> s.conversation.messages.len() > 0
            &&& s.conversation.messages.len() > 0 ==> positions(sessions)[name] == (
            s.conversation.messages.last().seq + 1) as u64
        }),
    decreases sessions.len(),
{
    let rest = sessions.drop_last();
    lemma_shown_apart(sessions);
    if i < rest.len() {
        every_session_has_its_tip(rest, i);
        assert(rest[i] == sessions[i]);
        assert(desanitized(sessions[i].name) != desanitized(sessions[sessions.len() - 1].name));
    } else {
        lemma_positions_keys(rest, desanitized(sessions.last().name));
        assert forall|k: int| 0 <= k < rest.len() implies desanitized((#[trigger] rest[k]).name)
            != desanitized(sessions.last().name) by {
            assert(rest[k] == sessions[k]);
            assert(desanitized(sessions[k].name) != desanitized(
                sessions[sessions.len() - 1].name,
            ));
        }
    }
}

/// A tip is that of some session.
proof fn lemma_positions_keys(sessions: Seq<SessionView>, name: Seq<char>)
    ensures
        positions(sessions).contains_key(name) ==> exists|k: int|
            0 <= k < sessions.len() && desanitized((#[trigger] sessions[k]).name) == name,
    decreases sessions.len(),
{
    if sessions.len() > 0 {
        let rest = sessions.drop_last();
        lemma_positions_keys(rest, name);
        assert(sessions[sessions.len() - 1] == sessions.last());
        if positions(rest).contains_key(name) {
            let k = choose|k: int|
                0 <= k < rest.len() && desanitized((#[trigger] rest[k]).name) == name;
            assert(sessions[k] == rest[k]);
        }
    }
}

/// What is pending of each session are the tokens of its messages from its own
/// mark on, or from the start where it has none. A session with nothing pending
/// is left out, and there are no others.
pub proof fn every_session_has_its_backlog(
    sessions: Seq<SessionView>,
    since: Map<Seq<char>, u64>,
    i: int,
)
    requires
        shown_apart(sessions),
        0 <= i < sessions.len(),
    ensures
        ({
            let s = sessions[i];
            let name = desanitized(s.name);
            let mark = if since.contains_key(name) {
                since[name]
            } else {
                0
            };
            let n = total(token_counts(span(s.conversation.messages, mark)));
            &&& pending(sessions, since).contains_key(name) <==> n > 0
            &&& n > 0 ==> pending(sessions, since)[name] == n as u64
        }),
    decreases sessions.len(),
{
    let rest = sessions.drop_last();
    lemma_shown_apart(sessions);
    if i < rest.len() {
        every_session_has_its_backlog(rest, since, i);
        assert(rest[i] == sessions[i]);
        assert(desanitized(sessions[i].name) != desanitized(sessions[sessions.len() - 1].name));
    } else {
        lemma_pending_keys(rest, since, desanitized(sessions.last().name));
        assert forall|k: int| 0 <= k < rest.len() implies desanitized((#[trigger] rest[k]).name)
            != desanitized(sessions.last().name) by {
            assert(rest[k] == sessions[k]);
            assert(desanitized(sessions[k].name) != desanitized(
                sessions[sessions.len() - 1].name,
            ));
        }
    }
}

/// What is pending is pending in some session.
proof fn lemma_pending_keys(
    sessions: Seq<SessionView>,
    since: Map<Seq<char>, u64>,
    name: Seq<char>,
)
    ensures
        pending(sessions, since).contains_key(name) ==> exists|k: int|
            0 <= k < sessions.len() && desanitized((#[trigger] sessions[k]).name) == name,
    decreases sessions.len(),
{
    if sessions.len() > 0 {
        let rest = sessions.drop_last();
        lemma_pending_keys(rest, since, name);
        assert(sessions[sessions.len() - 1] == sessions.last());
        if pending(rest, since).contains_key(name) {
            let k = choose|k: int|
                0 <= k < rest.len() && desanitized((#[trigger] rest[k]).name) == name;
            assert(sessions[k] == rest[k]);
        }
    }
}

/// Only a sub-agent may expand; every agent may search and look up.
pub proof fn tools_follow_the_scope(scope: ToolScope)
    ensures
        tools_in(scope).contains("lcm_grep"@),
        tools_in(scope).contains("lcm_describe"@),
        tools_in(scope).contains("lcm_expand"@) <==> scope == ToolScope::SubAgent,
        tools_in(scope).no_duplicates(),
{
    let t = tools_in(scope);
    reveal_strlit("lcm_grep");
    reveal_strlit("lcm_describe");
    reveal_strlit("lcm_expand");
    assert("lcm_grep"@.len() == 8);
    assert("lcm_describe"@.len() == 12);
    assert("lcm_expand"@.len() == 10);
    assert(t[0] == "lcm_grep"@);
    assert(t[1] == "lcm_describe"@);
    if scope == ToolScope::SubAgent {
        assert(t[2] == "lcm_expand"@);
    } else if t.contains("lcm_expand"@) {
        let k = choose|k: int| 0 <= k < t.len() && t[k] == "lcm_expand"@;
        assert(k == 0 || k == 1);
    }
}

/// The session that was active last is the text that was kept of it, without
/// the whitespace around it; a blank text names none.
pub proof fn the_last_session_is_remembered(text: Seq<char>)
    ensures
        remembered(None) is None,
        is_blank(text) ==> remembered(Some(text)) is None,
        !is_blank(text) ==> exists|i: int, j: int| #[trigger]
            is_trim(text, i, j) && remembered(Some(text)) == Some(text.subrange(i, j)),
{
    lemma_blank_is_trimmed_empty(text);
    trimming_takes_off_whitespace(text);
    let (i, j) = choose|i: int, j: int| #[trigger]
        is_trim(text, i, j) && trimmed(text) == text.subrange(i, j);
    assert(is_trim(text, i, j));
}

/// The stored payloads are known by their ids and measured one by one.
pub proof fn every_payload_is_named_and_measured(files: Seq<FileView>, i: int)
    requires
        0 <= i < files.len(),
    ensures
        file_ids(files).len() == files.len(),
        byte_sizes(files).len() == files.len(),
        file_ids(files)[i] == files[i].row.file_id,
        byte_sizes(files)[i] == files[i].row.byte_size,
{
}

} // verus!
