//! Keeping every message in a store, before there was a compaction.

use vstd::prelude::*;

use crate::config::ContextConfig;
use crate::context::lcm::assemble::{
    assemble_rows, assemble_views, assembled, AssembleRow, AssembleView,
};
use crate::context::lcm::chunks::MessageRowView;
use crate::context::lcm::counts::{counts_fit, from_stored_count, read_count, total};
use crate::context::lcm::engine::{
    empty_conversation, remembered, thresholds_fit, EngineView, SessionView,
};
use crate::context::lcm::rows::{RowError, RowFault};
use crate::context::names::sanitized;
use crate::context::{
    budget, percent_of, AssembledContext, CompactionEvent, ContextStats, SessionInfo,
};
use crate::types::{message_views, Message, MessageView};

verus! {

/// An engine that keeps every message and cannot compact.
pub struct LcmEngine {
    inner: crate::context::lcm::engine::LcmEngine,
}

impl View for LcmEngine {
    type V = EngineView;

    closed spec fn view(&self) -> EngineView {
        self.inner@
    }
}

/// The raw messages of the active context, as items of a request.
pub open spec fn raw_entries(rows: Seq<MessageRowView>) -> Seq<AssembleView> {
    rows.map_values(
        |r: MessageRowView|
            AssembleView::Message {
                message_id: r.message_id,
                role: r.role,
                content: r.content,
                parts: r.parts,
            },
    )
}

impl LcmEngine {
    /// An engine without messages. The session that was active last is active
    /// again, or else `general`.
    pub fn new(ctx: ContextConfig, active: Option<&str>) -> (r: Self)
        requires
            thresholds_fit(ctx),
        ensures
            r@.wf(),
            r@.sessions == seq![
                SessionView {
                    name: match remembered(
                        match active {
                            Some(t) => Some(t@),
                            None => None,
                        },
                    ) {
                        Some(name) => name,
                        None => "general"@,
                    },
                    conversation: empty_conversation(),
                },
            ],
            r@.active == 0,
            r@.next_id == 1,
            r@.ctx == ctx,
            r@.observed is None,
    {
        LcmEngine { inner: crate::context::lcm::engine::LcmEngine::new(ctx, active) }
    }

    /// Whether a message can be stored.
    pub fn has_room(&self) -> (r: bool)
        requires
            self@.wf(),
        ensures
            r == (self@.current().has_room() && self@.next_id < i64::MAX),
    {
        self.inner.has_room()
    }

    /// Stores a message at the end of the active conversation.
    pub fn push_message(&mut self, msg: &Message, now: &str)
        requires
            old(self)@.wf(),
            old(self)@.current().has_room(),
            old(self)@.next_id < i64::MAX,
            msg@.chars() <= usize::MAX,
        ensures
            final(self)@ == old(self)@.pushed(msg@, None, now@),
            final(self)@.wf(),
    {
        self.inner.push_message(msg, None, now);
    }

    /// Builds the messages of a request: the prompt as it is, and the raw
    /// messages of the active context. Summaries are left out.
    pub fn assemble(&self, system_prompt: &str) -> (r: Result<AssembledContext, RowError>)
        requires
            self@.wf(),
        ensures
            ({
                let a = assembled(raw_entries(self@.current().rows()), system_prompt@, None);
                match r {
                    Ok(c) => a == Ok::<Seq<MessageView>, RowFault>(message_views(c.messages@)),
                    Err(e) => a == Err::<Seq<MessageView>, RowFault>(e@),
                }
            }),
    {
        let rows = self.inner.current().rows();
        let ghost all = self@.current().rows();
        let n: usize = rows.len();
        let mut entries: Vec<AssembleRow> = Vec::new();
        let mut i: usize = 0;
        while i < n
            invariant
                i <= n,
                n == rows@.len(),
                all == crate::context::lcm::chunks::row_views(rows@),
                entries@.len() == i,
                forall|k: int| 0 <= k < i ==> (#[trigger] entries@[k])@ == raw_entries(all)[k],
            decreases n - i,
        {
            assert(all[i as int] == rows@[i as int]@);
            let row = &rows[i];
            entries.push(
                AssembleRow::Message {
                    message_id: row.message_id,
                    role: row.role.clone(),
                    content: row.content.clone(),
                    parts: crate::context::lcm::store::copy_parts(&row.parts),
                },
            );
            i += 1;
        }
        assert(assemble_views(entries@) =~= raw_entries(all));
        assemble_rows(&entries, system_prompt, &None)
    }

    /// There is no compaction.
    pub fn compact_if_needed(&self) -> (r: Result<Option<CompactionEvent>, String>)
        ensures
            r matches Err(e) && e@ == "lcm compact_if_needed: not implemented"@,
    {
        Err("lcm compact_if_needed: not implemented".to_owned())
    }

    /// There is no compaction.
    pub fn force_compact(&self) -> (r: Result<CompactionEvent, String>)
        ensures
            r matches Err(e) && e@ == "lcm force_compact: not implemented"@,
    {
        Err("lcm force_compact: not implemented".to_owned())
    }

    /// Empties the active context. Raw messages stay.
    pub fn clear(&mut self)
        requires
            old(self)@.wf(),
        ensures
            final(self)@ == (EngineView {
                observed: None,
                ..old(self)@.with_current(old(self)@.current().cleared())
            }),
            final(self)@.wf(),
    {
        self.inner.clear();
    }

    /// How full the active context is.
    pub fn stats(&self) -> (r: ContextStats)
        requires
            self@.wf(),
            counts_fit(self@.current().counts()),
            self@.ctx.max_tokens * self@.ctx.budget_percent <= usize::MAX,
        ensures
            r.message_count == self@.current().items.len(),
            r.token_estimate == read_count(total(self@.current().counts()) as i64),
            r.budget == percent_of(self@.ctx.max_tokens, self@.ctx.budget_percent),
    {
        let ctx = self.inner.config();
        ContextStats {
            token_estimate: from_stored_count(self.inner.current().tokens()),
            budget: budget(&ctx),
            message_count: self.inner.current().item_count(),
        }
    }

    /// The stored name of the active session.
    pub fn active_session(&self) -> (r: &str)
        requires
            self@.wf(),
        ensures
            r@ == self@.active_name(),
    {
        self.inner.active_session()
    }

    /// Makes a session the active one, and creates it where there is none of
    /// that name.
    pub fn switch_session(&mut self, name: &str)
        requires
            old(self)@.wf(),
        ensures
            final(self)@.wf(),
            final(self)@.active_name() == sanitized(name@),
            sanitized(name@) == old(self)@.active_name() ==> final(self)@ == old(self)@,
            sanitized(name@) != old(self)@.active_name() ==> final(self)@ == (EngineView {
                sessions: crate::context::lcm::engine::with_session(
                    old(self)@.sessions,
                    sanitized(name@),
                ),
                active: final(self)@.active,
                observed: None,
                ..old(self)@
            }),
    {
        self.inner.switch_session(name);
    }

    /// Every session with its size, in the order of the stored names.
    pub fn list_sessions(&self) -> (out: Vec<SessionInfo>)
        requires
            self@.wf(),
            forall|i: int|
                0 <= i < self@.sessions.len() ==> counts_fit(
                    (#[trigger] self@.sessions[i]).conversation.counts(),
                ),
        ensures
            out@.len() == self@.sessions.len(),
            forall|i: int| 0 <= i < out@.len() ==> #[trigger] self@.is_listed(i, out@[i]),
    {
        self.inner.list_sessions()
    }
}

} // verus!
