//! One plain list of messages per session, stored as it comes.

use vstd::prelude::*;

use crate::config::ContextConfig;
use crate::context::flat::{info_views, listing, saved_fit, saved_views, FlatView, SavedSession};
use crate::context::lcm::engine::remembered;
use crate::context::names::sanitized;
use crate::context::{AssembledContext, CompactionEvent, ContextStats, SessionInfo};
use crate::session::{prompted, Session};
use crate::types::{message_views, Message};

verus! {

/// The active session, without what a provider reports of it.
pub struct FlatSession {
    inner: crate::context::flat::FlatSession,
}

impl View for FlatSession {
    type V = FlatView;

    closed spec fn view(&self) -> FlatView {
        self.inner@
    }
}

impl FlatSession {
    /// Whether nothing was reported.
    pub open spec fn wf(self) -> bool {
        self@.observed is None
    }

    /// The engine with the session that was active last, or else `general`.
    pub fn new(ctx: ContextConfig, active: Option<&str>, load: Session) -> (r: Self)
        ensures
            r.wf(),
            r@.messages == load@,
            r@.active == match remembered(
                match active {
                    Some(t) => Some(t@),
                    None => None,
                },
            ) {
                Some(name) => name,
                None => "general"@,
            },
            r@.ctx == ctx,
    {
        FlatSession { inner: crate::context::flat::FlatSession::new(ctx, active, load) }
    }

    /// The active session.
    pub fn session(&self) -> (s: &Session)
        ensures
            s@ == self@.messages,
    {
        self.inner.session()
    }

    /// Adds a message as it is.
    pub fn push_message(&mut self, msg: Message)
        requires
            old(self).wf(),
        ensures
            final(self).wf(),
            final(self)@ == (FlatView {
                messages: old(self)@.messages.push(msg@),
                ..old(self)@
            }),
    {
        self.inner.add_message(msg);
    }

    /// Builds the messages of a request.
    pub fn assemble(&self, system_prompt: &str) -> (r: AssembledContext)
        ensures
            message_views(r.messages@) == prompted(system_prompt@, self@.messages),
    {
        self.inner.assemble(system_prompt)
    }

    /// Whether the session is compacted.
    pub fn compact_if_needed(&self) -> (r: bool)
        requires
            self.wf(),
            self@.fits(),
        ensures
            r == (self@.estimate() > self@.limit() && self@.messages.len() >= 2),
    {
        self.inner.compact_if_needed()
    }

    /// Compacts whatever the size; nothing happens with fewer than two
    /// messages.
    pub fn force_compact(&mut self, summary: String) -> (r: CompactionEvent)
        requires
            old(self).wf(),
            old(self)@.fits(),
        ensures
            final(self).wf(),
            old(self)@.messages.len() < 2 ==> final(self)@ == old(self)@ && r == (CompactionEvent {
                before: 0,
                after: 0,
            }),
            old(self)@.messages.len() >= 2 ==> final(self)@ == old(self)@.compacted(summary@)
                && r.before == old(self)@.estimate() && r.after == final(self)@.estimate(),
    {
        self.inner.force_compact(summary)
    }

    /// Drops all messages.
    pub fn clear(&mut self)
        ensures
            final(self).wf(),
            final(self)@ == (FlatView { messages: Seq::empty(), observed: None, ..old(self)@ }),
    {
        self.inner.clear();
    }

    /// How full the session is.
    pub fn stats(&self) -> (r: ContextStats)
        requires
            self.wf(),
            self@.fits(),
        ensures
            r.token_estimate == self@.estimate(),
            r.budget == self@.limit(),
            r.message_count == self@.messages.len(),
    {
        self.inner.stats()
    }

    /// The stored name of the active session.
    pub fn active_session(&self) -> (r: &str)
        ensures
            r@ == self@.active,
    {
        self.inner.active_session()
    }

    /// Makes a session the active one. `load` holds its messages; those of the
    /// session that was active come back, to be saved.
    pub fn switch_session(&mut self, name: &str, load: Session) -> (r: Option<Session>)
        requires
            old(self).wf(),
        ensures
            final(self).wf(),
            sanitized(name@) == old(self)@.active ==> r is None && final(self)@ == old(self)@,
            sanitized(name@) != old(self)@.active ==> (r matches Some(s) && s@ == old(self)@.messages)
                && final(self)@ == (FlatView {
                messages: load@,
                active: sanitized(name@),
                ..old(self)@
            }),
    {
        self.inner.switch_session(name, load)
    }

    /// Every session with its size, in the order of names.
    pub fn list_sessions(&self, saved: &Vec<SavedSession>) -> (out: Vec<SessionInfo>)
        requires
            self@.fits(),
            saved_fit(saved_views(saved@)),
        ensures
            info_views(out@) == listing(saved_views(saved@), self@.active, self@.messages),
    {
        self.inner.list_sessions(saved)
    }
}

} // verus!
