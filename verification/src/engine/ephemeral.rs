//! The context of a sub-agent, without a limit on tool output.

use vstd::prelude::*;

use super::summarize::{estimate_messages_tokens, messages_tokens};
use crate::context::{AssembledContext, CompactionEvent, ContextStats, SessionInfo};
use crate::session::{prompted, Session};
use crate::types::{message_views, messages_chars, Message, MessageView};

verus! {

/// The messages of a sub-agent's turn.
pub struct EphemeralSession {
    session: Session,
}

impl View for EphemeralSession {
    type V = Seq<MessageView>;

    closed spec fn view(&self) -> Seq<MessageView> {
        self.session@
    }
}

impl EphemeralSession {
    /// A context without messages.
    pub fn new() -> (s: Self)
        ensures
            s@ == Seq::<MessageView>::empty(),
    {
        EphemeralSession { session: Session::new() }
    }

    /// Adds a message.
    pub fn push_message(&mut self, msg: Message)
        ensures
            final(self)@ == old(self)@.push(msg@),
    {
        self.session.add_message(msg);
    }

    /// Builds the messages of a request.
    pub fn assemble(&self, system_prompt: &str) -> (r: AssembledContext)
        ensures
            message_views(r.messages@) == prompted(system_prompt@, self@),
    {
        self.session.assemble(system_prompt)
    }

    /// Never compacts.
    pub fn compact_if_needed(&self) -> (r: Option<CompactionEvent>)
        ensures
            r is None,
    {
        None
    }

    /// A compaction that changes nothing.
    pub fn force_compact(&self) -> (r: CompactionEvent)
        requires
            messages_chars(self@) <= usize::MAX,
        ensures
            r.before == messages_tokens(self@),
            r.after == messages_tokens(self@),
    {
        let tokens: usize = estimate_messages_tokens(self.session.messages());
        CompactionEvent { before: tokens, after: tokens }
    }

    /// Drops all messages.
    pub fn clear(&mut self)
        ensures
            final(self)@ == Seq::<MessageView>::empty(),
    {
        self.session.clear();
    }

    /// How full the context is.
    pub fn stats(&self) -> (r: ContextStats)
        requires
            messages_chars(self@) <= usize::MAX,
        ensures
            r.token_estimate == messages_tokens(self@),
            r.budget == usize::MAX,
            r.message_count == self@.len(),
    {
        ContextStats {
            token_estimate: estimate_messages_tokens(self.session.messages()),
            budget: usize::MAX,
            message_count: self.session.len(),
        }
    }

    /// The name that stands for the session.
    pub fn active_session(&self) -> (r: &'static str)
        ensures
            r@ == "ephemeral"@,
    {
        "ephemeral"
    }

    /// The session is not listed.
    pub fn list_sessions(&self) -> (r: Vec<SessionInfo>)
        ensures
            r@.len() == 0,
    {
        Vec::new()
    }
}

} // verus!
