//! The context of a sub-agent: kept in memory for one turn, never compacted.

use std::borrow::Cow;

use vstd::prelude::*;

use super::lcm::summarize::{estimate_messages_tokens, messages_tokens};
use super::{
    shortened_output, truncate_tool_output, AssembledContext, CompactionEvent, ContextStats,
    SessionInfo,
};
use crate::session::{prompted, Session};
use crate::table::Table;
use crate::types::{message_views, messages_chars, Message, MessageView};

verus! {

/// A message with its tool output cut to a number of tokens.
pub open spec fn capped_message(msg: MessageView, max_tokens: nat) -> MessageView {
    match msg {
        MessageView::Tool { call_id, content } => MessageView::Tool {
            call_id,
            content: shortened_output(content, max_tokens),
        },
        other => other,
    }
}

/// A message with its tool output cut to a number of tokens.
pub fn cap_message(msg: Message, max_tokens: usize) -> (r: Message)
    ensures
        r@ == capped_message(msg@, max_tokens as nat),
{
    match msg {
        Message::Tool { call_id, content } => {
            let content = match truncate_tool_output(content.as_str(), max_tokens) {
                Cow::Borrowed(s) => s.to_owned(),
                Cow::Owned(s) => s,
            };
            Message::Tool { call_id, content }
        },
        other => other,
    }
}

/// The messages of a sub-agent's turn. A turn that outgrows the provider's
/// window fails: it does not sum up the work it was given.
pub struct EphemeralSession {
    session: Session,
    /// Tool results above this many estimated tokens are cut.
    tool_output_tokens: usize,
}

impl View for EphemeralSession {
    type V = Seq<MessageView>;

    closed spec fn view(&self) -> Seq<MessageView> {
        self.session@
    }
}

impl EphemeralSession {
    /// The cap on tool results.
    pub closed spec fn cap(self) -> usize {
        self.tool_output_tokens
    }

    /// A context without messages.
    pub fn new(tool_output_tokens: usize) -> (s: Self)
        ensures
            s@ == Seq::<MessageView>::empty(),
            s.cap() == tool_output_tokens,
    {
        EphemeralSession { session: Session::new(), tool_output_tokens }
    }

    /// Adds a message, cutting oversized tool output.
    pub fn push_message(&mut self, msg: Message)
        ensures
            final(self)@ == old(self)@.push(capped_message(msg@, old(self).cap() as nat)),
            final(self).cap() == old(self).cap(),
    {
        self.session.add_message(cap_message(msg, self.tool_output_tokens));
    }

    /// Builds the messages of a request.
    pub fn assemble(&self, system_prompt: &str) -> (r: AssembledContext)
        ensures
            message_views(r.messages@) == prompted(system_prompt@, self@),
    {
        self.session.assemble(system_prompt)
    }

    /// Never compacts.
    pub fn compact_if_urgent(&self) -> (r: Option<CompactionEvent>)
        ensures
            r is None,
    {
        None
    }

    /// A compaction that changes nothing.
    pub fn force_compact(&self) -> (r: CompactionEvent)
        requires
            messages_chars(self@) <= usize::MAX,
        ensures
            r.before == messages_tokens(self@),
            r.after == messages_tokens(self@),
    {
        let tokens: usize = estimate_messages_tokens(self.session.messages());
        CompactionEvent { before: tokens, after: tokens }
    }

    /// Drops all messages.
    pub fn clear(&mut self)
        ensures
            final(self)@ == Seq::<MessageView>::empty(),
            final(self).cap() == old(self).cap(),
    {
        self.session.clear();
    }

    /// How full the context is. There is no budget: the bound is the
    /// provider's window.
    pub fn stats(&self) -> (r: ContextStats)
        requires
            messages_chars(self@) <= usize::MAX,
        ensures
            r.token_estimate == messages_tokens(self@),
            r.budget == usize::MAX,
            r.message_count == self@.len(),
    {
        ContextStats {
            token_estimate: estimate_messages_tokens(self.session.messages()),
            budget: usize::MAX,
            message_count: self.session.len(),
        }
    }

    /// The name that stands for the session.
    pub fn active_session(&self) -> (r: &'static str)
        ensures
            r@ == "ephemeral"@,
    {
        "ephemeral"
    }

    /// The session is not listed.
    pub fn list_sessions(&self) -> (r: Vec<SessionInfo>)
        ensures
            r@.len() == 0,
    {
        Vec::new()
    }

    /// Nothing waits to be distilled.
    pub fn pending_distill_tokens(&self, since: &Table<u64>) -> (r: Table<u64>)
        ensures
            r.wf(),
            r@ == Map::<Seq<char>, u64>::empty(),
    {
        Table::new()
    }

    /// There is nothing to distill.
    pub fn transcript_since(&self, session: &str, after: u64, max_tokens: u64) -> (r: Vec<Message>)
        ensures
            r@.len() == 0,
    {
        Vec::new()
    }
}

/// Only the text of a tool result is ever cut: who it answers stays, and so
/// does every other message.
pub proof fn only_tool_output_is_cut(msg: MessageView, max_tokens: nat)
    ensures
        !(msg is Tool) ==> capped_message(msg, max_tokens) == msg,
        msg matches MessageView::Tool { call_id, content } ==> capped_message(msg, max_tokens) == (
        MessageView::Tool { call_id, content: shortened_output(content, max_tokens) }),
{
}

} // verus!
