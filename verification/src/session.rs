//! A session: the messages of one conversation, in order.

use vstd::prelude::*;

use crate::context::{
    budget, percent_of, session_summary_request, AssembledContext, SUMMARIZE_PROMPT,
};
use crate::config::ContextConfig;
use crate::context::formatted;
use crate::text::{byte_len, utf8_len};
use crate::types::{
    append_messages, copy_messages, message_views, messages_chars, total_chars, Message,
    MessageView,
};

verus! {

/// The messages of a session.
pub struct Session {
    messages: Vec<Message>,
}

impl View for Session {
    type V = Seq<MessageView>;

    closed spec fn view(&self) -> Seq<MessageView> {
        message_views(self.messages@)
    }
}

/// A request: the system prompt, then the messages.
pub open spec fn prompted(prompt: Seq<char>, messages: Seq<MessageView>) -> Seq<MessageView> {
    seq![MessageView::System { content: prompt }] + messages
}

impl Session {
    /// A session without messages.
    pub fn new() -> (s: Self)
        ensures
            s@ == Seq::<MessageView>::empty(),
    {
        let s = Session { messages: Vec::new() };
        assert(s@ =~= Seq::empty());
        s
    }

    /// A session with messages.
    pub fn from_messages(messages: Vec<Message>) -> (s: Self)
        ensures
            s@ == message_views(messages@),
    {
        Session { messages }
    }

    /// The messages, oldest first.
    pub fn messages(&self) -> (r: &Vec<Message>)
        ensures
            message_views(r@) == self@,
    {
        &self.messages
    }

    /// How many messages there are.
    pub fn len(&self) -> (n: usize)
        ensures
            n == self@.len(),
    {
        self.messages.len()
    }

    /// Whether there are no messages.
    pub fn is_empty(&self) -> (r: bool)
        ensures
            r == (self@.len() == 0),
    {
        self.messages.len() == 0
    }

    /// Adds a message at the end.
    pub fn add_message(&mut self, msg: Message)
        ensures
            final(self)@ == old(self)@.push(msg@),
    {
        let ghost before = self.messages@;
        self.messages.push(msg);
        assert(message_views(self.messages@) =~= message_views(before).push(msg@));
    }

    /// Replaces all messages by one that sums them up.
    pub fn compact(&mut self, summary: Message)
        ensures
            final(self)@ == seq![summary@],
    {
        let mut messages: Vec<Message> = Vec::new();
        messages.push(summary);
        self.messages = messages;
        assert(message_views(self.messages@) =~= seq![summary@]);
    }

    /// Drops all messages.
    pub fn clear(&mut self)
        ensures
            final(self)@ == Seq::<MessageView>::empty(),
    {
        self.messages = Vec::new();
        assert(message_views(self.messages@) =~= Seq::empty());
    }

    /// Builds the messages of a request.
    pub fn assemble(&self, system_prompt: &str) -> (r: AssembledContext)
        ensures
            message_views(r.messages@) == prompted(system_prompt@, self@),
    {
        let mut messages: Vec<Message> = Vec::new();
        messages.push(Message::System { content: system_prompt.to_owned() });
        assert(message_views(messages@) =~= seq![
            MessageView::System { content: system_prompt@ },
        ]);
        append_messages(&mut messages, &self.messages);
        AssembledContext { messages }
    }

    /// A copy of the session.
    pub fn copy(&self) -> (s: Self)
        ensures
            s@ == self@,
    {
        Session { messages: copy_messages(&self.messages) }
    }
}

/// Estimated tokens of a session, together with a system prompt.
pub fn session_tokens(session: &Session, system_prompt_chars: usize) -> (n: usize)
    requires
        system_prompt_chars + messages_chars(session@) <= usize::MAX,
    ensures
        n == (system_prompt_chars + messages_chars(session@)) / 4,
{
    (system_prompt_chars + total_chars(session.messages())) / 4
}

/// Whether a session is over its budget, and has more than one message to sum
/// up.
pub open spec fn needs_compaction(messages: Seq<MessageView>, prompt: Seq<char>, config: ContextConfig)
    -> bool {
    &&& (utf8_len(prompt) + messages_chars(messages)) / 4 > percent_of(
        config.max_tokens,
        config.budget_percent,
    )
    &&& messages.len() >= 2
}

/// The request for a summary.
pub open spec fn summary_request(messages: Seq<MessageView>) -> Seq<MessageView> {
    seq![
        MessageView::System { content: SUMMARIZE_PROMPT@ },
        MessageView::User { content: formatted(messages) },
    ]
}

/// The request for a summary of the session, where it is over its budget.
/// What comes back replaces the whole history. `None` where there is nothing
/// to do.
pub fn compact_if_needed(session: &Session, system_prompt: &str, config: &ContextConfig) -> (r: Option<
    Vec<Message>,
>)
    requires
        utf8_len(system_prompt@) + messages_chars(session@) <= usize::MAX,
        config.max_tokens * config.budget_percent <= usize::MAX,
    ensures
        match r {
            Some(request) => needs_compaction(session@, system_prompt@, *config) && message_views(
                request@,
            ) == summary_request(session@),
            None => !needs_compaction(session@, system_prompt@, *config),
        },
{
    let tokens: usize = session_tokens(session, byte_len(system_prompt));
    if tokens <= budget(config) || session.len() < 2 {
        return None;
    }
    Some(session_summary_request(session.messages()))
}

/// The request for a summary of the session, whatever its size; `None` where
/// there are fewer than two messages.
pub fn force_compact(session: &Session) -> (r: Option<Vec<Message>>)
    ensures
        match r {
            Some(request) => session@.len() >= 2 && message_views(request@) == summary_request(
                session@,
            ),
            None => session@.len() < 2,
        },
{
    if session.len() < 2 {
        return None;
    }
    Some(session_summary_request(session.messages()))
}

/// Replaces the history by the summary that came back.
pub fn apply_summary(session: &mut Session, summary: String)
    ensures
        final(session)@ == seq![MessageView::System { content: summary@ }],
{
    session.compact(Message::System { content: summary });
}

/// A request is the system prompt, then every message in its place.
pub proof fn a_request_holds_every_message(prompt: Seq<char>, messages: Seq<MessageView>, i: int)
    ensures
        prompted(prompt, messages).len() == messages.len() + 1,
        prompted(prompt, messages)[0] == (MessageView::System { content: prompt }),
        0 <= i < messages.len() ==> prompted(prompt, messages)[i + 1] == messages[i],
{
}

/// A session is summed up exactly where it and its prompt take more than their
/// share of the window, and it has two messages or more.
pub proof fn compaction_starts_over_the_budget(
    messages: Seq<MessageView>,
    prompt: Seq<char>,
    config: ContextConfig,
)
    ensures
        needs_compaction(messages, prompt, config) <==> (utf8_len(prompt) + messages_chars(messages))
            / 4 > config.max_tokens * config.budget_percent / 100 && messages.len() >= 2,
        summary_request(messages).len() == 2,
        summary_request(messages)[0] == (MessageView::System { content: SUMMARIZE_PROMPT@ }),
        summary_request(messages)[1] == (MessageView::User { content: formatted(messages) }),
{
}

} // verus!
