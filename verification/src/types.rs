//! Messages of a conversation and how large they are.

use vstd::prelude::*;

use crate::text::{byte_len, utf8_len};

verus! {

/// The function that a tool call names, with its arguments as JSON text.
pub struct ToolFunction {
    pub name: String,
    pub arguments: String,
}

/// One tool call that the model asked for.
pub struct ToolCall {
    pub id: String,
    pub function: ToolFunction,
}

/// One message of a conversation.
pub enum Message {
    User { content: String },
    Assistant { content: String },
    System { content: String },
    Tool { call_id: String, content: String },
    ToolCalls { content: String, calls: Vec<ToolCall> },
}

/// A tool call as plain text.
pub struct CallView {
    pub id: Seq<char>,
    pub name: Seq<char>,
    pub arguments: Seq<char>,
}

/// A message as plain text.
pub enum MessageView {
    User { content: Seq<char> },
    Assistant { content: Seq<char> },
    System { content: Seq<char> },
    Tool { call_id: Seq<char>, content: Seq<char> },
    ToolCalls { content: Seq<char>, calls: Seq<CallView> },
}

impl View for ToolCall {
    type V = CallView;

    open spec fn view(&self) -> CallView {
        CallView { id: self.id@, name: self.function.name@, arguments: self.function.arguments@ }
    }
}

/// The views of a list of tool calls.
pub open spec fn call_views(calls: Seq<ToolCall>) -> Seq<CallView> {
    calls.map_values(|c: ToolCall| c@)
}

impl View for Message {
    type V = MessageView;

    open spec fn view(&self) -> MessageView {
        match *self {
            Message::User { content } => MessageView::User { content: content@ },
            Message::Assistant { content } => MessageView::Assistant { content: content@ },
            Message::System { content } => MessageView::System { content: content@ },
            Message::Tool { call_id, content } => MessageView::Tool {
                call_id: call_id@,
                content: content@,
            },
            Message::ToolCalls { content, calls } => MessageView::ToolCalls {
                content: content@,
                calls: call_views(calls@),
            },
        }
    }
}

/// The views of a list of messages.
pub open spec fn message_views(messages: Seq<Message>) -> Seq<MessageView> {
    messages.map_values(|m: Message| m@)
}

impl Clone for ToolCall {
    fn clone(&self) -> (r: Self)
        ensures
            r@ == self@,
    {
        ToolCall {
            id: self.id.clone(),
            function: ToolFunction {
                name: self.function.name.clone(),
                arguments: self.function.arguments.clone(),
            },
        }
    }
}

/// A copy of a list of tool calls.
pub fn copy_calls(calls: &Vec<ToolCall>) -> (r: Vec<ToolCall>)
    ensures
        call_views(r@) == call_views(calls@),
{
    let mut out: Vec<ToolCall> = Vec::new();
    let mut i: usize = 0;
    while i < calls.len()
        invariant
            i <= calls@.len(),
            out@.len() == i,
            forall|j: int| 0 <= j < i ==> (#[trigger] out@[j])@ == calls@[j]@,
        decreases calls@.len() - i,
    {
        out.push(calls[i].clone());
        i += 1;
    }
    assert(call_views(out@) =~= call_views(calls@));
    out
}

impl Clone for Message {
    fn clone(&self) -> (r: Self)
        ensures
            r@ == self@,
    {
        match self {
            Message::User { content } => Message::User { content: content.clone() },
            Message::Assistant { content } => Message::Assistant { content: content.clone() },
            Message::System { content } => Message::System { content: content.clone() },
            Message::Tool { call_id, content } => Message::Tool {
                call_id: call_id.clone(),
                content: content.clone(),
            },
            Message::ToolCalls { content, calls } => Message::ToolCalls {
                content: content.clone(),
                calls: copy_calls(calls),
            },
        }
    }
}

impl ToolCall {
    pub fn new(id: String, function: ToolFunction) -> (c: Self)
        ensures
            c.id == id,
            c.function == function,
    {
        ToolCall { id, function }
    }
}

/// A copy of a list of messages.
pub fn copy_messages(messages: &Vec<Message>) -> (r: Vec<Message>)
    ensures
        message_views(r@) == message_views(messages@),
{
    let mut out: Vec<Message> = Vec::new();
    append_messages(&mut out, messages);
    assert(message_views(out@) =~= message_views(messages@));
    out
}

/// Appends copies of `messages` to `out`.
pub fn append_messages(out: &mut Vec<Message>, messages: &Vec<Message>)
    ensures
        message_views(final(out)@) == message_views(old(out)@) + message_views(messages@),
{
    let ghost before = out@;
    let mut i: usize = 0;
    while i < messages.len()
        invariant
            i <= messages@.len(),
            out@.len() == before.len() + i,
            forall|j: int| 0 <= j < before.len() ==> #[trigger] out@[j] == before[j],
            forall|j: int| 0 <= j < i ==> (#[trigger] out@[before.len() + j])@ == messages@[j]@,
        decreases messages@.len() - i,
    {
        out.push(messages[i].clone());
        i += 1;
    }
    proof {
        let got = message_views(out@);
        let want = message_views(before) + message_views(messages@);
        assert forall|k: int| 0 <= k < got.len() implies got[k] == want[k] by {
            if k >= before.len() {
                assert(out@[before.len() + (k - before.len())]@ == messages@[k - before.len()]@);
            }
        }
        assert(got =~= want);
    }
}

// ── Sizes ───────────────────────────────────────────────────────────

impl MessageView {
    /// The text of the message.
    pub open spec fn content(self) -> Seq<char> {
        match self {
            MessageView::User { content } => content,
            MessageView::Assistant { content } => content,
            MessageView::System { content } => content,
            MessageView::Tool { content, .. } => content,
            MessageView::ToolCalls { content, .. } => content,
        }
    }

    /// Bytes of the text, the names and the arguments of the message.
    pub open spec fn chars(self) -> nat {
        match self {
            MessageView::ToolCalls { content, calls } => utf8_len(content) + calls_chars(calls),
            _ => utf8_len(self.content()),
        }
    }
}

/// Bytes of the names and arguments of tool calls.
pub open spec fn calls_chars(calls: Seq<CallView>) -> nat
    decreases calls.len(),
{
    if calls.len() == 0 {
        0
    } else {
        calls_chars(calls.drop_last()) + utf8_len(calls.last().name) + utf8_len(
            calls.last().arguments,
        )
    }
}

/// Bytes of all messages.
pub open spec fn messages_chars(messages: Seq<MessageView>) -> nat
    decreases messages.len(),
{
    if messages.len() == 0 {
        0
    } else {
        messages_chars(messages.drop_last()) + messages.last().chars()
    }
}

/// Estimated tokens of a text: a quarter of its bytes.
pub open spec fn tokens_of(s: Seq<char>) -> nat {
    utf8_len(s) / 4
}

proof fn lemma_calls_chars_prefix(calls: Seq<CallView>, k: int)
    requires
        0 <= k <= calls.len(),
    ensures
        calls_chars(calls.take(k)) <= calls_chars(calls),
    decreases calls.len() - k,
{
    if k == calls.len() {
        assert(calls.take(k) =~= calls);
    } else {
        lemma_calls_chars_prefix(calls, k + 1);
        assert(calls.take(k + 1).drop_last() =~= calls.take(k));
    }
}

/// Fewer messages take no more bytes.
pub proof fn lemma_messages_chars_prefix(messages: Seq<MessageView>, k: int)
    requires
        0 <= k <= messages.len(),
    ensures
        messages_chars(messages.take(k)) <= messages_chars(messages),
    decreases messages.len() - k,
{
    if k == messages.len() {
        assert(messages.take(k) =~= messages);
    } else {
        lemma_messages_chars_prefix(messages, k + 1);
        assert(messages.take(k + 1).drop_last() =~= messages.take(k));
    }
}

/// A message is no larger than the list that holds it.
pub proof fn lemma_messages_chars_member(messages: Seq<MessageView>, i: int)
    requires
        0 <= i < messages.len(),
    ensures
        messages[i].chars() <= messages_chars(messages),
{
    lemma_messages_chars_prefix(messages, i + 1);
    assert(messages.take(i + 1).last() == messages[i]);
}

/// Estimated tokens of `s`: a quarter of its bytes.
pub fn estimate_tokens(s: &str) -> (n: usize)
    ensures
        n == tokens_of(s@),
        n <= usize::MAX / 4,
{
    byte_len(s) / 4
}

/// Estimated tokens of a text of `chars` bytes.
pub fn estimate_tokens_from_chars(chars: usize) -> (n: usize)
    ensures
        n == chars / 4,
{
    chars / 4
}

impl Message {
    /// The text of the message.
    pub fn content(&self) -> (r: &str)
        ensures
            r@ == self@.content(),
    {
        match self {
            Message::User { content } => content.as_str(),
            Message::Assistant { content } => content.as_str(),
            Message::System { content } => content.as_str(),
            Message::Tool { content, .. } => content.as_str(),
            Message::ToolCalls { content, .. } => content.as_str(),
        }
    }

    /// Bytes of the text, the names and the arguments of the message.
    pub fn char_count(&self) -> (n: usize)
        requires
            self@.chars() <= usize::MAX,
        ensures
            n == self@.chars(),
    {
        match self {
            Message::ToolCalls { content, calls } => {
                let mut n: usize = byte_len(content.as_str());
                let mut i: usize = 0;
                let ghost all = call_views(calls@);
                assert(all.take(0) =~= Seq::empty());
                while i < calls.len()
                    invariant
                        i <= calls@.len(),
                        all == call_views(calls@),
                        n == utf8_len(content@) + calls_chars(all.take(i as int)),
                        utf8_len(content@) + calls_chars(all) <= usize::MAX,
                    decreases calls@.len() - i,
                {
                    proof {
                        assert(all.take(i + 1).drop_last() =~= all.take(i as int));
                        assert(all.take(i + 1).last() == calls@[i as int]@);
                        lemma_calls_chars_prefix(all, i + 1);
                    }
                    n = n + byte_len(calls[i].function.name.as_str());
                    n = n + byte_len(calls[i].function.arguments.as_str());
                    i += 1;
                }
                assert(all.take(i as int) =~= all);
                n
            },
            _ => byte_len(self.content()),
        }
    }

    /// Estimated tokens of the message.
    pub fn token_estimate(&self) -> (n: usize)
        requires
            self@.chars() <= usize::MAX,
        ensures
            n == self@.chars() / 4,
    {
        self.char_count() / 4
    }
}

/// Bytes of all messages.
pub fn total_chars(messages: &Vec<Message>) -> (n: usize)
    requires
        messages_chars(message_views(messages@)) <= usize::MAX,
    ensures
        n == messages_chars(message_views(messages@)),
{
    let mut n: usize = 0;
    let mut i: usize = 0;
    let ghost all = message_views(messages@);
    assert(all.take(0) =~= Seq::empty());
    while i < messages.len()
        invariant
            i <= messages@.len(),
            all == message_views(messages@),
            n == messages_chars(all.take(i as int)),
            messages_chars(all) <= usize::MAX,
        decreases messages@.len() - i,
    {
        proof {
            assert(all.take(i + 1).drop_last() =~= all.take(i as int));
            assert(all.take(i + 1).last() == messages@[i as int]@);
            lemma_messages_chars_prefix(all, i + 1);
        }
        n = n + messages[i].char_count();
        i += 1;
    }
    assert(all.take(i as int) =~= all);
    n
}

// ── What sizes count ────────────────────────────────────────────────

/// The size of a message counts all that is sent of it: its text, and the names
/// and arguments of its calls.
pub proof fn a_message_counts_all_its_text(
    content: Seq<char>,
    a: Seq<CallView>,
    b: Seq<CallView>,
    c: CallView,
    m: MessageView,
)
    ensures
        (MessageView::ToolCalls { content, calls: Seq::empty() }).chars() == utf8_len(content),
        (MessageView::ToolCalls { content, calls: seq![c] }).chars() == utf8_len(content) + utf8_len(
            c.name,
        ) + utf8_len(c.arguments),
        calls_chars(a + b) == calls_chars(a) + calls_chars(b),
        !(m is ToolCalls) ==> m.chars() == utf8_len(m.content()),
    decreases b.len(),
{
    assert(seq![c].drop_last() =~= Seq::empty());
    assert(calls_chars(Seq::<CallView>::empty()) == 0);
    if b.len() == 0 {
        assert(a + b =~= a);
    } else {
        a_message_counts_all_its_text(content, a, b.drop_last(), c, m);
        assert((a + b).drop_last() =~= a + b.drop_last());
    }
}

/// The size of a list counts every message once.
pub proof fn list_sizes_add_up(a: Seq<MessageView>, b: Seq<MessageView>, m: MessageView)
    ensures
        messages_chars(Seq::empty()) == 0,
        messages_chars(seq![m]) == m.chars(),
        messages_chars(a + b) == messages_chars(a) + messages_chars(b),
    decreases b.len(),
{
    assert(seq![m].drop_last() =~= Seq::empty());
    assert(messages_chars(Seq::<MessageView>::empty()) == 0);
    if b.len() == 0 {
        assert(a + b =~= a);
    } else {
        list_sizes_add_up(a, b.drop_last(), m);
        assert((a + b).drop_last() =~= a + b.drop_last());
    }
}

/// A token is estimated per four bytes, the rest not counted.
pub proof fn tokens_are_quarters_of_bytes(s: Seq<char>)
    ensures
        tokens_of(s) * 4 <= vstd::utf8::encode_utf8(s).len() < tokens_of(s) * 4 + 4,
{
    crate::text::lemma_utf8_len_is_encoding_len(s);
}

} // verus!
