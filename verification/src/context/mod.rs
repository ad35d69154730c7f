//! Context management: what the agent sends to the model, and how the
//! history is kept small enough to be sent.

pub mod ephemeral;
pub mod flat;
pub mod lcm;
pub mod names;

use std::borrow::Cow;

use vstd::prelude::*;

use crate::config::ContextConfig;
use crate::text::number::{decimal, push_usize};
use crate::text::{
    byte_len, from_chars, has_prefix, has_suffix, lemma_prefix_of, lemma_suffix_of,
    lemma_utf8_len_concat, lemma_utf8_len_split, lemma_utf8_len_take_mono, prefix_chars,
    prefix_is_the_longest_that_fits, prefix_of, suffix_is_the_longest_that_fits, suffix_of,
    suffix_skip, to_chars, utf8_len,
};
use crate::types::{
    call_views, estimate_tokens, message_views, tokens_of, CallView, Message, MessageView,
};

verus! {

/// Who a set of tools is for.
#[derive(Clone, Copy, Debug, PartialEq, Eq, Structural)]
pub enum ToolScope {
    /// The root agent.
    Root,
    /// A sub-agent.
    SubAgent,
}

/// Everything the agent loop needs for a provider call.
pub struct AssembledContext {
    /// Ordered messages for the provider, system prompt included.
    pub messages: Vec<Message>,
}

/// A compaction, for activity reports.
#[derive(Clone, Copy, Debug, PartialEq, Eq, Structural)]
pub struct CompactionEvent {
    /// Estimated tokens before compaction.
    pub before: usize,
    /// Estimated tokens after compaction.
    pub after: usize,
}

/// Context statistics.
#[derive(Clone, Copy, Debug, PartialEq, Eq, Structural)]
pub struct ContextStats {
    /// Estimated token count of the current context.
    pub token_estimate: usize,
    /// Token count at which compaction starts.
    pub budget: usize,
    /// Number of messages in the current session.
    pub message_count: usize,
}

/// Metadata about a session.
pub struct SessionInfo {
    pub name: String,
    pub message_count: usize,
    pub estimated_tokens: usize,
}

// ── Messages as text ────────────────────────────────────────────────

/// One tool call as the summarizer sees it.
pub open spec fn call_line(c: CallView) -> Seq<char> {
    "\n  [tool_call] "@ + c.name + "("@ + c.arguments + ")"@
}

/// Tool calls as the summarizer sees them.
pub open spec fn call_lines(calls: Seq<CallView>) -> Seq<char>
    decreases calls.len(),
{
    if calls.len() == 0 {
        Seq::empty()
    } else {
        call_lines(calls.drop_last()) + call_line(calls.last())
    }
}

/// One message as the summarizer sees it.
pub open spec fn message_line(m: MessageView) -> Seq<char> {
    match m {
        MessageView::Assistant { content } => "[assistant] "@ + content,
        MessageView::System { content } => "[system] "@ + content,
        MessageView::Tool { call_id, content } => "[tool:"@ + call_id + "] "@ + content,
        MessageView::ToolCalls { content, calls } => "[assistant] "@ + content + call_lines(calls),
        MessageView::User { content } => "[user] "@ + content,
    }
}

/// Messages as the summarizer sees them.
pub open spec fn formatted(messages: Seq<MessageView>) -> Seq<char>
    decreases messages.len(),
{
    if messages.len() == 0 {
        Seq::empty()
    } else {
        formatted(messages.drop_last()) + message_line(messages.last()) + "\n"@
    }
}

/// Appends one message as the summarizer sees it.
fn push_message_line(out: &mut String, msg: &Message)
    ensures
        final(out)@ == old(out)@ + message_line(msg@),
{
    let ghost before = out@;
    match msg {
        Message::Assistant { content } => {
            out.append("[assistant] ");
            out.append(content.as_str());
        },
        Message::System { content } => {
            out.append("[system] ");
            out.append(content.as_str());
        },
        Message::Tool { call_id, content } => {
            out.append("[tool:");
            out.append(call_id.as_str());
            out.append("] ");
            out.append(content.as_str());
        },
        Message::ToolCalls { content, calls } => {
            out.append("[assistant] ");
            out.append(content.as_str());
            let ghost head = out@;
            let ghost all = call_views(calls@);
            let mut i: usize = 0;
            assert(all.take(0) =~= Seq::empty());
            assert(out@ =~= head + call_lines(all.take(0)));
            while i < calls.len()
                invariant
                    i <= calls@.len(),
                    all == call_views(calls@),
                    out@ == head + call_lines(all.take(i as int)),
                decreases calls@.len() - i,
            {
                out.append("\n  [tool_call] ");
                out.append(calls[i].function.name.as_str());
                out.append("(");
                out.append(calls[i].function.arguments.as_str());
                out.append(")");
                proof {
                    assert(all.take(i + 1).drop_last() =~= all.take(i as int));
                    assert(all.take(i + 1).last() == calls@[i as int]@);
                    assert(out@ =~= head + call_lines(all.take(i + 1)));
                }
                i += 1;
            }
            assert(all.take(i as int) =~= all);
        },
        Message::User { content } => {
            out.append("[user] ");
            out.append(content.as_str());
        },
    }
    assert(out@ =~= before + message_line(msg@));
}

/// Messages as the summarizer sees them: one entry each, labelled by role.
pub fn format_messages_for_summary(messages: &Vec<Message>) -> (r: String)
    ensures
        r@ == formatted(message_views(messages@)),
{
    let mut out = String::new();
    let mut i: usize = 0;
    let ghost all = message_views(messages@);
    assert(all.take(0) =~= Seq::empty());
    while i < messages.len()
        invariant
            i <= messages@.len(),
            all == message_views(messages@),
            out@ == formatted(all.take(i as int)),
        decreases messages@.len() - i,
    {
        push_message_line(&mut out, &messages[i]);
        out.append("\n");
        proof {
            assert(all.take(i + 1).drop_last() =~= all.take(i as int));
            assert(all.take(i + 1).last() == messages@[i as int]@);
        }
        i += 1;
    }
    assert(all.take(i as int) =~= all);
    out
}

/// System prompt of every summarization call.
pub const SUMMARIZER_ROLE_PROMPT: &'static str = "You are a context-compaction summarization engine. Follow user instructions exactly and return plain text summary content only.";

/// System prompt for summarizing a whole session.
pub const SUMMARIZE_PROMPT: &'static str = "You are a conversation summarizer. Produce a concise summary of the conversation below. Preserve all important facts, decisions, tool results, and open questions. Omit pleasantries and filler. The summary will replace the original messages, so nothing important should be lost.";

/// The user turn of a summarization call.
pub open spec fn segment_text(instructions: Seq<char>, messages: Seq<MessageView>) -> Seq<char> {
    instructions + "\n\n<conversation_segment>\n"@ + formatted(messages)
        + "\n</conversation_segment>"@
}

/// The request of a summarization call: a fixed system turn, and the
/// instructions with the conversation in the user turn.
pub fn summarize_request(instructions: &str, messages: &Vec<Message>) -> (r: Vec<Message>)
    ensures
        message_views(r@) == seq![
            MessageView::System { content: SUMMARIZER_ROLE_PROMPT@ },
            MessageView::User { content: segment_text(instructions@, message_views(messages@)) },
        ],
{
    let mut content = instructions.to_owned();
    content.append("\n\n<conversation_segment>\n");
    content.append(format_messages_for_summary(messages).as_str());
    content.append("\n</conversation_segment>");
    let mut out: Vec<Message> = Vec::new();
    out.push(Message::System { content: SUMMARIZER_ROLE_PROMPT.to_owned() });
    out.push(Message::User { content });
    assert(message_views(out@) =~= seq![
        MessageView::System { content: SUMMARIZER_ROLE_PROMPT@ },
        MessageView::User { content: segment_text(instructions@, message_views(messages@)) },
    ]);
    out
}

/// The request that asks for a summary of a whole session.
pub fn session_summary_request(messages: &Vec<Message>) -> (r: Vec<Message>)
    ensures
        message_views(r@) == seq![
            MessageView::System { content: SUMMARIZE_PROMPT@ },
            MessageView::User { content: formatted(message_views(messages@)) },
        ],
{
    let mut out: Vec<Message> = Vec::new();
    out.push(Message::System { content: SUMMARIZE_PROMPT.to_owned() });
    out.push(Message::User { content: format_messages_for_summary(messages) });
    assert(message_views(out@) =~= seq![
        MessageView::System { content: SUMMARIZE_PROMPT@ },
        MessageView::User { content: formatted(message_views(messages@)) },
    ]);
    out
}

// ── Sizes and budgets ───────────────────────────────────────────────

/// A percentage of a window of tokens.
pub open spec fn percent_of(max_tokens: u32, percent: u8) -> nat {
    (max_tokens * percent / 100) as nat
}

/// A percentage of a window of tokens.
pub fn share(max_tokens: u32, percent: u8) -> (n: usize)
    requires
        max_tokens * percent <= usize::MAX,
    ensures
        n == percent_of(max_tokens, percent),
{
    proof {
        assert(max_tokens * percent >= 0) by (nonlinear_arith);
    }
    max_tokens as usize * percent as usize / 100
}

/// Token count at which compaction starts.
pub fn budget(config: &ContextConfig) -> (n: usize)
    requires
        config.max_tokens * config.budget_percent <= usize::MAX,
    ensures
        n == percent_of(config.max_tokens, config.budget_percent),
{
    share(config.max_tokens, config.budget_percent)
}

// ── Tool output ─────────────────────────────────────────────────────

/// The prefix and the suffix of a text that each fit in `keep` bytes do not
/// overlap where the text is longer than both together.
proof fn lemma_ends_apart(s: Seq<char>, keep: nat)
    requires
        utf8_len(s) > 2 * keep,
    ensures
        prefix_chars(s, keep) <= suffix_skip(s, keep) <= s.len(),
{
    let p = prefix_chars(s, keep) as int;
    let q = suffix_skip(s, keep) as int;
    lemma_prefix_of(s, keep);
    lemma_suffix_of(s, keep);
    if p > q {
        lemma_utf8_len_take_mono(s, q, p);
        lemma_utf8_len_split(s, q);
    }
}

/// What stands between the kept ends of a text.
pub open spec fn middle_of(s: Seq<char>, keep: nat) -> Seq<char> {
    s.subrange(prefix_chars(s, keep) as int, suffix_skip(s, keep) as int)
}

/// Tool output within `max_tokens` as it is; longer output as its two ends,
/// half the budget each, with a mark between them.
pub open spec fn shortened_output(s: Seq<char>, max_tokens: nat) -> Seq<char> {
    if tokens_of(s) <= max_tokens {
        s
    } else {
        let keep = max_tokens * 2;
        prefix_of(s, keep) + "\n... [~"@ + decimal(tokens_of(middle_of(s, keep)))
            + " tokens truncated] ...\n"@ + suffix_of(s, keep)
    }
}

/// Shortens tool output to `max_tokens` estimated tokens, keeping its head
/// and its tail: build and test logs put the failure at the end.
pub fn truncate_tool_output(content: &str, max_tokens: usize) -> (r: Cow<'_, str>)
    ensures
        r@ == shortened_output(content@, max_tokens as nat),
        r is Borrowed <==> tokens_of(content@) <= max_tokens,
{
    if estimate_tokens(content) <= max_tokens {
        return Cow::Borrowed(content);
    }
    let n: usize = byte_len(content);
    assert(n / 4 > max_tokens);
    let keep: usize = max_tokens * 2;
    let head = crate::text::prefix(content, keep);
    let tail = crate::text::suffix(content, keep);
    let v = to_chars(content);
    let len: usize = v.len();
    proof {
        lemma_ends_apart(content@, keep as nat);
        lemma_prefix_of(content@, keep as nat);
    }
    let from = to_chars(head.as_str()).len();
    let tail_len = to_chars(tail.as_str()).len();
    let to: usize = len - tail_len;
    let middle = from_chars(&v, from, to);
    assert(middle@ == middle_of(content@, keep as nat));
    let omitted = estimate_tokens(middle.as_str());
    let mut out = head;
    out.append("\n... [~");
    push_usize(&mut out, omitted);
    out.append(" tokens truncated] ...\n");
    out.append(tail.as_str());
    Cow::Owned(out)
}

/// Shortened tool output still holds both ends of the output: no failure at
/// the end of a log is lost. What is kept of it is within the cap.
pub proof fn shortened_output_keeps_both_ends(s: Seq<char>, max_tokens: nat)
    requires
        tokens_of(s) > max_tokens,
    ensures
        ({
            let keep = max_tokens * 2;
            let r = shortened_output(s, max_tokens);
            &&& has_prefix(r, prefix_of(s, keep))
            &&& has_suffix(r, suffix_of(s, keep))
            &&& s == prefix_of(s, keep) + middle_of(s, keep) + suffix_of(s, keep)
            &&& utf8_len(prefix_of(s, keep)) <= keep
            &&& utf8_len(suffix_of(s, keep)) <= keep
            &&& tokens_of(prefix_of(s, keep) + suffix_of(s, keep)) <= max_tokens
        }),
{
    let keep = max_tokens * 2;
    let r = shortened_output(s, max_tokens);
    lemma_ends_apart(s, keep);
    lemma_prefix_of(s, keep);
    lemma_suffix_of(s, keep);
    lemma_utf8_len_concat(prefix_of(s, keep), suffix_of(s, keep));
    assert(r.take(prefix_of(s, keep).len() as int) =~= prefix_of(s, keep));
    assert(r.skip(r.len() - suffix_of(s, keep).len()) =~= suffix_of(s, keep));
    assert(s =~= prefix_of(s, keep) + middle_of(s, keep) + suffix_of(s, keep));
}

// ── What the summarizer sees ────────────────────────────────────────

/// The summarizer sees every message, in order, each on lines of its own.
pub proof fn every_message_is_formatted(a: Seq<MessageView>, b: Seq<MessageView>, m: MessageView)
    ensures
        formatted(Seq::empty()) == Seq::<char>::empty(),
        formatted(seq![m]) == message_line(m) + "\n"@,
        formatted(a + b) == formatted(a) + formatted(b),
    decreases b.len(),
{
    let none = Seq::<MessageView>::empty();
    assert(seq![m].drop_last() =~= none);
    assert(formatted(none) =~= Seq::empty());
    assert(formatted(seq![m]) =~= message_line(m) + "\n"@);
    if b.len() == 0 {
        assert(a + b =~= a);
        assert(formatted(a) + formatted(b) =~= formatted(a));
    } else {
        every_message_is_formatted(a, b.drop_last(), m);
        assert((a + b).drop_last() =~= a + b.drop_last());
        assert(formatted(a + b) =~= formatted(a) + formatted(b));
    }
}

/// A message is shown with its role and its whole text, and a request for tools
/// with every call: its name and its arguments.
pub proof fn a_message_is_formatted_whole(
    content: Seq<char>,
    call_id: Seq<char>,
    a: Seq<CallView>,
    b: Seq<CallView>,
    c: CallView,
)
    ensures
        message_line(MessageView::User { content }) == "[user] "@ + content,
        message_line(MessageView::Assistant { content }) == "[assistant] "@ + content,
        message_line(MessageView::System { content }) == "[system] "@ + content,
        message_line(MessageView::Tool { call_id, content }) == "[tool:"@ + call_id + "] "@
            + content,
        has_prefix(
            message_line(MessageView::ToolCalls { content, calls: a }),
            "[assistant] "@ + content,
        ),
        message_line(MessageView::ToolCalls { content, calls: seq![c] }) == "[assistant] "@ + content
            + "\n  [tool_call] "@ + c.name + "("@ + c.arguments + ")"@,
        message_line(MessageView::ToolCalls { content, calls: a + b }) == message_line(
            MessageView::ToolCalls { content, calls: a },
        ) + call_lines(b),
{
    lemma_call_lines(a, b, c);
    let t = message_line(MessageView::ToolCalls { content, calls: a });
    let head = "[assistant] "@ + content;
    assert(t.take(head.len() as int) =~= head);
    assert(message_line(MessageView::ToolCalls { content, calls: seq![c] }) =~= "[assistant] "@
        + content + "\n  [tool_call] "@ + c.name + "("@ + c.arguments + ")"@);
    assert(message_line(MessageView::ToolCalls { content, calls: a + b }) =~= t + call_lines(b));
}

proof fn lemma_call_lines(a: Seq<CallView>, b: Seq<CallView>, c: CallView)
    ensures
        call_lines(seq![c]) == call_line(c),
        call_lines(a + b) == call_lines(a) + call_lines(b),
    decreases b.len(),
{
    let none = Seq::<CallView>::empty();
    assert(seq![c].drop_last() =~= none);
    assert(call_lines(none) =~= Seq::empty());
    assert(call_lines(seq![c]) =~= call_line(c));
    if b.len() == 0 {
        assert(a + b =~= a);
        assert(call_lines(a) + call_lines(b) =~= call_lines(a));
    } else {
        lemma_call_lines(a, b.drop_last(), c);
        assert((a + b).drop_last() =~= a + b.drop_last());
        assert(call_lines(a + b) =~= call_lines(a) + call_lines(b));
    }
}

/// A summarization call holds the instructions, and the conversation between
/// its tags.
pub proof fn a_segment_holds_the_conversation(instructions: Seq<char>, messages: Seq<MessageView>)
    ensures
        has_prefix(segment_text(instructions, messages), instructions),
        has_suffix(
            segment_text(instructions, messages),
            "\n\n<conversation_segment>\n"@ + formatted(messages) + "\n</conversation_segment>"@,
        ),
        segment_text(instructions, messages).len() == instructions.len() + (
        "\n\n<conversation_segment>\n"@ + formatted(messages) + "\n</conversation_segment>"@).len(),
{
    let t = segment_text(instructions, messages);
    let b = "\n\n<conversation_segment>\n"@ + formatted(messages) + "\n</conversation_segment>"@;
    assert(t.take(instructions.len() as int) =~= instructions);
    assert(t.skip(t.len() - b.len()) =~= b);
}

/// Tool output within the cap stays as it is. Of longer output the longest
/// start and the longest end within half the cap each are kept, and between
/// them stands how many tokens are left out.
pub proof fn shortened_output_says_what_is_left_out(s: Seq<char>, max_tokens: nat)
    ensures
        utf8_len(s) / 4 <= max_tokens ==> shortened_output(s, max_tokens) == s,
        utf8_len(s) / 4 > max_tokens ==> exists|i: int, j: int| #[trigger]
            is_cut_at(s, max_tokens * 2, i, j) && shortened_output(s, max_tokens) == s.take(i)
                + "\n... [~"@ + decimal(utf8_len(s.subrange(i, j)) / 4)
                + " tokens truncated] ...\n"@ + s.skip(j),
{
    let keep = max_tokens * 2;
    if utf8_len(s) / 4 > max_tokens {
        prefix_is_the_longest_that_fits(s, keep);
        suffix_is_the_longest_that_fits(s, keep);
        lemma_ends_apart(s, keep);
        let i = prefix_chars(s, keep) as int;
        let j = suffix_skip(s, keep) as int;
        assert(prefix_of(s, keep).len() == i);
        assert(suffix_of(s, keep).len() == s.len() - j);
        if i == s.len() {
            assert(s.take(i) =~= s);
        }
        if j == 0 {
            assert(s.skip(j) =~= s);
        }
        assert(is_cut_at(s, keep, i, j));
    }
}

/// Whether a text is cut to the longest start and the longest end within a
/// number of bytes each.
pub open spec fn is_cut_at(s: Seq<char>, keep: nat, i: int, j: int) -> bool {
    &&& 0 <= i <= j <= s.len()
    &&& i < s.len() && j > 0
    &&& utf8_len(s.take(i)) <= keep
    &&& utf8_len(s.take(i + 1)) > keep
    &&& utf8_len(s.skip(j)) <= keep
    &&& utf8_len(s.skip(j - 1)) > keep
}

} // verus!
