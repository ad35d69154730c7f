//! Summaries in three levels, without a floor on their length.

use vstd::prelude::*;
use vstd::utf8::encode_utf8;

use crate::context::formatted;
use crate::context::lcm::summarize::{
    truncate_messages, truncated_text, EscalationLevel, EscalationOutcome, EscalationStep,
    LEVEL_3_TOKEN_BUDGET,
};
use crate::text::byte_len;
use crate::types::{
    call_views, calls_chars, lemma_messages_chars_prefix, message_views, messages_chars,
    tokens_are_quarters_of_bytes, tokens_of, CallView, Message, MessageView, ToolCall,
};

verus! {

/// Asks for a normal summary.
pub const LEVEL_1_PROMPT: &'static str = "You are summarizing a SEGMENT of an agent conversation for future model turns. Treat this as incremental memory compaction input, not a full-conversation summary.\n\nNormal summary policy:\n- Preserve key decisions, rationale, constraints, and active tasks.\n- Keep essential technical details needed to continue work safely.\n- Preserve specifics: file paths, commands, tool names and their outcomes, open questions.\n- Preserve any <file id=\"...\"> reference tags exactly as they appear.\n- Include timestamps for key decisions if they appear in the input.\n- Remove obvious repetition, conversational filler, and verbose tool output (the originals remain on disk).\n\nOutput requirements:\n- Plain text only. No preamble, headings, or markdown formatting.\n- Track file operations (created, modified, deleted, renamed) with file paths and current status.\n- If no file operations appear, include exactly: \"Files: none\".\n- End with exactly: \"Expand for details about: <comma-separated list of what was dropped or compressed>\".";

/// Asks for a shorter one.
pub const LEVEL_2_PROMPT: &'static str = "You are aggressively summarizing a SEGMENT of an agent conversation for future model turns. The level-1 summary was rejected for being too long; produce something tighter.\n\nAggressive summary policy:\n- Keep only durable facts and current task state.\n- One bullet per key decision or outcome where useful.\n- Drop everything that is not load-bearing.\n- Preserve explicit TODOs, blockers, decisions, and constraints.\n- Preserve any <file id=\"...\"> reference tags exactly as they appear.\n- Aim for the smallest summary that still lets a future reader reconstruct what happened. Originals remain available via lcm_grep and lcm_expand if details are needed.\n\nOutput requirements:\n- Plain text only. No preamble, headings, or markdown formatting.\n- Track file operations (created, modified, deleted, renamed) with file paths and current status.\n- If no file operations appear, include exactly: \"Files: none\".\n- End with exactly: \"Expand for details about: <comma-separated list of what was dropped or compressed>\".";

/// Estimated tokens of `s`: a quarter of its bytes.
pub fn estimate_tokens(s: &str) -> (n: usize)
    ensures
        n == tokens_of(s@),
        n <= usize::MAX / 4,
{
    byte_len(s) / 4
}

/// Estimated tokens of tool calls: those of each name and of each list of
/// arguments.
pub open spec fn calls_tokens(calls: Seq<CallView>) -> nat
    decreases calls.len(),
{
    if calls.len() == 0 {
        0
    } else {
        calls_tokens(calls.drop_last()) + tokens_of(calls.last().name) + tokens_of(
            calls.last().arguments,
        )
    }
}

/// Estimated tokens of a message.
pub open spec fn message_tokens(m: MessageView) -> nat {
    match m {
        MessageView::ToolCalls { content, calls } => tokens_of(content) + calls_tokens(calls),
        _ => tokens_of(m.content()),
    }
}

/// Estimated tokens of messages.
pub open spec fn messages_tokens(messages: Seq<MessageView>) -> nat
    decreases messages.len(),
{
    if messages.len() == 0 {
        0
    } else {
        messages_tokens(messages.drop_last()) + message_tokens(messages.last())
    }
}

proof fn lemma_calls_tokens(calls: Seq<CallView>)
    ensures
        calls_tokens(calls) * 4 <= calls_chars(calls),
    decreases calls.len(),
{
    if calls.len() > 0 {
        lemma_calls_tokens(calls.drop_last());
    }
}

proof fn lemma_messages_tokens(messages: Seq<MessageView>)
    ensures
        messages_tokens(messages) * 4 <= messages_chars(messages),
    decreases messages.len(),
{
    if messages.len() > 0 {
        lemma_messages_tokens(messages.drop_last());
        if let MessageView::ToolCalls { calls, .. } = messages.last() {
            lemma_calls_tokens(calls);
        }
    }
}

/// Estimated tokens of tool calls.
fn estimate_calls(calls: &Vec<ToolCall>, room: usize) -> (n: usize)
    requires
        calls_tokens(call_views(calls@)) <= room,
    ensures
        n == calls_tokens(call_views(calls@)),
{
    let ghost all = call_views(calls@);
    let count: usize = calls.len();
    let mut n: usize = 0;
    let mut i: usize = 0;
    assert(all.take(0) =~= Seq::empty());
    while i < count
        invariant
            i <= count,
            count == calls@.len(),
            all == call_views(calls@),
            calls_tokens(all) <= room,
            n == calls_tokens(all.take(i as int)),
        decreases count - i,
    {
        proof {
            assert(all.take(i + 1).drop_last() =~= all.take(i as int));
            assert(all.take(i + 1).last() == calls@[i as int]@);
            lemma_some_calls(all, i + 1);
        }
        n = n + estimate_tokens(calls[i].function.name.as_str());
        n = n + estimate_tokens(calls[i].function.arguments.as_str());
        i += 1;
    }
    assert(all.take(count as int) =~= all);
    n
}

proof fn lemma_some_calls(calls: Seq<CallView>, k: int)
    requires
        0 <= k <= calls.len(),
    ensures
        calls_tokens(calls.take(k)) <= calls_tokens(calls),
    decreases calls.len() - k,
{
    if k == calls.len() {
        assert(calls.take(k) =~= calls);
    } else {
        lemma_some_calls(calls, k + 1);
        assert(calls.take(k + 1).drop_last() =~= calls.take(k));
    }
}

/// Estimated tokens of messages: those of each text, name and list of
/// arguments.
pub fn estimate_messages_tokens(messages: &Vec<Message>) -> (n: usize)
    requires
        messages_chars(message_views(messages@)) <= usize::MAX,
    ensures
        n == messages_tokens(message_views(messages@)),
        n <= usize::MAX / 4,
{
    let ghost all = message_views(messages@);
    let count: usize = messages.len();
    let mut n: usize = 0;
    let mut i: usize = 0;
    assert(all.take(0) =~= Seq::empty());
    while i < count
        invariant
            i <= count,
            count == messages@.len(),
            all == message_views(messages@),
            messages_chars(all) <= usize::MAX,
            n == messages_tokens(all.take(i as int)),
        decreases count - i,
    {
        proof {
            assert(all.take(i + 1).drop_last() =~= all.take(i as int));
            assert(all.take(i + 1).last() == messages@[i as int]@);
            lemma_messages_chars_prefix(all, i + 1);
            lemma_messages_tokens(all.take(i + 1));
        }
        n = n + estimate_tokens(messages[i].content());
        if let Message::ToolCalls { calls, .. } = &messages[i] {
            n = n + estimate_calls(calls, usize::MAX / 4);
        }
        i += 1;
    }
    proof {
        assert(all.take(count as int) =~= all);
        lemma_messages_tokens(all);
    }
    n
}

/// Whether a reply is there and is shorter than what it stands for.
pub open spec fn is_shorter(reply: Option<String>, input_tokens: nat) -> bool {
    match reply {
        Some(content) => tokens_of(content@) < input_tokens,
        None => false,
    }
}

/// What an escalation does, given the model's replies so far: the first to
/// the normal instructions, the second to the aggressive ones. A reply is
/// `None` where the call failed.
pub fn summarize_with_escalation(messages: &Vec<Message>, replies: &Vec<Option<String>>) -> (r:
    EscalationStep)
    requires
        messages_chars(message_views(messages@)) <= usize::MAX,
    ensures
        ({
            let input = messages_tokens(message_views(messages@));
            if replies@.len() == 0 {
                r matches EscalationStep::Ask { prompt } && prompt@ == LEVEL_1_PROMPT@
            } else if is_shorter(replies@[0], input) {
                &&& r matches EscalationStep::Done(o)
                &&& o.level == EscalationLevel::Normal
                &&& o.content@ == replies@[0]->0@
                &&& o.input_tokens == input
                &&& o.output_tokens == tokens_of(o.content@)
            } else if replies@.len() == 1 {
                r matches EscalationStep::Ask { prompt } && prompt@ == LEVEL_2_PROMPT@
            } else if is_shorter(replies@[1], input) {
                &&& r matches EscalationStep::Done(o)
                &&& o.level == EscalationLevel::Aggressive
                &&& o.content@ == replies@[1]->0@
                &&& o.input_tokens == input
                &&& o.output_tokens == tokens_of(o.content@)
            } else {
                &&& r matches EscalationStep::Done(o)
                &&& o.level == EscalationLevel::Deterministic
                &&& o.content@ == truncated_text(
                    formatted(message_views(messages@)),
                    LEVEL_3_TOKEN_BUDGET as nat,
                    input,
                )
                &&& o.input_tokens == input
                &&& o.output_tokens == tokens_of(o.content@)
            }
        }),
{
    let input_tokens: usize = estimate_messages_tokens(messages);
    if replies.len() == 0 {
        return EscalationStep::Ask { prompt: LEVEL_1_PROMPT };
    }
    if let Some(content) = &replies[0] {
        let output_tokens: usize = estimate_tokens(content.as_str());
        if output_tokens < input_tokens {
            return EscalationStep::Done(
                EscalationOutcome {
                    content: content.clone(),
                    level: EscalationLevel::Normal,
                    input_tokens,
                    output_tokens,
                },
            );
        }
    }
    if replies.len() == 1 {
        return EscalationStep::Ask { prompt: LEVEL_2_PROMPT };
    }
    if let Some(content) = &replies[1] {
        let output_tokens: usize = estimate_tokens(content.as_str());
        if output_tokens < input_tokens {
            return EscalationStep::Done(
                EscalationOutcome {
                    content: content.clone(),
                    level: EscalationLevel::Aggressive,
                    input_tokens,
                    output_tokens,
                },
            );
        }
    }
    let content = truncate_messages(messages, LEVEL_3_TOKEN_BUDGET, input_tokens);
    let output_tokens: usize = estimate_tokens(content.as_str());
    EscalationStep::Done(
        EscalationOutcome {
            content,
            level: EscalationLevel::Deterministic,
            input_tokens,
            output_tokens,
        },
    )
}

/// Estimated tokens add up over messages and over the calls of a message.
pub proof fn tokens_add_up(
    a: Seq<MessageView>,
    b: Seq<MessageView>,
    m: MessageView,
    x: Seq<CallView>,
    y: Seq<CallView>,
    call: CallView,
)
    ensures
        messages_tokens(a + b) == messages_tokens(a) + messages_tokens(b),
        messages_tokens(seq![m]) == message_tokens(m),
        calls_tokens(x + y) == calls_tokens(x) + calls_tokens(y),
        calls_tokens(seq![call]) == tokens_of(call.name) + tokens_of(call.arguments),
        m matches MessageView::ToolCalls { content, calls } ==> message_tokens(m) == tokens_of(
            content,
        ) + calls_tokens(calls),
        !(m is ToolCalls) ==> message_tokens(m) == tokens_of(m.content()),
{
    lemma_tokens_of_both(a, b);
    lemma_calls_of_both(x, y);
    assert(seq![m].drop_last() =~= Seq::<MessageView>::empty());
    assert(messages_tokens(Seq::empty()) == 0);
    assert(seq![call].drop_last() =~= Seq::<CallView>::empty());
    assert(calls_tokens(Seq::empty()) == 0);
}

proof fn lemma_tokens_of_both(a: Seq<MessageView>, b: Seq<MessageView>)
    ensures
        messages_tokens(a + b) == messages_tokens(a) + messages_tokens(b),
    decreases b.len(),
{
    if b.len() > 0 {
        lemma_tokens_of_both(a, b.drop_last());
        assert((a + b).drop_last() =~= a + b.drop_last());
    } else {
        assert(a + b =~= a);
    }
}

proof fn lemma_calls_of_both(a: Seq<CallView>, b: Seq<CallView>)
    ensures
        calls_tokens(a + b) == calls_tokens(a) + calls_tokens(b),
    decreases b.len(),
{
    if b.len() > 0 {
        lemma_calls_of_both(a, b.drop_last());
        assert((a + b).drop_last() =~= a + b.drop_last());
    } else {
        assert(a + b =~= a);
    }
}

/// A reply is taken exactly where it takes fewer tokens than what it stands
/// for.
pub proof fn only_shorter_replies_are_taken(reply: Option<String>, input_tokens: nat)
    ensures
        reply is None ==> !is_shorter(reply, input_tokens),
        reply matches Some(text) ==> (is_shorter(reply, input_tokens) <==> encode_utf8(
            text@,
        ).len() / 4 < input_tokens),
{
    if reply is Some {
        tokens_are_quarters_of_bytes(reply->0@);
    }
}

} // verus!
