//! Three-level summarization.
//!
//! A chunk of messages is summarized by up to three strategies in order:
//! prose that keeps specifics, terse bullets, and truncation. A model's
//! summary fails where the call failed, where it is no smaller than its input,
//! or where it is too short to be one. Truncation cannot fail.

use vstd::prelude::*;

use crate::context::{format_messages_for_summary, formatted};
use crate::text::number::{decimal, lemma_decimal_is_short, push_usize};
use crate::text::{
    byte_len, lemma_prefix_of, lemma_utf8_len_concat, prefix, prefix_is_the_longest_that_fits,
    prefix_of, utf8_len,
};
use crate::types::{
    estimate_tokens, lemma_messages_chars_prefix, message_views, messages_chars, tokens_of, Message,
    MessageView,
};

verus! {

/// Instructions for the normal summary: prose that keeps specifics.
pub const LEVEL_1_PROMPT: &'static str = "You are summarizing a SEGMENT of an agent conversation for future model turns. Treat this as incremental memory compaction input, not a full-conversation summary.\n\nNormal summary policy:\n- Preserve key decisions, rationale, constraints, and active tasks.\n- Keep essential technical details needed to continue work safely.\n- Preserve specifics: file paths, commands, tool names and their outcomes, open questions.\n- Preserve any <file id=\"...\"> reference tags exactly as they appear.\n- Include timestamps for key decisions if they appear in the input.\n- Remove obvious repetition, conversational filler, and verbose tool output (the originals remain on disk).\n\nOutput requirements:\n- Plain text only. No preamble, headings, or markdown formatting.\n- Include a \"Files:\" line tracking file operations (created, modified, deleted, renamed). Each entry: the path plus a short clause on why it matters, e.g. \"src/exec.rs (modified: added retry wrapper)\".\n- If no file operations appear, include exactly: \"Files: none\".\n- End with exactly: \"Expand for details about: <comma-separated list of what was dropped or compressed>\".";

/// Instructions for the aggressive summary: terse bullets.
pub const LEVEL_2_PROMPT: &'static str = "You are aggressively summarizing a SEGMENT of an agent conversation for future model turns. The level-1 summary was rejected for being too long; produce something tighter.\n\nAggressive summary policy:\n- Keep only durable facts and current task state.\n- One bullet per key decision or outcome where useful.\n- Drop everything that is not load-bearing.\n- Preserve explicit TODOs, blockers, decisions, and constraints.\n- Preserve any <file id=\"...\"> reference tags exactly as they appear.\n- Aim for the smallest summary that still lets a future reader reconstruct what happened. Originals remain available via lcm_grep and lcm_expand if details are needed.\n\nOutput requirements:\n- Plain text only. No preamble, headings, or markdown formatting.\n- Include a \"Files:\" line tracking file operations (created, modified, deleted, renamed). Each entry: the path plus a short clause on why it matters, e.g. \"src/exec.rs (modified: added retry wrapper)\".\n- If no file operations appear, include exactly: \"Files: none\".\n- End with exactly: \"Expand for details about: <comma-separated list of what was dropped or compressed>\".";

/// Cap on the truncated text, in estimated tokens.
pub const LEVEL_3_TOKEN_BUDGET: usize = 512;

/// A model's summary under this many bytes is rejected as degenerate.
pub const DEGENERATE_FLOOR_CHARS: usize = 500;

/// The degenerate floor applies to inputs of at least this many bytes: a
/// small chunk can honestly be summarized in less.
pub const DEGENERATE_FLOOR_MIN_INPUT_CHARS: usize = 2000;

/// Which strategy produced a summary.
#[derive(Clone, Copy, Debug, PartialEq, Eq, Structural)]
pub enum EscalationLevel {
    /// Normal prose summary.
    Normal,
    /// Aggressive bullet-point summary.
    Aggressive,
    /// Truncation; no model call.
    Deterministic,
}

impl EscalationLevel {
    /// The tag recorded with a summary.
    pub open spec fn label(self) -> Seq<char> {
        match self {
            EscalationLevel::Normal => "level1"@,
            EscalationLevel::Aggressive => "level2"@,
            EscalationLevel::Deterministic => "level3-truncate"@,
        }
    }

    /// The tag recorded with a summary.
    pub fn tag(self) -> (r: &'static str)
        ensures
            r@ == self.label(),
    {
        match self {
            EscalationLevel::Normal => "level1",
            EscalationLevel::Aggressive => "level2",
            EscalationLevel::Deterministic => "level3-truncate",
        }
    }
}

/// A summary, the strategy that produced it, and the sizes before and after.
pub struct EscalationOutcome {
    pub content: String,
    pub level: EscalationLevel,
    pub input_tokens: usize,
    pub output_tokens: usize,
}

// ── Sizes ───────────────────────────────────────────────────────────

/// Estimated tokens of messages, each rounded down.
pub open spec fn messages_tokens(messages: Seq<MessageView>) -> nat
    decreases messages.len(),
{
    if messages.len() == 0 {
        0
    } else {
        messages_tokens(messages.drop_last()) + messages.last().chars() / 4
    }
}

/// The tokens of messages are at most a quarter of their bytes.
pub proof fn lemma_messages_tokens(messages: Seq<MessageView>)
    ensures
        messages_tokens(messages) * 4 <= messages_chars(messages),
    decreases messages.len(),
{
    if messages.len() > 0 {
        lemma_messages_tokens(messages.drop_last());
    }
}

/// Estimated tokens of messages.
pub fn estimate_messages_tokens(messages: &Vec<Message>) -> (n: usize)
    requires
        messages_chars(message_views(messages@)) <= usize::MAX,
    ensures
        n == messages_tokens(message_views(messages@)),
        n <= usize::MAX / 4,
{
    let mut n: usize = 0;
    let mut i: usize = 0;
    let ghost all = message_views(messages@);
    assert(all.take(0) =~= Seq::empty());
    while i < messages.len()
        invariant
            i <= messages@.len(),
            all == message_views(messages@),
            messages_chars(all) <= usize::MAX,
            n == messages_tokens(all.take(i as int)),
        decreases messages@.len() - i,
    {
        proof {
            assert(all.take(i + 1).drop_last() =~= all.take(i as int));
            assert(all.take(i + 1).last() == messages@[i as int]@);
            lemma_messages_chars_prefix(all, i + 1);
            lemma_messages_tokens(all.take(i + 1));
        }
        n = n + messages[i].token_estimate();
        i += 1;
    }
    proof {
        assert(all.take(i as int) =~= all);
        lemma_messages_tokens(all);
    }
    n
}

// ── Acceptance ──────────────────────────────────────────────────────

/// Whether a model's summary compresses: it is smaller than the input, and
/// not degenerate where the input is large.
pub open spec fn compresses(content: Seq<char>, input_tokens: nat) -> bool {
    &&& tokens_of(content) < input_tokens
    &&& !(utf8_len(content) < DEGENERATE_FLOOR_CHARS && input_tokens * 4
        >= DEGENERATE_FLOOR_MIN_INPUT_CHARS)
}

/// The size of a model's summary where it is accepted.
pub fn accept(content: &str, input_tokens: usize) -> (r: Option<usize>)
    ensures
        match r {
            Some(output_tokens) => compresses(content@, input_tokens as nat) && output_tokens
                == tokens_of(content@),
            None => !compresses(content@, input_tokens as nat),
        },
{
    let output_tokens = estimate_tokens(content);
    if output_tokens >= input_tokens {
        return None;
    }
    if byte_len(content) < DEGENERATE_FLOOR_CHARS && input_tokens
        >= DEGENERATE_FLOOR_MIN_INPUT_CHARS / 4 {
        return None;
    }
    Some(output_tokens)
}

// ── Truncation ──────────────────────────────────────────────────────

/// What is said below a truncated text.
pub open spec fn truncation_note(input_tokens: nat, max_tokens: nat) -> Seq<char> {
    "\n\n[Truncated from "@ + decimal(input_tokens) + " tokens; "@ + decimal(max_tokens)
        + " tokens preserved.]"@
}

/// A formatted conversation, cut to `max_tokens` where it is longer.
pub open spec fn truncated_text(text: Seq<char>, max_tokens: nat, input_tokens: nat) -> Seq<char> {
    if utf8_len(text) <= max_tokens * 4 {
        text
    } else {
        prefix_of(text, max_tokens * 4) + truncation_note(input_tokens, max_tokens)
    }
}

/// The messages as text, cut to `max_tokens` where they are longer, with a
/// note of how much was dropped.
pub fn truncate_messages(messages: &Vec<Message>, max_tokens: usize, input_tokens: usize) -> (r:
    String)
    requires
        max_tokens <= usize::MAX / 4,
    ensures
        r@ == truncated_text(
            formatted(message_views(messages@)),
            max_tokens as nat,
            input_tokens as nat,
        ),
{
    let text = format_messages_for_summary(messages);
    let max_chars: usize = max_tokens * 4;
    if byte_len(text.as_str()) <= max_chars {
        return text;
    }
    let mut out = prefix(text.as_str(), max_chars);
    let ghost head = out@;
    out.append("\n\n[Truncated from ");
    push_usize(&mut out, input_tokens);
    out.append(" tokens; ");
    push_usize(&mut out, max_tokens);
    out.append(" tokens preserved.]");
    assert(out@ =~= head + truncation_note(input_tokens as nat, max_tokens as nat));
    out
}

// ── Escalation ──────────────────────────────────────────────────────

/// What an escalation does next.
pub enum EscalationStep {
    /// Ask the model with these instructions.
    Ask { prompt: &'static str },
    /// The summary is settled.
    Done(EscalationOutcome),
}

/// Whether a reply is there and compresses.
pub open spec fn is_accepted(reply: Option<String>, input_tokens: nat) -> bool {
    match reply {
        Some(content) => compresses(content@, input_tokens),
        None => false,
    }
}

/// What an escalation does, given the model's replies so far: the first to
/// the normal instructions, the second to the aggressive ones. A reply is
/// `None` where the call failed.
pub fn summarize_with_escalation(messages: &Vec<Message>, replies: &Vec<Option<String>>) -> (r:
    EscalationStep)
    requires
        messages_chars(message_views(messages@)) <= usize::MAX,
    ensures
        ({
            let input = messages_tokens(message_views(messages@));
            if replies@.len() == 0 {
                r matches EscalationStep::Ask { prompt } && prompt@ == LEVEL_1_PROMPT@
            } else if is_accepted(replies@[0], input) {
                &&& r matches EscalationStep::Done(o)
                &&& o.level == EscalationLevel::Normal
                &&& o.content@ == replies@[0]->0@
                &&& o.input_tokens == input
                &&& o.output_tokens == tokens_of(o.content@)
            } else if replies@.len() == 1 {
                r matches EscalationStep::Ask { prompt } && prompt@ == LEVEL_2_PROMPT@
            } else if is_accepted(replies@[1], input) {
                &&& r matches EscalationStep::Done(o)
                &&& o.level == EscalationLevel::Aggressive
                &&& o.content@ == replies@[1]->0@
                &&& o.input_tokens == input
                &&& o.output_tokens == tokens_of(o.content@)
            } else {
                &&& r matches EscalationStep::Done(o)
                &&& o.level == EscalationLevel::Deterministic
                &&& o.content@ == truncated_text(
                    formatted(message_views(messages@)),
                    LEVEL_3_TOKEN_BUDGET as nat,
                    input,
                )
                &&& o.input_tokens == input
                &&& o.output_tokens == tokens_of(o.content@)
            }
        }),
{
    let input_tokens = estimate_messages_tokens(messages);
    if replies.len() == 0 {
        return EscalationStep::Ask { prompt: LEVEL_1_PROMPT };
    }
    match &replies[0] {
        Some(content) => match accept(content.as_str(), input_tokens) {
            Some(output_tokens) => {
                return EscalationStep::Done(
                    EscalationOutcome {
                        content: content.clone(),
                        level: EscalationLevel::Normal,
                        input_tokens,
                        output_tokens,
                    },
                );
            },
            None => {},
        },
        None => {},
    }
    if replies.len() == 1 {
        return EscalationStep::Ask { prompt: LEVEL_2_PROMPT };
    }
    match &replies[1] {
        Some(content) => match accept(content.as_str(), input_tokens) {
            Some(output_tokens) => {
                return EscalationStep::Done(
                    EscalationOutcome {
                        content: content.clone(),
                        level: EscalationLevel::Aggressive,
                        input_tokens,
                        output_tokens,
                    },
                );
            },
            None => {},
        },
        None => {},
    }
    let content = truncate_messages(messages, LEVEL_3_TOKEN_BUDGET, input_tokens);
    let output_tokens = estimate_tokens(content.as_str());
    EscalationStep::Done(
        EscalationOutcome {
            content,
            level: EscalationLevel::Deterministic,
            input_tokens,
            output_tokens,
        },
    )
}

// ── Truncation converges ────────────────────────────────────────────

/// A truncated text is bounded whatever was truncated: what is kept of it is
/// within the budget, and the note takes at most 32 tokens more.
pub proof fn truncation_is_bounded(text: Seq<char>, input_tokens: usize)
    ensures
        tokens_of(truncated_text(text, LEVEL_3_TOKEN_BUDGET as nat, input_tokens as nat))
            <= LEVEL_3_TOKEN_BUDGET + 32,
        tokens_of(prefix_of(text, (LEVEL_3_TOKEN_BUDGET * 4) as nat)) <= LEVEL_3_TOKEN_BUDGET,
{
    let budget = LEVEL_3_TOKEN_BUDGET as nat;
    lemma_prefix_of(text, budget * 4);
    if utf8_len(text) > budget * 4 {
        let head = prefix_of(text, budget * 4);
        let a = "\n\n[Truncated from "@;
        let b = decimal(input_tokens as nat);
        let c = " tokens; "@;
        let d = decimal(budget);
        let e = " tokens preserved.]"@;
        reveal_strlit("\n\n[Truncated from ");
        reveal_strlit(" tokens; ");
        reveal_strlit(" tokens preserved.]");
        lemma_short_text(a);
        lemma_short_text(c);
        lemma_short_text(e);
        lemma_decimal_is_short(input_tokens as nat);
        lemma_decimal_is_short(budget);
        lemma_utf8_len_concat(a, b);
        lemma_utf8_len_concat(a + b, c);
        lemma_utf8_len_concat(a + b + c, d);
        lemma_utf8_len_concat(a + b + c + d, e);
        lemma_utf8_len_concat(head, truncation_note(input_tokens as nat, budget));
    }
}

/// A text takes at most four bytes per character; one of ASCII, one each.
proof fn lemma_short_text(s: Seq<char>)
    requires
        forall|i: int| 0 <= i < s.len() ==> (#[trigger] s[i]) as u32 <= 0x7f,
    ensures
        utf8_len(s) == s.len(),
    decreases s.len(),
{
    if s.len() > 0 {
        assert(s.last() == s[s.len() - 1]);
        assert forall|i: int| 0 <= i < s.drop_last().len() implies (#[trigger] s.drop_last()[i])
            as u32 <= 0x7f by {
            assert(s.drop_last()[i] == s[i]);
        }
        lemma_short_text(s.drop_last());
    }
}

/// The ladder ends: after two replies the summary is settled, and what a
/// model wrote is kept only where it is smaller than what it stands for.
pub proof fn accepted_summaries_shrink(reply: Option<String>, input_tokens: nat)
    requires
        is_accepted(reply, input_tokens),
    ensures
        reply matches Some(content) && tokens_of(content@) < input_tokens,
{
}

// ── What holds of every escalation ──────────────────────────────────

/// A truncated text keeps the start of what it was made from: a short one is
/// all there, and of a longer one the longest start within the budget, with
/// only the note behind it.
pub proof fn truncation_keeps_the_start(text: Seq<char>, max_tokens: nat, input_tokens: nat)
    ensures
        utf8_len(text) <= max_tokens * 4 ==> truncated_text(text, max_tokens, input_tokens) == text,
        utf8_len(text) > max_tokens * 4 ==> exists|k: int|
            0 <= k < text.len() && utf8_len(#[trigger] text.take(k)) <= max_tokens * 4 && utf8_len(
                text.take(k + 1),
            ) > max_tokens * 4 && truncated_text(text, max_tokens, input_tokens) == text.take(k)
                + ("\n\n[Truncated from "@ + decimal(input_tokens) + " tokens; "@ + decimal(
                max_tokens,
            ) + " tokens preserved.]"@),
{
    let max = max_tokens * 4;
    prefix_is_the_longest_that_fits(text, max);
    if utf8_len(text) > max {
        let k = prefix_of(text, max).len() as int;
        if k == text.len() {
            assert(text.take(k) =~= text);
        }
        assert(truncated_text(text, max_tokens, input_tokens) == text.take(k) + (
        "\n\n[Truncated from "@ + decimal(input_tokens) + " tokens; "@ + decimal(max_tokens)
            + " tokens preserved.]"@));
    }
}

/// The tokens of messages are counted message by message: those of two lists
/// are those of both, and those of one message a quarter of its bytes.
pub proof fn message_tokens_add_up(a: Seq<MessageView>, b: Seq<MessageView>, m: MessageView)
    ensures
        messages_tokens(Seq::empty()) == 0,
        messages_tokens(seq![m]) == m.chars() / 4,
        messages_tokens(a + b) == messages_tokens(a) + messages_tokens(b),
    decreases b.len(),
{
    assert(seq![m].drop_last() =~= Seq::empty());
    assert(messages_tokens(Seq::<MessageView>::empty()) == 0);
    if b.len() == 0 {
        assert(a + b =~= a);
    } else {
        message_tokens_add_up(a, b.drop_last(), m);
        assert((a + b).drop_last() =~= a + b.drop_last());
    }
}

/// A reply is taken exactly where it is smaller than what it stands for and
/// not a few lines in place of much: one of under 500 bytes is refused for an
/// input of 2000 bytes or more.
pub proof fn what_is_accepted(content: Seq<char>, input_tokens: nat)
    ensures
        compresses(content, input_tokens) <==> {
            &&& utf8_len(content) / 4 < input_tokens
            &&& utf8_len(content) >= 500 || input_tokens < 500
        },
{
}

/// A summary is tagged with the level that it came from, and its tag tells
/// the level.
pub proof fn tags_tell_the_level(level: EscalationLevel)
    ensures
        level.label() == "level1"@ <==> level is Normal,
        level.label() == "level2"@ <==> level is Aggressive,
        level.label() == "level3-truncate"@ <==> level is Deterministic,
{
    reveal_strlit("level1");
    reveal_strlit("level2");
    reveal_strlit("level3-truncate");
    assert("level1"@[5] != "level2"@[5]);
}

} // verus!
