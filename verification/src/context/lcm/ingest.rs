//! Keeping oversized payloads out of the context: which messages are stored
//! outside, and what stands in their place.

use std::borrow::Cow;

use vstd::prelude::*;
use vstd::utf8::encode_utf8;

use super::counts::{stored_count, to_stored_count};
use super::explore::{
    detect_kind, format_file_reference, is_test_run, kind_of, looks_like_test_run, mime_hint,
    mime_of, next_step, next_step_text, path_view, reference_text,
};
use super::framing::{excerpt_of, mechanical_excerpt, strip_tool_framing, unframed};
use super::survey::{exploration_summary, explores, settle_exploration, settled, ExplorationStep};
use crate::config::ContextConfig;
use crate::digest::{file_id, id_text, sha256_of};
use crate::text::number::decimal;
use crate::text::split::trimmed;
use crate::text::{byte_len, has_prefix, has_suffix, lemma_utf8_len_is_encoding_len, utf8_len};
use crate::types::{estimate_tokens, tokens_of, Message, MessageView};

verus! {

/// How the summary of a payload that is stored outside is made.
#[derive(Clone, Copy, Debug, PartialEq, Eq, Structural)]
pub enum SummaryStrategy {
    /// By its kind; plain text may be put before the model. For payloads of
    /// the user, which are rare.
    Explore,
    /// By an excerpt that costs nothing. For tool output, which comes on every
    /// turn.
    Mechanical,
}

/// What becomes of a message on its way into the store.
#[derive(Clone, Copy, Debug, PartialEq, Eq, Structural)]
pub enum Interception {
    /// It is stored as it is.
    Keep,
    /// Its payload is stored outside.
    Externalize(SummaryStrategy),
}

/// What becomes of a message.
pub open spec fn interception_of(msg: MessageView, ctx: ContextConfig) -> Interception {
    match msg {
        MessageView::User { content } => if tokens_of(content) > ctx.lcm.large_file_threshold {
            Interception::Externalize(SummaryStrategy::Explore)
        } else {
            Interception::Keep
        },
        MessageView::Tool { content, .. } => if tokens_of(content) > ctx.tool_output_tokens {
            Interception::Externalize(SummaryStrategy::Mechanical)
        } else {
            Interception::Keep
        },
        _ => Interception::Keep,
    }
}

/// What becomes of a message: an oversized payload of the user or of a tool
/// is stored outside. Tool results have a limit of their own.
pub fn intercept_large(msg: &Message, ctx: &ContextConfig) -> (r: Interception)
    ensures
        r == interception_of(msg@, *ctx),
{
    match msg {
        Message::User { content } => {
            if estimate_tokens(content.as_str()) > ctx.lcm.large_file_threshold as usize {
                Interception::Externalize(SummaryStrategy::Explore)
            } else {
                Interception::Keep
            }
        },
        Message::Tool { content, .. } => {
            if estimate_tokens(content.as_str()) > ctx.tool_output_tokens as usize {
                Interception::Externalize(SummaryStrategy::Mechanical)
            } else {
                Interception::Keep
            }
        },
        _ => Interception::Keep,
    }
}

/// A message with a reference in place of its payload.
pub open spec fn with_reference(msg: MessageView, reference: Seq<char>) -> MessageView {
    match msg {
        MessageView::User { .. } => MessageView::User { content: reference },
        MessageView::Tool { call_id, .. } => MessageView::Tool { call_id, content: reference },
        other => other,
    }
}

/// A message with a reference in place of its payload.
pub fn put_reference(msg: &Message, reference: String) -> (r: Message)
    ensures
        r@ == with_reference(msg@, reference@),
{
    match msg {
        Message::User { .. } => Message::User { content: reference },
        Message::Tool { call_id, .. } => Message::Tool {
            call_id: call_id.clone(),
            content: reference,
        },
        other => other.clone(),
    }
}

/// What is recorded of a payload that is stored outside.
pub struct LargeFileRow {
    pub file_id: String,
    pub path: String,
    pub mime_type: String,
    pub byte_size: i64,
    pub token_count: i64,
    pub exploration_summary: String,
}

/// The view of a [`LargeFileRow`].
pub struct LargeFileView {
    pub file_id: Seq<char>,
    pub path: Seq<char>,
    pub mime_type: Seq<char>,
    pub byte_size: i64,
    pub token_count: i64,
    pub exploration_summary: Seq<char>,
}

impl View for LargeFileRow {
    type V = LargeFileView;

    open spec fn view(&self) -> LargeFileView {
        LargeFileView {
            file_id: self.file_id@,
            path: self.path@,
            mime_type: self.mime_type@,
            byte_size: self.byte_size,
            token_count: self.token_count,
            exploration_summary: self.exploration_summary@,
        }
    }
}

/// The id of a payload.
pub open spec fn payload_id(content: Seq<char>) -> Seq<char> {
    id_text("file_"@, sha256_of(encode_utf8(content)))
}

/// The path that a reference names: the file that was read, or else the
/// stored payload, relative to the workspace.
pub open spec fn payload_path(content: Seq<char>, hint: Option<Seq<char>>) -> Seq<char> {
    match hint {
        Some(path) => path,
        None => "context/lcm/payloads/"@ + payload_id(content),
    }
}

/// What is recorded of a payload.
pub open spec fn payload_row(content: Seq<char>, hint: Option<Seq<char>>, summary: Seq<char>)
    -> LargeFileView {
    LargeFileView {
        file_id: payload_id(content),
        path: payload_path(content, hint),
        mime_type: mime_of(kind_of(hint, unframed(content))),
        byte_size: stored_count(utf8_len(content)) as i64,
        token_count: stored_count(tokens_of(content)) as i64,
        exploration_summary: summary,
    }
}

/// How to look into a payload, by what it shows.
pub open spec fn payload_next_step(content: Seq<char>, hint: Option<Seq<char>>) -> Seq<char> {
    let shown = unframed(content);
    next_step_text(
        kind_of(hint, shown),
        is_test_run(shown),
        hint is Some,
        payload_path(content, hint),
    )
}

/// What stands in the message in place of the payload: a reference that names
/// its own next step.
pub open spec fn payload_reference(
    content: Seq<char>,
    hint: Option<Seq<char>>,
    summary: Seq<char>,
) -> Seq<char> {
    reference_text(
        payload_id(content),
        payload_path(content, hint),
        tokens_of(content),
        summary,
        payload_next_step(content, hint),
    )
}

/// What the summary of a payload takes. It is made of what the payload shows,
/// without the framing of the tool that read it.
pub fn summarize_payload(
    content: &str,
    path_hint: Option<&str>,
    strategy: SummaryStrategy,
    summary_token_bound: u32,
) -> (r: ExplorationStep)
    ensures
        match strategy {
            SummaryStrategy::Mechanical => r matches ExplorationStep::Done(s) && s@ == excerpt_of(
                unframed(content@),
            ),
            SummaryStrategy::Explore => explores(
                unframed(content@),
                path_view(path_hint),
                summary_token_bound,
                r,
            ),
        },
{
    let inner = strip_tool_framing(content);
    let shown: &str = match &inner {
        Cow::Borrowed(s) => s,
        Cow::Owned(s) => s.as_str(),
    };
    match strategy {
        SummaryStrategy::Mechanical => ExplorationStep::Done(mechanical_excerpt(shown)),
        SummaryStrategy::Explore => exploration_summary(shown, path_hint, summary_token_bound),
    }
}

/// The summary of a payload that was put before the model, given its reply.
pub fn settle_payload(content: &str, path_hint: Option<&str>, reply: &Option<String>) -> (r: String)
    ensures
        r@ == settled(unframed(content@), path_view(path_hint), *reply),
{
    match strip_tool_framing(content) {
        Cow::Borrowed(s) => settle_exploration(s, path_hint, reply),
        Cow::Owned(s) => settle_exploration(s.as_str(), path_hint, reply),
    }
}

/// The reference that stands in place of a payload, and what is recorded of
/// it. The type and the next step are told from what the payload shows,
/// without the framing of the tool that read it.
pub fn externalize(content: &str, path_hint: Option<&str>, summary: &str) -> (r: (
    String,
    LargeFileRow,
))
    ensures
        r.0@ == payload_reference(content@, path_view(path_hint), summary@),
        r.1@ == payload_row(content@, path_view(path_hint), summary@),
{
    let id = file_id(content);
    let inner = strip_tool_framing(content);
    let shown: &str = match &inner {
        Cow::Borrowed(s) => s,
        Cow::Owned(s) => s.as_str(),
    };
    let kind = detect_kind(path_hint, shown);
    let path = match path_hint {
        Some(p) => p.to_owned(),
        None => {
            let mut p = "context/lcm/payloads/".to_owned();
            p.append(id.as_str());
            p
        },
    };
    let tokens: usize = estimate_tokens(content);
    let step = next_step(kind, looks_like_test_run(shown), path_hint.is_some(), path.as_str());
    let reference = format_file_reference(
        id.as_str(),
        path.as_str(),
        tokens,
        summary,
        step.as_str(),
    );
    let row = LargeFileRow {
        file_id: id,
        path,
        mime_type: mime_hint(kind).to_owned(),
        byte_size: to_stored_count(byte_len(content)),
        token_count: to_stored_count(tokens),
        exploration_summary: summary.to_owned(),
    };
    (reference, row)
}

// ── What holds of every payload ─────────────────────────────────────

/// A payload is stored outside exactly where it is over its limit: one of the
/// user over the one for files, and one of a tool over the one for tool output.
pub proof fn only_oversized_payloads_are_moved(msg: MessageView, ctx: ContextConfig)
    ensures
        interception_of(msg, ctx) == Interception::Externalize(SummaryStrategy::Explore) <==> msg
            is User && utf8_len(msg.content()) / 4 > ctx.lcm.large_file_threshold,
        interception_of(msg, ctx) == Interception::Externalize(SummaryStrategy::Mechanical) <==> msg
            is Tool && utf8_len(msg.content()) / 4 > ctx.tool_output_tokens,
{
}

/// A reference takes the place of the text and changes nothing else.
pub proof fn a_reference_replaces_only_the_text(msg: MessageView, reference: Seq<char>)
    ensures
        msg is User ==> with_reference(msg, reference) == (MessageView::User { content: reference }),
        msg matches MessageView::Tool { call_id, .. } ==> with_reference(msg, reference) == (
        MessageView::Tool { call_id, content: reference }),
        !(msg is User) && !(msg is Tool) ==> with_reference(msg, reference) == msg,
{
}

/// What is recorded of a payload is its size, where it is, and the summary that
/// was made of it.
pub proof fn a_payload_is_recorded_with_its_size(
    content: Seq<char>,
    hint: Option<Seq<char>>,
    summary: Seq<char>,
)
    requires
        utf8_len(content) <= i64::MAX,
    ensures
        ({
            let row = payload_row(content, hint, summary);
            &&& row.byte_size == encode_utf8(content).len()
            &&& row.token_count == encode_utf8(content).len() / 4
            &&& row.exploration_summary == summary
            &&& hint matches Some(path) ==> row.path == path
            &&& hint is None ==> row.path == "context/lcm/payloads/"@ + row.file_id
            &&& has_prefix(row.file_id, "file_"@)
        }),
{
    lemma_utf8_len_is_encoding_len(content);
    let id = payload_id(content);
    assert(id.take("file_"@.len() as int) =~= "file_"@);
}

/// A reference names the payload, where it is and how large it is, and holds
/// the summary and the next step.
pub proof fn a_reference_points_to_its_payload(
    content: Seq<char>,
    hint: Option<Seq<char>>,
    summary: Seq<char>,
)
    ensures
        ({
            let r = payload_reference(content, hint, summary);
            &&& has_prefix(
                r,
                "<file id=\""@ + payload_id(content) + "\" path=\""@ + payload_path(content, hint)
                    + "\" tokens=\""@ + decimal(utf8_len(content) / 4) + "\">\n"@ + trimmed(
                    summary,
                ),
            )
            &&& has_suffix(r, "\n"@ + payload_next_step(content, hint) + "\n</file>"@)
        }),
{
    let r = payload_reference(content, hint, summary);
    let step = payload_next_step(content, hint);
    lemma_a_step_is_named(content, hint);
    let a = "<file id=\""@ + payload_id(content) + "\" path=\""@ + payload_path(content, hint)
        + "\" tokens=\""@ + decimal(utf8_len(content) / 4) + "\">\n"@ + trimmed(summary);
    let b = "\n"@ + step + "\n</file>"@;
    assert(r =~= a + b);
    assert(r.take(a.len() as int) =~= a);
    assert(r.skip(r.len() - b.len()) =~= b);
}

proof fn lemma_a_step_is_named(content: Seq<char>, hint: Option<Seq<char>>)
    ensures
        payload_next_step(content, hint).len() > 0,
{
    reveal_strlit("Next: grep pattern='panicked at|FAILED|error' path=");
    reveal_strlit("Next: file_read ");
    reveal_strlit("Next: the stored copy at ");
    reveal_strlit("Next: grep pattern=<regex> path=");
}

} // verus!
