//! `lcm_expand`: drilling into a summary, down to the messages and payloads
//! behind it.

use vstd::prelude::*;

use crate::context::lcm::compaction::SummaryView;
use crate::context::lcm::explore::{extract_file_ids, file_ids_of};
use crate::context::lcm::store::{
    summary_with, Conversation, ConversationView, StoredMessage, StoredView,
};
use crate::text::number::{
    decimal, lemma_decimal_width, push_decimal, push_i64, push_usize, signed_decimal,
};
use crate::text::order::{
    lemma_sorted_texts_holds, lemma_sorted_texts_keeps, sort_texts, sorted_texts,
};
use crate::text::{
    among, byte_len, has_prefix, has_suffix, lemma_occurs_within, lemma_prefix_of,
    lemma_utf8_len_concat, lemma_utf8_len_split, lemma_views_push, occurs, prefix, prefix_chars,
    prefix_is_the_longest_that_fits, prefix_of, quote, quoted, same, stands_at, utf8_len, views,
};
use crate::types::tokens_of;

verus! {

/// Tokens of an expansion where no cap is asked for.
pub const DEFAULT_EXPAND_TOKEN_CAP: u32 = 5_000;

/// Tokens of an expansion at most.
pub const MAX_EXPAND_TOKEN_CAP: u32 = 20_000;

// ── Arguments ───────────────────────────────────────────────────────

/// An expansion as it was asked for.
pub struct ExpandArgs {
    pub summary_id: String,
    /// Levels to expand, 1 where none are given.
    pub depth: Option<u32>,
    /// Whether the raw messages of leaf summaries are shown.
    pub include_messages: Option<bool>,
    pub token_cap: Option<u32>,
}

/// How an expansion is done.
#[derive(Clone, Copy, Debug, PartialEq, Eq, Structural)]
pub struct ExpandPlan {
    pub depth: u32,
    pub include_messages: bool,
    pub cap: u32,
}

/// How an expansion is done: at least one level, within the largest cap.
pub open spec fn plan_of(args: ExpandArgs) -> ExpandPlan {
    ExpandPlan {
        depth: match args.depth {
            Some(d) if d >= 1 => d,
            _ => 1,
        },
        include_messages: args.include_messages == Some(true),
        cap: match args.token_cap {
            Some(c) => if c > MAX_EXPAND_TOKEN_CAP {
                MAX_EXPAND_TOKEN_CAP
            } else {
                c
            },
            None => DEFAULT_EXPAND_TOKEN_CAP,
        },
    }
}

impl ExpandArgs {
    /// How an expansion is done.
    pub fn plan(&self) -> (r: ExpandPlan)
        ensures
            r == plan_of(*self),
    {
        let depth: u32 = match self.depth {
            Some(d) if d >= 1 => d,
            _ => 1,
        };
        let include_messages = match self.include_messages {
            Some(b) => b,
            None => false,
        };
        let cap: u32 = match self.token_cap {
            Some(c) => if c > MAX_EXPAND_TOKEN_CAP {
                MAX_EXPAND_TOKEN_CAP
            } else {
                c
            },
            None => DEFAULT_EXPAND_TOKEN_CAP,
        };
        ExpandPlan { depth, include_messages, cap }
    }
}

// ── Payloads ────────────────────────────────────────────────────────

/// What reading a stored payload gave.
pub enum Payload {
    Found(String),
    /// Why it could not be read.
    Missing(String),
}

/// The view of a [`Payload`].
pub enum PayloadView {
    Found(Seq<char>),
    Missing(Seq<char>),
}

impl View for Payload {
    type V = PayloadView;

    open spec fn view(&self) -> PayloadView {
        match self {
            Payload::Found(text) => PayloadView::Found(text@),
            Payload::Missing(error) => PayloadView::Missing(error@),
        }
    }
}

/// The payloads that were read so far, by their ids.
pub open spec fn payload_views(payloads: Seq<(String, Payload)>) -> Seq<(Seq<char>, PayloadView)> {
    payloads.map_values(|p: (String, Payload)| (p.0@, p.1@))
}

/// The payload with an id.
pub open spec fn payload_with(payloads: Seq<(Seq<char>, PayloadView)>, id: Seq<char>) -> Option<
    PayloadView,
>
    decreases payloads.len(),
{
    if payloads.len() == 0 {
        None
    } else if payloads.last().0 == id {
        Some(payloads.last().1)
    } else {
        payload_with(payloads.drop_last(), id)
    }
}

/// How writing went on: so much is written, or writing stopped there at the
/// cap, or a payload has to be read first.
pub enum Flow {
    Go(Seq<char>),
    Stop(Seq<char>),
    Need(Seq<char>),
}

/// The notice at a cut.
pub open spec fn cut_note(cap: u32) -> Seq<char> {
    "[truncated at token_cap="@ + decimal(cap as nat) + "]\n"@
}

/// Whether there is room within the cap for `piece` behind what was written.
pub open spec fn fits(cap: u32, out: Seq<char>, piece: Seq<char>) -> bool {
    tokens_of(out + piece) <= cap
}

/// Bytes that may still be written within the cap.
pub open spec fn bytes_left(cap: u32, out: Seq<char>) -> nat {
    if utf8_len(out) <= cap * 4 + 3 {
        (cap * 4 + 3 - utf8_len(out)) as nat
    } else {
        0
    }
}

/// A payload written out.
pub open spec fn payload_block(id: Seq<char>, text: Seq<char>) -> Seq<char> {
    "### "@ + id + " (externalized payload)\n"@ + text + "\n\n"@
}

/// The note in place of a payload that could not be read.
pub open spec fn missing_block(id: Seq<char>, error: Seq<char>) -> Seq<char> {
    "### "@ + id + ": payload unavailable ("@ + error + ")\n\n"@
}

/// The heading of the first `n` bytes of a payload.
pub open spec fn head_line(id: Seq<char>, n: nat, size: nat) -> Seq<char> {
    "### "@ + id + " (externalized payload, first "@ + decimal(n) + " of "@ + decimal(size)
        + " bytes)\n"@
}

/// The start of a payload written out.
pub open spec fn head_block(id: Seq<char>, kept: Seq<char>, size: nat) -> Seq<char> {
    head_line(id, utf8_len(kept), size) + kept + "\n"@
}

/// Bytes around the start of a payload, at most.
pub open spec fn head_frame(id: Seq<char>, size: nat) -> nat {
    utf8_len(head_line(id, size, size) + "\n"@)
}

/// Writing out a payload: all of it where it fits, else its start, as far as
/// there is room for it with its heading.
pub open spec fn payload_flow(
    payload: Option<PayloadView>,
    id: Seq<char>,
    cap: u32,
    out: Seq<char>,
) -> Flow {
    match payload {
        None => Flow::Need(id),
        Some(PayloadView::Missing(error)) => if fits(cap, out, missing_block(id, error)) {
            Flow::Go(out + missing_block(id, error))
        } else {
            Flow::Stop(out)
        },
        Some(PayloadView::Found(text)) => {
            let left = bytes_left(cap, out);
            let frame = head_frame(id, utf8_len(text));
            if fits(cap, out, payload_block(id, text)) {
                Flow::Go(out + payload_block(id, text))
            } else if frame <= left {
                Flow::Stop(
                    out + head_block(id, prefix_of(text, (left - frame) as nat), utf8_len(text)),
                )
            } else {
                Flow::Stop(out)
            }
        },
    }
}

/// Writing out the first `n` of some payloads.
pub open spec fn files_flow(
    payloads: Seq<(Seq<char>, PayloadView)>,
    ids: Seq<Seq<char>>,
    cap: u32,
    out: Seq<char>,
    n: nat,
) -> Flow
    decreases n,
{
    if n == 0 {
        Flow::Go(out)
    } else {
        match files_flow(payloads, ids, cap, out, (n - 1) as nat) {
            Flow::Go(out) => payload_flow(
                payload_with(payloads, ids[n - 1]),
                ids[n - 1],
                cap,
                out,
            ),
            other => other,
        }
    }
}

// ── Messages ────────────────────────────────────────────────────────

/// A message written out.
pub open spec fn message_block(m: StoredView) -> Seq<char> {
    "### message_id="@ + signed_decimal(m.message_id as int) + " role="@ + m.role + "\n"@
        + m.content + "\n\n"@
}

/// Writing out a message, with the payloads that it refers to.
pub open spec fn message_flow(
    payloads: Seq<(Seq<char>, PayloadView)>,
    m: StoredView,
    cap: u32,
    out: Seq<char>,
) -> Flow {
    if fits(cap, out, message_block(m)) {
        let ids = file_ids_of(m.content);
        files_flow(payloads, ids, cap, out + message_block(m), ids.len())
    } else {
        Flow::Stop(out)
    }
}

/// Writing out those of the first `n` messages that a summary was made from.
pub open spec fn messages_flow(
    payloads: Seq<(Seq<char>, PayloadView)>,
    messages: Seq<StoredView>,
    sources: Seq<i64>,
    cap: u32,
    out: Seq<char>,
    n: nat,
) -> Flow
    decreases n,
{
    if n == 0 {
        Flow::Go(out)
    } else {
        match messages_flow(payloads, messages, sources, cap, out, (n - 1) as nat) {
            Flow::Go(out) => if sources.contains(messages[n - 1].message_id) {
                message_flow(payloads, messages[n - 1], cap, out)
            } else {
                Flow::Go(out)
            },
            other => other,
        }
    }
}

/// Whether what a flow wrote starts with `out` and is within the cap.
spec fn grows(flow: Flow, cap: u32, out: Seq<char>) -> bool {
    match flow {
        Flow::Go(o) => has_prefix(o, out) && tokens_of(o) <= cap,
        Flow::Stop(o) => has_prefix(o, out) && tokens_of(o) <= cap,
        Flow::Need(_) => true,
    }
}

proof fn lemma_starts_with(a: Seq<char>, b: Seq<char>)
    ensures
        has_prefix(a + b, a),
        has_prefix(a, a),
{
    assert((a + b).take(a.len() as int) =~= a);
    assert(a.take(a.len() as int) =~= a);
}

/// The start of a payload, with its heading, takes no more than was left.
proof fn lemma_head_block(id: Seq<char>, text: Seq<char>, left: nat)
    requires
        head_frame(id, utf8_len(text)) <= left,
    ensures
        utf8_len(
            head_block(
                id,
                prefix_of(text, (left - head_frame(id, utf8_len(text))) as nat),
                utf8_len(text),
            ),
        ) <= left,
{
    let size = utf8_len(text);
    let kept = prefix_of(text, (left - head_frame(id, size)) as nat);
    let n = utf8_len(kept);
    lemma_prefix_of(text, (left - head_frame(id, size)) as nat);
    lemma_utf8_len_split(text, prefix_chars(text, (left - head_frame(id, size)) as nat) as int);
    lemma_decimal_width(n, size);
    let front = "### "@ + id + " (externalized payload, first "@;
    lemma_utf8_len_concat(front, decimal(n));
    lemma_utf8_len_concat(front, decimal(size));
    lemma_utf8_len_concat(front + decimal(n), " of "@);
    lemma_utf8_len_concat(front + decimal(size), " of "@);
    lemma_utf8_len_concat(front + decimal(n) + " of "@, decimal(size));
    lemma_utf8_len_concat(front + decimal(size) + " of "@, decimal(size));
    lemma_utf8_len_concat(front + decimal(n) + " of "@ + decimal(size), " bytes)\n"@);
    lemma_utf8_len_concat(front + decimal(size) + " of "@ + decimal(size), " bytes)\n"@);
    lemma_utf8_len_concat(head_line(id, size, size), "\n"@);
    lemma_utf8_len_concat(head_line(id, n, size), kept);
    lemma_utf8_len_concat(head_line(id, n, size) + kept, "\n"@);
}

proof fn lemma_payload_flow_grows(
    payload: Option<PayloadView>,
    id: Seq<char>,
    cap: u32,
    out: Seq<char>,
)
    requires
        tokens_of(out) <= cap,
    ensures
        grows(payload_flow(payload, id, cap, out), cap, out),
{
    lemma_starts_with(out, Seq::empty());
    match payload {
        None => {},
        Some(PayloadView::Missing(error)) => {
            lemma_starts_with(out, missing_block(id, error));
        },
        Some(PayloadView::Found(text)) => {
            let left = bytes_left(cap, out);
            let frame = head_frame(id, utf8_len(text));
            lemma_starts_with(out, payload_block(id, text));
            if frame <= left {
                let head = head_block(
                    id,
                    prefix_of(text, (left - frame) as nat),
                    utf8_len(text),
                );
                lemma_head_block(id, text, left);
                lemma_starts_with(out, head);
                lemma_utf8_len_concat(out, head);
            }
        },
    }
}

proof fn lemma_files_flow_grows(
    payloads: Seq<(Seq<char>, PayloadView)>,
    ids: Seq<Seq<char>>,
    cap: u32,
    out: Seq<char>,
    n: nat,
)
    requires
        tokens_of(out) <= cap,
    ensures
        grows(files_flow(payloads, ids, cap, out, n), cap, out),
    decreases n,
{
    lemma_starts_with(out, Seq::empty());
    if n > 0 {
        lemma_files_flow_grows(payloads, ids, cap, out, (n - 1) as nat);
        if let Flow::Go(mid) = files_flow(payloads, ids, cap, out, (n - 1) as nat) {
            let payload = payload_with(payloads, ids[n - 1]);
            lemma_payload_flow_grows(payload, ids[n - 1], cap, mid);
            lemma_grows_on(payload_flow(payload, ids[n - 1], cap, mid), cap, out, mid);
        }
    }
}

proof fn lemma_message_flow_grows(
    payloads: Seq<(Seq<char>, PayloadView)>,
    m: StoredView,
    cap: u32,
    out: Seq<char>,
)
    requires
        tokens_of(out) <= cap,
    ensures
        grows(message_flow(payloads, m, cap, out), cap, out),
        message_flow(payloads, m, cap, out) matches Flow::Go(o) ==> has_prefix(
            o,
            out + message_block(m),
        ),
{
    lemma_starts_with(out, message_block(m));
    if fits(cap, out, message_block(m)) {
        let ids = file_ids_of(m.content);
        let mid = out + message_block(m);
        lemma_files_flow_grows(payloads, ids, cap, mid, ids.len());
        lemma_grows_on(files_flow(payloads, ids, cap, mid, ids.len()), cap, out, mid);
    }
}

proof fn lemma_messages_flow_grows(
    payloads: Seq<(Seq<char>, PayloadView)>,
    messages: Seq<StoredView>,
    sources: Seq<i64>,
    cap: u32,
    out: Seq<char>,
    n: nat,
)
    requires
        tokens_of(out) <= cap,
    ensures
        grows(messages_flow(payloads, messages, sources, cap, out, n), cap, out),
    decreases n,
{
    lemma_starts_with(out, Seq::empty());
    if n > 0 {
        lemma_messages_flow_grows(payloads, messages, sources, cap, out, (n - 1) as nat);
        if let Flow::Go(mid) = messages_flow(
            payloads,
            messages,
            sources,
            cap,
            out,
            (n - 1) as nat,
        ) {
            lemma_message_flow_grows(payloads, messages[n - 1], cap, mid);
            lemma_grows_on(message_flow(payloads, messages[n - 1], cap, mid), cap, out, mid);
        }
    }
}

proof fn lemma_grows_on(flow: Flow, cap: u32, out: Seq<char>, mid: Seq<char>)
    requires
        has_prefix(mid, out),
        grows(flow, cap, mid),
    ensures
        grows(flow, cap, out),
{
    match flow {
        Flow::Go(o) => lemma_prefix_of_prefix(out, mid, o),
        Flow::Stop(o) => lemma_prefix_of_prefix(out, mid, o),
        Flow::Need(_) => {},
    }
}

proof fn lemma_prefix_of_prefix(a: Seq<char>, b: Seq<char>, c: Seq<char>)
    requires
        has_prefix(b, a),
        has_prefix(c, b),
    ensures
        has_prefix(c, a),
{
    assert(c.take(a.len() as int) =~= c.take(b.len() as int).take(a.len() as int));
}

/// What occurs in a text occurs in one that starts with it.
proof fn lemma_occurs_in_longer(a: Seq<char>, b: Seq<char>, pat: Seq<char>)
    requires
        has_prefix(b, a),
        occurs(a, pat),
    ensures
        occurs(b, pat),
{
    let i = choose|i: int| stands_at(a, pat, i);
    assert(b.take(a.len() as int) =~= a);
    assert(b.subrange(i, i + pat.len()) =~= a.subrange(i, i + pat.len()));
    assert(stands_at(b, pat, i));
}

/// An expansion gives messages back whole: where it was not cut off, each
/// message that the summary was made from stands in what was written, word
/// for word.
pub proof fn expanded_messages_are_whole(
    payloads: Seq<(Seq<char>, PayloadView)>,
    messages: Seq<StoredView>,
    sources: Seq<i64>,
    cap: u32,
    out: Seq<char>,
    n: nat,
    i: int,
)
    requires
        tokens_of(out) <= cap,
        n <= messages.len(),
        messages_flow(payloads, messages, sources, cap, out, n) is Go,
        0 <= i < n,
        sources.contains(messages[i].message_id),
    ensures
        occurs(
            messages_flow(payloads, messages, sources, cap, out, n)->Go_0,
            message_block(messages[i]),
        ),
    decreases n,
{
    let m = messages[n - 1];
    let mid = messages_flow(payloads, messages, sources, cap, out, (n - 1) as nat)->Go_0;
    let after = messages_flow(payloads, messages, sources, cap, out, n)->Go_0;
    let block = message_block(m);
    lemma_messages_flow_grows(payloads, messages, sources, cap, out, (n - 1) as nat);
    lemma_message_flow_grows(payloads, m, cap, mid);
    lemma_starts_with(mid, Seq::empty());
    if i == n - 1 {
        assert((mid + block).subrange(mid.len() as int, (mid.len() + block.len()) as int) =~= block);
        assert(stands_at(mid + block, block, mid.len() as int));
        lemma_occurs_in_longer(mid + block, after, block);
    } else {
        expanded_messages_are_whole(payloads, messages, sources, cap, out, (n - 1) as nat, i);
        lemma_occurs_in_longer(mid, after, message_block(messages[i]));
    }
}

// ── The walk ────────────────────────────────────────────────────────

/// Where an expansion stands: what was written, the summaries still to be
/// shown with their levels, the last one first, and those that were met.
pub struct Walk {
    pub out: Seq<char>,
    pub frontier: Seq<(Seq<char>, nat)>,
    pub seen: Seq<Seq<char>>,
}

/// How a step of an expansion ended.
pub enum Stride {
    Next(Walk),
    /// What was written, and the notice behind it, empty where nothing was
    /// cut off.
    Done { text: Seq<char>, notice: Seq<char> },
    Need(Seq<char>),
    /// A summary that is linked to is not there.
    Lost(Seq<char>),
}

/// A summary written out.
pub open spec fn node_text(s: SummaryView, id: Seq<char>, level: nat) -> Seq<char> {
    "## "@ + id + " (kind="@ + s.kind + ", depth="@ + signed_decimal(s.depth as int) + ", level="@
        + decimal(level) + ")\n"@ + s.content + "\n\n"@
}

/// The notice where summaries are left out.
pub open spec fn frontier_note(cap: u32, left: nat) -> Seq<char> {
    "[truncated at token_cap="@ + decimal(cap as nat) + "; remaining frontier: "@ + decimal(left)
        + " node(s)]\n"@
}

/// The frontier and what was met, with the first `n` of some summaries added
/// where they are new.
pub open spec fn met(
    frontier: Seq<(Seq<char>, nat)>,
    seen: Seq<Seq<char>>,
    children: Seq<Seq<char>>,
    level: nat,
    n: nat,
) -> (Seq<(Seq<char>, nat)>, Seq<Seq<char>>)
    decreases n,
{
    if n == 0 {
        (frontier, seen)
    } else {
        let (f, s) = met(frontier, seen, children, level, (n - 1) as nat);
        let child = children[n - 1];
        if s.contains(child) {
            (f, s)
        } else {
            (f.push((child, level)), s.push(child))
        }
    }
}

/// Whether the messages of a summary are written with it.
pub open spec fn shows_messages(plan: ExpandPlan, s: SummaryView, level: nat) -> bool {
    plan.include_messages && s.kind == "leaf"@ && level < plan.depth
}

/// One step of an expansion: the last summary of the frontier is written out,
/// and what it was made from is looked at, messages at once and summaries in
/// later steps.
pub open spec fn stride(
    v: ConversationView,
    plan: ExpandPlan,
    payloads: Seq<(Seq<char>, PayloadView)>,
    w: Walk,
) -> Stride {
    if w.frontier.len() == 0 {
        Stride::Done { text: w.out, notice: Seq::empty() }
    } else {
        let (id, level) = w.frontier.last();
        let rest = w.frontier.drop_last();
        match summary_with(v.summaries, id) {
            None => Stride::Lost(id),
            Some(s) => if !fits(plan.cap, w.out, node_text(s, id, level)) {
                Stride::Done { text: w.out, notice: frontier_note(plan.cap, w.frontier.len()) }
            } else {
                let out = w.out + node_text(s, id, level);
                if shows_messages(plan, s, level) {
                    match messages_flow(
                        payloads,
                        v.messages,
                        s.source_messages,
                        plan.cap,
                        out,
                        v.messages.len(),
                    ) {
                        Flow::Go(out) => Stride::Next(Walk { out, frontier: rest, seen: w.seen }),
                        Flow::Stop(out) => Stride::Done { text: out, notice: cut_note(plan.cap) },
                        Flow::Need(id) => Stride::Need(id),
                    }
                } else if level >= plan.depth || s.kind == "leaf"@ {
                    Stride::Next(Walk { out, frontier: rest, seen: w.seen })
                } else {
                    let children = sorted_texts(s.children);
                    let (frontier, seen) = met(
                        rest,
                        w.seen,
                        children,
                        level + 1,
                        children.len(),
                    );
                    Stride::Next(Walk { out, frontier, seen })
                }
            },
        }
    }
}

/// Where an expansion starts.
pub open spec fn start_at(id: Seq<char>) -> Walk {
    Walk { out: Seq::empty(), frontier: seq![(id, 0nat)], seen: seq![id] }
}

/// Where an expansion stands after `n` steps; `None` where it ended before.
pub open spec fn walk_at(
    v: ConversationView,
    plan: ExpandPlan,
    payloads: Seq<(Seq<char>, PayloadView)>,
    id: Seq<char>,
    n: nat,
) -> Option<Walk>
    decreases n,
{
    if n == 0 {
        Some(start_at(id))
    } else {
        match walk_at(v, plan, payloads, id, (n - 1) as nat) {
            Some(w) => match stride(v, plan, payloads, w) {
                Stride::Next(next) => Some(next),
                _ => None,
            },
            None => None,
        }
    }
}

// ── What holds of every expansion ───────────────────────────────────

/// Whether the summary `parent` was made from `x`.
pub open spec fn is_child(v: ConversationView, parent: Seq<char>, x: Seq<char>) -> bool {
    summary_with(v.summaries, parent) matches Some(s) && s.children.contains(x)
}

/// Whether `x` lies `level` steps below the summary `root`.
pub open spec fn lies_below(
    v: ConversationView,
    root: Seq<char>,
    x: Seq<char>,
    level: nat,
) -> bool
    decreases level,
{
    if level == 0 {
        x == root
    } else {
        exists|parent: Seq<char>| #[trigger]
            is_child(v, parent, x) && lies_below(v, root, parent, (level - 1) as nat)
    }
}

/// Whether the frontier holds each summary once, all of them met before, none
/// deeper than asked and each as deep as its level says.
spec fn is_sound(v: ConversationView, plan: ExpandPlan, root: Seq<char>, w: Walk) -> bool {
    &&& forall|i: int|
        0 <= i < w.frontier.len() ==> w.seen.contains((#[trigger] w.frontier[i]).0)
            && w.frontier[i].1 <= plan.depth && lies_below(
            v,
            root,
            w.frontier[i].0,
            w.frontier[i].1,
        )
    &&& forall|i: int, j: int|
        0 <= i < j < w.frontier.len() ==> (#[trigger] w.frontier[i]).0 != (
        #[trigger] w.frontier[j]).0
}

/// Whether a summary was met, and is not waiting to be shown.
spec fn is_behind(w: Walk, x: Seq<char>) -> bool {
    w.seen.contains(x) && forall|i: int|
        0 <= i < w.frontier.len() ==> (#[trigger] w.frontier[i]).0 != x
}

proof fn lemma_met_is_sound(
    v: ConversationView,
    plan: ExpandPlan,
    root: Seq<char>,
    w: Walk,
    children: Seq<Seq<char>>,
    level: nat,
    n: nat,
)
    requires
        is_sound(v, plan, root, w),
        level <= plan.depth,
        n <= children.len(),
        forall|i: int| 0 <= i < children.len() ==> lies_below(v, root, #[trigger] children[i], level),
    ensures
        ({
            let (f, s) = met(w.frontier, w.seen, children, level, n);
            let next = Walk { out: w.out, frontier: f, seen: s };
            &&& is_sound(v, plan, root, next)
            &&& forall|x: Seq<char>| is_behind(w, x) ==> is_behind(next, x)
        }),
    decreases n,
{
    if n > 0 {
        lemma_met_is_sound(v, plan, root, w, children, level, (n - 1) as nat);
        let (f, s) = met(w.frontier, w.seen, children, level, (n - 1) as nat);
        let child = children[n - 1];
        if !s.contains(child) {
            let prev = Walk { out: w.out, frontier: f, seen: s };
            let next = Walk { out: w.out, frontier: f.push((child, level)), seen: s.push(child) };
            assert(next.seen[s.len() as int] == child);
            assert forall|x: Seq<char>| s.contains(x) implies next.seen.contains(x) by {
                let k = choose|k: int| 0 <= k < s.len() && s[k] == x;
                assert(next.seen[k] == x);
            }
            assert(is_sound(v, plan, root, next)) by {
                assert forall|i: int| 0 <= i < next.frontier.len() implies next.seen.contains(
                    (#[trigger] next.frontier[i]).0,
                ) && next.frontier[i].1 <= plan.depth && lies_below(
                    v,
                    root,
                    next.frontier[i].0,
                    next.frontier[i].1,
                ) by {
                    if i < f.len() {
                        assert(next.frontier[i] == prev.frontier[i]);
                        assert(s.contains(f[i].0));
                    }
                }
                assert forall|i: int, j: int| 0 <= i < j < next.frontier.len() implies (
                #[trigger] next.frontier[i]).0 != (#[trigger] next.frontier[j]).0 by {
                    assert(next.frontier[i] == prev.frontier[i]);
                    assert(s.contains(f[i].0));
                    if j < f.len() {
                        assert(next.frontier[j] == prev.frontier[j]);
                    }
                }
            }
            assert forall|x: Seq<char>| is_behind(w, x) implies is_behind(next, x) by {
                assert(is_behind(prev, x));
                assert forall|i: int| 0 <= i < next.frontier.len() implies (
                #[trigger] next.frontier[i]).0 != x by {
                    if i < f.len() {
                        assert(next.frontier[i] == prev.frontier[i]);
                    }
                }
            }
        }
    }
}

/// A step keeps the frontier sound; what was behind stays behind, and so is
/// what the step wrote.
proof fn lemma_stride_is_sound(
    v: ConversationView,
    plan: ExpandPlan,
    payloads: Seq<(Seq<char>, PayloadView)>,
    root: Seq<char>,
    w: Walk,
)
    requires
        is_sound(v, plan, root, w),
        stride(v, plan, payloads, w) is Next,
    ensures
        is_sound(v, plan, root, stride(v, plan, payloads, w)->Next_0),
        is_behind(stride(v, plan, payloads, w)->Next_0, w.frontier.last().0),
        forall|x: Seq<char>|
            is_behind(w, x) ==> is_behind(stride(v, plan, payloads, w)->Next_0, x),
{
    let (id, level) = w.frontier.last();
    let s = summary_with(v.summaries, id)->0;
    let rest = w.frontier.drop_last();
    let popped = Walk { out: w.out, frontier: rest, seen: w.seen };
    let next = stride(v, plan, payloads, w)->Next_0;
    assert(w.frontier[w.frontier.len() - 1] == (id, level));
    assert forall|i: int| 0 <= i < rest.len() implies #[trigger] rest[i] == w.frontier[i] by {}
    assert(is_sound(v, plan, root, popped)) by {
        assert forall|i: int| 0 <= i < rest.len() implies w.seen.contains((#[trigger] rest[i]).0)
            && rest[i].1 <= plan.depth && lies_below(v, root, rest[i].0, rest[i].1) by {
            assert(rest[i] == w.frontier[i]);
        }
        assert forall|i: int, j: int| 0 <= i < j < rest.len() implies (#[trigger] rest[i]).0 != (
        #[trigger] rest[j]).0 by {
            assert(rest[i] == w.frontier[i] && rest[j] == w.frontier[j]);
        }
    }
    assert(is_behind(popped, id));
    assert forall|x: Seq<char>| is_behind(w, x) implies is_behind(popped, x) by {
        assert forall|i: int| 0 <= i < rest.len() implies (#[trigger] rest[i]).0 != x by {
            assert(rest[i] == w.frontier[i]);
        }
    }
    if level < plan.depth && s.kind != "leaf"@ {
        let children = sorted_texts(s.children);
        assert forall|i: int| 0 <= i < children.len() implies lies_below(
            v,
            root,
            #[trigger] children[i],
            level + 1,
        ) by {
            lemma_sorted_texts_holds(s.children, children[i]);
            let down: nat = level + 1;
            assert(is_child(v, id, children[i]));
            assert(lies_below(v, root, id, (down - 1) as nat));
            assert(lies_below(v, root, children[i], down));
        }
        lemma_met_is_sound(v, plan, root, popped, children, level + 1, children.len());
        let (f, seen) = met(rest, w.seen, children, level + 1, children.len());
        let after = Walk { out: w.out, frontier: f, seen };
        assert(next.frontier == f && next.seen == seen);
        assert forall|x: Seq<char>| is_behind(w, x) || x == id implies is_behind(next, x) by {
            assert(is_behind(popped, x));
            assert(is_behind(after, x));
        }
    } else {
        assert(next.frontier == rest && next.seen == w.seen);
    }
}

proof fn lemma_walk_is_sound(
    v: ConversationView,
    plan: ExpandPlan,
    payloads: Seq<(Seq<char>, PayloadView)>,
    id: Seq<char>,
    n: nat,
)
    requires
        walk_at(v, plan, payloads, id, n) is Some,
    ensures
        is_sound(v, plan, id, walk_at(v, plan, payloads, id, n)->0),
    decreases n,
{
    if n == 0 {
        let w = start_at(id);
        assert(w.seen[0] == id);
    } else {
        lemma_walk_is_sound(v, plan, payloads, id, (n - 1) as nat);
        lemma_stride_is_sound(
            v,
            plan,
            payloads,
            id,
            walk_at(v, plan, payloads, id, (n - 1) as nat)->0,
        );
    }
}

/// The summary of a step is behind at every later one.
proof fn lemma_stays_behind(
    v: ConversationView,
    plan: ExpandPlan,
    payloads: Seq<(Seq<char>, PayloadView)>,
    id: Seq<char>,
    i: nat,
    j: nat,
)
    requires
        i < j,
        walk_at(v, plan, payloads, id, j) is Some,
    ensures
        walk_at(v, plan, payloads, id, i) is Some,
        is_behind(
            walk_at(v, plan, payloads, id, j)->0,
            walk_at(v, plan, payloads, id, i)->0.frontier.last().0,
        ),
    decreases j,
{
    let before = (j - 1) as nat;
    let w = walk_at(v, plan, payloads, id, before)->0;
    lemma_walk_is_sound(v, plan, payloads, id, before);
    lemma_stride_is_sound(v, plan, payloads, id, w);
    if i < before {
        lemma_stays_behind(v, plan, payloads, id, i, before);
    }
}

/// An expansion writes each summary at most once: each step writes the last
/// one of its frontier, and no two steps have the same one there.
pub proof fn summaries_are_written_once(
    v: ConversationView,
    plan: ExpandPlan,
    payloads: Seq<(Seq<char>, PayloadView)>,
    id: Seq<char>,
    i: nat,
    j: nat,
)
    requires
        i < j,
        walk_at(v, plan, payloads, id, j) is Some,
        walk_at(v, plan, payloads, id, j)->0.frontier.len() > 0,
    ensures
        walk_at(v, plan, payloads, id, i) is Some,
        walk_at(v, plan, payloads, id, i)->0.frontier.last().0 != walk_at(
            v,
            plan,
            payloads,
            id,
            j,
        )->0.frontier.last().0,
{
    lemma_stays_behind(v, plan, payloads, id, i, j);
    let w = walk_at(v, plan, payloads, id, j)->0;
    assert(w.frontier[w.frontier.len() - 1] == w.frontier.last());
}

/// No summary that an expansion writes lies deeper below the first one than
/// asked for, and each lies as deep as its heading says.
pub proof fn summaries_are_within_the_depth(
    v: ConversationView,
    plan: ExpandPlan,
    payloads: Seq<(Seq<char>, PayloadView)>,
    id: Seq<char>,
    n: nat,
)
    requires
        walk_at(v, plan, payloads, id, n) is Some,
        walk_at(v, plan, payloads, id, n)->0.frontier.len() > 0,
    ensures
        ({
            let (x, level) = walk_at(v, plan, payloads, id, n)->0.frontier.last();
            level <= plan.depth && lies_below(v, id, x, level)
        }),
{
    lemma_walk_is_sound(v, plan, payloads, id, n);
    let w = walk_at(v, plan, payloads, id, n)->0;
    assert(w.frontier[w.frontier.len() - 1] == w.frontier.last());
}

/// Messages are written only where they were asked for, and only with a leaf
/// that lies less deep than asked: any other step writes the text of its
/// summary and nothing else, or nothing at all.
pub proof fn messages_are_written_where_asked(
    v: ConversationView,
    plan: ExpandPlan,
    payloads: Seq<(Seq<char>, PayloadView)>,
    w: Walk,
)
    requires
        w.frontier.len() > 0,
        !(summary_with(v.summaries, w.frontier.last().0) matches Some(s) && shows_messages(
            plan,
            s,
            w.frontier.last().1,
        )),
    ensures
        match stride(v, plan, payloads, w) {
            Stride::Next(next) => summary_with(v.summaries, w.frontier.last().0) matches Some(s)
                && next.out == w.out + node_text(s, w.frontier.last().0, w.frontier.last().1),
            Stride::Done { text, .. } => text == w.out,
            Stride::Need(_) => false,
            Stride::Lost(x) => summary_with(v.summaries, x) is None,
        },
{
}

proof fn lemma_walk_is_capped(
    v: ConversationView,
    plan: ExpandPlan,
    payloads: Seq<(Seq<char>, PayloadView)>,
    id: Seq<char>,
    n: nat,
)
    requires
        walk_at(v, plan, payloads, id, n) is Some,
    ensures
        tokens_of(walk_at(v, plan, payloads, id, n)->0.out) <= plan.cap,
    decreases n,
{
    if n > 0 {
        lemma_walk_is_capped(v, plan, payloads, id, (n - 1) as nat);
        let w = walk_at(v, plan, payloads, id, (n - 1) as nat)->0;
        let (x, level) = w.frontier.last();
        let s = summary_with(v.summaries, x)->0;
        lemma_messages_flow_grows(
            payloads,
            v.messages,
            s.source_messages,
            plan.cap,
            w.out + node_text(s, x, level),
            v.messages.len(),
        );
    }
}

/// Whether `notice` is what stands behind a response that was cut off, or
/// nothing.
pub open spec fn is_notice(cap: u32, notice: Seq<char>) -> bool {
    notice == Seq::<char>::empty() || notice == cut_note(cap) || exists|left: nat|
        notice == #[trigger] frontier_note(cap, left)
}

/// An expansion keeps to its cap: whatever it ends with, the tokens of what
/// was written, but for the notice that it was cut off, are within it.
pub proof fn expansion_is_capped(
    v: ConversationView,
    plan: ExpandPlan,
    payloads: Seq<(Seq<char>, PayloadView)>,
    id: Seq<char>,
    n: nat,
)
    requires
        walk_at(v, plan, payloads, id, n) is Some,
    ensures
        stride(v, plan, payloads, walk_at(v, plan, payloads, id, n)->0) matches Stride::Done {
            text,
            notice,
        } ==> tokens_of(text) <= plan.cap && is_notice(plan.cap, notice),
{
    lemma_walk_is_capped(v, plan, payloads, id, n);
    let w = walk_at(v, plan, payloads, id, n)->0;
    if w.frontier.len() > 0 {
        let (x, level) = w.frontier.last();
        if let Some(s) = summary_with(v.summaries, x) {
            if fits(plan.cap, w.out, node_text(s, x, level)) {
                lemma_messages_flow_grows(
                    payloads,
                    v.messages,
                    s.source_messages,
                    plan.cap,
                    w.out + node_text(s, x, level),
                    v.messages.len(),
                );
            }
        }
    }
}

/// What an expansion comes to.
pub enum Expansion {
    Done(String),
    /// The payload with this id has to be read before going on.
    Read(String),
    /// A summary that is linked to is not there.
    Lost(String),
}

// ── Writing ─────────────────────────────────────────────────────────

/// The payload with an id.
fn find_payload<'a>(payloads: &'a Vec<(String, Payload)>, id: &str) -> (r: Option<&'a Payload>)
    ensures
        match r {
            Some(p) => payload_with(payload_views(payloads@), id@) == Some(p@),
            None => payload_with(payload_views(payloads@), id@) is None,
        },
{
    let ghost all = payload_views(payloads@);
    let mut i: usize = payloads.len();
    assert(all.take(i as int) =~= all);
    while i > 0
        invariant
            i <= payloads@.len(),
            all == payload_views(payloads@),
            payload_with(all, id@) == payload_with(all.take(i as int), id@),
        decreases i,
    {
        i -= 1;
        assert(all.take(i + 1).drop_last() =~= all.take(i as int));
        assert(all.take(i + 1).last() == (payloads@[i as int].0@, payloads@[i as int].1@));
        if same(payloads[i].0.as_str(), id) {
            return Some(&payloads[i].1);
        }
    }
    None
}

/// How writing went on.
enum Written {
    Go,
    Stop,
    Need(String),
}

/// Whether what was written is what a flow says.
spec fn follows(flow: Flow, w: Written, out: Seq<char>) -> bool {
    match (flow, w) {
        (Flow::Go(o), Written::Go) => o == out,
        (Flow::Stop(o), Written::Stop) => o == out,
        (Flow::Need(id), Written::Need(s)) => id == s@,
        _ => false,
    }
}

/// Bytes that may still be written within the cap.
fn room(out: &String, cap: u32) -> (left: u64)
    ensures
        left == bytes_left(cap, out@),
{
    let limit: u64 = cap as u64 * 4 + 3;
    let size: u64 = byte_len(out.as_str()) as u64;
    if size <= limit {
        limit - size
    } else {
        0
    }
}

/// Writes out `piece` where there is room for it.
fn append_piece(out: &mut String, piece: &str, cap: u32) -> (r: bool)
    requires
        tokens_of(old(out)@) <= cap,
    ensures
        r == fits(cap, old(out)@, piece@),
        final(out)@ == if r {
            old(out)@ + piece@
        } else {
            old(out)@
        },
{
    proof {
        lemma_utf8_len_concat(out@, piece@);
    }
    if byte_len(piece) as u64 <= room(out, cap) {
        out.append(piece);
        true
    } else {
        false
    }
}

/// Writes out a payload: all of it where it fits, else its start, so that the
/// model still sees the head of the file.
fn append_payload(out: &mut String, payloads: &Vec<(String, Payload)>, id: &str, cap: u32) -> (r:
    Written)
    requires
        tokens_of(old(out)@) <= cap,
    ensures
        follows(
            payload_flow(payload_with(payload_views(payloads@), id@), id@, cap, old(out)@),
            r,
            final(out)@,
        ),
{
    match find_payload(payloads, id) {
        None => Written::Need(id.to_owned()),
        Some(Payload::Missing(error)) => {
            let mut block = "### ".to_owned();
            block.append(id);
            block.append(": payload unavailable (");
            block.append(error.as_str());
            block.append(")\n\n");
            assert(block@ =~= missing_block(id@, error@));
            if append_piece(out, block.as_str(), cap) {
                Written::Go
            } else {
                Written::Stop
            }
        },
        Some(Payload::Found(text)) => {
            let mut block = "### ".to_owned();
            block.append(id);
            block.append(" (externalized payload)\n");
            block.append(text.as_str());
            block.append("\n\n");
            assert(block@ =~= payload_block(id@, text@));
            if append_piece(out, block.as_str(), cap) {
                return Written::Go;
            }
            let size: usize = byte_len(text.as_str());
            let left: u64 = room(out, cap);
            let mut widest = write_head_line(id, size, size);
            widest.append("\n");
            let frame: u64 = byte_len(widest.as_str()) as u64;
            assert(frame == head_frame(id@, size as nat));
            if frame <= left {
                let max: usize = if left - frame < size as u64 {
                    (left - frame) as usize
                } else {
                    size
                };
                proof {
                    lemma_prefix_of(text@, max as nat);
                    lemma_prefix_of(text@, (left - frame) as nat);
                }
                let kept = prefix(text.as_str(), max);
                let ghost before = out@;
                let line = write_head_line(id, byte_len(kept.as_str()), size);
                out.append(line.as_str());
                out.append(kept.as_str());
                out.append("\n");
                assert(out@ =~= before + head_block(id@, kept@, size as nat));
            }
            Written::Stop
        },
    }
}

/// The heading of the first `n` bytes of a payload.
fn write_head_line(id: &str, n: usize, size: usize) -> (line: String)
    ensures
        line@ == head_line(id@, n as nat, size as nat),
{
    let mut line = "### ".to_owned();
    line.append(id);
    line.append(" (externalized payload, first ");
    push_usize(&mut line, n);
    line.append(" of ");
    push_usize(&mut line, size);
    line.append(" bytes)\n");
    assert(line@ =~= head_line(id@, n as nat, size as nat));
    line
}

/// Writes out some payloads.
fn append_files(
    out: &mut String,
    payloads: &Vec<(String, Payload)>,
    ids: &Vec<String>,
    cap: u32,
) -> (r: Written)
    requires
        tokens_of(old(out)@) <= cap,
    ensures
        follows(
            files_flow(payload_views(payloads@), views(ids@), cap, old(out)@, ids@.len()),
            r,
            final(out)@,
        ),
{
    let ghost before = out@;
    let ghost pv = payload_views(payloads@);
    let ghost all = views(ids@);
    let n: usize = ids.len();
    let mut i: usize = 0;
    while i < n
        invariant
            i <= n,
            n == ids@.len(),
            pv == payload_views(payloads@),
            all == views(ids@),
            before == old(out)@,
            tokens_of(before) <= cap,
            files_flow(pv, all, cap, before, i as nat) == Flow::Go(out@),
        decreases n - i,
    {
        assert(all[i as int] == ids@[i as int]@);
        proof {
            lemma_files_flow_grows(pv, all, cap, before, i as nat);
        }
        let step = append_payload(out, payloads, ids[i].as_str(), cap);
        if !matches!(step, Written::Go) {
            proof {
                lemma_files_end(pv, all, cap, before, (i + 1) as nat, n as nat);
            }
            return step;
        }
        i += 1;
    }
    Written::Go
}

proof fn lemma_files_end(
    payloads: Seq<(Seq<char>, PayloadView)>,
    ids: Seq<Seq<char>>,
    cap: u32,
    out: Seq<char>,
    i: nat,
    n: nat,
)
    requires
        i <= n,
        !(files_flow(payloads, ids, cap, out, i) is Go),
    ensures
        files_flow(payloads, ids, cap, out, n) == files_flow(payloads, ids, cap, out, i),
    decreases n - i,
{
    if i < n {
        lemma_files_end(payloads, ids, cap, out, i, (n - 1) as nat);
    }
}

/// Writes out a message, with the payloads that it refers to.
fn append_message(
    out: &mut String,
    payloads: &Vec<(String, Payload)>,
    m: &StoredMessage,
    cap: u32,
) -> (r: Written)
    requires
        tokens_of(old(out)@) <= cap,
    ensures
        follows(
            message_flow(payload_views(payloads@), m@, cap, old(out)@),
            r,
            final(out)@,
        ),
{
    let mut block = "### message_id=".to_owned();
    push_i64(&mut block, m.message_id);
    block.append(" role=");
    block.append(m.role.as_str());
    block.append("\n");
    block.append(m.content.as_str());
    block.append("\n\n");
    assert(block@ =~= message_block(m@));
    if !append_piece(out, block.as_str(), cap) {
        return Written::Stop;
    }
    let ids = extract_file_ids(m.content.as_str());
    assert(views(ids@).len() == ids@.len());
    append_files(out, payloads, &ids, cap)
}

/// Whether an id is among some.
fn has_id(ids: &Vec<i64>, id: i64) -> (r: bool)
    ensures
        r == ids@.contains(id),
{
    let n: usize = ids.len();
    let mut i: usize = 0;
    while i < n
        invariant
            i <= n,
            n == ids@.len(),
            forall|k: int| 0 <= k < i ==> ids@[k] != id,
        decreases n - i,
    {
        if ids[i] == id {
            return true;
        }
        i += 1;
    }
    false
}

proof fn lemma_messages_end(
    payloads: Seq<(Seq<char>, PayloadView)>,
    messages: Seq<StoredView>,
    sources: Seq<i64>,
    cap: u32,
    out: Seq<char>,
    i: nat,
    n: nat,
)
    requires
        i <= n,
        !(messages_flow(payloads, messages, sources, cap, out, i) is Go),
    ensures
        messages_flow(payloads, messages, sources, cap, out, n) == messages_flow(
            payloads,
            messages,
            sources,
            cap,
            out,
            i,
        ),
    decreases n - i,
{
    if i < n {
        lemma_messages_end(payloads, messages, sources, cap, out, i, (n - 1) as nat);
    }
}

/// Writes out the messages that a summary was made from, in order.
fn append_messages(
    out: &mut String,
    c: &Conversation,
    payloads: &Vec<(String, Payload)>,
    sources: &Vec<i64>,
    cap: u32,
) -> (r: Written)
    requires
        tokens_of(old(out)@) <= cap,
    ensures
        follows(
            messages_flow(
                payload_views(payloads@),
                c@.messages,
                sources@,
                cap,
                old(out)@,
                c@.messages.len(),
            ),
            r,
            final(out)@,
        ),
{
    let ghost before = out@;
    let ghost pv = payload_views(payloads@);
    let ghost all = c@.messages;
    let n: usize = c.message_count();
    let mut i: usize = 0;
    while i < n
        invariant
            i <= n,
            n == c@.messages.len(),
            all == c@.messages,
            pv == payload_views(payloads@),
            before == old(out)@,
            tokens_of(before) <= cap,
            messages_flow(pv, all, sources@, cap, before, i as nat) == Flow::Go(out@),
        decreases n - i,
    {
        let m = c.message(i);
        if has_id(sources, m.message_id) {
            proof {
                lemma_messages_flow_grows(pv, all, sources@, cap, before, i as nat);
            }
            let step = append_message(out, payloads, m, cap);
            if !matches!(step, Written::Go) {
                proof {
                    lemma_messages_end(
                        pv,
                        all,
                        sources@,
                        cap,
                        before,
                        (i + 1) as nat,
                        n as nat,
                    );
                }
                return step;
            }
        }
        i += 1;
    }
    Written::Go
}

// ── Going through the summaries ─────────────────────────────────────

/// The view of a frontier.
spec fn frontier_views(f: Seq<(String, u32)>) -> Seq<(Seq<char>, nat)> {
    f.map_values(|p: (String, u32)| (p.0@, p.1 as nat))
}

/// Adds those of some summaries that were not met before.
fn meet(frontier: &mut Vec<(String, u32)>, seen: &mut Vec<String>, children: &Vec<String>, level: u32)
    ensures
        (frontier_views(final(frontier)@), views(final(seen)@)) == met(
            frontier_views(old(frontier)@),
            views(old(seen)@),
            views(children@),
            level as nat,
            children@.len(),
        ),
{
    let ghost f0 = frontier_views(frontier@);
    let ghost s0 = views(seen@);
    let ghost all = views(children@);
    let n: usize = children.len();
    let mut i: usize = 0;
    while i < n
        invariant
            i <= n,
            n == children@.len(),
            all == views(children@),
            (frontier_views(frontier@), views(seen@)) == met(f0, s0, all, level as nat, i as nat),
        decreases n - i,
    {
        assert(all[i as int] == children@[i as int]@);
        if !among(seen, children[i].as_str()) {
            let ghost f1 = frontier@;
            let ghost s1 = seen@;
            let child = children[i].clone();
            let copy = children[i].clone();
            frontier.push((child, level));
            seen.push(copy);
            proof {
                lemma_views_push(s1, copy);
                assert(frontier_views(frontier@) =~= frontier_views(f1).push(
                    (child@, level as nat),
                ));
            }
        }
        i += 1;
    }
}

/// The children of all summaries, one list after the other.
spec fn all_children(summaries: Seq<SummaryView>) -> Seq<Seq<char>>
    decreases summaries.len(),
{
    if summaries.len() == 0 {
        Seq::empty()
    } else {
        all_children(summaries.drop_last()) + sorted_texts(summaries.last().children)
    }
}

proof fn lemma_children_are_listed(summaries: Seq<SummaryView>, id: Seq<char>, child: Seq<char>)
    requires
        summary_with(summaries, id) matches Some(s) && sorted_texts(s.children).contains(child),
    ensures
        all_children(summaries).contains(child),
    decreases summaries.len(),
{
    let rest = all_children(summaries.drop_last());
    let own = sorted_texts(summaries.last().children);
    if summaries.last().summary_id == id {
        let k = choose|k: int| 0 <= k < own.len() && own[k] == child;
        assert(all_children(summaries)[rest.len() + k] == child);
    } else {
        lemma_children_are_listed(summaries.drop_last(), id, child);
        let k = choose|k: int| 0 <= k < rest.len() && rest[k] == child;
        assert(all_children(summaries)[k] == child);
    }
}

/// Distinct texts that all stand in a list are no more than the list has.
proof fn lemma_no_more_than(seen: Seq<Seq<char>>, list: Seq<Seq<char>>)
    requires
        seen.no_duplicates(),
        forall|x: Seq<char>| seen.contains(x) ==> #[trigger] list.contains(x),
    ensures
        seen.len() <= list.len(),
{
    seen.unique_seq_to_set();
    list.lemma_cardinality_of_set();
    assert forall|x: Seq<char>| seen.to_set().contains(x) implies list.to_set().contains(x) by {
        assert(seen.contains(x));
    }
    vstd::set_lib::lemma_len_subset(seen.to_set(), list.to_set());
}

/// What was met stays distinct, and grows as the frontier does.
proof fn lemma_met(
    frontier: Seq<(Seq<char>, nat)>,
    seen: Seq<Seq<char>>,
    children: Seq<Seq<char>>,
    level: nat,
    n: nat,
    list: Seq<Seq<char>>,
)
    requires
        n <= children.len(),
        seen.no_duplicates(),
        forall|x: Seq<char>| seen.contains(x) ==> #[trigger] list.contains(x),
        forall|x: Seq<char>| children.contains(x) ==> #[trigger] list.contains(x),
    ensures
        ({
            let (f, s) = met(frontier, seen, children, level, n);
            &&& s.no_duplicates()
            &&& forall|x: Seq<char>| s.contains(x) ==> #[trigger] list.contains(x)
            &&& s.len() - f.len() == seen.len() - frontier.len()
        }),
    decreases n,
{
    if n > 0 {
        lemma_met(frontier, seen, children, level, (n - 1) as nat, list);
        let (f, s) = met(frontier, seen, children, level, (n - 1) as nat);
        let child = children[n - 1];
        assert(children.contains(child));
        if !s.contains(child) {
            let more = s.push(child);
            assert forall|x: Seq<char>| more.contains(x) implies #[trigger] list.contains(x) by {
                let k = choose|k: int| 0 <= k < more.len() && more[k] == x;
                if k < s.len() {
                    assert(s[k] == x);
                    assert(s.contains(x));
                }
            }
            assert(more.no_duplicates()) by {
                assert forall|i: int, j: int| 0 <= i < more.len() && 0 <= j < more.len() && i != j
                    implies more[i] != more[j] by {
                    if i < s.len() {
                        assert(s.contains(s[i]));
                    }
                    if j < s.len() {
                        assert(s.contains(s[j]));
                    }
                }
            }
        }
    }
}

/// Whether an expansion comes to what a step ends in.
pub open spec fn comes_to(end: Stride, r: Expansion) -> bool {
    match (end, r) {
        (Stride::Done { text, notice }, Expansion::Done(out)) => text + notice == out@,
        (Stride::Need(id), Expansion::Read(name)) => id == name@,
        (Stride::Lost(id), Expansion::Lost(name)) => id == name@,
        _ => false,
    }
}

/// Whether an expansion from a summary comes to `r` in its step `n`.
pub open spec fn ends_in(
    v: ConversationView,
    plan: ExpandPlan,
    payloads: Seq<(Seq<char>, PayloadView)>,
    id: Seq<char>,
    n: nat,
    r: Expansion,
) -> bool {
    match walk_at(v, plan, payloads, id, n) {
        Some(w) => comes_to(stride(v, plan, payloads, w), r),
        None => false,
    }
}

/// Whether an expansion from a summary comes to `r`.
pub open spec fn expands_to(
    v: ConversationView,
    plan: ExpandPlan,
    payloads: Seq<(Seq<char>, PayloadView)>,
    id: Seq<char>,
    r: Expansion,
) -> bool {
    exists|n: nat| #[trigger] ends_in(v, plan, payloads, id, n, r)
}

/// Whether a response is within the cap, but for the notice behind it.
pub open spec fn is_capped(cap: u32, text: Seq<char>, notice: Seq<char>, out: Seq<char>) -> bool {
    out == text + notice && tokens_of(text) <= cap && is_notice(cap, notice)
}

/// Expands a summary of a conversation: the summary, what it was made from,
/// and so on down to a depth, until the token cap is reached. Where a payload
/// is needed that was not read yet, its id comes back, and the expansion is
/// asked for again with it. A summary is shown once, so the walk ends.
pub fn expand(
    c: &Conversation,
    id: &str,
    plan: ExpandPlan,
    payloads: &Vec<(String, Payload)>,
) -> (r: Expansion)
    ensures
        summary_with(c@.summaries, id@) is None ==> (r matches Expansion::Done(text) && text@
            == "No summary with id "@ + quoted(id@) + " in the active session."@),
        summary_with(c@.summaries, id@) is Some ==> expands_to(
            c@,
            plan,
            payload_views(payloads@),
            id@,
            r,
        ),
        summary_with(c@.summaries, id@) is Some ==> (r matches Expansion::Done(out) ==> exists|
            text: Seq<char>,
            notice: Seq<char>,
        | #[trigger] is_capped(plan.cap, text, notice, out@)),
{
    if c.find(id).is_none() {
        let mut text = "No summary with id ".to_owned();
        text.append(quote(id).as_str());
        text.append(" in the active session.");
        return Expansion::Done(text);
    }
    let ghost v = c@;
    let ghost pv = payload_views(payloads@);
    let ghost list = seq![id@] + all_children(v.summaries);
    let mut out = String::new();
    let mut frontier: Vec<(String, u32)> = Vec::new();
    let mut seen: Vec<String> = Vec::new();
    frontier.push((id.to_owned(), 0));
    seen.push(id.to_owned());
    let ghost mut w = start_at(id@);
    let ghost mut k: nat = 0;
    proof {
        assert(frontier_views(frontier@) =~= w.frontier);
        assert(views(seen@) =~= w.seen);
        assert(out@ =~= w.out);
        assert(list[0] == id@);
        assert forall|x: Seq<char>| w.seen.contains(x) implies #[trigger] list.contains(x) by {
            assert(x == id@);
            assert(list.contains(list[0]));
        }
        lemma_no_more_than(w.seen, list);
    }
    while frontier.len() > 0
        invariant
            v == c@,
            summary_with(v.summaries, id@) is Some,
            pv == payload_views(payloads@),
            list == seq![id@] + all_children(v.summaries),
            w.out == out@,
            w.frontier == frontier_views(frontier@),
            w.seen == views(seen@),
            w.seen.no_duplicates(),
            forall|x: Seq<char>| w.seen.contains(x) ==> #[trigger] list.contains(x),
            w.seen.len() <= list.len(),
            w.frontier.len() <= w.seen.len(),
            walk_at(v, plan, pv, id@, k) == Some(w),
        decreases list.len() - (w.seen.len() - w.frontier.len()),
    {
        let ghost before = w;
        let n: usize = frontier.len();
        let ghost f0 = frontier@;
        assert(frontier_views(f0)[n - 1] == (f0[n - 1].0@, f0[n - 1].1 as nat));
        let (node, level) = match frontier.pop() {
            Some(p) => p,
            None => {
                return Expansion::Done(out);
            },
        };
        let ghost rest = frontier_views(frontier@);
        proof {
            assert(rest =~= before.frontier.drop_last());
            assert(before.frontier.last() == (node@, level as nat));
            lemma_walk_is_capped(v, plan, pv, id@, k);
            expansion_is_capped(v, plan, pv, id@, k);
        }
        let s = match c.find(node.as_str()) {
            None => {
                assert(ends_in(v, plan, pv, id@, k, Expansion::Lost(node)));
                return Expansion::Lost(node);
            },
            Some(s) => s,
        };
        let mut chunk = "## ".to_owned();
        chunk.append(node.as_str());
        chunk.append(" (kind=");
        chunk.append(s.kind.as_str());
        chunk.append(", depth=");
        push_i64(&mut chunk, s.depth);
        chunk.append(", level=");
        push_decimal(&mut chunk, level as u64);
        chunk.append(")\n");
        chunk.append(s.content.as_str());
        chunk.append("\n\n");
        assert(chunk@ =~= node_text(s@, node@, level as nat));
        if !append_piece(&mut out, chunk.as_str(), plan.cap) {
            let ghost text = out@;
            out.append("[truncated at token_cap=");
            push_decimal(&mut out, plan.cap as u64);
            out.append("; remaining frontier: ");
            push_usize(&mut out, n);
            out.append(" node(s)]\n");
            let ghost notice = frontier_note(plan.cap, before.frontier.len());
            assert(out@ =~= text + notice);
            assert(is_capped(plan.cap, text, notice, out@));
            assert(ends_in(v, plan, pv, id@, k, Expansion::Done(out)));
            return Expansion::Done(out);
        }
        if level < plan.depth {
            if same(s.kind.as_str(), "leaf") {
                if plan.include_messages {
                    let step = append_messages(
                        &mut out,
                        c,
                        payloads,
                        &s.source_messages,
                        plan.cap,
                    );
                    match step {
                        Written::Go => {},
                        Written::Stop => {
                            let ghost text = out@;
                            out.append("[truncated at token_cap=");
                            push_decimal(&mut out, plan.cap as u64);
                            out.append("]\n");
                            assert(out@ =~= text + cut_note(plan.cap));
                            assert(is_capped(plan.cap, text, cut_note(plan.cap), out@));
                            assert(ends_in(v, plan, pv, id@, k, Expansion::Done(out)));
                            return Expansion::Done(out);
                        },
                        Written::Need(file) => {
                            assert(ends_in(v, plan, pv, id@, k, Expansion::Read(file)));
                            return Expansion::Read(file);
                        },
                    }
                }
            } else {
                let children = sort_texts(&s.children);
                assert(views(children@).len() == children@.len());
                proof {
                    let kids = views(children@);
                    assert forall|x: Seq<char>| kids.contains(x) implies #[trigger] list.contains(
                        x,
                    ) by {
                        lemma_children_are_listed(v.summaries, node@, x);
                        let all = all_children(v.summaries);
                        let j = choose|j: int| 0 <= j < all.len() && all[j] == x;
                        assert(list[j + 1] == x);
                    }
                    lemma_met(rest, before.seen, kids, (level + 1) as nat, kids.len(), list);
                }
                meet(&mut frontier, &mut seen, &children, level + 1);
            }
        }
        proof {
            w = Walk { out: out@, frontier: frontier_views(frontier@), seen: views(seen@) };
            assert(stride(v, plan, pv, before) == Stride::Next(w));
            lemma_no_more_than(w.seen, list);
            k = k + 1;
        }
    }
    proof {
        expansion_is_capped(v, plan, pv, id@, k);
        assert(out@ + Seq::<char>::empty() =~= out@);
        assert(is_capped(plan.cap, out@, Seq::empty(), out@));
        assert(ends_in(v, plan, pv, id@, k, Expansion::Done(out)));
    }
    Expansion::Done(out)
}

// ── What an expansion shows ─────────────────────────────────────────

/// An expansion is done as asked: at least one level, messages only where
/// they were asked for, and a cap of 5000 tokens unless another is given, which
/// is taken up to 20000.
pub proof fn plan_follows_the_arguments(args: ExpandArgs)
    ensures
        args.depth matches Some(d) ==> plan_of(args).depth == if d == 0 {
            1
        } else {
            d as int
        },
        args.depth is None ==> plan_of(args).depth == 1,
        plan_of(args).include_messages <==> args.include_messages == Some(true),
        args.token_cap is None ==> plan_of(args).cap == 5_000,
        args.token_cap matches Some(c) ==> plan_of(args).cap == if c <= 20_000 {
            c as int
        } else {
            20_000
        },
{
}

/// A summary is written with its id and its whole text.
pub proof fn a_written_summary_is_whole(s: SummaryView, id: Seq<char>, level: nat)
    ensures
        has_prefix(node_text(s, id, level), "## "@ + id + " (kind="@ + s.kind),
        has_suffix(node_text(s, id, level), ")\n"@ + s.content + "\n\n"@),
{
    let t = node_text(s, id, level);
    let a = "## "@ + id + " (kind="@ + s.kind;
    let b = ")\n"@ + s.content + "\n\n"@;
    assert(t.take(a.len() as int) =~= a);
    assert(t.skip(t.len() - b.len()) =~= b);
}

/// A message is written with its id, its role and its whole text.
pub proof fn a_written_message_is_whole(m: StoredView)
    ensures
        has_prefix(
            message_block(m),
            "### message_id="@ + signed_decimal(m.message_id as int) + " role="@ + m.role,
        ),
        has_suffix(message_block(m), "\n"@ + m.content + "\n\n"@),
{
    let t = message_block(m);
    let a = "### message_id="@ + signed_decimal(m.message_id as int) + " role="@ + m.role;
    let b = "\n"@ + m.content + "\n\n"@;
    assert(t.take(a.len() as int) =~= a);
    assert(t.skip(t.len() - b.len()) =~= b);
}

/// A payload is asked for only where it was not read yet.
pub proof fn payloads_are_asked_for_once(
    payload: Option<PayloadView>,
    id: Seq<char>,
    cap: u32,
    out: Seq<char>,
)
    ensures
        payload_flow(payload, id, cap, out) is Need <==> payload is None,
        payload is None ==> payload_flow(payload, id, cap, out)->Need_0 == id,
{
}

/// Where writing goes on past a payload that could not be read, its id and the
/// reason were written.
pub proof fn a_missing_payload_is_reported(
    error: Seq<char>,
    id: Seq<char>,
    cap: u32,
    out: Seq<char>,
)
    ensures
        payload_flow(Some(PayloadView::Missing(error)), id, cap, out) matches Flow::Go(o)
            ==> has_prefix(o, out) && occurs(o, error) && occurs(o, id),
        payload_flow(Some(PayloadView::Missing(error)), id, cap, out) matches Flow::Stop(o)
            ==> o == out,
{
    let block = missing_block(id, error);
    lemma_starts_with(out, block);
    lemma_occurs_within(out + "### "@, id, ": payload unavailable ("@ + error + ")\n\n"@);
    lemma_occurs_within(out + "### "@ + id + ": payload unavailable ("@, error, ")\n\n"@);
    assert(out + block =~= out + "### "@ + id + (": payload unavailable ("@ + error + ")\n\n"@));
    assert(out + block =~= out + "### "@ + id + ": payload unavailable ("@ + error + ")\n\n"@);
}

/// Where writing goes on past a payload that was read, its id and all of its
/// text were written.
pub proof fn a_payload_is_written_whole(
    text: Seq<char>,
    id: Seq<char>,
    cap: u32,
    out: Seq<char>,
)
    ensures
        payload_flow(Some(PayloadView::Found(text)), id, cap, out) matches Flow::Go(o)
            ==> has_prefix(o, out) && occurs(o, text) && occurs(o, id),
{
    let block = payload_block(id, text);
    lemma_starts_with(out, block);
    lemma_occurs_within(out + "### "@, id, " (externalized payload)\n"@ + text + "\n\n"@);
    lemma_occurs_within(out + "### "@ + id + " (externalized payload)\n"@, text, "\n\n"@);
    assert(out + block =~= out + "### "@ + id + (" (externalized payload)\n"@ + text + "\n\n"@));
    assert(out + block =~= out + "### "@ + id + " (externalized payload)\n"@ + text + "\n\n"@);
}

/// A payload is cut only for want of room: one that fits with its heading is
/// written whole.
pub proof fn a_payload_that_fits_is_not_cut(
    text: Seq<char>,
    id: Seq<char>,
    cap: u32,
    out: Seq<char>,
)
    requires
        utf8_len(out) + utf8_len(id) + utf8_len(text) + 30 <= cap * 4,
    ensures
        payload_flow(Some(PayloadView::Found(text)), id, cap, out) is Go,
{
    let a = "### "@;
    let b = " (externalized payload)\n"@;
    let c = "\n\n"@;
    reveal_strlit("### ");
    reveal_strlit(" (externalized payload)\n");
    reveal_strlit("\n\n");
    lemma_ascii_len(a);
    lemma_ascii_len(b);
    lemma_ascii_len(c);
    lemma_utf8_len_concat(a, id);
    lemma_utf8_len_concat(a + id, b);
    lemma_utf8_len_concat(a + id + b, text);
    lemma_utf8_len_concat(a + id + b + text, c);
    lemma_utf8_len_concat(out, payload_block(id, text));
}

/// What is written of a payload that is cut is its start, behind a heading.
pub proof fn a_cut_payload_keeps_its_start(
    text: Seq<char>,
    id: Seq<char>,
    cap: u32,
    out: Seq<char>,
)
    ensures
        payload_flow(Some(PayloadView::Found(text)), id, cap, out) matches Flow::Stop(o) ==> {
            ||| o == out
            ||| exists|k: int|
                0 <= k <= text.len() && has_suffix(
                    o,
                    " bytes)\n"@ + #[trigger] text.take(k) + "\n"@,
                ) && has_prefix(o, out + "### "@ + id) && utf8_len(o) <= cap * 4 + 3 && (k
                    < text.len() ==> utf8_len(out) + head_frame(id, utf8_len(text)) + utf8_len(
                    text.take(k + 1),
                ) > cap * 4 + 3)
        },
{
    let left = bytes_left(cap, out);
    let frame = head_frame(id, utf8_len(text));
    if !fits(cap, out, payload_block(id, text)) && frame <= left {
        let max = (left - frame) as nat;
        let kept = prefix_of(text, max);
        let head = head_block(id, kept, utf8_len(text));
        let o = out + head;
        prefix_is_the_longest_that_fits(text, max);
        let k = kept.len() as int;
        assert(kept == text.take(k));
        let end = " bytes)\n"@ + text.take(k) + "\n"@;
        assert(o.skip(o.len() - end.len()) =~= end);
        let front = out + "### "@ + id;
        assert(o.take(front.len() as int) =~= front);
        lemma_head_block(id, text, left);
        lemma_utf8_len_concat(out, head);
        lemma_frame_is_positive(id, utf8_len(text));
    }
}

/// A heading takes some room.
proof fn lemma_frame_is_positive(id: Seq<char>, size: nat)
    ensures
        head_frame(id, size) > 0,
{
    reveal_strlit("\n");
    lemma_utf8_len_concat(head_line(id, size, size), "\n"@);
    lemma_ascii_len("\n"@);
}

/// ASCII takes one byte per character.
proof fn lemma_ascii_len(s: Seq<char>)
    requires
        forall|i: int| 0 <= i < s.len() ==> (#[trigger] s[i]) as u32 <= 0x7f,
    ensures
        utf8_len(s) == s.len(),
    decreases s.len(),
{
    if s.len() > 0 {
        lemma_ascii_len(s.drop_last());
        assert(s[s.len() - 1] as u32 <= 0x7f);
    }
}

/// Where a message is not cut off, every payload that it refers to is written
/// with it: the text of each that was read, word for word.
pub proof fn expanded_payloads_are_whole(
    payloads: Seq<(Seq<char>, PayloadView)>,
    ids: Seq<Seq<char>>,
    cap: u32,
    out: Seq<char>,
    n: nat,
    i: int,
)
    requires
        tokens_of(out) <= cap,
        n <= ids.len(),
        files_flow(payloads, ids, cap, out, n) is Go,
        0 <= i < n,
    ensures
        payload_with(payloads, ids[i]) matches Some(PayloadView::Found(text)) ==> occurs(
            files_flow(payloads, ids, cap, out, n)->Go_0,
            text,
        ),
        payload_with(payloads, ids[i]) matches Some(PayloadView::Missing(error)) ==> occurs(
            files_flow(payloads, ids, cap, out, n)->Go_0,
            error,
        ),
        payload_with(payloads, ids[i]) is Some,
        occurs(files_flow(payloads, ids, cap, out, n)->Go_0, ids[i]),
    decreases n,
{
    let before = (n - 1) as nat;
    let mid = files_flow(payloads, ids, cap, out, before)->Go_0;
    let after = files_flow(payloads, ids, cap, out, n)->Go_0;
    lemma_files_flow_grows(payloads, ids, cap, out, before);
    match payload_with(payloads, ids[n - 1]) {
        Some(PayloadView::Found(text)) => {
            a_payload_is_written_whole(text, ids[n - 1], cap, mid);
        },
        Some(PayloadView::Missing(error)) => {
            a_missing_payload_is_reported(error, ids[n - 1], cap, mid);
        },
        None => {},
    }
    if i < n - 1 {
        expanded_payloads_are_whole(payloads, ids, cap, out, before, i);
        lemma_occurs_in_longer(mid, after, ids[i]);
        match payload_with(payloads, ids[i]) {
            Some(PayloadView::Found(text)) => lemma_occurs_in_longer(mid, after, text),
            Some(PayloadView::Missing(error)) => lemma_occurs_in_longer(mid, after, error),
            None => {},
        }
    }
}

/// A step adds to what was written: the text of its summary comes next, and
/// what comes after it only follows.
proof fn lemma_stride_writes(
    v: ConversationView,
    plan: ExpandPlan,
    payloads: Seq<(Seq<char>, PayloadView)>,
    w: Walk,
)
    requires
        tokens_of(w.out) <= plan.cap,
        stride(v, plan, payloads, w) is Next,
    ensures
        w.frontier.len() > 0,
        summary_with(v.summaries, w.frontier.last().0) is Some,
        has_prefix(
            stride(v, plan, payloads, w)->Next_0.out,
            w.out + node_text(
                summary_with(v.summaries, w.frontier.last().0)->0,
                w.frontier.last().0,
                w.frontier.last().1,
            ),
        ),
        has_prefix(stride(v, plan, payloads, w)->Next_0.out, w.out),
{
    let (id, level) = w.frontier.last();
    let s = summary_with(v.summaries, id)->0;
    let out = w.out + node_text(s, id, level);
    lemma_starts_with(w.out, node_text(s, id, level));
    lemma_starts_with(out, Seq::empty());
    if shows_messages(plan, s, level) {
        lemma_messages_flow_grows(
            payloads,
            v.messages,
            s.source_messages,
            plan.cap,
            out,
            v.messages.len(),
        );
        lemma_prefix_of_prefix(w.out, out, stride(v, plan, payloads, w)->Next_0.out);
    }
}

/// What was written at a step is still there at every later one.
proof fn lemma_written_stays(
    v: ConversationView,
    plan: ExpandPlan,
    payloads: Seq<(Seq<char>, PayloadView)>,
    id: Seq<char>,
    i: nat,
    n: nat,
)
    requires
        i <= n,
        walk_at(v, plan, payloads, id, n) is Some,
    ensures
        walk_at(v, plan, payloads, id, i) is Some,
        has_prefix(
            walk_at(v, plan, payloads, id, n)->0.out,
            walk_at(v, plan, payloads, id, i)->0.out,
        ),
        forall|x: Seq<char>|
            walk_at(v, plan, payloads, id, i)->0.seen.contains(x) ==> #[trigger] walk_at(
                v,
                plan,
                payloads,
                id,
                n,
            )->0.seen.contains(x),
    decreases n,
{
    if i < n {
        let before = (n - 1) as nat;
        lemma_written_stays(v, plan, payloads, id, i, before);
        let w = walk_at(v, plan, payloads, id, before)->0;
        lemma_walk_is_capped(v, plan, payloads, id, before);
        lemma_stride_writes(v, plan, payloads, w);
        lemma_prefix_of_prefix(
            walk_at(v, plan, payloads, id, i)->0.out,
            w.out,
            walk_at(v, plan, payloads, id, n)->0.out,
        );
        let (node, level) = w.frontier.last();
        let s = summary_with(v.summaries, node)->0;
        let kids = sorted_texts(s.children);
        lemma_met_keeps(w.frontier.drop_last(), w.seen, kids, level + 1, kids.len());
    } else {
        lemma_starts_with(walk_at(v, plan, payloads, id, n)->0.out, Seq::empty());
    }
}

/// What was met stays met, and so is every child.
proof fn lemma_met_keeps(
    frontier: Seq<(Seq<char>, nat)>,
    seen: Seq<Seq<char>>,
    children: Seq<Seq<char>>,
    level: nat,
    n: nat,
)
    requires
        n <= children.len(),
    ensures
        ({
            let (f, s) = met(frontier, seen, children, level, n);
            &&& forall|x: Seq<char>| seen.contains(x) ==> #[trigger] s.contains(x)
            &&& forall|i: int| 0 <= i < n ==> s.contains(#[trigger] children[i])
            &&& forall|x: Seq<char>|
                s.contains(x) && !seen.contains(x) ==> #[trigger] waits(f, x)
            &&& forall|x: Seq<char>| waits(frontier, x) ==> #[trigger] waits(f, x)
        }),
    decreases n,
{
    if n > 0 {
        lemma_met_keeps(frontier, seen, children, level, (n - 1) as nat);
        let (f, s) = met(frontier, seen, children, level, (n - 1) as nat);
        let child = children[n - 1];
        if !s.contains(child) {
            let more = s.push(child);
            let next = f.push((child, level));
            assert(more[s.len() as int] == child);
            assert(next[f.len() as int] == (child, level));
            assert forall|x: Seq<char>| s.contains(x) implies #[trigger] more.contains(x) by {
                let k = choose|k: int| 0 <= k < s.len() && s[k] == x;
                assert(more[k] == x);
            }
            assert forall|x: Seq<char>| waits(f, x) implies #[trigger] waits(next, x) by {
                let k = choose|k: int| 0 <= k < f.len() && (#[trigger] f[k]).0 == x;
                assert(next[k] == f[k]);
            }
            assert forall|x: Seq<char>|
                more.contains(x) && !seen.contains(x) implies #[trigger] waits(next, x) by {
                let k = choose|k: int| 0 <= k < more.len() && more[k] == x;
                if k < s.len() {
                    assert(s[k] == x);
                    assert(s.contains(x));
                    assert(waits(f, x));
                }
            }
        }
    }
}

/// Whether a summary waits to be shown.
pub open spec fn waits(frontier: Seq<(Seq<char>, nat)>, x: Seq<char>) -> bool {
    exists|k: int| 0 <= k < frontier.len() && (#[trigger] frontier[k]).0 == x
}

/// Whether step `j` of an expansion shows a summary.
pub open spec fn shown_at(
    v: ConversationView,
    plan: ExpandPlan,
    payloads: Seq<(Seq<char>, PayloadView)>,
    id: Seq<char>,
    j: nat,
    x: Seq<char>,
) -> bool {
    match walk_at(v, plan, payloads, id, j) {
        Some(w) => w.frontier.len() > 0 && w.frontier.last().0 == x,
        None => false,
    }
}

/// Every summary that was met waits to be shown, or was shown.
proof fn lemma_met_is_shown(
    v: ConversationView,
    plan: ExpandPlan,
    payloads: Seq<(Seq<char>, PayloadView)>,
    id: Seq<char>,
    n: nat,
    x: Seq<char>,
)
    requires
        walk_at(v, plan, payloads, id, n) is Some,
        walk_at(v, plan, payloads, id, n)->0.seen.contains(x),
    ensures
        waits(walk_at(v, plan, payloads, id, n)->0.frontier, x) || exists|j: nat|
            j < n && #[trigger] shown_at(v, plan, payloads, id, j, x),
    decreases n,
{
    let now = walk_at(v, plan, payloads, id, n)->0;
    if n == 0 {
        assert(now.frontier[0].0 == id);
        assert(x == id);
    } else {
        let before = (n - 1) as nat;
        let w = walk_at(v, plan, payloads, id, before)->0;
        lemma_walk_is_capped(v, plan, payloads, id, before);
        lemma_stride_writes(v, plan, payloads, w);
        let (node, level) = w.frontier.last();
        let s = summary_with(v.summaries, node)->0;
        let kids = sorted_texts(s.children);
        let rest = w.frontier.drop_last();
        lemma_met_keeps(rest, w.seen, kids, level + 1, kids.len());
        if w.seen.contains(x) {
            lemma_met_is_shown(v, plan, payloads, id, before, x);
            if waits(w.frontier, x) {
                let k = choose|k: int|
                    0 <= k < w.frontier.len() && (#[trigger] w.frontier[k]).0 == x;
                if k == w.frontier.len() - 1 {
                    assert(shown_at(v, plan, payloads, id, before, x));
                } else {
                    assert(rest[k] == w.frontier[k]);
                    assert(waits(rest, x));
                }
            } else {
                let j = choose|j: nat|
                    j < before && #[trigger] shown_at(v, plan, payloads, id, j, x);
                assert(shown_at(v, plan, payloads, id, j, x));
            }
        }
    }
}

/// An expansion that is not cut off leaves out nothing: where a summary of
/// summaries is shown above the deepest level, each summary that it was made
/// from is shown too, and the text of each stands in what was written.
pub proof fn children_are_written(
    v: ConversationView,
    plan: ExpandPlan,
    payloads: Seq<(Seq<char>, PayloadView)>,
    id: Seq<char>,
    n: nat,
    i: nat,
    x: Seq<char>,
)
    requires
        walk_at(v, plan, payloads, id, n) is Some,
        stride(v, plan, payloads, walk_at(v, plan, payloads, id, n)->0) matches Stride::Done {
            notice,
            ..
        } && notice == Seq::<char>::empty(),
        i < n,
        walk_at(v, plan, payloads, id, i) matches Some(w) && w.frontier.len() > 0
            && w.frontier.last().1 < plan.depth && (summary_with(
            v.summaries,
            w.frontier.last().0,
        ) matches Some(s) && s.kind != "leaf"@ && s.children.contains(x)),
    ensures
        exists|j: nat| j < n && #[trigger] shown_at(v, plan, payloads, id, j, x),
        summary_with(v.summaries, x) is Some,
        exists|level: nat|
            occurs(
                stride(v, plan, payloads, walk_at(v, plan, payloads, id, n)->0)->Done_text,
                #[trigger] node_text(summary_with(v.summaries, x)->0, x, level),
            ),
{
    let last = walk_at(v, plan, payloads, id, n)->0;
    let w = walk_at(v, plan, payloads, id, i)->0;
    let (node, level) = w.frontier.last();
    let s = summary_with(v.summaries, node)->0;
    let kids = sorted_texts(s.children);
    lemma_ended_whole(v, plan, payloads, last);
    lemma_written_stays(v, plan, payloads, id, (i + 1) as nat, n);
    lemma_met_keeps(w.frontier.drop_last(), w.seen, kids, level + 1, kids.len());
    lemma_sorted_texts_keeps(s.children, x);
    let k = choose|k: int| 0 <= k < kids.len() && kids[k] == x;
    assert(kids[k] == x);
    assert(walk_at(v, plan, payloads, id, (i + 1) as nat)->0.seen.contains(x));
    assert(last.seen.contains(x));
    lemma_met_is_shown(v, plan, payloads, id, n, x);
    assert(!waits(last.frontier, x));
    let j = choose|j: nat| j < n && #[trigger] shown_at(v, plan, payloads, id, j, x);
    lemma_shown_is_in_the_text(v, plan, payloads, id, j, n, x);
}

/// An expansion ends without a notice only where nothing waits any more.
proof fn lemma_ended_whole(
    v: ConversationView,
    plan: ExpandPlan,
    payloads: Seq<(Seq<char>, PayloadView)>,
    w: Walk,
)
    requires
        stride(v, plan, payloads, w) matches Stride::Done { notice, .. } && notice == Seq::<
            char,
        >::empty(),
    ensures
        w.frontier.len() == 0,
        stride(v, plan, payloads, w)->Done_text == w.out,
{
    reveal_strlit("]\n");
    reveal_strlit(" node(s)]\n");
    if w.frontier.len() > 0 {
        assert(cut_note(plan.cap).last() == '\n');
        assert(frontier_note(plan.cap, w.frontier.len()).last() == '\n');
    }
}

proof fn lemma_shown_is_in_the_text(
    v: ConversationView,
    plan: ExpandPlan,
    payloads: Seq<(Seq<char>, PayloadView)>,
    id: Seq<char>,
    j: nat,
    n: nat,
    x: Seq<char>,
)
    requires
        j < n,
        walk_at(v, plan, payloads, id, n) is Some,
        shown_at(v, plan, payloads, id, j, x),
    ensures
        summary_with(v.summaries, x) is Some,
        exists|level: nat|
            occurs(
                walk_at(v, plan, payloads, id, n)->0.out,
                #[trigger] node_text(summary_with(v.summaries, x)->0, x, level),
            ),
{
    lemma_written_stays(v, plan, payloads, id, (j + 1) as nat, n);
    lemma_written_stays(v, plan, payloads, id, j, (j + 1) as nat);
    lemma_walk_is_capped(v, plan, payloads, id, j);
    let w = walk_at(v, plan, payloads, id, j)->0;
    lemma_stride_writes(v, plan, payloads, w);
    let next = walk_at(v, plan, payloads, id, (j + 1) as nat)->0;
    let text = node_text(summary_with(v.summaries, x)->0, x, w.frontier.last().1);
    lemma_occurs_within(w.out, text, Seq::empty());
    assert(w.out + text + Seq::<char>::empty() =~= w.out + text);
    lemma_occurs_in_longer(w.out + text, next.out, text);
    lemma_occurs_in_longer(next.out, walk_at(v, plan, payloads, id, n)->0.out, text);
}

/// An expansion shows the summary that was asked for: where it is not cut off,
/// its text stands in what was written.
pub proof fn the_root_is_written(
    v: ConversationView,
    plan: ExpandPlan,
    payloads: Seq<(Seq<char>, PayloadView)>,
    id: Seq<char>,
    n: nat,
)
    requires
        walk_at(v, plan, payloads, id, n) is Some,
        stride(v, plan, payloads, walk_at(v, plan, payloads, id, n)->0) matches Stride::Done {
            notice,
            ..
        } && notice == Seq::<char>::empty(),
    ensures
        n > 0,
        summary_with(v.summaries, id) is Some,
        has_prefix(
            stride(v, plan, payloads, walk_at(v, plan, payloads, id, n)->0)->Done_text,
            node_text(summary_with(v.summaries, id)->0, id, 0),
        ),
{
    let last = walk_at(v, plan, payloads, id, n)->0;
    lemma_ended_whole(v, plan, payloads, last);
    let w = start_at(id);
    assert(walk_at(v, plan, payloads, id, 0) == Some(w));
    assert(w.frontier.len() == 1);
    lemma_written_stays(v, plan, payloads, id, 1, n);
    lemma_walk_is_capped(v, plan, payloads, id, 0);
    assert(walk_at(v, plan, payloads, id, 1) is Some);
    assert(walk_at(v, plan, payloads, id, (1 - 1) as nat) == Some(w));
    lemma_stride_writes(v, plan, payloads, w);
    let text = node_text(summary_with(v.summaries, id)->0, id, 0);
    assert(w.out + text =~= text);
    lemma_prefix_of_prefix(text, walk_at(v, plan, payloads, id, 1)->0.out, last.out);
}

/// Where messages are asked for, an expansion that is not cut off shows every
/// message of each leaf that it shows above the deepest level, word for word.
pub proof fn source_messages_are_written(
    v: ConversationView,
    plan: ExpandPlan,
    payloads: Seq<(Seq<char>, PayloadView)>,
    id: Seq<char>,
    n: nat,
    i: nat,
    m: int,
)
    requires
        walk_at(v, plan, payloads, id, n) is Some,
        stride(v, plan, payloads, walk_at(v, plan, payloads, id, n)->0) matches Stride::Done {
            notice,
            ..
        } && notice == Seq::<char>::empty(),
        i < n,
        plan.include_messages,
        0 <= m < v.messages.len(),
        walk_at(v, plan, payloads, id, i) matches Some(w) && w.frontier.len() > 0
            && w.frontier.last().1 < plan.depth && (summary_with(
            v.summaries,
            w.frontier.last().0,
        ) matches Some(s) && s.kind == "leaf"@ && s.source_messages.contains(
            v.messages[m].message_id,
        )),
    ensures
        occurs(
            stride(v, plan, payloads, walk_at(v, plan, payloads, id, n)->0)->Done_text,
            message_block(v.messages[m]),
        ),
{
    let last = walk_at(v, plan, payloads, id, n)->0;
    let w = walk_at(v, plan, payloads, id, i)->0;
    let (node, level) = w.frontier.last();
    let s = summary_with(v.summaries, node)->0;
    lemma_ended_whole(v, plan, payloads, last);
    lemma_written_stays(v, plan, payloads, id, (i + 1) as nat, n);
    let next = walk_at(v, plan, payloads, id, (i + 1) as nat)->0;
    expanded_messages_are_whole(
        payloads,
        v.messages,
        s.source_messages,
        plan.cap,
        w.out + node_text(s, node, level),
        v.messages.len(),
        m,
    );
    lemma_occurs_in_longer(next.out, last.out, message_block(v.messages[m]));
}

/// Whether depths count the steps down: a summary lies one depth below each
/// that was made from it, and a leaf was made from none. Compaction keeps
/// this.
pub open spec fn is_layered(v: ConversationView) -> bool {
    forall|p: Seq<char>, x: Seq<char>| #[trigger]
        is_child(v, p, x) ==> summary_with(v.summaries, p)->0.kind != "leaf"@ && (summary_with(
            v.summaries,
            x,
        ) matches Some(s) && s.depth == summary_with(v.summaries, p)->0.depth - 1)
}

/// The depth of what lies some steps below a summary.
proof fn lemma_depth_below(v: ConversationView, root: Seq<char>, x: Seq<char>, level: nat)
    requires
        is_layered(v),
        summary_with(v.summaries, root) is Some,
        lies_below(v, root, x, level),
    ensures
        summary_with(v.summaries, x) matches Some(s) && s.depth == summary_with(
            v.summaries,
            root,
        )->0.depth - level,
    decreases level,
{
    if level > 0 {
        let p = choose|p: Seq<char>| #[trigger]
            is_child(v, p, x) && lies_below(v, root, p, (level - 1) as nat);
        lemma_depth_below(v, root, p, (level - 1) as nat);
    }
}

/// An expansion that is not cut off is complete: every summary that lies at
/// most as deep below the first as asked is written.
pub proof fn expansion_is_complete(
    v: ConversationView,
    plan: ExpandPlan,
    payloads: Seq<(Seq<char>, PayloadView)>,
    id: Seq<char>,
    n: nat,
    x: Seq<char>,
    level: nat,
)
    requires
        is_layered(v),
        summary_with(v.summaries, id) is Some,
        walk_at(v, plan, payloads, id, n) is Some,
        stride(v, plan, payloads, walk_at(v, plan, payloads, id, n)->0) matches Stride::Done {
            notice,
            ..
        } && notice == Seq::<char>::empty(),
        level <= plan.depth,
        lies_below(v, id, x, level),
    ensures
        exists|j: nat| j < n && #[trigger] shown_at(v, plan, payloads, id, j, x),
        exists|k: nat|
            occurs(
                stride(v, plan, payloads, walk_at(v, plan, payloads, id, n)->0)->Done_text,
                #[trigger] node_text(summary_with(v.summaries, x)->0, x, k),
            ),
    decreases level,
{
    let last = walk_at(v, plan, payloads, id, n)->0;
    lemma_ended_whole(v, plan, payloads, last);
    if level == 0 {
        the_root_is_written(v, plan, payloads, id, n);
        lemma_written_stays(v, plan, payloads, id, 0, n);
        assert(shown_at(v, plan, payloads, id, 0, x));
        lemma_shown_is_in_the_text(v, plan, payloads, id, 0, n, x);
    } else {
        let p = choose|p: Seq<char>| #[trigger]
            is_child(v, p, x) && lies_below(v, id, p, (level - 1) as nat);
        expansion_is_complete(v, plan, payloads, id, n, p, (level - 1) as nat);
        let i = choose|i: nat| i < n && #[trigger] shown_at(v, plan, payloads, id, i, p);
        summaries_are_within_the_depth(v, plan, payloads, id, i);
        let at = walk_at(v, plan, payloads, id, i)->0.frontier.last().1;
        lemma_depth_below(v, id, p, at);
        lemma_depth_below(v, id, p, (level - 1) as nat);
        assert(at == level - 1);
        children_are_written(v, plan, payloads, id, n, i, x);
    }
}

} // verus!
