//! Reading a conversation: the request built from it, and what is left of it
//! to distill.

use vstd::prelude::*;

use super::{
    newest_user_seq, write_inputs, writes_after, Conversation, ConversationView, StoredView,
};
use crate::context::lcm::assemble::{
    assemble_rows, path_argument, read_path_argument, text_view, written_files_segment,
};
use crate::context::lcm::compaction::{ItemRef, RefView, SummaryView};
use crate::context::lcm::counts::{are_countable, counts_fit, sum, total};
use crate::context::lcm::rows::{
    calls_in, message_of, part_views, reconstruct_message, Part, PartView, RowError, RowFault,
};
use crate::context::AssembledContext;
use crate::text::{lemma_views_push, same, views};
use crate::types::{message_views, Message, MessageView};

verus! {

// ── Written files ───────────────────────────────────────────────────

/// The arguments of the calls that wrote a file, the last call first.
fn collect_writes(parts: &Vec<Part>) -> (out: Vec<String>)
    ensures
        views(out@) == write_inputs(calls_in(part_views(parts@))),
{
    let ghost all = part_views(parts@);
    let mut out: Vec<String> = Vec::new();
    let mut i: usize = parts.len();
    assert(all.take(i as int) =~= all);
    assert(views(out@) + write_inputs(calls_in(all)) =~= write_inputs(calls_in(all)));
    while i > 0
        invariant
            i <= parts@.len(),
            all == part_views(parts@),
            views(out@) + write_inputs(calls_in(all.take(i as int))) == write_inputs(calls_in(all)),
        decreases i,
    {
        i -= 1;
        let ghost rest = calls_in(all.take(i as int));
        let ghost more = calls_in(all.take(i + 1));
        let ghost before = out@;
        assert(all.take(i + 1).drop_last() =~= all.take(i as int));
        assert(all.take(i + 1).last() == parts@[i as int]@);
        if let Part::ToolCall { name, input, .. } = &parts[i] {
            assert(more.drop_last() =~= rest);
            if same(name.as_str(), "file_write") || same(name.as_str(), "file_edit") {
                let copy = input.clone();
                out.push(copy);
                proof {
                    lemma_views_push(before, copy);
                    assert(views(out@) + write_inputs(rest) =~= views(before) + write_inputs(more));
                }
            }
        }
    }
    assert(all.take(0) =~= Seq::empty());
    assert(calls_in(all.take(0)) =~= Seq::empty());
    assert(views(out@) =~= write_inputs(calls_in(all)));
    out
}

/// Appends texts.
fn extend(out: &mut Vec<String>, more: Vec<String>)
    ensures
        views(final(out)@) == views(old(out)@) + views(more@),
{
    let ghost before = views(out@);
    let ghost all = views(more@);
    let n: usize = more.len();
    let mut i: usize = 0;
    while i < n
        invariant
            i <= n,
            n == more@.len(),
            all == views(more@),
            views(out@) =~= before + all.take(i as int),
        decreases n - i,
    {
        let ghost prev = out@;
        let text = more[i].clone();
        out.push(text);
        proof {
            lemma_views_push(prev, text);
            assert(all.take(i + 1) =~= all.take(i as int).push(more@[i as int]@));
        }
        i += 1;
    }
    assert(all.take(n as int) =~= all);
}

impl Conversation {
    /// The place of the newest message of the user.
    fn newest_user(&self) -> (r: Option<i64>)
        ensures
            r == self@.pin(),
    {
        let ghost all = self@.messages;
        let mut i: usize = self.messages.len();
        assert(all.take(i as int) =~= all);
        while i > 0
            invariant
                i <= self.messages@.len(),
                all == self@.messages,
                newest_user_seq(all) == newest_user_seq(all.take(i as int)),
            decreases i,
        {
            i -= 1;
            assert(all.take(i + 1).drop_last() =~= all.take(i as int));
            assert(all.take(i + 1).last() == self.messages@[i as int]@);
            if same(self.messages[i].role.as_str(), "user") {
                return Some(self.messages[i].seq);
            }
        }
        None
    }

    /// Whether an item of the active context is a raw message.
    pub fn shows(&self, id: i64) -> (r: bool)
        ensures
            r == self@.shows(id),
    {
        let n: usize = self.items.len();
        let mut i: usize = 0;
        while i < n
            invariant
                i <= n,
                n == self.items@.len(),
                forall|k: int| 0 <= k < i ==> (#[trigger] self@.items[k]).item != RefView::Message(id),
            decreases n - i,
        {
            assert(self@.items[i as int] == self.items@[i as int]@);
            if let ItemRef::Message(m) = &self.items[i].item {
                if *m == id {
                    return true;
                }
            }
            i += 1;
        }
        false
    }

    /// Whether a message after place `pin` is no longer in the active context.
    fn hidden_after(&self, pin: i64) -> (r: bool)
        ensures
            r == self@.hidden_after(pin),
    {
        let n: usize = self.messages.len();
        let mut i: usize = 0;
        while i < n
            invariant
                i <= n,
                n == self.messages@.len(),
                forall|k: int|
                    0 <= k < i ==> !((#[trigger] self@.messages[k]).seq > pin && !self@.shows(
                        self@.messages[k].message_id,
                    )),
            decreases n - i,
        {
            assert(self@.messages[i as int] == self.messages@[i as int]@);
            if self.messages[i].seq > pin && !self.shows(self.messages[i].message_id) {
                return true;
            }
            i += 1;
        }
        false
    }

    /// The arguments of the calls that wrote a file after place `pin`, newest
    /// first.
    pub fn writes_after(&self, pin: i64) -> (out: Vec<String>)
        ensures
            views(out@) == writes_after(self@.messages, pin),
    {
        let ghost all = self@.messages;
        let mut out: Vec<String> = Vec::new();
        let mut i: usize = self.messages.len();
        assert(all.take(i as int) =~= all);
        assert(views(out@) + writes_after(all, pin) =~= writes_after(all, pin));
        while i > 0
            invariant
                i <= self.messages@.len(),
                all == self@.messages,
                views(out@) + writes_after(all.take(i as int), pin) == writes_after(all, pin),
            decreases i,
        {
            i -= 1;
            assert(all.take(i + 1).drop_last() =~= all.take(i as int));
            assert(all.take(i + 1).last() == self.messages@[i as int]@);
            if self.messages[i].seq > pin {
                let ghost before = views(out@);
                let more = collect_writes(&self.messages[i].parts);
                let ghost inputs = views(more@);
                extend(&mut out, more);
                assert(views(out@) + writes_after(all.take(i as int), pin) =~= before + (inputs
                    + writes_after(all.take(i as int), pin)));
            }
        }
        assert(all.take(0) =~= Seq::empty());
        assert(views(out@) =~= writes_after(all, pin));
        out
    }

    /// The list of files written for the request.
    pub fn written(&self) -> (r: Option<String>)
        ensures
            text_view(r) == self@.written(),
    {
        match self.newest_user() {
            None => None,
            Some(pin) => {
                if self.hidden_after(pin) {
                    written_files_segment(&self.writes_after(pin))
                } else {
                    None
                }
            },
        }
    }

    /// Builds the messages of a request.
    pub fn assemble(&self, system_prompt: &str) -> (r: Result<AssembledContext, RowError>)
        requires
            self@.wf(),
        ensures
            match r {
                Ok(c) => self@.request(system_prompt@) == Ok::<Seq<MessageView>, RowFault>(
                    message_views(c.messages@),
                ),
                Err(e) => self@.request(system_prompt@) == Err::<Seq<MessageView>, RowFault>(e@),
            },
    {
        let written = self.written();
        assemble_rows(&self.entries(), system_prompt, &written)
    }
}

// ── What is left to distill ─────────────────────────────────────────

/// The messages from place `after` on.
pub open spec fn span(messages: Seq<StoredView>, after: u64) -> Seq<StoredView>
    decreases messages.len(),
{
    if messages.len() == 0 {
        Seq::empty()
    } else if messages.last().seq >= after {
        span(messages.drop_last(), after).push(messages.last())
    } else {
        span(messages.drop_last(), after)
    }
}

/// The token counts of messages.
pub open spec fn token_counts(messages: Seq<StoredView>) -> Seq<i64> {
    messages.map_values(|m: StoredView| m.token_count)
}

/// The tokens of a message; none for a count below zero.
pub open spec fn tokens_in(m: StoredView) -> nat {
    if m.token_count >= 0 {
        m.token_count as nat
    } else {
        0
    }
}

/// The tokens of the first `n` messages.
pub open spec fn tokens_of_first(messages: Seq<StoredView>, n: nat) -> nat
    decreases n,
{
    if n == 0 {
        0
    } else {
        tokens_of_first(messages, (n - 1) as nat) + tokens_in(messages[n - 1])
    }
}

/// How many of the first `n` messages are kept: as many as fit the budget, and
/// the first one in any case.
pub open spec fn kept_of(messages: Seq<StoredView>, max_tokens: nat, n: nat) -> nat
    decreases n,
{
    if n == 0 {
        0
    } else {
        let k = kept_of(messages, max_tokens, (n - 1) as nat);
        if k == n - 1 && (n == 1 || tokens_of_first(messages, n) <= max_tokens) {
            n
        } else {
            k
        }
    }
}

/// The messages as they were, or the first fault among them.
pub open spec fn read_all(messages: Seq<StoredView>) -> Result<Seq<MessageView>, RowFault>
    decreases messages.len(),
{
    if messages.len() == 0 {
        Ok(Seq::empty())
    } else {
        match read_all(messages.drop_last()) {
            Err(fault) => Err(fault),
            Ok(before) => {
                let m = messages.last();
                match message_of(m.message_id, m.role, m.content, m.parts) {
                    Err(fault) => Err(fault),
                    Ok(msg) => Ok(before.push(msg)),
                }
            },
        }
    }
}

/// The transcript from place `after` on, cut to a token budget.
pub open spec fn transcript(messages: Seq<StoredView>, after: u64, max_tokens: nat) -> Result<
    Seq<MessageView>,
    RowFault,
> {
    let all = span(messages, after);
    read_all(all.take(kept_of(all, max_tokens, all.len()) as int))
}

/// What is kept is within the budget, or is the first message alone; and
/// where more is pending than is kept, one more message would not fit. A
/// reader that is given pending messages always gets at least one.
pub proof fn transcript_makes_progress(messages: Seq<StoredView>, max_tokens: nat, n: nat)
    requires
        n <= messages.len(),
    ensures
        ({
            let k = kept_of(messages, max_tokens, n);
            &&& k <= n
            &&& n > 0 ==> k > 0
            &&& k <= 1 || tokens_of_first(messages, k) <= max_tokens
            &&& k < n ==> tokens_of_first(messages, k + 1) > max_tokens
        }),
    decreases n,
{
    if n > 0 {
        transcript_makes_progress(messages, max_tokens, (n - 1) as nat);
    }
}

proof fn lemma_read_all(messages: Seq<StoredView>, k: int)
    requires
        0 <= k <= messages.len(),
        read_all(messages.take(k)) is Err,
    ensures
        read_all(messages) == read_all(messages.take(k)),
    decreases messages.len() - k,
{
    if k == messages.len() {
        assert(messages.take(k) =~= messages);
    } else {
        assert(messages.take(k + 1).drop_last() =~= messages.take(k));
        lemma_read_all(messages, k + 1);
    }
}

/// In an ordered conversation a span is its end.
proof fn lemma_span(messages: Seq<StoredView>, after: u64, a: int)
    requires
        0 <= a <= messages.len(),
        forall|i: int| 0 <= i < a ==> (#[trigger] messages[i]).seq < after,
        forall|i: int| a <= i < messages.len() ==> (#[trigger] messages[i]).seq >= after,
    ensures
        span(messages, after) == messages.skip(a),
    decreases messages.len(),
{
    if messages.len() == 0 {
        assert(messages.skip(a) =~= Seq::empty());
    } else {
        let rest = messages.drop_last();
        if a == messages.len() {
            assert(messages[a - 1].seq < after);
            lemma_span(rest, after, a - 1);
            assert(rest.skip(a - 1) =~= messages.skip(a));
        } else {
            assert(messages[messages.len() - 1].seq >= after);
            lemma_span(rest, after, a);
            assert(rest.skip(a).push(messages.last()) =~= messages.skip(a));
        }
    }
}

// ── Laws of reading on ──────────────────────────────────────────────

/// Whether the places of messages are their indices, as they are where each
/// message was pushed in turn.
pub open spec fn is_dense(messages: Seq<StoredView>) -> bool {
    forall|i: int| 0 <= i < messages.len() ==> (#[trigger] messages[i]).seq == i
}

/// Places stay dense whatever happens to a conversation: a message is pushed,
/// the context is cleared, a summary is stored.
pub proof fn places_stay_dense(
    v: ConversationView,
    id: i64,
    msg: MessageView,
    now: Seq<char>,
    summary: SummaryView,
    first: i64,
    last: i64,
)
    requires
        v.wf(),
        v.has_room(),
        is_dense(v.messages),
    ensures
        is_dense(v.pushed(id, msg, now).messages),
        is_dense(v.cleared().messages),
        is_dense(v.after_storing(summary, first, last).messages),
{
    let all = v.pushed(id, msg, now).messages;
    assert forall|i: int| 0 <= i < all.len() implies (#[trigger] all[i]).seq == i by {
        if i < v.messages.len() {
            assert(all[i] == v.messages[i]);
        } else if i > 0 {
            assert(v.messages[i - 1].seq == i - 1);
        }
    }
}

proof fn lemma_read_all_len(messages: Seq<StoredView>)
    ensures
        read_all(messages) matches Ok(read) ==> read.len() == messages.len(),
    decreases messages.len(),
{
    if messages.len() > 0 {
        lemma_read_all_len(messages.drop_last());
    }
}

/// In a dense conversation, the messages from a place on are those from that
/// index on.
proof fn lemma_dense_span(messages: Seq<StoredView>, after: u64)
    requires
        is_dense(messages),
        after <= messages.len(),
    ensures
        span(messages, after) == messages.skip(after as int),
{
    lemma_span(messages, after, after as int);
}

/// A reader that moves its mark on by as many messages as it was given misses
/// none and meets none again: it was given those that follow the mark, at
/// least one where there are any, and the next span starts right behind them.
pub proof fn reading_on_misses_nothing(messages: Seq<StoredView>, after: u64, max_tokens: nat)
    requires
        is_dense(messages),
        after <= messages.len(),
        transcript(messages, after, max_tokens) is Ok,
    ensures
        ({
            let read = transcript(messages, after, max_tokens)->Ok_0;
            let next = after + read.len();
            &&& next <= messages.len()
            &&& after < messages.len() ==> after < next
            &&& read_all(messages.subrange(after as int, next)) == Ok::<
                Seq<MessageView>,
                RowFault,
            >(read)
            &&& span(messages, next as u64) == messages.skip(next)
        }),
{
    let all = span(messages, after);
    let k = kept_of(all, max_tokens, all.len());
    lemma_dense_span(messages, after);
    transcript_makes_progress(all, max_tokens, all.len());
    lemma_read_all_len(all.take(k as int));
    assert(all.take(k as int) =~= messages.subrange(after as int, after + k));
    if messages.len() > 0 {
        assert(messages[messages.len() - 1].seq == messages.len() - 1);
    }
    lemma_dense_span(messages, (after + k) as u64);
}

/// A reader at the tip of a conversation has read all of it: nothing is
/// pending there, and the tip is the place that the next message will have.
pub proof fn nothing_is_pending_at_the_tip(v: ConversationView)
    requires
        is_dense(v.messages),
    ensures
        v.next_seq() == v.messages.len(),
        span(v.messages, v.next_seq() as u64).len() == 0,
{
    if v.messages.len() > 0 {
        assert(v.messages[v.messages.len() - 1].seq == v.messages.len() - 1);
    }
    lemma_dense_span(v.messages, v.next_seq() as u64);
}

impl Conversation {
    /// Where the messages from place `after` on start.
    fn start_of(&self, after: u64) -> (a: usize)
        requires
            self@.wf(),
        ensures
            a <= self.messages@.len(),
            span(self@.messages, after) == self@.messages.skip(a as int),
    {
        let n: usize = self.messages.len();
        let mut a: usize = 0;
        while a < n && (self.messages[a].seq < 0 || (self.messages[a].seq as u64) < after)
            invariant
                a <= n,
                n == self.messages@.len(),
                forall|k: int| 0 <= k < a ==> (#[trigger] self@.messages[k]).seq < after,
            decreases n - a,
        {
            assert(self@.messages[a as int] == self.messages@[a as int]@);
            a += 1;
        }
        proof {
            if a < n {
                assert(self@.messages[a as int] == self.messages@[a as int]@);
            }
            lemma_span(self@.messages, after, a as int);
        }
        a
    }

    /// How many of the messages from index `a` on fit a token budget.
    fn kept_from(&self, a: usize, max_tokens: u64) -> (kept: usize)
        requires
            a <= self.messages@.len(),
        ensures
            kept == kept_of(
                self@.messages.skip(a as int),
                max_tokens as nat,
                self@.messages.skip(a as int).len(),
            ),
            kept <= self.messages@.len() - a,
    {
        let ghost all = self@.messages.skip(a as int);
        let len: usize = self.messages.len();
        let n: usize = len - a;
        let mut kept: usize = 0;
        let mut used: u64 = 0;
        let mut full: bool = false;
        let mut i: usize = 0;
        while i < n && !full
            invariant
                i <= n,
                a + n == len,
                len == self.messages@.len(),
                all == self@.messages.skip(a as int),
                kept == kept_of(all, max_tokens as nat, i as nat),
                !full ==> kept == i,
                !full ==> used == tokens_of_first(all, i as nat),
                full ==> kept < i,
                i == 0 ==> used == 0,
                i > 1 && !full ==> used <= max_tokens,
                i == 1 && !full ==> used <= i64::MAX,
            decreases n - i,
        {
            let count: i64 = self.messages[a + i].token_count;
            assert(all[i as int] == self.messages@[a + i]@);
            let tokens: u64 = if count >= 0 {
                count as u64
            } else {
                0
            };
            assert(tokens == tokens_in(all[i as int]));
            if i > 0 && (used > max_tokens || tokens > max_tokens - used) {
                full = true;
            } else {
                used += tokens;
                kept += 1;
            }
            i += 1;
        }
        proof {
            lemma_kept_is_final(all, max_tokens as nat, i as nat, n as nat);
        }
        kept
    }

    /// The `kept` messages from index `a` on, as they were.
    fn read_from(&self, a: usize, kept: usize) -> (r: Result<Vec<Message>, RowError>)
        requires
            a + kept <= self.messages@.len(),
        ensures
            ({
                let rows = self@.messages.skip(a as int).take(kept as int);
                match r {
                    Ok(out) => read_all(rows) == Ok::<Seq<MessageView>, RowFault>(
                        message_views(out@),
                    ),
                    Err(e) => read_all(rows) == Err::<Seq<MessageView>, RowFault>(e@),
                }
            }),
    {
        let ghost rows = self@.messages.skip(a as int).take(kept as int);
        let len: usize = self.messages.len();
        let mut out: Vec<Message> = Vec::new();
        let mut i: usize = 0;
        assert(rows.take(0) =~= Seq::empty());
        assert(message_views(out@) =~= Seq::empty());
        while i < kept
            invariant
                i <= kept,
                a + kept <= len,
                len == self.messages@.len(),
                rows == self@.messages.skip(a as int).take(kept as int),
                read_all(rows.take(i as int)) == Ok::<Seq<MessageView>, RowFault>(
                    message_views(out@),
                ),
            decreases kept - i,
        {
            let m = &self.messages[a + i];
            assert(rows.take(i + 1).drop_last() =~= rows.take(i as int));
            assert(rows.take(i + 1).last() == m@);
            match reconstruct_message(
                m.message_id,
                m.role.as_str(),
                m.content.as_str(),
                &m.parts,
            ) {
                Err(e) => {
                    proof {
                        lemma_read_all(rows, i + 1);
                    }
                    return Err(e);
                },
                Ok(msg) => {
                    let ghost before = out@;
                    out.push(msg);
                    assert(message_views(out@) =~= message_views(before).push(msg@));
                },
            }
            i += 1;
        }
        assert(rows.take(kept as int) =~= rows);
        Ok(out)
    }

    /// The transcript from place `after` on, oldest first, cut to a token
    /// budget. At least one message where any is pending.
    pub fn transcript_since(&self, after: u64, max_tokens: u64) -> (r: Result<
        Vec<Message>,
        RowError,
    >)
        requires
            self@.wf(),
        ensures
            match r {
                Ok(out) => transcript(self@.messages, after, max_tokens as nat) == Ok::<
                    Seq<MessageView>,
                    RowFault,
                >(message_views(out@)),
                Err(e) => transcript(self@.messages, after, max_tokens as nat) == Err::<
                    Seq<MessageView>,
                    RowFault,
                >(e@),
            },
    {
        let a: usize = self.start_of(after);
        let kept: usize = self.kept_from(a, max_tokens);
        self.read_from(a, kept)
    }

    /// The token counts of the messages from place `since` on.
    fn pending_counts(&self, since: u64) -> (out: Vec<i64>)
        requires
            self@.wf(),
        ensures
            out@ == token_counts(span(self@.messages, since)),
    {
        let a: usize = self.start_of(since);
        let ghost all = span(self@.messages, since);
        let n: usize = self.messages.len();
        let mut out: Vec<i64> = Vec::new();
        let mut i: usize = a;
        while i < n
            invariant
                a <= i <= n,
                n == self.messages@.len(),
                all == self@.messages.skip(a as int),
                out@.len() == i - a,
                forall|k: int| 0 <= k < out@.len() ==> #[trigger] out@[k] == all[k].token_count,
            decreases n - i,
        {
            assert(all[i - a] == self.messages@[i as int]@);
            out.push(self.messages[i].token_count);
            i += 1;
        }
        assert(out@ =~= token_counts(all));
        out
    }

    /// Whether the tokens of the messages from place `since` on can be summed
    /// up.
    pub fn is_pending_countable(&self, since: u64) -> (r: bool)
        requires
            self@.wf(),
        ensures
            r == counts_fit(token_counts(span(self@.messages, since))),
    {
        are_countable(&self.pending_counts(since))
    }

    /// The tokens of the messages from place `since` on; `None` where there
    /// are none.
    pub fn pending_tokens(&self, since: u64) -> (r: Option<u64>)
        requires
            self@.wf(),
            counts_fit(token_counts(span(self@.messages, since))),
        ensures
            ({
                let n = total(token_counts(span(self@.messages, since)));
                r == (if n > 0 {
                    Some(n as u64)
                } else {
                    None
                })
            }),
    {
        let n: i64 = sum(&self.pending_counts(since));
        if n > 0 {
            Some(n as u64)
        } else {
            None
        }
    }

    /// The tokens of all raw messages.
    pub fn raw_tokens(&self) -> (n: i64)
        requires
            self@.wf(),
            counts_fit(token_counts(self@.messages)),
        ensures
            n == total(token_counts(self@.messages)),
    {
        let n: usize = self.messages.len();
        let mut counts: Vec<i64> = Vec::new();
        let mut i: usize = 0;
        while i < n
            invariant
                i <= n,
                n == self.messages@.len(),
                counts@.len() == i,
                forall|k: int|
                    0 <= k < i ==> #[trigger] counts@[k] == self@.messages[k].token_count,
            decreases n - i,
        {
            assert(self@.messages[i as int] == self.messages@[i as int]@);
            counts.push(self.messages[i].token_count);
            i += 1;
        }
        assert(counts@ =~= token_counts(self@.messages));
        sum(&counts)
    }

    /// The place that the next message will have; `None` while there are no
    /// messages.
    pub fn latest_position(&self) -> (r: Option<u64>)
        requires
            self@.wf(),
        ensures
            r == (if self@.messages.len() == 0 {
                None
            } else {
                Some((self@.messages.last().seq + 1) as u64)
            }),
    {
        let n: usize = self.messages.len();
        if n == 0 {
            return None;
        }
        assert(self@.messages.last() == self.messages@[n - 1]@);
        assert(0 <= self@.messages[n - 1].seq < i64::MAX);
        Some((self.messages[n - 1].seq + 1) as u64)
    }
}

proof fn lemma_kept_is_final(messages: Seq<StoredView>, max_tokens: nat, i: nat, n: nat)
    requires
        i <= n,
        i == n || kept_of(messages, max_tokens, i) < i,
    ensures
        kept_of(messages, max_tokens, n) == kept_of(messages, max_tokens, i),
        kept_of(messages, max_tokens, n) <= n,
    decreases n - i,
{
    if i < n {
        lemma_kept_is_final(messages, max_tokens, i, (n - 1) as nat);
    } else {
        lemma_kept_bound(messages, max_tokens, n);
    }
}

proof fn lemma_kept_bound(messages: Seq<StoredView>, max_tokens: nat, n: nat)
    ensures
        kept_of(messages, max_tokens, n) <= n,
    decreases n,
{
    if n > 0 {
        lemma_kept_bound(messages, max_tokens, (n - 1) as nat);
    }
}

// ── Where a tool result came from ───────────────────────────────────

/// The arguments of the first `file_read` call with an id among parts.
pub open spec fn read_input(parts: Seq<PartView>, call_id: Seq<char>) -> Option<Seq<char>>
    decreases parts.len(),
{
    if parts.len() == 0 {
        None
    } else {
        match read_input(parts.drop_last(), call_id) {
            Some(input) => Some(input),
            None => match parts.last() {
                PartView::ToolCall { id, name, input, .. } => if id == call_id && name
                    == "file_read"@ {
                    Some(input)
                } else {
                    None
                },
                _ => None,
            },
        }
    }
}

/// The arguments of the newest `file_read` call with an id.
pub open spec fn newest_read(messages: Seq<StoredView>, call_id: Seq<char>) -> Option<Seq<char>>
    decreases messages.len(),
{
    if messages.len() == 0 {
        None
    } else {
        match read_input(messages.last().parts, call_id) {
            Some(input) => Some(input),
            None => newest_read(messages.drop_last(), call_id),
        }
    }
}

/// The arguments of the first `file_read` call with an id among parts.
fn find_read(parts: &Vec<Part>, call_id: &str) -> (r: Option<String>)
    ensures
        text_view(r) == read_input(part_views(parts@), call_id@),
{
    let ghost all = part_views(parts@);
    let n: usize = parts.len();
    let mut i: usize = 0;
    let mut found: Option<String> = None;
    assert(all.take(0) =~= Seq::empty());
    while i < n
        invariant
            i <= n,
            n == parts@.len(),
            all == part_views(parts@),
            text_view(found) == read_input(all.take(i as int), call_id@),
        decreases n - i,
    {
        assert(all.take(i + 1).drop_last() =~= all.take(i as int));
        assert(all.take(i + 1).last() == parts@[i as int]@);
        if found.is_none() {
            if let Part::ToolCall { id, name, input, .. } = &parts[i] {
                if same(id.as_str(), call_id) && same(name.as_str(), "file_read") {
                    found = Some(input.clone());
                }
            }
        }
        i += 1;
    }
    assert(all.take(n as int) =~= all);
    found
}

impl Conversation {
    /// The path of the `file_read` call that a tool result answers. `None`
    /// where the result came from another tool, the call is not stored, or
    /// its arguments name no path.
    pub fn lookup_file_read_path(&self, call_id: &str) -> (r: Option<String>)
        ensures
            text_view(r) == match newest_read(self@.messages, call_id@) {
                Some(input) => path_argument(input),
                None => None,
            },
    {
        let ghost all = self@.messages;
        let mut i: usize = self.messages.len();
        assert(all.take(i as int) =~= all);
        while i > 0
            invariant
                i <= self.messages@.len(),
                all == self@.messages,
                newest_read(all, call_id@) == newest_read(all.take(i as int), call_id@),
            decreases i,
        {
            i -= 1;
            assert(all.take(i + 1).drop_last() =~= all.take(i as int));
            assert(all.take(i + 1).last() == self.messages@[i as int]@);
            if let Some(input) = find_read(&self.messages[i].parts, call_id) {
                return read_path_argument(input.as_str());
            }
        }
        None
    }
}

// ── What reading gives ──────────────────────────────────────────────

/// What is left to read is every message from the mark on, in order.
pub proof fn a_span_is_every_message_from_the_mark(messages: Seq<StoredView>, after: u64)
    ensures
        span(messages, after) == messages.filter(|m: StoredView| m.seq >= after),
    decreases messages.len(),
{
    reveal(Seq::filter);
    if messages.len() > 0 {
        a_span_is_every_message_from_the_mark(messages.drop_last(), after);
    } else {
        assert(span(messages, after) =~= messages.filter(|m: StoredView| m.seq >= after));
    }
}

/// Messages are read as they were, each in its place; reading fails only where
/// one cannot be put together.
pub proof fn every_message_is_read(messages: Seq<StoredView>)
    ensures
        read_all(messages) is Ok <==> forall|i: int|
            0 <= i < messages.len() ==> read_one(#[trigger] messages[i]) is Ok,
        read_all(messages) matches Ok(read) ==> read.len() == messages.len() && forall|i: int|
            0 <= i < messages.len() ==> read[i] == read_one(#[trigger] messages[i])->Ok_0,
    decreases messages.len(),
{
    if messages.len() > 0 {
        let rest = messages.drop_last();
        every_message_is_read(rest);
        assert(messages[messages.len() - 1] == messages.last());
        assert(forall|i: int| 0 <= i < rest.len() ==> #[trigger] rest[i] == messages[i]);
        assert(forall|i: int| 0 <= i < rest.len() ==> rest[i] == #[trigger] messages[i]);
        if let Ok(before) = read_all(rest) {
            assert forall|i: int| 0 <= i < rest.len() implies read_one(
                #[trigger] messages[i],
            ) is Ok && before[i] == read_one(messages[i])->Ok_0 by {
                assert(rest[i] == messages[i]);
            }
            if let Ok(msg) = read_one(messages.last()) {
                let read = before.push(msg);
                assert forall|i: int| 0 <= i < messages.len() implies read[i] == read_one(
                    #[trigger] messages[i],
                )->Ok_0 by {
                    if i < rest.len() {
                        assert(rest[i] == messages[i]);
                    }
                }
            }
        } else {
            let i = choose|i: int| 0 <= i < rest.len() && read_one(#[trigger] rest[i]) is Err;
            assert(messages[i] == rest[i]);
        }
    }
}

/// A stored message, put together.
pub open spec fn read_one(m: StoredView) -> Result<MessageView, RowFault> {
    message_of(m.message_id, m.role, m.content, m.parts)
}

/// The budget counts every token: where no count is below zero, the tokens of
/// the first messages are the sum of their counts.
pub proof fn budgets_count_every_token(messages: Seq<StoredView>, n: nat)
    requires
        n <= messages.len(),
        forall|i: int| 0 <= i < n ==> (#[trigger] messages[i]).token_count >= 0,
    ensures
        tokens_of_first(messages, n) == total(token_counts(messages.take(n as int))),
    decreases n,
{
    let counts = token_counts(messages.take(n as int));
    if n > 0 {
        budgets_count_every_token(messages, (n - 1) as nat);
        assert(counts.drop_last() =~= token_counts(messages.take(n - 1)));
        assert(counts.last() == messages[n - 1].token_count);
    }
}

/// Whether a part is the `file_read` call with an id.
pub open spec fn is_read_call(p: PartView, call_id: Seq<char>) -> bool {
    p matches PartView::ToolCall { id, name, .. } && id == call_id && name == "file_read"@
}

proof fn lemma_read_input(parts: Seq<PartView>, call_id: Seq<char>)
    ensures
        read_input(parts, call_id) is None <==> forall|i: int|
            0 <= i < parts.len() ==> !is_read_call(#[trigger] parts[i], call_id),
        read_input(parts, call_id) matches Some(x) ==> exists|i: int|
            0 <= i < parts.len() && is_read_call(#[trigger] parts[i], call_id) && (
            parts[i] matches PartView::ToolCall { input, .. } && input == x),
    decreases parts.len(),
{
    if parts.len() > 0 {
        let rest = parts.drop_last();
        lemma_read_input(rest, call_id);
        assert(parts[parts.len() - 1] == parts.last());
        assert(forall|i: int| 0 <= i < rest.len() ==> #[trigger] rest[i] == parts[i]);
        assert(forall|i: int| 0 <= i < rest.len() ==> rest[i] == #[trigger] parts[i]);
        if let Some(x) = read_input(rest, call_id) {
            let i = choose|i: int|
                0 <= i < rest.len() && is_read_call(#[trigger] rest[i], call_id) && (
                rest[i] matches PartView::ToolCall { input, .. } && input == x);
            assert(parts[i] == rest[i]);
            assert(is_read_call(parts[i], call_id));
        }
    }
}

/// The path of a tool result comes from the `file_read` call that it answers,
/// in the newest message that has such a call, and there is none only where no
/// message has one.
pub proof fn a_result_is_traced_to_its_call(messages: Seq<StoredView>, call_id: Seq<char>)
    ensures
        newest_read(messages, call_id) is None <==> forall|k: int|
            0 <= k < messages.len() ==> read_input(
                (#[trigger] messages[k]).parts,
                call_id,
            ) is None,
        newest_read(messages, call_id) matches Some(x) ==> exists|k: int, i: int| #[trigger]
            reads_at(messages, call_id, k, i, x) && forall|j: int|
                k < j < messages.len() ==> read_input((#[trigger] messages[j]).parts, call_id) is None,
    decreases messages.len(),
{
    if messages.len() > 0 {
        let rest = messages.drop_last();
        let n = messages.len() - 1;
        a_result_is_traced_to_its_call(rest, call_id);
        lemma_read_input(messages.last().parts, call_id);
        assert(messages[n] == messages.last());
        assert(forall|i: int| 0 <= i < rest.len() ==> #[trigger] rest[i] == messages[i]);
        assert(forall|i: int| 0 <= i < rest.len() ==> rest[i] == #[trigger] messages[i]);
        match read_input(messages.last().parts, call_id) {
            Some(x) => {
                let parts = messages.last().parts;
                let i = choose|i: int|
                    0 <= i < parts.len() && is_read_call(#[trigger] parts[i], call_id) && (
                    parts[i] matches PartView::ToolCall { input, .. } && input == x);
                assert(reads_at(messages, call_id, n, i, x));
            },
            None => {
                if let Some(x) = newest_read(rest, call_id) {
                    let (k, i) = choose|k: int, i: int| #[trigger]
                        reads_at(rest, call_id, k, i, x) && forall|j: int|
                            k < j < rest.len() ==> read_input(
                                (#[trigger] rest[j]).parts,
                                call_id,
                            ) is None;
                    assert(messages[k] == rest[k]);
                    assert(reads_at(messages, call_id, k, i, x));
                    assert forall|j: int| k < j < messages.len() implies read_input(
                        (#[trigger] messages[j]).parts,
                        call_id,
                    ) is None by {
                        if j < rest.len() {
                            assert(rest[j] == messages[j]);
                        }
                    }
                }
            },
        }
    }
}

/// Whether part `i` of message `k` is the `file_read` call with an id, made
/// with these arguments.
pub open spec fn reads_at(
    messages: Seq<StoredView>,
    call_id: Seq<char>,
    k: int,
    i: int,
    x: Seq<char>,
) -> bool {
    &&& 0 <= k < messages.len()
    &&& 0 <= i < messages[k].parts.len()
    &&& is_read_call(messages[k].parts[i], call_id)
    &&& messages[k].parts[i] matches PartView::ToolCall { input, .. } && input == x
}

} // verus!
