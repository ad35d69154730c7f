//! A conversation: its raw messages, its summaries, and the active context
//! that points into both.
//!
//! Raw messages are only ever added. Compaction and clearing change the
//! active context alone.

pub mod compact;
pub mod history;

use vstd::prelude::*;

use crate::context::lcm::assemble::{
    assemble_views, assembled, has_summary, path_arguments, segment_of, shown_all, AssembleRow,
    AssembleView,
};
use crate::context::lcm::chunks::{
    entry_views, row_views, slot_view, slot_views, CondensedRow, CondensedRowView, MessageRow,
    MessageRowView,
};
use crate::context::lcm::compaction::{
    is_ordered, item_views, replaced_range, ContextItem, ItemRef, ItemView, RefView, Summary,
    SummaryView,
};
use crate::context::lcm::counts::{
    are_countable, counts_fit, stored_count, sum, to_stored_count, total,
};
use crate::context::lcm::rows::{
    calls_in, decompose, message_of, part_views, parts_of, role_of, role_str,
    stored_message_reads_back, Part, PartView, RowFault,
};
use crate::text::same;
use crate::types::{CallView, Message, MessageView};

verus! {

// ── Stored rows ─────────────────────────────────────────────────────

/// A raw message.
pub struct StoredMessage {
    pub message_id: i64,
    /// Its place in the conversation.
    pub seq: i64,
    pub role: String,
    pub content: String,
    pub token_count: i64,
    pub created_at: String,
    pub parts: Vec<Part>,
}

/// The view of a [`StoredMessage`].
pub struct StoredView {
    pub message_id: i64,
    pub seq: i64,
    pub role: Seq<char>,
    pub content: Seq<char>,
    pub token_count: i64,
    pub created_at: Seq<char>,
    pub parts: Seq<PartView>,
}

impl View for StoredMessage {
    type V = StoredView;

    open spec fn view(&self) -> StoredView {
        StoredView {
            message_id: self.message_id,
            seq: self.seq,
            role: self.role@,
            content: self.content@,
            token_count: self.token_count,
            created_at: self.created_at@,
            parts: part_views(self.parts@),
        }
    }
}

/// The views of raw messages.
pub open spec fn stored_views(messages: Seq<StoredMessage>) -> Seq<StoredView> {
    messages.map_values(|m: StoredMessage| m@)
}

/// The views of summaries.
pub open spec fn summary_views(summaries: Seq<Summary>) -> Seq<SummaryView> {
    summaries.map_values(|s: Summary| s@)
}

/// A conversation.
pub struct Conversation {
    messages: Vec<StoredMessage>,
    summaries: Vec<Summary>,
    items: Vec<ContextItem>,
}

/// The view of a [`Conversation`].
pub struct ConversationView {
    pub messages: Seq<StoredView>,
    pub summaries: Seq<SummaryView>,
    pub items: Seq<ItemView>,
}

impl View for Conversation {
    type V = ConversationView;

    closed spec fn view(&self) -> ConversationView {
        ConversationView {
            messages: stored_views(self.messages@),
            summaries: summary_views(self.summaries@),
            items: item_views(self.items@),
        }
    }
}

/// The raw message with an id.
pub open spec fn message_with(messages: Seq<StoredView>, id: i64) -> Option<StoredView>
    decreases messages.len(),
{
    if messages.len() == 0 {
        None
    } else if messages.last().message_id == id {
        Some(messages.last())
    } else {
        message_with(messages.drop_last(), id)
    }
}

/// The summary with an id.
pub open spec fn summary_with(summaries: Seq<SummaryView>, id: Seq<char>) -> Option<SummaryView>
    decreases summaries.len(),
{
    if summaries.len() == 0 {
        None
    } else if summaries.last().summary_id == id {
        Some(summaries.last())
    } else {
        summary_with(summaries.drop_last(), id)
    }
}

impl ConversationView {
    /// Whether an item of the active context points to something.
    pub open spec fn resolves(self, item: ItemView) -> bool {
        match item.item {
            RefView::Message(id) => message_with(self.messages, id) is Some,
            RefView::Summary(id) => summary_with(self.summaries, id) is Some,
        }
    }

    /// Whether messages are in order, the active context is in order, and
    /// each item of it points to something.
    pub open spec fn wf(self) -> bool {
        &&& forall|i: int, j: int|
            0 <= i < j < self.messages.len() ==> (#[trigger] self.messages[i]).seq < (
            #[trigger] self.messages[j]).seq
        &&& forall|i: int|
            0 <= i < self.messages.len() ==> 0 <= (#[trigger] self.messages[i]).seq < i64::MAX
        &&& is_ordered(self.items)
        &&& forall|i: int| 0 <= i < self.items.len() ==> #[trigger] self.resolves(self.items[i])
    }

    /// An item of the active context with what it stands for.
    pub open spec fn entry(self, item: ItemView) -> AssembleView {
        match item.item {
            RefView::Message(id) => {
                let m = message_with(self.messages, id)->0;
                AssembleView::Message {
                    message_id: m.message_id,
                    role: m.role,
                    content: m.content,
                    parts: m.parts,
                }
            },
            RefView::Summary(id) => {
                let s = summary_with(self.summaries, id)->0;
                AssembleView::Summary {
                    id: s.summary_id,
                    kind: s.kind,
                    depth: s.depth,
                    content: s.content,
                    earliest_at: s.earliest_at,
                    latest_at: s.latest_at,
                }
            },
        }
    }

    /// The active context with what it stands for.
    pub open spec fn entries(self) -> Seq<AssembleView> {
        self.items.map_values(|i: ItemView| self.entry(i))
    }

    /// The token count of an item of the active context.
    pub open spec fn count(self, item: ItemView) -> i64 {
        match item.item {
            RefView::Message(id) => message_with(self.messages, id)->0.token_count,
            RefView::Summary(id) => summary_with(self.summaries, id)->0.token_count,
        }
    }

    /// The token counts of the active context.
    pub open spec fn counts(self) -> Seq<i64> {
        self.items.map_values(|i: ItemView| self.count(i))
    }

    /// The message that an item of the active context stands for.
    pub open spec fn message_row(self, item: ItemView) -> MessageRowView {
        let m = message_with(self.messages, item.item->Message_0)->0;
        MessageRowView {
            ordinal: item.ordinal,
            message_id: m.message_id,
            role: m.role,
            content: m.content,
            token_count: m.token_count,
            created_at: m.created_at,
            parts: m.parts,
        }
    }

    /// The raw messages among some items of the active context.
    pub open spec fn rows_among(self, items: Seq<ItemView>) -> Seq<MessageRowView>
        decreases items.len(),
    {
        if items.len() == 0 {
            Seq::empty()
        } else {
            let rest = self.rows_among(items.drop_last());
            if items.last().item is Message {
                rest.push(self.message_row(items.last()))
            } else {
                rest
            }
        }
    }

    /// The raw messages of the active context.
    pub open spec fn rows(self) -> Seq<MessageRowView> {
        self.rows_among(self.items)
    }

    /// The message that an item of the active context stands for; `None` for
    /// a summary.
    pub open spec fn raw_row(self, item: ItemView) -> Option<MessageRowView> {
        if item.item is Message {
            Some(self.message_row(item))
        } else {
            None
        }
    }

    /// The active context as messages, with `None` for a summary.
    pub open spec fn message_rows(self) -> Seq<Option<MessageRowView>> {
        self.items.map_values(|i: ItemView| self.raw_row(i))
    }

    /// The summary that an item of the active context stands for; `None` for
    /// a message.
    pub open spec fn summary_row(self, item: ItemView) -> Option<CondensedRowView> {
        match item.item {
            RefView::Message(_) => None,
            RefView::Summary(id) => {
                let s = summary_with(self.summaries, id)->0;
                Some(
                    CondensedRowView {
                        ordinal: item.ordinal,
                        summary_id: s.summary_id,
                        depth: s.depth,
                        token_count: s.token_count,
                        earliest_at: s.earliest_at,
                        latest_at: s.latest_at,
                        descendant_count: s.descendant_count,
                        descendant_token_count: s.descendant_token_count,
                        source_message_token_count: s.source_message_token_count,
                        content: s.content,
                    },
                )
            },
        }
    }

    /// The summaries of the active context.
    pub open spec fn summary_rows(self) -> Seq<Option<CondensedRowView>> {
        self.items.map_values(|i: ItemView| self.summary_row(i))
    }

    /// The next place in the conversation.
    pub open spec fn next_seq(self) -> int {
        if self.messages.len() == 0 {
            0
        } else {
            self.messages.last().seq + 1
        }
    }

    /// The next place in the active context.
    pub open spec fn next_ordinal(self) -> int {
        if self.items.len() == 0 {
            0
        } else {
            self.items.last().ordinal + 1
        }
    }

    /// Whether there is a next place for a message.
    pub open spec fn has_room(self) -> bool {
        self.next_seq() < i64::MAX && self.next_ordinal() <= i64::MAX
    }

    /// The row of a message.
    pub open spec fn stored(self, id: i64, msg: MessageView, now: Seq<char>) -> StoredView {
        StoredView {
            message_id: id,
            seq: self.next_seq() as i64,
            role: role_of(msg),
            content: msg.content(),
            token_count: stored_count(msg.chars() / 4) as i64,
            created_at: now,
            parts: parts_of(msg),
        }
    }

    /// The conversation with a message at its end.
    pub open spec fn pushed(self, id: i64, msg: MessageView, now: Seq<char>) -> ConversationView {
        ConversationView {
            messages: self.messages.push(self.stored(id, msg, now)),
            summaries: self.summaries,
            items: self.items.push(
                ItemView { ordinal: self.next_ordinal() as i64, item: RefView::Message(id) },
            ),
        }
    }

    /// The conversation with an empty active context.
    pub open spec fn cleared(self) -> ConversationView {
        ConversationView { items: Seq::empty(), ..self }
    }

    /// The conversation with a summary in place of a range of the active
    /// context.
    pub open spec fn condensed(self, summary: SummaryView, first: i64, last: i64)
        -> ConversationView {
        ConversationView {
            messages: self.messages,
            summaries: self.summaries.push(summary),
            items: replaced_range(self.items, first, last, summary.summary_id),
        }
    }

    /// The place of the newest message of the user.
    pub open spec fn pin(self) -> Option<i64> {
        newest_user_seq(self.messages)
    }

    /// Whether an item of the active context is a raw message.
    pub open spec fn shows(self, id: i64) -> bool {
        exists|i: int| 0 <= i < self.items.len() && (#[trigger] self.items[i]).item == RefView::Message(id)
    }

    /// Whether a message after place `pin` is no longer in the active context.
    pub open spec fn hidden_after(self, pin: i64) -> bool {
        exists|i: int|
            0 <= i < self.messages.len() && (#[trigger] self.messages[i]).seq > pin && !self.shows(
                self.messages[i].message_id,
            )
    }

    /// The list of files written for the request. While every message since
    /// is in the active context there is none: the calls are in plain sight.
    pub open spec fn written(self) -> Option<Seq<char>> {
        match self.pin() {
            None => None,
            Some(pin) => if self.hidden_after(pin) {
                segment_of(path_arguments(writes_after(self.messages, pin)))
            } else {
                None
            },
        }
    }

    /// The messages of a request.
    pub open spec fn request(self, prompt: Seq<char>) -> Result<Seq<MessageView>, RowFault> {
        assembled(self.entries(), prompt, self.written())
    }
}

/// The place of the newest message of the user.
pub open spec fn newest_user_seq(messages: Seq<StoredView>) -> Option<i64>
    decreases messages.len(),
{
    if messages.len() == 0 {
        None
    } else if messages.last().role == "user"@ {
        Some(messages.last().seq)
    } else {
        newest_user_seq(messages.drop_last())
    }
}

/// Whether a tool writes a file.
pub open spec fn is_write(name: Seq<char>) -> bool {
    name == "file_write"@ || name == "file_edit"@
}

/// The arguments of the calls that wrote a file, the last call first.
pub open spec fn write_inputs(calls: Seq<CallView>) -> Seq<Seq<char>>
    decreases calls.len(),
{
    if calls.len() == 0 {
        Seq::empty()
    } else if is_write(calls.last().name) {
        seq![calls.last().arguments] + write_inputs(calls.drop_last())
    } else {
        write_inputs(calls.drop_last())
    }
}

/// The arguments of the calls that wrote a file after place `pin`, newest
/// first.
pub open spec fn writes_after(messages: Seq<StoredView>, pin: i64) -> Seq<Seq<char>>
    decreases messages.len(),
{
    if messages.len() == 0 {
        Seq::empty()
    } else if messages.last().seq > pin {
        write_inputs(calls_in(messages.last().parts)) + writes_after(messages.drop_last(), pin)
    } else {
        writes_after(messages.drop_last(), pin)
    }
}

// ── Looking things up ───────────────────────────────────────────────

proof fn lemma_message_with_push(messages: Seq<StoredView>, m: StoredView, id: i64)
    ensures
        message_with(messages.push(m), id) == (if m.message_id == id {
            Some(m)
        } else {
            message_with(messages, id)
        }),
{
    assert(messages.push(m).drop_last() =~= messages);
}

proof fn lemma_summary_with_push(summaries: Seq<SummaryView>, s: SummaryView, id: Seq<char>)
    ensures
        summary_with(summaries.push(s), id) == (if s.summary_id == id {
            Some(s)
        } else {
            summary_with(summaries, id)
        }),
{
    assert(summaries.push(s).drop_last() =~= summaries);
}

/// Where the raw message with an id stands.
fn find_message(messages: &Vec<StoredMessage>, id: i64) -> (r: Option<usize>)
    ensures
        match r {
            Some(k) => k < messages@.len() && message_with(stored_views(messages@), id) == Some(
                messages@[k as int]@,
            ),
            None => message_with(stored_views(messages@), id) is None,
        },
{
    let ghost all = stored_views(messages@);
    let mut i: usize = messages.len();
    assert(all.take(i as int) =~= all);
    while i > 0
        invariant
            i <= messages@.len(),
            all == stored_views(messages@),
            message_with(all, id) == message_with(all.take(i as int), id),
        decreases i,
    {
        i -= 1;
        assert(all.take(i + 1).drop_last() =~= all.take(i as int));
        assert(all.take(i + 1).last() == messages@[i as int]@);
        if messages[i].message_id == id {
            return Some(i);
        }
    }
    None
}

/// Where the summary with an id stands.
fn find_summary(summaries: &Vec<Summary>, id: &str) -> (r: Option<usize>)
    ensures
        match r {
            Some(k) => k < summaries@.len() && summary_with(summary_views(summaries@), id@) == Some(
                summaries@[k as int]@,
            ),
            None => summary_with(summary_views(summaries@), id@) is None,
        },
{
    let ghost all = summary_views(summaries@);
    let mut i: usize = summaries.len();
    assert(all.take(i as int) =~= all);
    while i > 0
        invariant
            i <= summaries@.len(),
            all == summary_views(summaries@),
            summary_with(all, id@) == summary_with(all.take(i as int), id@),
        decreases i,
    {
        i -= 1;
        assert(all.take(i + 1).drop_last() =~= all.take(i as int));
        assert(all.take(i + 1).last() == summaries@[i as int]@);
        if same(summaries[i].summary_id.as_str(), id) {
            return Some(i);
        }
    }
    None
}

/// Copies the parts of a message.
pub fn copy_parts(parts: &Vec<Part>) -> (out: Vec<Part>)
    ensures
        part_views(out@) == part_views(parts@),
{
    let n: usize = parts.len();
    let mut out: Vec<Part> = Vec::new();
    let mut i: usize = 0;
    while i < n
        invariant
            i <= n,
            n == parts@.len(),
            out@.len() == i,
            forall|k: int| 0 <= k < i ==> (#[trigger] out@[k])@ == parts@[k]@,
        decreases n - i,
    {
        out.push(parts[i].clone());
        i += 1;
    }
    assert(part_views(out@) =~= part_views(parts@));
    out
}

// ── Operations ──────────────────────────────────────────────────────

impl Conversation {
    /// A conversation without messages.
    pub fn new() -> (r: Self)
        ensures
            r@.wf(),
            r@.messages == Seq::<StoredView>::empty(),
            r@.summaries == Seq::<SummaryView>::empty(),
            r@.items == Seq::<ItemView>::empty(),
    {
        let r = Conversation { messages: Vec::new(), summaries: Vec::new(), items: Vec::new() };
        assert(r@.messages =~= Seq::empty());
        assert(r@.summaries =~= Seq::empty());
        assert(r@.items =~= Seq::empty());
        r
    }

    /// A conversation from its stored rows; `None` where they make up none.
    pub fn load(
        messages: Vec<StoredMessage>,
        summaries: Vec<Summary>,
        items: Vec<ContextItem>,
    ) -> (r: Option<Self>)
        ensures
            ({
                let v = ConversationView {
                    messages: stored_views(messages@),
                    summaries: summary_views(summaries@),
                    items: item_views(items@),
                };
                match r {
                    Some(c) => c@ == v && v.wf(),
                    None => !v.wf(),
                }
            }),
    {
        let ghost v = ConversationView {
            messages: stored_views(messages@),
            summaries: summary_views(summaries@),
            items: item_views(items@),
        };
        let n: usize = messages.len();
        let mut i: usize = 0;
        while i < n
            invariant
                i <= n,
                n == messages@.len(),
                v.messages == stored_views(messages@),
                v.summaries == summary_views(summaries@),
                v.items == item_views(items@),
                forall|k: int| 0 <= k < i ==> 0 <= (#[trigger] v.messages[k]).seq < i64::MAX,
                forall|j: int, k: int|
                    0 <= j < k < i ==> (#[trigger] v.messages[j]).seq < (
                    #[trigger] v.messages[k]).seq,
            decreases n - i,
        {
            assert(v.messages[i as int] == messages@[i as int]@);
            if messages[i].seq < 0 || messages[i].seq == i64::MAX {
                return None;
            }
            if i > 0 {
                assert(v.messages[i - 1] == messages@[i - 1]@);
                if messages[i - 1].seq >= messages[i].seq {
                    return None;
                }
            }
            i += 1;
        }
        let count: usize = items.len();
        i = 0;
        while i < count
            invariant
                i <= count,
                count == items@.len(),
                v.messages == stored_views(messages@),
                v.summaries == summary_views(summaries@),
                v.items == item_views(items@),
                forall|j: int, k: int|
                    0 <= j < k < i ==> (#[trigger] v.items[j]).ordinal < (
                    #[trigger] v.items[k]).ordinal,
                forall|k: int| 0 <= k < i ==> #[trigger] v.resolves(v.items[k]),
            decreases count - i,
        {
            assert(v.items[i as int] == items@[i as int]@);
            if i > 0 {
                assert(v.items[i - 1] == items@[i - 1]@);
                if items[i - 1].ordinal >= items[i].ordinal {
                    return None;
                }
            }
            let found = match &items[i].item {
                ItemRef::Message(id) => find_message(&messages, *id).is_some(),
                ItemRef::Summary(id) => find_summary(&summaries, id.as_str()).is_some(),
            };
            assert(found == v.resolves(v.items[i as int]));
            if !found {
                return None;
            }
            i += 1;
        }
        Some(Conversation { messages, summaries, items })
    }

    /// How many raw messages there are.
    pub fn message_count(&self) -> (n: usize)
        ensures
            n == self@.messages.len(),
    {
        self.messages.len()
    }

    /// How many items the active context has.
    pub fn item_count(&self) -> (n: usize)
        ensures
            n == self@.items.len(),
    {
        self.items.len()
    }

    /// How many summaries there are.
    pub fn summary_count(&self) -> (n: usize)
        ensures
            n == self@.summaries.len(),
    {
        self.summaries.len()
    }

    /// A raw message.
    pub fn message(&self, i: usize) -> (r: &StoredMessage)
        requires
            i < self@.messages.len(),
        ensures
            r@ == self@.messages[i as int],
    {
        &self.messages[i]
    }

    /// A summary.
    pub fn summary(&self, i: usize) -> (r: &Summary)
        requires
            i < self@.summaries.len(),
        ensures
            r@ == self@.summaries[i as int],
    {
        &self.summaries[i]
    }

    /// The summary with an id.
    pub fn find(&self, id: &str) -> (r: Option<&Summary>)
        ensures
            match r {
                Some(s) => summary_with(self@.summaries, id@) == Some(s@),
                None => summary_with(self@.summaries, id@) is None,
            },
    {
        match find_summary(&self.summaries, id) {
            Some(k) => Some(&self.summaries[k]),
            None => None,
        }
    }

    /// An item of the active context.
    pub fn item(&self, i: usize) -> (r: &ContextItem)
        requires
            i < self@.items.len(),
        ensures
            r@ == self@.items[i as int],
    {
        &self.items[i]
    }

    /// Whether a message id is taken.
    pub fn has_message(&self, id: i64) -> (r: bool)
        ensures
            r == (message_with(self@.messages, id) is Some),
    {
        find_message(&self.messages, id).is_some()
    }

    /// Whether there is a next place for a message.
    pub fn has_room(&self) -> (r: bool)
        ensures
            r == self@.has_room(),
    {
        let seq_left = match self.messages.len() {
            0 => true,
            n => {
                assert(self@.messages.last() == self.messages@[n - 1]@);
                self.messages[n - 1].seq < i64::MAX - 1
            },
        };
        let ordinal_left = match self.items.len() {
            0 => true,
            n => {
                assert(self@.items.last() == self.items@[n - 1]@);
                self.items[n - 1].ordinal < i64::MAX
            },
        };
        seq_left && ordinal_left
    }

    /// Stores a message, and adds it to the active context.
    pub fn push_message(&mut self, id: i64, msg: &Message, now: &str)
        requires
            old(self)@.wf(),
            old(self)@.has_room(),
            message_with(old(self)@.messages, id) is None,
            msg@.chars() <= usize::MAX,
        ensures
            final(self)@ == old(self)@.pushed(id, msg@, now@),
            final(self)@.wf(),
    {
        let ghost before = self@;
        let seq: i64 = match self.messages.len() {
            0 => 0,
            n => {
                assert(self@.messages.last() == self.messages@[n - 1]@);
                self.messages[n - 1].seq + 1
            },
        };
        let ordinal: i64 = match self.items.len() {
            0 => 0,
            n => {
                assert(self@.items.last() == self.items@[n - 1]@);
                self.items[n - 1].ordinal + 1
            },
        };
        let ghost old_messages = self.messages@;
        let ghost old_items = self.items@;
        let row = StoredMessage {
            message_id: id,
            seq,
            role: role_str(msg).to_owned(),
            content: msg.content().to_owned(),
            token_count: to_stored_count(msg.token_estimate()),
            created_at: now.to_owned(),
            parts: decompose(msg),
        };
        assert(row@ == before.stored(id, msg@, now@));
        self.messages.push(row);
        let item = ContextItem { ordinal, item: ItemRef::Message(id) };
        self.items.push(item);
        proof {
            let after = before.pushed(id, msg@, now@);
            assert(stored_views(self.messages@) =~= stored_views(old_messages).push(row@));
            assert(item_views(self.items@) =~= item_views(old_items).push(item@));
            assert(self@ == after);
            lemma_pushed_is_wf(before, id, msg@, now@);
        }
    }

    /// Empties the active context. Raw messages and summaries stay.
    pub fn clear(&mut self)
        requires
            old(self)@.wf(),
        ensures
            final(self)@ == old(self)@.cleared(),
            final(self)@.wf(),
    {
        self.items = Vec::new();
        assert(item_views(self.items@) =~= Seq::empty());
    }

    /// The active context with what it stands for.
    pub fn entries(&self) -> (out: Vec<AssembleRow>)
        requires
            self@.wf(),
        ensures
            assemble_views(out@) == self@.entries(),
    {
        let n: usize = self.items.len();
        let mut out: Vec<AssembleRow> = Vec::new();
        let mut i: usize = 0;
        while i < n
            invariant
                i <= n,
                n == self.items@.len(),
                self@.wf(),
                out@.len() == i,
                forall|k: int| 0 <= k < i ==> (#[trigger] out@[k])@ == self@.entry(self@.items[k]),
            decreases n - i,
        {
            assert(self@.items[i as int] == self.items@[i as int]@);
            assert(self@.resolves(self@.items[i as int]));
            match &self.items[i].item {
                ItemRef::Message(id) => {
                    if let Some(k) = find_message(&self.messages, *id) {
                        let m = &self.messages[k];
                        out.push(
                            AssembleRow::Message {
                                message_id: m.message_id,
                                role: m.role.clone(),
                                content: m.content.clone(),
                                parts: copy_parts(&m.parts),
                            },
                        );
                    }
                },
                ItemRef::Summary(id) => {
                    if let Some(k) = find_summary(&self.summaries, id.as_str()) {
                        let s = &self.summaries[k];
                        out.push(
                            AssembleRow::Summary {
                                id: s.summary_id.clone(),
                                kind: s.kind.clone(),
                                depth: s.depth,
                                content: s.content.clone(),
                                earliest_at: s.earliest_at.clone(),
                                latest_at: s.latest_at.clone(),
                            },
                        );
                    }
                },
            }
            i += 1;
        }
        assert(assemble_views(out@) =~= self@.entries());
        out
    }

    /// The raw messages of the active context.
    pub fn rows(&self) -> (out: Vec<MessageRow>)
        requires
            self@.wf(),
        ensures
            row_views(out@) == self@.rows(),
    {
        let ghost items = self@.items;
        let n: usize = self.items.len();
        let mut out: Vec<MessageRow> = Vec::new();
        let mut i: usize = 0;
        assert(items.take(0) =~= Seq::empty());
        assert(row_views(out@) =~= self@.rows_among(items.take(0)));
        while i < n
            invariant
                i <= n,
                n == self.items@.len(),
                items == self@.items,
                self@.wf(),
                row_views(out@) == self@.rows_among(items.take(i as int)),
            decreases n - i,
        {
            assert(items.take(i + 1).drop_last() =~= items.take(i as int));
            assert(items.take(i + 1).last() == self.items@[i as int]@);
            assert(self@.resolves(self@.items[i as int]));
            let ordinal: i64 = self.items[i].ordinal;
            if let ItemRef::Message(id) = &self.items[i].item {
                if let Some(k) = find_message(&self.messages, *id) {
                    let m = &self.messages[k];
                    let ghost before = out@;
                    let row = MessageRow {
                        ordinal,
                        message_id: m.message_id,
                        role: m.role.clone(),
                        content: m.content.clone(),
                        token_count: m.token_count,
                        created_at: m.created_at.clone(),
                        parts: copy_parts(&m.parts),
                    };
                    out.push(row);
                    assert(row_views(out@) =~= row_views(before).push(row@));
                }
            }
            i += 1;
        }
        assert(items.take(n as int) =~= items);
        out
    }

    /// The active context as messages, with `None` for a summary.
    pub fn message_rows(&self) -> (out: Vec<Option<MessageRow>>)
        requires
            self@.wf(),
        ensures
            slot_views(out@) == self@.message_rows(),
    {
        let n: usize = self.items.len();
        let mut out: Vec<Option<MessageRow>> = Vec::new();
        let mut i: usize = 0;
        while i < n
            invariant
                i <= n,
                n == self.items@.len(),
                self@.wf(),
                out@.len() == i,
                forall|k: int|
                    0 <= k < i ==> slot_view(#[trigger] out@[k]) == self@.raw_row(self@.items[k]),
            decreases n - i,
        {
            assert(self@.items[i as int] == self.items@[i as int]@);
            assert(self@.resolves(self@.items[i as int]));
            let ordinal: i64 = self.items[i].ordinal;
            match &self.items[i].item {
                ItemRef::Message(id) => {
                    if let Some(k) = find_message(&self.messages, *id) {
                        let m = &self.messages[k];
                        out.push(
                            Some(
                                MessageRow {
                                    ordinal,
                                    message_id: m.message_id,
                                    role: m.role.clone(),
                                    content: m.content.clone(),
                                    token_count: m.token_count,
                                    created_at: m.created_at.clone(),
                                    parts: copy_parts(&m.parts),
                                },
                            ),
                        );
                    }
                },
                ItemRef::Summary(_) => {
                    out.push(None);
                },
            }
            i += 1;
        }
        assert(slot_views(out@) =~= self@.message_rows());
        out
    }

    /// The summaries of the active context.
    pub fn summary_rows(&self) -> (out: Vec<Option<CondensedRow>>)
        requires
            self@.wf(),
        ensures
            entry_views(out@) == self@.summary_rows(),
    {
        let n: usize = self.items.len();
        let mut out: Vec<Option<CondensedRow>> = Vec::new();
        let mut i: usize = 0;
        while i < n
            invariant
                i <= n,
                n == self.items@.len(),
                self@.wf(),
                out@.len() == i,
                forall|k: int|
                    0 <= k < i ==> (match (#[trigger] out@[k]) {
                        Some(r) => Some(r@),
                        None => None,
                    }) == self@.summary_row(self@.items[k]),
            decreases n - i,
        {
            assert(self@.items[i as int] == self.items@[i as int]@);
            assert(self@.resolves(self@.items[i as int]));
            let ordinal: i64 = self.items[i].ordinal;
            match &self.items[i].item {
                ItemRef::Message(_) => {
                    out.push(None);
                },
                ItemRef::Summary(id) => {
                    if let Some(k) = find_summary(&self.summaries, id.as_str()) {
                        let s = &self.summaries[k];
                        out.push(
                            Some(
                                CondensedRow {
                                    ordinal,
                                    summary_id: s.summary_id.clone(),
                                    depth: s.depth,
                                    token_count: s.token_count,
                                    earliest_at: s.earliest_at.clone(),
                                    latest_at: s.latest_at.clone(),
                                    descendant_count: s.descendant_count,
                                    descendant_token_count: s.descendant_token_count,
                                    source_message_token_count: s.source_message_token_count,
                                    content: s.content.clone(),
                                },
                            ),
                        );
                    }
                },
            }
            i += 1;
        }
        assert(entry_views(out@) =~= self@.summary_rows());
        out
    }

    /// The token counts of the active context.
    fn counts(&self) -> (out: Vec<i64>)
        requires
            self@.wf(),
        ensures
            out@ == self@.counts(),
    {
        let n: usize = self.items.len();
        let mut out: Vec<i64> = Vec::new();
        let mut i: usize = 0;
        while i < n
            invariant
                i <= n,
                n == self.items@.len(),
                self@.wf(),
                out@.len() == i,
                forall|k: int| 0 <= k < i ==> #[trigger] out@[k] == self@.count(self@.items[k]),
            decreases n - i,
        {
            assert(self@.items[i as int] == self.items@[i as int]@);
            assert(self@.resolves(self@.items[i as int]));
            match &self.items[i].item {
                ItemRef::Message(id) => {
                    if let Some(k) = find_message(&self.messages, *id) {
                        out.push(self.messages[k].token_count);
                    }
                },
                ItemRef::Summary(id) => {
                    if let Some(k) = find_summary(&self.summaries, id.as_str()) {
                        out.push(self.summaries[k].token_count);
                    }
                },
            }
            i += 1;
        }
        assert(out@ =~= self@.counts());
        out
    }

    /// Whether the token counts of the active context can be summed up.
    pub fn is_countable(&self) -> (r: bool)
        requires
            self@.wf(),
        ensures
            r == counts_fit(self@.counts()),
    {
        are_countable(&self.counts())
    }

    /// The tokens of the active context.
    pub fn tokens(&self) -> (n: i64)
        requires
            self@.wf(),
            counts_fit(self@.counts()),
        ensures
            n == total(self@.counts()),
    {
        sum(&self.counts())
    }
}

proof fn lemma_pushed_is_wf(v: ConversationView, id: i64, msg: MessageView, now: Seq<char>)
    requires
        v.wf(),
        v.has_room(),
        message_with(v.messages, id) is None,
    ensures
        v.pushed(id, msg, now).wf(),
        v.pushed(id, msg, now).entries() == v.entries().push(
            AssembleView::Message {
                message_id: id,
                role: role_of(msg),
                content: msg.content(),
                parts: parts_of(msg),
            },
        ),
{
    let after = v.pushed(id, msg, now);
    let row = v.stored(id, msg, now);
    assert forall|i: int| 0 <= i < after.items.len() implies {
        &&& #[trigger] after.resolves(after.items[i])
        &&& i < v.items.len() ==> after.entry(after.items[i]) == v.entry(v.items[i])
    } by {
        if i < v.items.len() {
            assert(after.items[i] == v.items[i]);
            assert(v.resolves(v.items[i]));
            if let RefView::Message(k) = v.items[i].item {
                lemma_message_with_push(v.messages, row, k);
            }
        } else {
            lemma_message_with_push(v.messages, row, id);
        }
    }
    assert(after.resolves(after.items[v.items.len() as int]));
    lemma_message_with_push(v.messages, row, id);
    assert(after.entries() =~= v.entries().push(
        AssembleView::Message {
            message_id: id,
            role: role_of(msg),
            content: msg.content(),
            parts: parts_of(msg),
        },
    )) by {
        assert forall|i: int| 0 <= i < v.items.len() implies after.entry(#[trigger] after.items[i])
            == v.entry(v.items[i]) by {
            assert(after.resolves(after.items[i]));
        }
    }
}

/// What is pushed comes back: after a push, a request has the messages it had
/// before and the new one at its end.
pub proof fn pushed_message_comes_back(
    v: ConversationView,
    id: i64,
    msg: MessageView,
    now: Seq<char>,
)
    requires
        v.wf(),
        v.has_room(),
        message_with(v.messages, id) is None,
        shown_all(v.entries()) is Ok,
        msg matches MessageView::ToolCalls { calls, .. } ==> calls.len() > 0,
    ensures
        shown_all(v.pushed(id, msg, now).entries()) == Ok::<Seq<MessageView>, RowFault>(
            shown_all(v.entries())->Ok_0.push(msg),
        ),
        has_summary(v.pushed(id, msg, now).entries()) == has_summary(v.entries()),
{
    let after = v.pushed(id, msg, now).entries();
    lemma_pushed_is_wf(v, id, msg, now);
    stored_message_reads_back(id, msg);
    assert(after.drop_last() =~= v.entries());
    if has_summary(v.entries()) {
        let i = choose|i: int|
            0 <= i < v.entries().len() && (#[trigger] v.entries()[i]) is Summary;
        assert(after[i] is Summary);
    }
    if has_summary(after) {
        let i = choose|i: int| 0 <= i < after.len() && (#[trigger] after[i]) is Summary;
        assert(v.entries()[i] is Summary);
    }
}

// ── What holds of every conversation ────────────────────────────────

/// A message is looked up by its id: what is found has it and is stored, and
/// nothing is found only where no message has it.
pub proof fn messages_are_found_by_id(messages: Seq<StoredView>, id: i64)
    ensures
        message_with(messages, id) matches Some(m) ==> m.message_id == id && messages.contains(m),
        message_with(messages, id) is None <==> forall|i: int|
            0 <= i < messages.len() ==> (#[trigger] messages[i]).message_id != id,
    decreases messages.len(),
{
    if messages.len() > 0 {
        let rest = messages.drop_last();
        messages_are_found_by_id(rest, id);
        assert(messages[messages.len() - 1] == messages.last());
        assert(forall|i: int| 0 <= i < rest.len() ==> #[trigger] rest[i] == messages[i]);
        assert(forall|i: int| 0 <= i < rest.len() ==> rest[i] == #[trigger] messages[i]);
        if messages.last().message_id != id {
            if let Some(m) = message_with(rest, id) {
                let k = choose|k: int| 0 <= k < rest.len() && rest[k] == m;
                assert(messages[k] == m);
            }
        }
    }
}

/// A summary is looked up by its id: what is found has it and is stored, and
/// nothing is found only where no summary has it.
pub proof fn summaries_are_found_by_id(summaries: Seq<SummaryView>, id: Seq<char>)
    ensures
        summary_with(summaries, id) matches Some(s) ==> s.summary_id == id && summaries.contains(s),
        summary_with(summaries, id) is None <==> forall|i: int|
            0 <= i < summaries.len() ==> (#[trigger] summaries[i]).summary_id != id,
    decreases summaries.len(),
{
    if summaries.len() > 0 {
        let rest = summaries.drop_last();
        summaries_are_found_by_id(rest, id);
        assert(summaries[summaries.len() - 1] == summaries.last());
        assert(forall|i: int| 0 <= i < rest.len() ==> #[trigger] rest[i] == summaries[i]);
        assert(forall|i: int| 0 <= i < rest.len() ==> rest[i] == #[trigger] summaries[i]);
        if summaries.last().summary_id != id {
            if let Some(s) = summary_with(rest, id) {
                let k = choose|k: int| 0 <= k < rest.len() && rest[k] == s;
                assert(summaries[k] == s);
            }
        }
    }
}

/// An item of the active context stands for what it points to: a message or a
/// summary with its own text, size and place.
pub proof fn items_stand_for_what_they_point_to(
    v: ConversationView,
    ordinal: i64,
    m: StoredView,
    s: SummaryView,
)
    requires
        message_with(v.messages, m.message_id) == Some(m),
        summary_with(v.summaries, s.summary_id) == Some(s),
    ensures
        ({
            let a = ItemView { ordinal, item: RefView::Message(m.message_id) };
            let b = ItemView { ordinal, item: RefView::Summary(s.summary_id) };
            &&& v.entry(a) == (AssembleView::Message {
                message_id: m.message_id,
                role: m.role,
                content: m.content,
                parts: m.parts,
            })
            &&& v.entry(b) == (AssembleView::Summary {
                id: s.summary_id,
                kind: s.kind,
                depth: s.depth,
                content: s.content,
                earliest_at: s.earliest_at,
                latest_at: s.latest_at,
            })
            &&& v.count(a) == m.token_count
            &&& v.count(b) == s.token_count
            &&& v.summary_row(a) is None
            &&& v.raw_row(b) is None
            &&& v.raw_row(a) matches Some(r) && r.ordinal == ordinal && r.message_id == m.message_id
                && r.role == m.role && r.content == m.content && r.token_count == m.token_count
                && r.created_at == m.created_at && r.parts == m.parts
            &&& v.summary_row(b) matches Some(r) && r.ordinal == ordinal && r.summary_id
                == s.summary_id && r.depth == s.depth && r.token_count == s.token_count
                && r.earliest_at == s.earliest_at && r.latest_at == s.latest_at
                && r.descendant_count == s.descendant_count && r.descendant_token_count
                == s.descendant_token_count && r.source_message_token_count
                == s.source_message_token_count && r.content == s.content
        }),
{
}

/// A message is stored as it is, at the end: with its id, its text, its parts,
/// a quarter of its bytes as its size, and the time. What was there stays.
pub proof fn a_pushed_message_is_stored_whole(
    v: ConversationView,
    id: i64,
    msg: MessageView,
    now: Seq<char>,
)
    requires
        v.wf(),
        v.has_room(),
        msg.chars() / 4 <= i64::MAX,
    ensures
        ({
            let after = v.pushed(id, msg, now);
            let m = after.messages.last();
            &&& after.messages.len() == v.messages.len() + 1
            &&& after.messages.drop_last() == v.messages
            &&& after.summaries == v.summaries
            &&& after.items.len() == v.items.len() + 1
            &&& after.items.drop_last() == v.items
            &&& after.items.last().item == RefView::Message(id)
            &&& m.message_id == id
            &&& m.content == msg.content()
            &&& m.token_count == msg.chars() / 4
            &&& m.created_at == now
            &&& message_of(id, m.role, m.content, m.parts) == Ok::<MessageView, RowFault>(msg) || msg
                is ToolCalls
            &&& forall|i: int|
                0 <= i < v.messages.len() ==> (#[trigger] v.messages[i]).seq < m.seq
            &&& forall|i: int|
                0 <= i < v.items.len() ==> (#[trigger] v.items[i]).ordinal
                    < after.items.last().ordinal
        }),
{
    let after = v.pushed(id, msg, now);
    if !(msg is ToolCalls) {
        stored_message_reads_back(id, msg);
    }
    assert(after.messages.drop_last() =~= v.messages);
    assert(after.items.drop_last() =~= v.items);
    assert forall|i: int| 0 <= i < v.messages.len() implies (#[trigger] v.messages[i]).seq
        < after.messages.last().seq by {
        assert(v.messages[v.messages.len() - 1] == v.messages.last());
    }
    assert forall|i: int| 0 <= i < v.items.len() implies (#[trigger] v.items[i]).ordinal
        < after.items.last().ordinal by {
        assert(v.items[v.items.len() - 1] == v.items.last());
    }
}

/// Clearing empties the active context and nothing else.
pub proof fn clearing_keeps_the_history(v: ConversationView)
    ensures
        v.cleared().items.len() == 0,
        v.cleared().messages == v.messages,
        v.cleared().summaries == v.summaries,
{
}

/// The raw messages of the active context are its message items, in order.
pub proof fn raw_rows_are_the_message_items(v: ConversationView, items: Seq<ItemView>)
    ensures
        v.rows_among(items) == items.filter(|i: ItemView| i.item is Message).map_values(
            |i: ItemView| v.message_row(i),
        ),
    decreases items.len(),
{
    reveal(Seq::filter);
    let picked = items.filter(|i: ItemView| i.item is Message);
    if items.len() > 0 {
        raw_rows_are_the_message_items(v, items.drop_last());
        assert(v.rows_among(items) =~= picked.map_values(|i: ItemView| v.message_row(i)));
    } else {
        assert(v.rows_among(items) =~= picked.map_values(|i: ItemView| v.message_row(i)));
    }
}

/// The pin is the place of the last message of the user.
pub proof fn the_pin_is_the_last_user_message(messages: Seq<StoredView>)
    ensures
        newest_user_seq(messages) is None <==> forall|i: int|
            0 <= i < messages.len() ==> (#[trigger] messages[i]).role != "user"@,
        newest_user_seq(messages) matches Some(seq) ==> exists|i: int|
            0 <= i < messages.len() && (#[trigger] messages[i]).role == "user"@ && messages[i].seq
                == seq && forall|j: int|
                i < j < messages.len() ==> (#[trigger] messages[j]).role != "user"@,
    decreases messages.len(),
{
    if messages.len() > 0 {
        let rest = messages.drop_last();
        the_pin_is_the_last_user_message(rest);
        assert(messages[messages.len() - 1] == messages.last());
        assert(forall|i: int| 0 <= i < rest.len() ==> #[trigger] rest[i] == messages[i]);
        assert(forall|i: int| 0 <= i < rest.len() ==> rest[i] == #[trigger] messages[i]);
        if messages.last().role != "user"@ {
            if let Some(seq) = newest_user_seq(rest) {
                let i = choose|i: int|
                    0 <= i < rest.len() && (#[trigger] rest[i]).role == "user"@ && rest[i].seq == seq
                        && forall|j: int|
                        i < j < rest.len() ==> (#[trigger] rest[j]).role != "user"@;
                assert(messages[i] == rest[i]);
                assert forall|j: int| i < j < messages.len() implies (
                #[trigger] messages[j]).role != "user"@ by {
                    if j < rest.len() {
                        assert(rest[j] == messages[j]);
                    }
                }
            }
        }
    }
}

/// The calls that wrote files are those of the two tools that write, the last
/// one first.
pub proof fn writes_come_last_first(a: Seq<CallView>, b: Seq<CallView>, c: CallView)
    ensures
        write_inputs(seq![c]) == if c.name == "file_write"@ || c.name == "file_edit"@ {
            seq![c.arguments]
        } else {
            Seq::<Seq<char>>::empty()
        },
        write_inputs(a + b) == write_inputs(b) + write_inputs(a),
    decreases b.len(),
{
    assert(seq![c].drop_last() =~= Seq::empty());
    assert(write_inputs(Seq::<CallView>::empty()) =~= Seq::empty());
    assert(seq![c.arguments] + Seq::<Seq<char>>::empty() =~= seq![c.arguments]);
    if b.len() == 0 {
        assert(a + b =~= a);
        assert(write_inputs(b) + write_inputs(a) =~= write_inputs(a));
    } else {
        writes_come_last_first(a, b.drop_last(), c);
        assert((a + b).drop_last() =~= a + b.drop_last());
        assert(write_inputs(a + b) =~= write_inputs(b) + write_inputs(a));
    }
}

/// The writes for a request are those of the messages after the pin, the
/// newest first.
pub proof fn writes_after_the_pin_count(
    a: Seq<StoredView>,
    b: Seq<StoredView>,
    m: StoredView,
    pin: i64,
)
    ensures
        writes_after(seq![m], pin) == if m.seq > pin {
            write_inputs(calls_in(m.parts))
        } else {
            Seq::<Seq<char>>::empty()
        },
        writes_after(a + b, pin) == writes_after(b, pin) + writes_after(a, pin),
    decreases b.len(),
{
    let one = seq![m];
    let own = write_inputs(calls_in(m.parts));
    assert(one.drop_last() =~= Seq::empty());
    assert(writes_after(Seq::<StoredView>::empty(), pin) =~= Seq::empty());
    assert(own + Seq::<Seq<char>>::empty() =~= own);
    if b.len() == 0 {
        assert(a + b =~= a);
        assert(writes_after(b, pin) + writes_after(a, pin) =~= writes_after(a, pin));
    } else {
        writes_after_the_pin_count(a, b.drop_last(), m, pin);
        assert((a + b).drop_last() =~= a + b.drop_last());
        assert(writes_after(a + b, pin) =~= writes_after(b, pin) + writes_after(a, pin));
    }
}

/// The files written for a request are listed exactly while some message since
/// the request is out of sight, and then they are those written since.
pub proof fn written_files_are_listed_once_hidden(v: ConversationView)
    ensures
        v.written() is Some ==> exists|i: int|
            0 <= i < v.messages.len() && v.pin() is Some && (#[trigger] v.messages[i]).seq
                > v.pin()->0 && !v.shows(v.messages[i].message_id),
        v.pin() matches Some(pin) ==> (v.hidden_after(pin) ==> v.written() == segment_of(
            path_arguments(writes_after(v.messages, pin)),
        )),
{
}

/// Messages and items are numbered from 0 on, each with the number behind that
/// of the last.
pub proof fn places_are_counted_up(v: ConversationView, id: i64, msg: MessageView, now: Seq<char>)
    requires
        v.has_room(),
    ensures
        ({
            let after = v.pushed(id, msg, now);
            let seq = after.messages.last().seq;
            let ordinal = after.items.last().ordinal;
            &&& v.messages.len() == 0 ==> seq == 0
            &&& v.messages.len() > 0 && v.messages.last().seq >= 0 ==> seq
                == v.messages.last().seq + 1
            &&& v.items.len() == 0 ==> ordinal == 0
            &&& v.items.len() > 0 && v.items.last().ordinal >= 0 ==> ordinal
                == v.items.last().ordinal + 1
        }),
{
}

} // verus!
