//! Compacting a conversation.

use vstd::prelude::*;

use super::{
    find_summary, lemma_summary_with_push, message_with, summary_views, summary_with, Conversation,
    ConversationView,
};
use crate::config::LcmConfig;
use crate::context::lcm::chunks::{
    are_runs, are_summary_runs, children_fit, chunk_of, condensed_runs,
    condensed_runs_are_longest_runs, eligible, entries_are_countable, entries_fit, first_fault,
    in_some_run, is_longest_run, leaf_runs, leaf_runs_cover_all_but_the_pin, load_condensed_chunks,
    load_leaf_chunks, message_counts, of_one_depth, rows_are_countable, rows_fit, summaries_of,
    ChunkRowView, CondensedChunk, CondensedRowView, LeafChunk, MessageRowView,
};
use crate::context::lcm::compaction::{
    child_ids, condensed_summary, items_after, items_before, leaf_summary,
    lemma_replaced_is_ordered, list_views, replace_range, replaced_range,
    replacing_a_run_keeps_the_rest, summary_item, write_condensed_summary, write_leaf_summary,
    ItemView, RefView, Summary, SummaryView, SummaryWrite,
};
use crate::context::lcm::counts::counts_fit;
use crate::context::lcm::rows::RowError;
use crate::context::lcm::summarize::EscalationOutcome;
use crate::text::views;
use crate::types::MessageView;

verus! {

impl ConversationView {
    /// The files that summaries cover, by their ids.
    pub open spec fn files_of(self, ids: Seq<Seq<char>>) -> Seq<Seq<Seq<char>>> {
        ids.map_values(
            |id: Seq<char>|
                match summary_with(self.summaries, id) {
                    Some(s) => s.files,
                    None => Seq::empty(),
                },
        )
    }

    /// The conversation after a summary was to be stored: unchanged where its
    /// id is taken.
    pub open spec fn after_storing(self, s: SummaryView, first: i64, last: i64) -> ConversationView {
        if summary_with(self.summaries, s.summary_id) is Some {
            self
        } else {
            self.condensed(s, first, last)
        }
    }
}

proof fn lemma_condensed_is_wf(v: ConversationView, s: SummaryView, first: i64, last: i64)
    requires
        v.wf(),
        first <= last,
        summary_with(v.summaries, s.summary_id) is None,
    ensures
        v.condensed(s, first, last).wf(),
{
    let after = v.condensed(s, first, last);
    lemma_replaced_is_ordered(v.items, first, last, s.summary_id);
    assert forall|i: int| 0 <= i < after.items.len() implies #[trigger] after.resolves(
        after.items[i],
    ) by {
        let item = after.items[i];
        if item == summary_item(first, s.summary_id) {
            lemma_summary_with_push(v.summaries, s, s.summary_id);
        } else {
            assert(v.items.contains(item));
            let k = choose|k: int| 0 <= k < v.items.len() && v.items[k] == item;
            assert(v.resolves(v.items[k]));
            if let RefView::Summary(id) = item.item {
                lemma_summary_with_push(v.summaries, s, id);
            }
        }
    }
}

/// The message with an id has it.
proof fn lemma_message_with_id(v: ConversationView, id: i64)
    requires
        message_with(v.messages, id) is Some,
    ensures
        message_with(v.messages, id)->0.message_id == id,
    decreases v.messages.len(),
{
    if v.messages.last().message_id != id {
        let rest = ConversationView { messages: v.messages.drop_last(), ..v };
        lemma_message_with_id(rest, id);
    }
}

/// Collapsing one chunk of messages replaces exactly them: every other item
/// of the active context stays, in its place. That holds of the protected
/// tail, the newest message of the user, the messages of other chunks, and
/// every summary. No raw message is lost.
pub proof fn collapsing_keeps_other_items(
    v: ConversationView,
    cfg: LcmConfig,
    k: int,
    s: SummaryView,
)
    requires
        v.wf(),
        0 <= k < leaf_runs(v.message_rows(), cfg).len(),
    ensures
        ({
            let run = leaf_runs(v.message_rows(), cfg)[k];
            let first = v.items[run.0].ordinal;
            let after = v.condensed(s, first, v.items[run.1 - 1].ordinal);
            &&& after.items == v.items.take(run.0).push(summary_item(first, s.summary_id))
                + v.items.skip(run.1)
            &&& forall|i: int|
                0 <= i < v.items.len() && !(run.0 <= i < run.1) ==> after.items.contains(
                    #[trigger] v.items[i],
                )
            &&& forall|i: int|
                run.0 <= i < run.1 ==> (#[trigger] v.items[i]).item is Message
            &&& after.messages == v.messages
        }),
{
    let rows = v.message_rows();
    let run = leaf_runs(rows, cfg)[k];
    leaf_runs_cover_all_but_the_pin(rows, cfg);
    replacing_a_run_keeps_the_rest(v.items, run.0, run.1, s.summary_id);
    let first = v.items[run.0].ordinal;
    let after = v.condensed(s, first, v.items[run.1 - 1].ordinal);
    assert forall|i: int|
        0 <= i < v.items.len() && !(run.0 <= i < run.1) implies after.items.contains(
        #[trigger] v.items[i],
    ) by {
        if i < run.0 {
            assert(after.items[i] == v.items[i]);
        } else {
            assert(after.items[i - run.1 + run.0 + 1] == v.items[i]);
        }
    }
    assert forall|i: int| run.0 <= i < run.1 implies (#[trigger] v.items[i]).item is Message by {
        lemma_run_holds_messages(rows, cfg, k, i);
        assert(rows[i] == v.raw_row(v.items[i]));
    }
}

proof fn lemma_before_keeps(items: Seq<ItemView>, item: ItemView, first: i64)
    requires
        items.contains(item),
        item.ordinal < first,
    ensures
        items_before(items, first).contains(item),
    decreases items.len(),
{
    let k = choose|k: int| 0 <= k < items.len() && items[k] == item;
    let out = items_before(items, first);
    if k == items.len() - 1 {
        assert(out[out.len() - 1] == item);
    } else {
        let rest = items.drop_last();
        assert(rest[k] == item);
        lemma_before_keeps(rest, item, first);
        let before = items_before(rest, first);
        let j = choose|j: int| 0 <= j < before.len() && before[j] == item;
        assert(out[j] == item);
    }
}

proof fn lemma_after_keeps(items: Seq<ItemView>, item: ItemView, last: i64)
    requires
        items.contains(item),
        item.ordinal > last,
    ensures
        items_after(items, last).contains(item),
    decreases items.len(),
{
    let k = choose|k: int| 0 <= k < items.len() && items[k] == item;
    let out = items_after(items, last);
    if k == items.len() - 1 {
        assert(out[out.len() - 1] == item);
    } else {
        let rest = items.drop_last();
        assert(rest[k] == item);
        lemma_after_keeps(rest, item, last);
        let before = items_after(rest, last);
        let j = choose|j: int| 0 <= j < before.len() && before[j] == item;
        assert(out[j] == item);
    }
}

/// A conversation after the summaries of its first `n` chunks of messages were
/// stored, one after the other. The chunks are those of `v`.
pub open spec fn after_leaves(
    v: ConversationView,
    runs: Seq<(int, int)>,
    summaries: Seq<SummaryView>,
    n: nat,
) -> ConversationView
    decreases n,
{
    if n == 0 {
        v
    } else {
        let (from, to) = runs[n - 1];
        after_leaves(v, runs, summaries, (n - 1) as nat).after_storing(
            summaries[n - 1],
            v.items[from].ordinal,
            v.items[to - 1].ordinal,
        )
    }
}

/// A whole leaf pass, however far it got, keeps every item that is in none of
/// the chunks that were collapsed, and every raw message.
pub proof fn a_leaf_pass_keeps_other_items(
    v: ConversationView,
    cfg: LcmConfig,
    summaries: Seq<SummaryView>,
    n: nat,
    i: int,
)
    requires
        v.wf(),
        n <= leaf_runs(v.message_rows(), cfg).len(),
        0 <= i < v.items.len(),
        !in_some_run(leaf_runs(v.message_rows(), cfg).take(n as int), i),
    ensures
        ({
            let after = after_leaves(v, leaf_runs(v.message_rows(), cfg), summaries, n);
            after.items.contains(v.items[i]) && after.messages == v.messages
        }),
    decreases n,
{
    let runs = leaf_runs(v.message_rows(), cfg);
    let item = v.items[i];
    if n > 0 {
        let rest = runs.take(n - 1);
        if in_some_run(rest, i) {
            let k = choose|k: int| 0 <= k < rest.len() && (#[trigger] rest[k]).0 <= i < rest[k].1;
            assert(runs.take(n as int)[k] == rest[k]);
        }
        a_leaf_pass_keeps_other_items(v, cfg, summaries, (n - 1) as nat, i);
        leaf_runs_cover_all_but_the_pin(v.message_rows(), cfg);
        let run = runs[n - 1];
        assert(runs.take(n as int)[n - 1] == run);
        let before = after_leaves(v, runs, summaries, (n - 1) as nat);
        let first = v.items[run.0].ordinal;
        let last = v.items[run.1 - 1].ordinal;
        let s = summaries[n - 1];
        let kept = items_before(before.items, first);
        let out = replaced_range(before.items, first, last, s.summary_id);
        if i < run.0 {
            lemma_before_keeps(before.items, item, first);
            let j = choose|j: int| 0 <= j < kept.len() && kept[j] == item;
            assert(out[j] == item);
        } else {
            let more = items_after(before.items, last);
            lemma_after_keeps(before.items, item, last);
            let j = choose|j: int| 0 <= j < more.len() && more[j] == item;
            assert(out[kept.len() + 1 + j] == item);
        }
    } else {
        assert(after_leaves(v, runs, summaries, 0).items[i] == item);
    }
}

/// Every item of a run is a message.
proof fn lemma_run_holds_messages(
    rows: Seq<Option<MessageRowView>>,
    cfg: LcmConfig,
    k: int,
    i: int,
)
    requires
        0 <= k < leaf_runs(rows, cfg).len(),
        leaf_runs(rows, cfg)[k].0 <= i < leaf_runs(rows, cfg)[k].1,
    ensures
        0 <= i < rows.len(),
        rows[i] is Some,
{
    leaf_runs_cover_all_but_the_pin(rows, cfg);
    assert(in_some_run(leaf_runs(rows, cfg), i));
}

/// Collapsing one chunk of summaries replaces exactly them: everything before
/// and after stays, and the active context gets shorter, so repeating the
/// pass comes to an end.
pub proof fn condensing_shortens_the_context(
    v: ConversationView,
    cfg: LcmConfig,
    k: int,
    s: SummaryView,
)
    requires
        v.wf(),
        cfg.min_condensed_fanout >= 2,
        0 <= k < condensed_runs(v.summary_rows(), cfg).len(),
    ensures
        ({
            let run = condensed_runs(v.summary_rows(), cfg)[k];
            let first = v.items[run.0].ordinal;
            let after = v.condensed(s, first, v.items[run.1 - 1].ordinal);
            &&& after.items == v.items.take(run.0).push(summary_item(first, s.summary_id))
                + v.items.skip(run.1)
            &&& after.items.len() < v.items.len()
            &&& after.messages == v.messages
            &&& forall|i: int|
                run.0 <= i < run.1 ==> (#[trigger] v.items[i]).item is Summary
        }),
{
    let run = condensed_runs(v.summary_rows(), cfg)[k];
    condensed_runs_are_longest_runs(v.summary_rows(), cfg);
    assert(is_longest_run(v.summary_rows(), run, v.items.len() as int));
    replacing_a_run_keeps_the_rest(v.items, run.0, run.1, s.summary_id);
    assert forall|i: int| run.0 <= i < run.1 implies (#[trigger] v.items[i]).item is Summary by {
        assert(of_one_depth(v.summary_rows()[run.0], v.summary_rows()[i]));
        assert(v.summary_rows()[i] == v.summary_row(v.items[i]));
    }
}

/// A message that a summary takes the place of is not lost: it is still
/// stored as it was, and is listed among the sources of the summary, which
/// the active context now points to.
pub proof fn summarized_messages_stay_reachable(
    v: ConversationView,
    cfg: LcmConfig,
    k: int,
    i: int,
    outcome: EscalationOutcome,
    known: Seq<Seq<char>>,
    now: Seq<char>,
)
    requires
        v.wf(),
        0 <= k < leaf_runs(v.message_rows(), cfg).len(),
        leaf_runs(v.message_rows(), cfg)[k].0 <= i < leaf_runs(v.message_rows(), cfg)[k].1,
        ({
            let chunk = chunk_of(v.message_rows(), leaf_runs(v.message_rows(), cfg)[k]);
            let s = leaf_summary(chunk, outcome, known, now);
            summary_with(v.summaries, s.summary_id) is None
        }),
    ensures
        ({
            let chunk = chunk_of(v.message_rows(), leaf_runs(v.message_rows(), cfg)[k]);
            let s = leaf_summary(chunk, outcome, known, now);
            let after = v.after_storing(s, chunk[0].ordinal, chunk.last().ordinal);
            let id = v.items[i].item->Message_0;
            &&& after.items.contains(summary_item(chunk[0].ordinal, s.summary_id))
            &&& summary_with(after.summaries, s.summary_id) == Some(s)
            &&& v.items[i].item is Message
            &&& s.source_messages.contains(id)
            &&& message_with(v.messages, id) is Some
            &&& message_with(after.messages, id) == message_with(v.messages, id)
        }),
{
    let rows = v.message_rows();
    let run = leaf_runs(rows, cfg)[k];
    leaf_runs_cover_all_but_the_pin(rows, cfg);
    lemma_run_holds_messages(rows, cfg, k, i);
    let chunk = chunk_of(rows, run);
    let s = leaf_summary(chunk, outcome, known, now);
    let first = chunk[0].ordinal;
    let after = v.after_storing(s, first, chunk.last().ordinal);
    lemma_summary_with_push(v.summaries, s, s.summary_id);
    assert(after.items[items_before(v.items, first).len() as int] == summary_item(
        first,
        s.summary_id,
    ));
    assert(rows[i] == v.raw_row(v.items[i]));
    assert(v.resolves(v.items[i]));
    let id = v.items[i].item->Message_0;
    lemma_message_with_id(v, id);
    assert(rows.subrange(run.0, run.1)[i - run.0] == rows[i]);
    assert(s.source_messages[i - run.0] == id);
}

/// Condensing loses nothing: a summary that another takes the place of is
/// still stored as it was, and is listed among the children of the other,
/// which the active context now points to.
pub proof fn condensed_summaries_stay_reachable(
    v: ConversationView,
    cfg: LcmConfig,
    k: int,
    i: int,
    depth: i64,
    outcome: EscalationOutcome,
    now: Seq<char>,
)
    requires
        v.wf(),
        cfg.min_condensed_fanout >= 1,
        0 <= k < condensed_runs(v.summary_rows(), cfg).len(),
        condensed_runs(v.summary_rows(), cfg)[k].0 <= i < condensed_runs(v.summary_rows(), cfg)[k].1,
        ({
            let rows = summaries_of(v.summary_rows(), condensed_runs(v.summary_rows(), cfg)[k]);
            let s = condensed_summary(rows, depth, outcome, v.files_of(child_ids(rows)), now);
            summary_with(v.summaries, s.summary_id) is None
        }),
    ensures
        ({
            let rows = summaries_of(v.summary_rows(), condensed_runs(v.summary_rows(), cfg)[k]);
            let s = condensed_summary(rows, depth, outcome, v.files_of(child_ids(rows)), now);
            let after = v.after_storing(s, rows[0].ordinal, rows.last().ordinal);
            let id = v.items[i].item->Summary_0;
            &&& after.items.contains(summary_item(rows[0].ordinal, s.summary_id))
            &&& summary_with(after.summaries, s.summary_id) == Some(s)
            &&& v.items[i].item is Summary
            &&& s.children.contains(id)
            &&& summary_with(v.summaries, id) is Some
            &&& summary_with(after.summaries, id) == summary_with(v.summaries, id)
            &&& after.messages == v.messages
        }),
{
    let entries = v.summary_rows();
    let run = condensed_runs(entries, cfg)[k];
    condensed_runs_are_longest_runs(entries, cfg);
    assert(is_longest_run(entries, run, v.items.len() as int));
    let rows = summaries_of(entries, run);
    let s = condensed_summary(rows, depth, outcome, v.files_of(child_ids(rows)), now);
    let first = rows[0].ordinal;
    let after = v.after_storing(s, first, rows.last().ordinal);
    assert(after.items[items_before(v.items, first).len() as int] == summary_item(
        first,
        s.summary_id,
    ));
    lemma_summary_with_push(v.summaries, s, s.summary_id);
    assert(of_one_depth(entries[run.0], entries[i]));
    assert(entries[i] == v.summary_row(v.items[i]));
    assert(v.resolves(v.items[i]));
    let id = v.items[i].item->Summary_0;
    lemma_summary_with_push(v.summaries, s, id);
    lemma_summary_with_id(v.summaries, id);
    assert(rows[i - run.0] == entries[i]->0);
    assert(s.children[i - run.0] == id);
}

/// The summary with an id has it.
proof fn lemma_summary_with_id(summaries: Seq<SummaryView>, id: Seq<char>)
    requires
        summary_with(summaries, id) is Some,
    ensures
        summary_with(summaries, id)->0.summary_id == id,
    decreases summaries.len(),
{
    if summaries.last().summary_id != id {
        lemma_summary_with_id(summaries.drop_last(), id);
    }
}

/// The store only grows: pushing a message, clearing the context and storing
/// a summary keep every message and every summary that was there, as it was
/// and in its place.
pub proof fn stored_rows_are_kept(
    v: ConversationView,
    id: i64,
    msg: MessageView,
    now: Seq<char>,
    s: SummaryView,
    first: i64,
    last: i64,
)
    ensures
        v.messages.is_prefix_of(v.pushed(id, msg, now).messages),
        v.summaries.is_prefix_of(v.pushed(id, msg, now).summaries),
        v.messages.is_prefix_of(v.cleared().messages),
        v.summaries.is_prefix_of(v.cleared().summaries),
        v.messages.is_prefix_of(v.after_storing(s, first, last).messages),
        v.summaries.is_prefix_of(v.after_storing(s, first, last).summaries),
{
    let pushed = v.pushed(id, msg, now).messages;
    assert(pushed.take(v.messages.len() as int) =~= v.messages);
    let stored = v.after_storing(s, first, last).summaries;
    assert(stored.take(v.summaries.len() as int) =~= v.summaries);
}

/// Storing a summary a second time changes nothing, so a compaction may be
/// tried again.
pub proof fn storing_twice_is_storing_once(
    v: ConversationView,
    s: SummaryView,
    first: i64,
    last: i64,
)
    ensures
        v.after_storing(s, first, last).after_storing(s, first, last) == v.after_storing(
            s,
            first,
            last,
        ),
{
    lemma_summary_with_push(v.summaries, s, s.summary_id);
}

/// Whether a chunk has rows, the first not after the last.
pub open spec fn is_placed(rows: Seq<ChunkRowView>) -> bool {
    rows.len() > 0 && rows[0].ordinal <= rows.last().ordinal
}

/// Whether a chunk has summaries, the first not after the last.
pub open spec fn are_placed(rows: Seq<CondensedRowView>) -> bool {
    rows.len() > 0 && rows[0].ordinal <= rows.last().ordinal
}

impl Conversation {
    /// Whether the tokens of the raw messages in the active context can be
    /// summed up.
    pub fn rows_are_countable(&self) -> (r: bool)
        requires
            self@.wf(),
        ensures
            r == rows_fit(self@.message_rows()),
    {
        rows_are_countable(&self.message_rows())
    }

    /// The chunks of messages that a leaf pass collapses.
    pub fn leaf_chunks(&self, cfg: &LcmConfig) -> (r: Result<Vec<LeafChunk>, RowError>)
        requires
            self@.wf(),
            rows_fit(self@.message_rows()),
        ensures
            match r {
                Ok(chunks) => {
                    &&& first_fault(self@.message_rows(), eligible(self@.message_rows(), *cfg)) is None
                    &&& are_runs(chunks@, self@.message_rows(), leaf_runs(self@.message_rows(), *cfg))
                    &&& forall|k: int|
                        0 <= k < chunks@.len() ==> counts_fit(
                            message_counts((#[trigger] chunks@[k])@),
                        ) && is_placed(chunks@[k]@)
                },
                Err(e) => first_fault(self@.message_rows(), eligible(self@.message_rows(), *cfg)) == Some(e@),
            },
    {
        let rows = self.message_rows();
        let ghost all = self@.message_rows();
        let r = load_leaf_chunks(&rows, cfg);
        proof {
            if let Ok(ref chunks) = r {
                leaf_runs_cover_all_but_the_pin(all, *cfg);
                assert forall|k: int| 0 <= k < chunks@.len() implies counts_fit(
                    message_counts((#[trigger] chunks@[k])@),
                ) && is_placed(chunks@[k]@) by {
                    let run = leaf_runs(all, *cfg)[k];
                    assert(chunks@[k]@ == chunk_of(all, run));
                    lemma_run_holds_messages(all, *cfg, k, run.0);
                    lemma_run_holds_messages(all, *cfg, k, run.1 - 1);
                    assert(all[run.0] == self@.raw_row(self@.items[run.0]));
                    assert(all[run.1 - 1] == self@.raw_row(self@.items[run.1 - 1]));
                    assert(chunks@[k]@[0].ordinal == self@.items[run.0].ordinal);
                    assert(chunks@[k]@.last().ordinal == self@.items[run.1 - 1].ordinal);
                }
            }
        }
        r
    }

    /// Whether what the summaries in the active context cover can be summed
    /// up.
    pub fn summaries_are_countable(&self) -> (r: bool)
        requires
            self@.wf(),
        ensures
            r == entries_fit(self@.summary_rows()),
    {
        entries_are_countable(&self.summary_rows())
    }

    /// The chunks of summaries that a condensed pass collapses.
    pub fn condensed_chunks(&self, cfg: &LcmConfig) -> (chunks: Vec<CondensedChunk>)
        requires
            self@.wf(),
            entries_fit(self@.summary_rows()),
            cfg.min_condensed_fanout >= 1,
        ensures
            are_summary_runs(
                chunks@,
                self@.summary_rows(),
                condensed_runs(self@.summary_rows(), *cfg),
            ),
            forall|k: int|
                0 <= k < chunks@.len() ==> children_fit((#[trigger] chunks@[k])@, chunks@[k].depth)
                    && are_placed(chunks@[k]@),
    {
        let ghost all = self@.summary_rows();
        let ghost items = self@.items;
        let chunks = load_condensed_chunks(&self.summary_rows(), cfg);
        proof {
            condensed_runs_are_longest_runs(all, *cfg);
            assert forall|k: int| 0 <= k < chunks@.len() implies children_fit(
                (#[trigger] chunks@[k])@,
                chunks@[k].depth,
            ) && are_placed(chunks@[k]@) by {
                let run = condensed_runs(all, *cfg)[k];
                assert(is_longest_run(all, run, all.len() as int));
                assert(chunks@[k]@ == summaries_of(all, run));
                assert(of_one_depth(all[run.0], all[run.0]));
                assert(of_one_depth(all[run.0], all[run.1 - 1]));
                assert(chunks@[k]@[0].ordinal == items[run.0].ordinal);
                assert(chunks@[k]@.last().ordinal == items[run.1 - 1].ordinal);
            }
        }
        chunks
    }

    /// Stores a summary in place of a range of the active context. `false`
    /// where its id is taken, and then nothing changes.
    pub fn store_summary(&mut self, write: SummaryWrite) -> (r: bool)
        requires
            old(self)@.wf(),
            write.first_ordinal <= write.last_ordinal,
        ensures
            r == (summary_with(old(self)@.summaries, write.summary@.summary_id) is None),
            final(self)@ == old(self)@.after_storing(
                write.summary@,
                write.first_ordinal,
                write.last_ordinal,
            ),
            final(self)@.wf(),
    {
        let ghost before = self@;
        if find_summary(&self.summaries, write.summary.summary_id.as_str()).is_some() {
            return false;
        }
        self.items =
        replace_range(
            &self.items,
            write.first_ordinal,
            write.last_ordinal,
            write.summary.summary_id.as_str(),
        );
        let ghost summaries = self.summaries@;
        let summary = write.summary;
        self.summaries.push(summary);
        proof {
            assert(summary_views(self.summaries@) =~= summary_views(summaries).push(summary@));
            assert(self@ == before.condensed(summary@, write.first_ordinal, write.last_ordinal));
            lemma_condensed_is_wf(before, summary@, write.first_ordinal, write.last_ordinal);
        }
        true
    }

    /// Collapses a chunk of messages into the summary that was made of it.
    /// `known` holds the ids of the stored files.
    pub fn store_leaf(
        &mut self,
        chunk: &LeafChunk,
        outcome: &EscalationOutcome,
        known: &Vec<String>,
        now: &str,
    ) -> (r: bool)
        requires
            old(self)@.wf(),
            counts_fit(message_counts(chunk@)),
            is_placed(chunk@),
        ensures
            ({
                let s = leaf_summary(chunk@, *outcome, views(known@), now@);
                &&& r == (summary_with(old(self)@.summaries, s.summary_id) is None)
                &&& final(self)@ == old(self)@.after_storing(
                    s,
                    chunk@[0].ordinal,
                    chunk@.last().ordinal,
                )
            }),
            final(self)@.wf(),
    {
        self.store_summary(write_leaf_summary(chunk, outcome, known, now))
    }

    /// The files that summaries cover, by their ids.
    fn child_files(&self, chunk: &CondensedChunk) -> (out: Vec<Vec<String>>)
        ensures
            list_views(out@) == self@.files_of(child_ids(chunk@)),
    {
        let ghost ids = child_ids(chunk@);
        let n: usize = chunk.rows.len();
        let mut out: Vec<Vec<String>> = Vec::new();
        let mut i: usize = 0;
        while i < n
            invariant
                i <= n,
                n == chunk.rows@.len(),
                ids == child_ids(chunk@),
                out@.len() == i,
                forall|k: int|
                    0 <= k < i ==> views((#[trigger] out@[k])@) == self@.files_of(ids)[k],
            decreases n - i,
        {
            assert(ids[i as int] == chunk.rows@[i as int]@.summary_id);
            let mut files: Vec<String> = Vec::new();
            match find_summary(&self.summaries, chunk.rows[i].summary_id.as_str()) {
                Some(k) => {
                    let list = &self.summaries[k].files;
                    let count: usize = list.len();
                    let mut j: usize = 0;
                    while j < count
                        invariant
                            j <= count,
                            count == list@.len(),
                            files@.len() == j,
                            forall|m: int| 0 <= m < j ==> (#[trigger] files@[m])@ == list@[m]@,
                        decreases count - j,
                    {
                        files.push(list[j].clone());
                        j += 1;
                    }
                    assert(views(files@) =~= views(list@));
                },
                None => {
                    assert(views(files@) =~= Seq::empty());
                },
            }
            out.push(files);
            i += 1;
        }
        assert(list_views(out@) =~= self@.files_of(ids));
        out
    }

    /// Collapses a chunk of summaries into the summary that was made of it.
    pub fn store_condensed(
        &mut self,
        chunk: &CondensedChunk,
        outcome: &EscalationOutcome,
        now: &str,
    ) -> (r: bool)
        requires
            old(self)@.wf(),
            children_fit(chunk@, chunk.depth),
            are_placed(chunk@),
        ensures
            ({
                let s = condensed_summary(
                    chunk@,
                    chunk.depth,
                    *outcome,
                    old(self)@.files_of(child_ids(chunk@)),
                    now@,
                );
                &&& r == (summary_with(old(self)@.summaries, s.summary_id) is None)
                &&& final(self)@ == old(self)@.after_storing(
                    s,
                    chunk@[0].ordinal,
                    chunk@.last().ordinal,
                )
            }),
            final(self)@.wf(),
    {
        let files = self.child_files(chunk);
        self.store_summary(write_condensed_summary(chunk, outcome, &files, now))
    }
}

/// What children cover is looked up child by child, each in its own row.
pub proof fn files_come_from_each_child(v: ConversationView, ids: Seq<Seq<char>>, i: int)
    requires
        0 <= i < ids.len(),
    ensures
        v.files_of(ids).len() == ids.len(),
        summary_with(v.summaries, ids[i]) matches Some(s) ==> v.files_of(ids)[i] == s.files,
        summary_with(v.summaries, ids[i]) is None ==> v.files_of(ids)[i].len() == 0,
{
}

} // verus!
