//! What a compaction writes: the summary of a chunk with its links, and the
//! active context with the chunk replaced by that summary.

use vstd::prelude::*;

use super::chunks::{
    children_fit, descendant_tokens, descendants, message_counts, source_tokens, ChunkRowView,
    CondensedChunk, CondensedRowView, LeafChunk,
};
use super::counts::{counts_fit, lemma_total, stored_count, sum, to_stored_count, total};
use super::explore::{
    extract_file_ids, file_ids_of, unique_keeps_every_value_once, unique_of, unique_ordered,
};
use super::summarize::{EscalationLevel, EscalationOutcome};
use crate::digest::{condensed_id, derive_summary_id, derive_summary_id_str, leaf_id};
use crate::text::order::{lemma_lt_irreflexive, lemma_lt_transitive, lt, text_lt};
use crate::text::{among, lemma_views_push, views};
use crate::types::tokens_of;

verus! {

// ── Spans ───────────────────────────────────────────────────────────

/// The least of some texts, the empty text where there are none.
pub open spec fn least(texts: Seq<Seq<char>>) -> Seq<char>
    decreases texts.len(),
{
    if texts.len() == 0 {
        Seq::empty()
    } else if texts.len() == 1 || text_lt(texts.last(), least(texts.drop_last())) {
        texts.last()
    } else {
        least(texts.drop_last())
    }
}

/// The greatest of some texts, the empty text where there are none.
pub open spec fn greatest(texts: Seq<Seq<char>>) -> Seq<char>
    decreases texts.len(),
{
    if texts.len() == 0 {
        Seq::empty()
    } else if texts.len() == 1 || text_lt(greatest(texts.drop_last()), texts.last()) {
        texts.last()
    } else {
        greatest(texts.drop_last())
    }
}

/// The least of some texts.
fn find_least(texts: &Vec<String>) -> (r: String)
    ensures
        r@ == least(views(texts@)),
{
    let ghost all = views(texts@);
    let n: usize = texts.len();
    if n == 0 {
        let none = String::new();
        assert(none@ =~= least(all));
        return none;
    }
    let mut best: usize = 0;
    let mut i: usize = 1;
    assert(least(all.take(1)) == all[0]);
    while i < n
        invariant
            1 <= i <= n,
            best < n,
            n == texts@.len(),
            all == views(texts@),
            texts@[best as int]@ == least(all.take(i as int)),
        decreases n - i,
    {
        assert(all.take(i + 1).drop_last() =~= all.take(i as int));
        assert(all.take(i + 1).last() == texts@[i as int]@);
        if lt(texts[i].as_str(), texts[best].as_str()) {
            best = i;
        }
        i += 1;
    }
    assert(all.take(n as int) =~= all);
    texts[best].clone()
}

/// The greatest of some texts.
fn find_greatest(texts: &Vec<String>) -> (r: String)
    ensures
        r@ == greatest(views(texts@)),
{
    let ghost all = views(texts@);
    let n: usize = texts.len();
    if n == 0 {
        let none = String::new();
        assert(none@ =~= greatest(all));
        return none;
    }
    let mut best: usize = 0;
    let mut i: usize = 1;
    assert(greatest(all.take(1)) == all[0]);
    while i < n
        invariant
            1 <= i <= n,
            best < n,
            n == texts@.len(),
            all == views(texts@),
            texts@[best as int]@ == greatest(all.take(i as int)),
        decreases n - i,
    {
        assert(all.take(i + 1).drop_last() =~= all.take(i as int));
        assert(all.take(i + 1).last() == texts@[i as int]@);
        if lt(texts[best].as_str(), texts[i].as_str()) {
            best = i;
        }
        i += 1;
    }
    assert(all.take(n as int) =~= all);
    texts[best].clone()
}

// ── Summaries ───────────────────────────────────────────────────────

/// A summary, with its links.
pub struct Summary {
    pub summary_id: String,
    /// `leaf` or `condensed`.
    pub kind: String,
    pub depth: i64,
    pub content: String,
    pub token_count: i64,
    pub earliest_at: String,
    pub latest_at: String,
    /// How many messages it covers.
    pub descendant_count: i64,
    pub descendant_token_count: i64,
    pub source_message_token_count: i64,
    /// The escalation level that produced it.
    pub model: String,
    pub created_at: String,
    /// The messages it was made from.
    pub source_messages: Vec<i64>,
    /// The summaries it was made from.
    pub children: Vec<String>,
    /// The files that it covers.
    pub files: Vec<String>,
}

/// The view of a [`Summary`].
pub struct SummaryView {
    pub summary_id: Seq<char>,
    pub kind: Seq<char>,
    pub depth: i64,
    pub content: Seq<char>,
    pub token_count: i64,
    pub earliest_at: Seq<char>,
    pub latest_at: Seq<char>,
    pub descendant_count: i64,
    pub descendant_token_count: i64,
    pub source_message_token_count: i64,
    pub model: Seq<char>,
    pub created_at: Seq<char>,
    pub source_messages: Seq<i64>,
    pub children: Seq<Seq<char>>,
    pub files: Seq<Seq<char>>,
}

impl View for Summary {
    type V = SummaryView;

    open spec fn view(&self) -> SummaryView {
        SummaryView {
            summary_id: self.summary_id@,
            kind: self.kind@,
            depth: self.depth,
            content: self.content@,
            token_count: self.token_count,
            earliest_at: self.earliest_at@,
            latest_at: self.latest_at@,
            descendant_count: self.descendant_count,
            descendant_token_count: self.descendant_token_count,
            source_message_token_count: self.source_message_token_count,
            model: self.model@,
            created_at: self.created_at@,
            source_messages: self.source_messages@,
            children: views(self.children@),
            files: views(self.files@),
        }
    }
}

/// A summary to store, and the range of the active context that it replaces.
pub struct SummaryWrite {
    pub summary: Summary,
    pub first_ordinal: i64,
    pub last_ordinal: i64,
}

/// The ids of the messages of a chunk.
pub open spec fn message_ids(rows: Seq<ChunkRowView>) -> Seq<i64> {
    rows.map_values(|r: ChunkRowView| r.message_id)
}

/// When the messages of a chunk were written.
pub open spec fn message_times(rows: Seq<ChunkRowView>) -> Seq<Seq<char>> {
    rows.map_values(|r: ChunkRowView| r.created_at)
}

/// The ids of files that the messages of a chunk mention, in order.
pub open spec fn mentioned_files(rows: Seq<ChunkRowView>) -> Seq<Seq<char>>
    decreases rows.len(),
{
    if rows.len() == 0 {
        Seq::empty()
    } else {
        mentioned_files(rows.drop_last()) + file_ids_of(rows.last().message.content())
    }
}

/// Those of `ids` that are among `known`.
pub open spec fn known_among(ids: Seq<Seq<char>>, known: Seq<Seq<char>>) -> Seq<Seq<char>>
    decreases ids.len(),
{
    if ids.len() == 0 {
        Seq::empty()
    } else if known.contains(ids.last()) {
        known_among(ids.drop_last(), known).push(ids.last())
    } else {
        known_among(ids.drop_last(), known)
    }
}

/// The summary of a run of messages, `known` being the ids of stored files.
pub open spec fn leaf_summary(
    rows: Seq<ChunkRowView>,
    outcome: EscalationOutcome,
    known: Seq<Seq<char>>,
    now: Seq<char>,
) -> SummaryView {
    SummaryView {
        summary_id: leaf_id(outcome.content@, message_ids(rows)),
        kind: "leaf"@,
        depth: 0,
        content: outcome.content@,
        token_count: stored_count(outcome.output_tokens as nat) as i64,
        earliest_at: least(message_times(rows)),
        latest_at: greatest(message_times(rows)),
        descendant_count: stored_count(rows.len()) as i64,
        descendant_token_count: total(message_counts(rows)) as i64,
        source_message_token_count: total(message_counts(rows)) as i64,
        model: outcome.level.label(),
        created_at: now,
        source_messages: message_ids(rows),
        children: Seq::empty(),
        files: unique_of(known_among(mentioned_files(rows), known)),
    }
}

/// The summary of a run of summaries, `child_files` being the files of each.
pub open spec fn condensed_summary(
    rows: Seq<CondensedRowView>,
    depth: i64,
    outcome: EscalationOutcome,
    child_files: Seq<Seq<Seq<char>>>,
    now: Seq<char>,
) -> SummaryView {
    SummaryView {
        summary_id: condensed_id(outcome.content@, child_ids(rows)),
        kind: "condensed"@,
        depth: (depth + 1) as i64,
        content: outcome.content@,
        token_count: stored_count(outcome.output_tokens as nat) as i64,
        earliest_at: least(starts(rows)),
        latest_at: greatest(ends(rows)),
        descendant_count: total(descendants(rows)) as i64,
        descendant_token_count: total(descendant_tokens(rows)) as i64,
        source_message_token_count: total(source_tokens(rows)) as i64,
        model: outcome.level.label(),
        created_at: now,
        source_messages: Seq::empty(),
        children: child_ids(rows),
        files: unique_of(all_files(child_files)),
    }
}

/// Appends those of `ids` that are among `known`.
fn push_known(out: &mut Vec<String>, ids: &Vec<String>, known: &Vec<String>)
    ensures
        views(final(out)@) == views(old(out)@) + known_among(views(ids@), views(known@)),
{
    let ghost all = views(ids@);
    let ghost names = views(known@);
    let ghost before = views(out@);
    let n: usize = ids.len();
    let mut i: usize = 0;
    assert(all.take(0) =~= Seq::empty());
    assert(known_among(all.take(0), names) =~= Seq::empty());
    while i < n
        invariant
            i <= n,
            n == ids@.len(),
            all == views(ids@),
            names == views(known@),
            views(out@) =~= before + known_among(all.take(i as int), names),
        decreases n - i,
    {
        assert(all.take(i + 1).drop_last() =~= all.take(i as int));
        assert(all.take(i + 1).last() == ids@[i as int]@);
        if among(known, ids[i].as_str()) {
            let ghost prev = out@;
            let id = ids[i].clone();
            out.push(id);
            proof {
                lemma_views_push(prev, id);
            }
        }
        i += 1;
    }
    assert(all.take(n as int) =~= all);
}

proof fn lemma_known_among_concat(a: Seq<Seq<char>>, b: Seq<Seq<char>>, known: Seq<Seq<char>>)
    ensures
        known_among(a + b, known) == known_among(a, known) + known_among(b, known),
    decreases b.len(),
{
    if b.len() == 0 {
        assert(a + b =~= a);
        assert(known_among(a, known) + known_among(b, known) =~= known_among(a, known));
    } else {
        lemma_known_among_concat(a, b.drop_last(), known);
        assert((a + b).drop_last() =~= a + b.drop_last());
        assert(known_among(a + b, known) =~= known_among(a, known) + known_among(b, known));
    }
}

/// The files that the messages of a chunk mention and that are stored, each
/// once. A message can mention an id that was never stored.
fn chunk_files(chunk: &LeafChunk, known: &Vec<String>) -> (out: Vec<String>)
    ensures
        views(out@) == unique_of(known_among(mentioned_files(chunk@), views(known@))),
{
    let ghost rows = chunk@;
    let ghost names = views(known@);
    let n: usize = chunk.rows.len();
    let mut found: Vec<String> = Vec::new();
    let mut i: usize = 0;
    assert(rows.take(0) =~= Seq::empty());
    assert(mentioned_files(rows.take(0)) =~= Seq::empty());
    assert(views(found@) =~= known_among(mentioned_files(rows.take(0)), names));
    while i < n
        invariant
            i <= n,
            n == chunk.rows@.len(),
            rows == chunk@,
            names == views(known@),
            views(found@) == known_among(mentioned_files(rows.take(i as int)), names),
        decreases n - i,
    {
        let ids = extract_file_ids(chunk.rows[i].message.content());
        proof {
            assert(rows.take(i + 1).drop_last() =~= rows.take(i as int));
            assert(rows.take(i + 1).last() == chunk.rows@[i as int]@);
            lemma_known_among_concat(mentioned_files(rows.take(i as int)), views(ids@), names);
        }
        push_known(&mut found, &ids, known);
        i += 1;
    }
    assert(rows.take(n as int) =~= rows);
    unique_ordered(&found)
}

/// What is stored of a summarized run of messages. `known` holds the ids of
/// the stored files.
pub fn write_leaf_summary(
    chunk: &LeafChunk,
    outcome: &EscalationOutcome,
    known: &Vec<String>,
    now: &str,
) -> (r: SummaryWrite)
    requires
        counts_fit(message_counts(chunk@)),
    ensures
        r.summary@ == leaf_summary(chunk@, *outcome, views(known@), now@),
        r.first_ordinal == (if chunk@.len() > 0 {
            chunk@[0].ordinal
        } else {
            0
        }),
        r.last_ordinal == (if chunk@.len() > 0 {
            chunk@.last().ordinal
        } else {
            0
        }),
{
    let ghost rows = chunk@;
    let n: usize = chunk.rows.len();
    let mut ids: Vec<i64> = Vec::new();
    let mut counts: Vec<i64> = Vec::new();
    let mut times: Vec<String> = Vec::new();
    let mut i: usize = 0;
    while i < n
        invariant
            i <= n,
            n == chunk.rows@.len(),
            rows == chunk@,
            ids@.len() == i,
            counts@.len() == i,
            times@.len() == i,
            forall|k: int| 0 <= k < i ==> #[trigger] ids@[k] == rows[k].message_id,
            forall|k: int| 0 <= k < i ==> #[trigger] counts@[k] == rows[k].token_count,
            forall|k: int| 0 <= k < i ==> (#[trigger] times@[k])@ == rows[k].created_at,
        decreases n - i,
    {
        let row = &chunk.rows[i];
        assert(rows[i as int] == row@);
        ids.push(row.message_id);
        counts.push(row.token_count);
        times.push(row.created_at.clone());
        i += 1;
    }
    assert(ids@ =~= message_ids(rows));
    assert(counts@ =~= message_counts(rows));
    assert(views(times@) =~= message_times(rows));
    let source: i64 = sum(&counts);
    let (first, last): (i64, i64) = if n > 0 {
        assert(rows[0] == chunk.rows@[0]@ && rows.last() == chunk.rows@[n - 1]@);
        (chunk.rows[0].ordinal, chunk.rows[n - 1].ordinal)
    } else {
        (0, 0)
    };
    let summary_id = derive_summary_id(outcome.content.as_str(), &ids);
    let children: Vec<String> = Vec::new();
    let source_messages: Vec<i64> = ids;
    let summary = Summary {
        summary_id,
        kind: "leaf".to_owned(),
        depth: 0,
        content: outcome.content.clone(),
        token_count: to_stored_count(outcome.output_tokens),
        earliest_at: find_least(&times),
        latest_at: find_greatest(&times),
        descendant_count: to_stored_count(n),
        descendant_token_count: source,
        source_message_token_count: source,
        model: outcome.level.tag().to_owned(),
        created_at: now.to_owned(),
        source_messages,
        children,
        files: chunk_files(chunk, known),
    };
    assert(summary@.children =~= Seq::empty());
    assert(summary@ == leaf_summary(rows, *outcome, views(known@), now@));
    SummaryWrite { summary, first_ordinal: first, last_ordinal: last }
}

/// The ids of the summaries of a chunk.
pub open spec fn child_ids(rows: Seq<CondensedRowView>) -> Seq<Seq<char>> {
    rows.map_values(|r: CondensedRowView| r.summary_id)
}

/// When what the summaries cover starts.
pub open spec fn starts(rows: Seq<CondensedRowView>) -> Seq<Seq<char>> {
    rows.map_values(|r: CondensedRowView| r.earliest_at)
}

/// When what the summaries cover ends.
pub open spec fn ends(rows: Seq<CondensedRowView>) -> Seq<Seq<char>> {
    rows.map_values(|r: CondensedRowView| r.latest_at)
}

/// The files of several summaries, one after the other.
pub open spec fn all_files(lists: Seq<Seq<Seq<char>>>) -> Seq<Seq<char>>
    decreases lists.len(),
{
    if lists.len() == 0 {
        Seq::empty()
    } else {
        all_files(lists.drop_last()) + lists.last()
    }
}

/// The views of lists of files.
pub open spec fn list_views(lists: Seq<Vec<String>>) -> Seq<Seq<Seq<char>>> {
    lists.map_values(|l: Vec<String>| views(l@))
}

/// Appends copies of texts.
fn push_all(out: &mut Vec<String>, texts: &Vec<String>)
    ensures
        views(final(out)@) == views(old(out)@) + views(texts@),
{
    let ghost all = views(texts@);
    let ghost before = views(out@);
    let n: usize = texts.len();
    let mut i: usize = 0;
    while i < n
        invariant
            i <= n,
            n == texts@.len(),
            all == views(texts@),
            views(out@) =~= before + all.take(i as int),
        decreases n - i,
    {
        let ghost prev = out@;
        let text = texts[i].clone();
        out.push(text);
        proof {
            lemma_views_push(prev, text);
            assert(all.take(i + 1) =~= all.take(i as int).push(texts@[i as int]@));
        }
        i += 1;
    }
    assert(all.take(n as int) =~= all);
}

/// The files of several summaries, each once.
fn union_of(lists: &Vec<Vec<String>>) -> (out: Vec<String>)
    ensures
        views(out@) == unique_of(all_files(list_views(lists@))),
{
    let ghost all = list_views(lists@);
    let n: usize = lists.len();
    let mut found: Vec<String> = Vec::new();
    let mut i: usize = 0;
    assert(all.take(0) =~= Seq::empty());
    assert(views(found@) =~= all_files(all.take(0)));
    while i < n
        invariant
            i <= n,
            n == lists@.len(),
            all == list_views(lists@),
            views(found@) == all_files(all.take(i as int)),
        decreases n - i,
    {
        assert(all.take(i + 1).drop_last() =~= all.take(i as int));
        assert(all.take(i + 1).last() == views(lists@[i as int]@));
        push_all(&mut found, &lists[i]);
        i += 1;
    }
    assert(all.take(n as int) =~= all);
    unique_ordered(&found)
}

/// What is stored of a summarized run of summaries. `child_files` holds the
/// files of each summary of the chunk: they carry over even where the new
/// text drops a mention.
pub fn write_condensed_summary(
    chunk: &CondensedChunk,
    outcome: &EscalationOutcome,
    child_files: &Vec<Vec<String>>,
    now: &str,
) -> (r: SummaryWrite)
    requires
        children_fit(chunk@, chunk.depth),
    ensures
        r.summary@ == condensed_summary(chunk@, chunk.depth, *outcome, list_views(child_files@), now@),
        r.first_ordinal == (if chunk@.len() > 0 {
            chunk@[0].ordinal
        } else {
            0
        }),
        r.last_ordinal == (if chunk@.len() > 0 {
            chunk@.last().ordinal
        } else {
            0
        }),
{
    let ghost rows = chunk@;
    let n: usize = chunk.rows.len();
    let mut ids: Vec<String> = Vec::new();
    let mut from: Vec<String> = Vec::new();
    let mut to: Vec<String> = Vec::new();
    let mut covered: Vec<i64> = Vec::new();
    let mut covered_tokens: Vec<i64> = Vec::new();
    let mut source: Vec<i64> = Vec::new();
    let mut i: usize = 0;
    while i < n
        invariant
            i <= n,
            n == chunk.rows@.len(),
            rows == chunk@,
            ids@.len() == i,
            from@.len() == i,
            to@.len() == i,
            covered@.len() == i,
            covered_tokens@.len() == i,
            source@.len() == i,
            forall|k: int| 0 <= k < i ==> (#[trigger] ids@[k])@ == rows[k].summary_id,
            forall|k: int| 0 <= k < i ==> (#[trigger] from@[k])@ == rows[k].earliest_at,
            forall|k: int| 0 <= k < i ==> (#[trigger] to@[k])@ == rows[k].latest_at,
            forall|k: int| 0 <= k < i ==> #[trigger] covered@[k] == rows[k].descendant_count,
            forall|k: int|
                0 <= k < i ==> #[trigger] covered_tokens@[k] == rows[k].descendant_token_count,
            forall|k: int|
                0 <= k < i ==> #[trigger] source@[k] == rows[k].source_message_token_count,
        decreases n - i,
    {
        let row = &chunk.rows[i];
        assert(rows[i as int] == row@);
        ids.push(row.summary_id.clone());
        from.push(row.earliest_at.clone());
        to.push(row.latest_at.clone());
        covered.push(row.descendant_count);
        covered_tokens.push(row.descendant_token_count);
        source.push(row.source_message_token_count);
        i += 1;
    }
    assert(views(ids@) =~= child_ids(rows));
    assert(views(from@) =~= starts(rows));
    assert(views(to@) =~= ends(rows));
    assert(covered@ =~= descendants(rows));
    assert(covered_tokens@ =~= descendant_tokens(rows));
    assert(source@ =~= source_tokens(rows));
    let (first, last): (i64, i64) = if n > 0 {
        assert(rows[0] == chunk.rows@[0]@ && rows.last() == chunk.rows@[n - 1]@);
        (chunk.rows[0].ordinal, chunk.rows[n - 1].ordinal)
    } else {
        (0, 0)
    };
    let summary_id = derive_summary_id_str(outcome.content.as_str(), &ids);
    let children: Vec<String> = ids;
    let source_messages: Vec<i64> = Vec::new();
    let summary = Summary {
        summary_id,
        kind: "condensed".to_owned(),
        depth: chunk.depth + 1,
        content: outcome.content.clone(),
        token_count: to_stored_count(outcome.output_tokens),
        earliest_at: find_least(&from),
        latest_at: find_greatest(&to),
        descendant_count: sum(&covered),
        descendant_token_count: sum(&covered_tokens),
        source_message_token_count: sum(&source),
        model: outcome.level.tag().to_owned(),
        created_at: now.to_owned(),
        source_messages,
        children,
        files: union_of(child_files),
    };
    assert(summary@ == condensed_summary(rows, chunk.depth, *outcome, list_views(child_files@), now@));
    SummaryWrite { summary, first_ordinal: first, last_ordinal: last }
}

// ── The active context ──────────────────────────────────────────────

/// What an item of the active context stands for.
pub enum ItemRef {
    Message(i64),
    Summary(String),
}

/// The view of an [`ItemRef`].
pub enum RefView {
    Message(i64),
    Summary(Seq<char>),
}

/// An item of the active context.
pub struct ContextItem {
    pub ordinal: i64,
    pub item: ItemRef,
}

/// The view of a [`ContextItem`].
pub struct ItemView {
    pub ordinal: i64,
    pub item: RefView,
}

impl View for ItemRef {
    type V = RefView;

    open spec fn view(&self) -> RefView {
        match self {
            ItemRef::Message(id) => RefView::Message(*id),
            ItemRef::Summary(id) => RefView::Summary(id@),
        }
    }
}

impl View for ContextItem {
    type V = ItemView;

    open spec fn view(&self) -> ItemView {
        ItemView { ordinal: self.ordinal, item: self.item@ }
    }
}

impl Clone for ContextItem {
    fn clone(&self) -> (r: Self)
        ensures
            r@ == self@,
    {
        let item = match &self.item {
            ItemRef::Message(id) => ItemRef::Message(*id),
            ItemRef::Summary(id) => ItemRef::Summary(id.clone()),
        };
        ContextItem { ordinal: self.ordinal, item }
    }
}

/// The views of the items.
pub open spec fn item_views(items: Seq<ContextItem>) -> Seq<ItemView> {
    items.map_values(|i: ContextItem| i@)
}

/// The items before a place.
pub open spec fn items_before(items: Seq<ItemView>, first: i64) -> Seq<ItemView>
    decreases items.len(),
{
    if items.len() == 0 {
        Seq::empty()
    } else if items.last().ordinal < first {
        items_before(items.drop_last(), first).push(items.last())
    } else {
        items_before(items.drop_last(), first)
    }
}

/// The items after a place.
pub open spec fn items_after(items: Seq<ItemView>, last: i64) -> Seq<ItemView>
    decreases items.len(),
{
    if items.len() == 0 {
        Seq::empty()
    } else if items.last().ordinal > last {
        items_after(items.drop_last(), last).push(items.last())
    } else {
        items_after(items.drop_last(), last)
    }
}

/// The item that stands for a summary.
pub open spec fn summary_item(ordinal: i64, id: Seq<char>) -> ItemView {
    ItemView { ordinal, item: RefView::Summary(id) }
}

/// The active context with a range replaced by a summary at its start.
pub open spec fn replaced_range(items: Seq<ItemView>, first: i64, last: i64, id: Seq<char>) -> Seq<
    ItemView,
> {
    items_before(items, first).push(summary_item(first, id)) + items_after(items, last)
}

/// Replaces a range of the active context by a summary at its start.
pub fn replace_range(items: &Vec<ContextItem>, first: i64, last: i64, summary_id: &str) -> (out: Vec<
    ContextItem,
>)
    ensures
        item_views(out@) == replaced_range(item_views(items@), first, last, summary_id@),
{
    let ghost all = item_views(items@);
    let n: usize = items.len();
    let mut out: Vec<ContextItem> = Vec::new();
    let mut i: usize = 0;
    assert(all.take(0) =~= Seq::empty());
    assert(item_views(out@) =~= items_before(all.take(0), first));
    while i < n
        invariant
            i <= n,
            n == items@.len(),
            all == item_views(items@),
            item_views(out@) =~= items_before(all.take(i as int), first),
        decreases n - i,
    {
        assert(all.take(i + 1).drop_last() =~= all.take(i as int));
        assert(all.take(i + 1).last() == items@[i as int]@);
        if items[i].ordinal < first {
            out.push(items[i].clone());
        }
        i += 1;
    }
    assert(all.take(n as int) =~= all);
    out.push(ContextItem { ordinal: first, item: ItemRef::Summary(summary_id.to_owned()) });
    let ghost head = items_before(all, first).push(summary_item(first, summary_id@));
    assert(item_views(out@) =~= head);
    i = 0;
    assert(item_views(out@) =~= head + items_after(all.take(0), last));
    while i < n
        invariant
            i <= n,
            n == items@.len(),
            all == item_views(items@),
            item_views(out@) =~= head + items_after(all.take(i as int), last),
        decreases n - i,
    {
        assert(all.take(i + 1).drop_last() =~= all.take(i as int));
        assert(all.take(i + 1).last() == items@[i as int]@);
        if items[i].ordinal > last {
            let ghost prev = out@;
            let item = items[i].clone();
            out.push(item);
            assert(item_views(out@) =~= item_views(prev).push(item@));
        }
        i += 1;
    }
    out
}

/// Whether each item stands before the next.
pub open spec fn is_ordered(items: Seq<ItemView>) -> bool {
    forall|i: int, j: int|
        0 <= i < j < items.len() ==> (#[trigger] items[i]).ordinal < (#[trigger] items[j]).ordinal
}

proof fn lemma_items_before(items: Seq<ItemView>, a: int, first: i64)
    requires
        is_ordered(items),
        0 <= a <= items.len(),
        forall|i: int| 0 <= i < a ==> (#[trigger] items[i]).ordinal < first,
        forall|i: int| a <= i < items.len() ==> (#[trigger] items[i]).ordinal >= first,
    ensures
        items_before(items, first) == items.take(a),
    decreases items.len(),
{
    if items.len() > 0 {
        let rest = items.drop_last();
        if a == items.len() {
            assert(items.last().ordinal < first);
            lemma_items_before(rest, a - 1, first);
            assert(items_before(items, first) =~= items.take(a));
        } else {
            assert(items.last().ordinal >= first);
            lemma_items_before(rest, a, first);
            assert(rest.take(a) =~= items.take(a));
        }
    } else {
        assert(items.take(a) =~= Seq::empty());
    }
}

proof fn lemma_items_after(items: Seq<ItemView>, b: int, last: i64)
    requires
        is_ordered(items),
        0 <= b <= items.len(),
        forall|i: int| 0 <= i < b ==> (#[trigger] items[i]).ordinal <= last,
        forall|i: int| b <= i < items.len() ==> (#[trigger] items[i]).ordinal > last,
    ensures
        items_after(items, last) == items.skip(b),
    decreases items.len(),
{
    if items.len() > 0 {
        let rest = items.drop_last();
        if b == items.len() {
            assert(items.last().ordinal <= last);
            lemma_items_after(rest, b - 1, last);
            assert(rest.skip(b - 1) =~= items.skip(b));
        } else {
            assert(items.last().ordinal > last);
            lemma_items_after(rest, b, last);
            assert(items_after(items, last) =~= items.skip(b));
        }
    } else {
        assert(items.skip(b) =~= Seq::empty());
    }
}

proof fn lemma_before_is_ordered(items: Seq<ItemView>, first: i64)
    requires
        is_ordered(items),
    ensures
        is_ordered(items_before(items, first)),
        forall|i: int|
            0 <= i < items_before(items, first).len() ==> {
                let item = #[trigger] items_before(items, first)[i];
                item.ordinal < first && items.contains(item)
            },
    decreases items.len(),
{
    if items.len() > 0 {
        let rest = items.drop_last();
        let out = items_before(items, first);
        lemma_before_is_ordered(rest, first);
        assert forall|i: int| 0 <= i < out.len() implies {
            let item = #[trigger] out[i];
            item.ordinal < first && items.contains(item)
        } by {
            if i < items_before(rest, first).len() {
                assert(out[i] == items_before(rest, first)[i]);
                let k = choose|k: int| 0 <= k < rest.len() && rest[k] == out[i];
                assert(items[k] == out[i]);
            } else {
                assert(items[items.len() - 1] == out[i]);
            }
        }
        assert forall|i: int, j: int| 0 <= i < j < out.len() implies (#[trigger] out[i]).ordinal < (
        #[trigger] out[j]).ordinal by {
            let before = items_before(rest, first);
            assert(out[i] == before[i]);
            assert(rest.contains(before[i]));
            let k = choose|k: int| 0 <= k < rest.len() && rest[k] == before[i];
            assert(items[k].ordinal < items[items.len() - 1].ordinal);
            if j < before.len() {
                assert(out[j] == before[j]);
            }
        }
    }
}

proof fn lemma_after_is_ordered(items: Seq<ItemView>, last: i64)
    requires
        is_ordered(items),
    ensures
        is_ordered(items_after(items, last)),
        forall|i: int|
            0 <= i < items_after(items, last).len() ==> {
                let item = #[trigger] items_after(items, last)[i];
                item.ordinal > last && items.contains(item)
            },
    decreases items.len(),
{
    if items.len() > 0 {
        let rest = items.drop_last();
        let out = items_after(items, last);
        lemma_after_is_ordered(rest, last);
        assert forall|i: int| 0 <= i < out.len() implies {
            let item = #[trigger] out[i];
            item.ordinal > last && items.contains(item)
        } by {
            if i < items_after(rest, last).len() {
                assert(out[i] == items_after(rest, last)[i]);
                let k = choose|k: int| 0 <= k < rest.len() && rest[k] == out[i];
                assert(items[k] == out[i]);
            } else {
                assert(items[items.len() - 1] == out[i]);
            }
        }
        assert forall|i: int, j: int| 0 <= i < j < out.len() implies (#[trigger] out[i]).ordinal < (
        #[trigger] out[j]).ordinal by {
            let before = items_after(rest, last);
            assert(out[i] == before[i]);
            assert(rest.contains(before[i]));
            let k = choose|k: int| 0 <= k < rest.len() && rest[k] == before[i];
            assert(items[k].ordinal < items[items.len() - 1].ordinal);
            if j < before.len() {
                assert(out[j] == before[j]);
            }
        }
    }
}

/// Replacing a range keeps the order, and every item but the new one was
/// there before.
pub proof fn lemma_replaced_is_ordered(items: Seq<ItemView>, first: i64, last: i64, id: Seq<char>)
    requires
        is_ordered(items),
        first <= last,
    ensures
        is_ordered(replaced_range(items, first, last, id)),
        forall|i: int|
            0 <= i < replaced_range(items, first, last, id).len() ==> {
                let item = #[trigger] replaced_range(items, first, last, id)[i];
                item == summary_item(first, id) || items.contains(item)
            },
{
    lemma_before_is_ordered(items, first);
    lemma_after_is_ordered(items, last);
    let before = items_before(items, first);
    let after = items_after(items, last);
    let out = replaced_range(items, first, last, id);
    assert forall|i: int| 0 <= i < out.len() implies {
        let item = #[trigger] out[i];
        item == summary_item(first, id) || items.contains(item)
    } by {
        if i < before.len() {
            assert(out[i] == before[i]);
        } else if i > before.len() {
            assert(out[i] == after[i - before.len() - 1]);
        }
    }
    assert forall|i: int, j: int| 0 <= i < j < out.len() implies (#[trigger] out[i]).ordinal < (
    #[trigger] out[j]).ordinal by {
        if i < before.len() {
            assert(out[i] == before[i]);
        } else if i > before.len() {
            assert(out[i] == after[i - before.len() - 1]);
        }
        if j < before.len() {
            assert(out[j] == before[j]);
        } else if j > before.len() {
            assert(out[j] == after[j - before.len() - 1]);
        }
    }
}

/// Replacing a run of neighbouring items keeps everything before and after
/// it, in order, and puts the summary in its place. Where the run has two
/// items or more the context gets shorter, so a condensed pass comes to an
/// end.
pub proof fn replacing_a_run_keeps_the_rest(items: Seq<ItemView>, a: int, b: int, id: Seq<char>)
    requires
        is_ordered(items),
        0 <= a < b <= items.len(),
    ensures
        ({
            let first = items[a].ordinal;
            let out = replaced_range(items, first, items[b - 1].ordinal, id);
            &&& out == items.take(a).push(summary_item(first, id)) + items.skip(b)
            &&& is_ordered(out)
            &&& out.len() == items.len() - (b - a) + 1
            &&& b - a >= 2 ==> out.len() < items.len()
        }),
{
    let first = items[a].ordinal;
    lemma_items_before(items, a, first);
    lemma_items_after(items, b, items[b - 1].ordinal);
}

// ── The cycle ───────────────────────────────────────────────────────

/// Where a compaction cycle stands.
#[derive(Clone, Copy, PartialEq, Eq, Structural)]
pub enum CompactionPhase {
    /// Nothing was loaded yet.
    Start,
    /// Chunk `next` of `count` chunks of messages is being summarized.
    Leaf { count: usize, next: usize },
    /// The leaf pass is over.
    Between,
    /// Chunk `next` of `count` chunks of summaries is being summarized.
    Condensed { count: usize, next: usize },
}

/// What happened last in a compaction cycle.
#[derive(Clone, Copy, PartialEq, Eq, Structural)]
pub enum CompactionNews {
    Began,
    /// So many chunks were loaded.
    Loaded(usize),
    /// The summary of a chunk was stored.
    Stored,
}

/// What to do next in a compaction cycle.
#[derive(Clone, Copy, PartialEq, Eq, Structural)]
pub enum CompactionTask {
    LoadLeafChunks,
    /// Summarize a chunk of messages, and store the result.
    SummarizeLeaf(usize),
    LoadCondensedChunks,
    /// Summarize a chunk of summaries, and store the result.
    SummarizeCondensed(usize),
    Finish,
}

/// The next phase and task of a compaction cycle. The chunks of messages are
/// collapsed one by one, then chunks of summaries, which are loaded again
/// until there are none.
pub open spec fn after_news(phase: CompactionPhase, news: CompactionNews) -> (
    CompactionPhase,
    CompactionTask,
) {
    match (phase, news) {
        (CompactionPhase::Start, CompactionNews::Loaded(count)) => if count == 0 {
            (CompactionPhase::Between, CompactionTask::LoadCondensedChunks)
        } else {
            (CompactionPhase::Leaf { count, next: 0 }, CompactionTask::SummarizeLeaf(0))
        },
        (CompactionPhase::Leaf { count, next }, CompactionNews::Stored) => if next + 1 < count {
            (
                CompactionPhase::Leaf { count, next: (next + 1) as usize },
                CompactionTask::SummarizeLeaf((next + 1) as usize),
            )
        } else {
            (CompactionPhase::Between, CompactionTask::LoadCondensedChunks)
        },
        (CompactionPhase::Between, CompactionNews::Loaded(count)) => if count == 0 {
            (CompactionPhase::Between, CompactionTask::Finish)
        } else {
            (CompactionPhase::Condensed { count, next: 0 }, CompactionTask::SummarizeCondensed(0))
        },
        (CompactionPhase::Condensed { count, next }, CompactionNews::Stored) => if next + 1
            < count {
            (
                CompactionPhase::Condensed { count, next: (next + 1) as usize },
                CompactionTask::SummarizeCondensed((next + 1) as usize),
            )
        } else {
            (CompactionPhase::Between, CompactionTask::LoadCondensedChunks)
        },
        _ => (CompactionPhase::Start, CompactionTask::LoadLeafChunks),
    }
}

/// The next phase and task of a compaction cycle.
pub fn run_compaction(phase: CompactionPhase, news: CompactionNews) -> (r: (
    CompactionPhase,
    CompactionTask,
))
    ensures
        r == after_news(phase, news),
{
    match (phase, news) {
        (CompactionPhase::Start, CompactionNews::Loaded(count)) => {
            if count == 0 {
                (CompactionPhase::Between, CompactionTask::LoadCondensedChunks)
            } else {
                (CompactionPhase::Leaf { count, next: 0 }, CompactionTask::SummarizeLeaf(0))
            }
        },
        (CompactionPhase::Leaf { count, next }, CompactionNews::Stored) => {
            if next < count && next + 1 < count {
                (
                    CompactionPhase::Leaf { count, next: next + 1 },
                    CompactionTask::SummarizeLeaf(next + 1),
                )
            } else {
                (CompactionPhase::Between, CompactionTask::LoadCondensedChunks)
            }
        },
        (CompactionPhase::Between, CompactionNews::Loaded(count)) => {
            if count == 0 {
                (CompactionPhase::Between, CompactionTask::Finish)
            } else {
                (
                    CompactionPhase::Condensed { count, next: 0 },
                    CompactionTask::SummarizeCondensed(0),
                )
            }
        },
        (CompactionPhase::Condensed { count, next }, CompactionNews::Stored) => {
            if next < count && next + 1 < count {
                (
                    CompactionPhase::Condensed { count, next: next + 1 },
                    CompactionTask::SummarizeCondensed(next + 1),
                )
            } else {
                (CompactionPhase::Between, CompactionTask::LoadCondensedChunks)
            }
        },
        _ => (CompactionPhase::Start, CompactionTask::LoadLeafChunks),
    }
}

// ── What holds of every summary ─────────────────────────────────────

/// The least of some texts is one of them, and none comes before it.
pub proof fn least_comes_first(texts: Seq<Seq<char>>)
    requires
        texts.len() > 0,
    ensures
        texts.contains(least(texts)),
        forall|i: int| 0 <= i < texts.len() ==> !text_lt(#[trigger] texts[i], least(texts)),
    decreases texts.len(),
{
    let rest = texts.drop_last();
    lemma_lt_irreflexive(texts.last());
    assert(texts[texts.len() - 1] == texts.last());
    if texts.len() > 1 {
        least_comes_first(rest);
        let k = choose|k: int| 0 <= k < rest.len() && rest[k] == least(rest);
        assert(texts[k] == least(rest));
        assert forall|i: int| 0 <= i < texts.len() implies !text_lt(
            #[trigger] texts[i],
            least(texts),
        ) by {
            if i < rest.len() {
                assert(rest[i] == texts[i]);
                if text_lt(texts.last(), least(rest)) && text_lt(texts[i], texts.last()) {
                    lemma_lt_transitive(texts[i], texts.last(), least(rest));
                }
            }
        }
    }
}

/// The greatest of some texts is one of them, and it comes before none.
pub proof fn greatest_comes_last(texts: Seq<Seq<char>>)
    requires
        texts.len() > 0,
    ensures
        texts.contains(greatest(texts)),
        forall|i: int| 0 <= i < texts.len() ==> !text_lt(greatest(texts), #[trigger] texts[i]),
    decreases texts.len(),
{
    let rest = texts.drop_last();
    lemma_lt_irreflexive(texts.last());
    assert(texts[texts.len() - 1] == texts.last());
    if texts.len() > 1 {
        greatest_comes_last(rest);
        let k = choose|k: int| 0 <= k < rest.len() && rest[k] == greatest(rest);
        assert(texts[k] == greatest(rest));
        assert forall|i: int| 0 <= i < texts.len() implies !text_lt(
            greatest(texts),
            #[trigger] texts[i],
        ) by {
            if i < rest.len() {
                assert(rest[i] == texts[i]);
                if text_lt(greatest(rest), texts.last()) && text_lt(texts.last(), texts[i]) {
                    lemma_lt_transitive(greatest(rest), texts.last(), texts[i]);
                }
            }
        }
    }
}

/// What is stored in place of a run of messages is the text that the
/// escalation settled on, with its size and the level that gave it.
pub proof fn a_leaf_says_what_was_settled(
    rows: Seq<ChunkRowView>,
    outcome: EscalationOutcome,
    known: Seq<Seq<char>>,
    now: Seq<char>,
)
    requires
        outcome.output_tokens == tokens_of(outcome.content@),
        outcome.output_tokens <= i64::MAX,
    ensures
        ({
            let s = leaf_summary(rows, outcome, known, now);
            &&& s.content == outcome.content@
            &&& s.token_count == tokens_of(s.content)
            &&& s.model == match outcome.level {
                EscalationLevel::Normal => "level1"@,
                EscalationLevel::Aggressive => "level2"@,
                EscalationLevel::Deterministic => "level3-truncate"@,
            }
            &&& s.created_at == now
            &&& s.kind == "leaf"@
            &&& s.depth == 0
        }),
{
}

/// What is stored in place of a run of summaries is the text that the
/// escalation settled on, with its size and the level that gave it, one depth
/// above theirs.
pub proof fn a_condensed_summary_says_what_was_settled(
    rows: Seq<CondensedRowView>,
    depth: i64,
    outcome: EscalationOutcome,
    child_files: Seq<Seq<Seq<char>>>,
    now: Seq<char>,
)
    requires
        outcome.output_tokens == tokens_of(outcome.content@),
        outcome.output_tokens <= i64::MAX,
        depth < i64::MAX,
    ensures
        ({
            let s = condensed_summary(rows, depth, outcome, child_files, now);
            &&& s.content == outcome.content@
            &&& s.token_count == tokens_of(s.content)
            &&& s.model == match outcome.level {
                EscalationLevel::Normal => "level1"@,
                EscalationLevel::Aggressive => "level2"@,
                EscalationLevel::Deterministic => "level3-truncate"@,
            }
            &&& s.created_at == now
            &&& s.kind == "condensed"@
            &&& s.depth == depth + 1
        }),
{
}

/// A summary of messages covers exactly them: it lists each, counts each,
/// and spans the time from the first to the last of them.
pub proof fn a_leaf_covers_its_messages(
    rows: Seq<ChunkRowView>,
    outcome: EscalationOutcome,
    known: Seq<Seq<char>>,
    now: Seq<char>,
)
    requires
        0 < rows.len() <= i64::MAX,
    ensures
        ({
            let s = leaf_summary(rows, outcome, known, now);
            &&& s.source_messages.len() == rows.len()
            &&& forall|i: int|
                0 <= i < rows.len() ==> s.source_messages[i] == (#[trigger] rows[i]).message_id
            &&& s.children.len() == 0
            &&& s.descendant_count == rows.len()
            &&& exists|i: int| 0 <= i < rows.len() && s.earliest_at == (#[trigger] rows[i]).created_at
            &&& exists|i: int| 0 <= i < rows.len() && s.latest_at == (#[trigger] rows[i]).created_at
            &&& forall|i: int|
                0 <= i < rows.len() ==> !text_lt((#[trigger] rows[i]).created_at, s.earliest_at)
                    && !text_lt(s.latest_at, rows[i].created_at)
        }),
{
    let times = message_times(rows);
    let s = leaf_summary(rows, outcome, known, now);
    least_comes_first(times);
    greatest_comes_last(times);
    let a = choose|a: int| 0 <= a < times.len() && times[a] == least(times);
    let b = choose|b: int| 0 <= b < times.len() && times[b] == greatest(times);
    assert(rows[a].created_at == s.earliest_at);
    assert(rows[b].created_at == s.latest_at);
    assert forall|i: int| 0 <= i < rows.len() implies !text_lt(
        (#[trigger] rows[i]).created_at,
        s.earliest_at,
    ) && !text_lt(s.latest_at, rows[i].created_at) by {
        assert(times[i] == rows[i].created_at);
    }
}

/// The tokens that a summary of messages stands for are those of all its
/// messages: with one message more they grow by those of that message.
pub proof fn a_leaf_counts_every_token(
    rows: Seq<ChunkRowView>,
    row: ChunkRowView,
    outcome: EscalationOutcome,
    known: Seq<Seq<char>>,
    now: Seq<char>,
)
    requires
        counts_fit(message_counts(rows.push(row))),
    ensures
        ({
            let s = leaf_summary(rows, outcome, known, now);
            let more = leaf_summary(rows.push(row), outcome, known, now);
            &&& leaf_summary(Seq::empty(), outcome, known, now).descendant_token_count == 0
            &&& leaf_summary(Seq::empty(), outcome, known, now).source_message_token_count == 0
            &&& more.descendant_token_count == s.descendant_token_count + row.token_count
            &&& more.source_message_token_count == s.source_message_token_count + row.token_count
        }),
{
    let counts = message_counts(rows.push(row));
    assert(counts.drop_last() =~= message_counts(rows));
    assert(counts.last() == row.token_count);
    assert(message_counts(Seq::<ChunkRowView>::empty()) =~= Seq::empty());
    assert(counts.take(rows.len() as int) =~= message_counts(rows));
    lemma_total(counts, rows.len() as int);
}

/// A summary of summaries covers exactly them: it lists each as a child, and
/// spans the time from the first start to the last end.
pub proof fn a_condensed_summary_covers_its_children(
    rows: Seq<CondensedRowView>,
    depth: i64,
    outcome: EscalationOutcome,
    child_files: Seq<Seq<Seq<char>>>,
    now: Seq<char>,
)
    requires
        rows.len() > 0,
    ensures
        ({
            let s = condensed_summary(rows, depth, outcome, child_files, now);
            &&& s.children.len() == rows.len()
            &&& forall|i: int|
                0 <= i < rows.len() ==> s.children[i] == (#[trigger] rows[i]).summary_id
            &&& s.source_messages.len() == 0
            &&& exists|i: int|
                0 <= i < rows.len() && s.earliest_at == (#[trigger] rows[i]).earliest_at
            &&& exists|i: int| 0 <= i < rows.len() && s.latest_at == (#[trigger] rows[i]).latest_at
            &&& forall|i: int|
                0 <= i < rows.len() ==> !text_lt((#[trigger] rows[i]).earliest_at, s.earliest_at)
                    && !text_lt(s.latest_at, rows[i].latest_at)
        }),
{
    let s = condensed_summary(rows, depth, outcome, child_files, now);
    least_comes_first(starts(rows));
    greatest_comes_last(ends(rows));
    let a = choose|a: int| 0 <= a < rows.len() && starts(rows)[a] == least(starts(rows));
    let b = choose|b: int| 0 <= b < rows.len() && ends(rows)[b] == greatest(ends(rows));
    assert(rows[a].earliest_at == s.earliest_at);
    assert(rows[b].latest_at == s.latest_at);
    assert forall|i: int| 0 <= i < rows.len() implies !text_lt(
        (#[trigger] rows[i]).earliest_at,
        s.earliest_at,
    ) && !text_lt(s.latest_at, rows[i].latest_at) by {
        assert(starts(rows)[i] == rows[i].earliest_at);
        assert(ends(rows)[i] == rows[i].latest_at);
    }
}

/// What a summary of summaries stands for is what all its children stand for:
/// with one child more it grows by what that child stands for.
pub proof fn a_condensed_summary_counts_every_child(
    rows: Seq<CondensedRowView>,
    row: CondensedRowView,
    depth: i64,
    outcome: EscalationOutcome,
    child_files: Seq<Seq<Seq<char>>>,
    now: Seq<char>,
)
    requires
        children_fit(rows.push(row), depth),
    ensures
        ({
            let none = condensed_summary(Seq::empty(), depth, outcome, child_files, now);
            let s = condensed_summary(rows, depth, outcome, child_files, now);
            let more = condensed_summary(rows.push(row), depth, outcome, child_files, now);
            &&& none.descendant_count == 0
            &&& none.descendant_token_count == 0
            &&& none.source_message_token_count == 0
            &&& more.descendant_count == s.descendant_count + row.descendant_count
            &&& more.descendant_token_count == s.descendant_token_count + row.descendant_token_count
            &&& more.source_message_token_count == s.source_message_token_count
                + row.source_message_token_count
        }),
{
    let all = rows.push(row);
    assert(descendants(all).drop_last() =~= descendants(rows));
    assert(descendant_tokens(all).drop_last() =~= descendant_tokens(rows));
    assert(source_tokens(all).drop_last() =~= source_tokens(rows));
    assert(descendants(all).last() == row.descendant_count);
    assert(descendant_tokens(all).last() == row.descendant_token_count);
    assert(source_tokens(all).last() == row.source_message_token_count);
    assert(descendants(all).take(rows.len() as int) =~= descendants(rows));
    assert(descendant_tokens(all).take(rows.len() as int) =~= descendant_tokens(rows));
    assert(source_tokens(all).take(rows.len() as int) =~= source_tokens(rows));
    lemma_total(descendants(all), rows.len() as int);
    lemma_total(descendant_tokens(all), rows.len() as int);
    lemma_total(source_tokens(all), rows.len() as int);
    let none = Seq::<CondensedRowView>::empty();
    assert(descendants(none) =~= Seq::empty());
    assert(descendant_tokens(none) =~= Seq::empty());
    assert(source_tokens(none) =~= Seq::empty());
}

proof fn lemma_known_among(ids: Seq<Seq<char>>, known: Seq<Seq<char>>, x: Seq<char>)
    ensures
        known_among(ids, known).contains(x) <==> ids.contains(x) && known.contains(x),
    decreases ids.len(),
{
    if ids.len() > 0 {
        let rest = ids.drop_last();
        let before = known_among(rest, known);
        let out = known_among(ids, known);
        lemma_known_among(rest, known, x);
        if rest.contains(x) {
            let k = choose|k: int| 0 <= k < rest.len() && rest[k] == x;
            assert(ids[k] == x);
        }
        if ids.contains(x) && !rest.contains(x) {
            let k = choose|k: int| 0 <= k < ids.len() && ids[k] == x;
            if k < rest.len() {
                assert(rest[k] == x);
            }
            assert(x == ids.last());
        }
        assert(ids[ids.len() - 1] == ids.last());
        if before.contains(x) {
            let k = choose|k: int| 0 <= k < before.len() && before[k] == x;
            assert(out[k] == x);
        }
        if known.contains(ids.last()) {
            assert(out[out.len() - 1] == ids.last());
            if out.contains(x) && !before.contains(x) {
                let k = choose|k: int| 0 <= k < out.len() && out[k] == x;
                if k < before.len() {
                    assert(before[k] == x);
                }
            }
        }
    }
}

proof fn lemma_mentioned_files(rows: Seq<ChunkRowView>, x: Seq<char>)
    ensures
        mentioned_files(rows).contains(x) <==> exists|i: int|
            0 <= i < rows.len() && file_ids_of((#[trigger] rows[i]).message.content()).contains(x),
    decreases rows.len(),
{
    if rows.len() > 0 {
        let rest = rows.drop_last();
        lemma_mentioned_files(rest, x);
        let a = mentioned_files(rest);
        let b = file_ids_of(rows.last().message.content());
        let out = mentioned_files(rows);
        if out.contains(x) {
            let k = choose|k: int| 0 <= k < out.len() && out[k] == x;
            if k < a.len() {
                assert(a[k] == x);
                let i = choose|i: int|
                    0 <= i < rest.len() && file_ids_of(
                        (#[trigger] rest[i]).message.content(),
                    ).contains(x);
                assert(rows[i] == rest[i]);
            } else {
                assert(b[k - a.len()] == x);
                assert(file_ids_of(rows[rows.len() - 1].message.content()).contains(x));
            }
        }
        if exists|i: int|
            0 <= i < rows.len() && file_ids_of((#[trigger] rows[i]).message.content()).contains(x) {
            let i = choose|i: int|
                0 <= i < rows.len() && file_ids_of((#[trigger] rows[i]).message.content()).contains(x);
            if i < rest.len() {
                assert(rest[i] == rows[i]);
                let k = choose|k: int| 0 <= k < a.len() && a[k] == x;
                assert(out[k] == x);
            } else {
                let k = choose|k: int| 0 <= k < b.len() && b[k] == x;
                assert(out[a.len() + k] == x);
            }
        }
    }
}

/// A summary of messages covers a file exactly where one of the messages
/// mentions it and it is stored, and names it once.
pub proof fn a_leaf_covers_the_files_of_its_messages(
    rows: Seq<ChunkRowView>,
    outcome: EscalationOutcome,
    known: Seq<Seq<char>>,
    now: Seq<char>,
    x: Seq<char>,
)
    ensures
        leaf_summary(rows, outcome, known, now).files.no_duplicates(),
        leaf_summary(rows, outcome, known, now).files.contains(x) <==> known.contains(x) && exists|
            i: int,
        |
            0 <= i < rows.len() && file_ids_of((#[trigger] rows[i]).message.content()).contains(x),
{
    let ids = mentioned_files(rows);
    lemma_mentioned_files(rows, x);
    lemma_known_among(ids, known, x);
    unique_keeps_every_value_once(known_among(ids, known));
    assert(known_among(ids, known).contains(x) <==> unique_of(known_among(ids, known)).contains(x));
}

proof fn lemma_all_files(lists: Seq<Seq<Seq<char>>>, x: Seq<char>)
    ensures
        all_files(lists).contains(x) <==> exists|i: int|
            0 <= i < lists.len() && (#[trigger] lists[i]).contains(x),
    decreases lists.len(),
{
    if lists.len() > 0 {
        let rest = lists.drop_last();
        lemma_all_files(rest, x);
        let a = all_files(rest);
        let b = lists.last();
        let out = all_files(lists);
        if out.contains(x) {
            let k = choose|k: int| 0 <= k < out.len() && out[k] == x;
            if k < a.len() {
                assert(a[k] == x);
                let i = choose|i: int| 0 <= i < rest.len() && (#[trigger] rest[i]).contains(x);
                assert(lists[i] == rest[i]);
            } else {
                assert(b[k - a.len()] == x);
                assert(lists[lists.len() - 1].contains(x));
            }
        }
        if exists|i: int| 0 <= i < lists.len() && (#[trigger] lists[i]).contains(x) {
            let i = choose|i: int| 0 <= i < lists.len() && (#[trigger] lists[i]).contains(x);
            if i < rest.len() {
                assert(rest[i] == lists[i]);
                let k = choose|k: int| 0 <= k < a.len() && a[k] == x;
                assert(out[k] == x);
            } else {
                let k = choose|k: int| 0 <= k < b.len() && b[k] == x;
                assert(out[a.len() + k] == x);
            }
        }
    }
}

/// A summary of summaries covers a file exactly where one of them does,
/// whatever its text mentions, and names it once.
pub proof fn a_condensed_summary_covers_the_files_of_its_children(
    rows: Seq<CondensedRowView>,
    depth: i64,
    outcome: EscalationOutcome,
    child_files: Seq<Seq<Seq<char>>>,
    now: Seq<char>,
    x: Seq<char>,
)
    ensures
        ({
            let s = condensed_summary(rows, depth, outcome, child_files, now);
            &&& s.files.no_duplicates()
            &&& s.files.contains(x) <==> exists|i: int|
                0 <= i < child_files.len() && (#[trigger] child_files[i]).contains(x)
        }),
{
    lemma_all_files(child_files, x);
    unique_keeps_every_value_once(all_files(child_files));
    assert(all_files(child_files).contains(x) <==> unique_of(all_files(child_files)).contains(x));
}

/// The news of a cycle in which `k` summaries were stored, one after the other.
pub open spec fn after_stores(phase: CompactionPhase, task: CompactionTask, k: nat) -> (
    CompactionPhase,
    CompactionTask,
)
    decreases k,
{
    if k == 0 {
        (phase, task)
    } else {
        after_news(after_stores(phase, task, (k - 1) as nat).0, CompactionNews::Stored)
    }
}

/// A cycle begins with the chunks of messages, summarizes each of them once
/// and in order, and then turns to the chunks of summaries.
pub proof fn every_leaf_chunk_is_summarized(count: usize, k: nat)
    requires
        k <= count,
    ensures
        ({
            let (start, first) = after_news(CompactionPhase::Start, CompactionNews::Began);
            let (phase, task) = after_news(start, CompactionNews::Loaded(count));
            &&& first == CompactionTask::LoadLeafChunks
            &&& after_stores(phase, task, k).1 == if k < count {
                CompactionTask::SummarizeLeaf(k as usize)
            } else {
                CompactionTask::LoadCondensedChunks
            }
            &&& k < count ==> after_stores(phase, task, k).0 == (CompactionPhase::Leaf {
                count,
                next: k as usize,
            })
            &&& k == count ==> after_stores(phase, task, k).0 == CompactionPhase::Between
        }),
    decreases k,
{
    if k > 0 {
        every_leaf_chunk_is_summarized(count, (k - 1) as nat);
    }
}

/// Each time chunks of summaries are loaded, each of them is summarized once
/// and in order, and they are loaded again. The cycle ends where there are
/// none, and only there.
pub proof fn every_condensed_chunk_is_summarized(count: usize, k: nat)
    requires
        k <= count,
    ensures
        ({
            let (phase, task) = after_news(CompactionPhase::Between, CompactionNews::Loaded(count));
            &&& count == 0 <==> task == CompactionTask::Finish
            &&& count > 0 ==> after_stores(phase, task, k).1 == if k < count {
                CompactionTask::SummarizeCondensed(k as usize)
            } else {
                CompactionTask::LoadCondensedChunks
            }
            &&& 0 < count && k < count ==> after_stores(phase, task, k).0
                == (CompactionPhase::Condensed { count, next: k as usize })
            &&& 0 < count == k ==> after_stores(phase, task, k).0 == CompactionPhase::Between
        }),
    decreases k,
{
    if k > 0 {
        every_condensed_chunk_is_summarized(count, (k - 1) as nat);
    }
}

/// Replacing a range drops every item in it and keeps every other one, with
/// the summary at the start of the range.
pub proof fn replacing_drops_exactly_the_range(
    items: Seq<ItemView>,
    first: i64,
    last: i64,
    id: Seq<char>,
    item: ItemView,
)
    requires
        first <= last,
    ensures
        replaced_range(items, first, last, id).contains(
            ItemView { ordinal: first, item: RefView::Summary(id) },
        ),
        item != summary_item(first, id) ==> (replaced_range(items, first, last, id).contains(item)
            <==> items.contains(item) && !(first <= item.ordinal <= last)),
{
    let a = items_before(items, first);
    let b = items_after(items, last);
    let out = replaced_range(items, first, last, id);
    lemma_in_before(items, first, item);
    lemma_in_after(items, last, item);
    assert(out[a.len() as int] == summary_item(first, id));
    if a.contains(item) {
        let k = choose|k: int| 0 <= k < a.len() && a[k] == item;
        assert(out[k] == item);
    }
    if b.contains(item) {
        let k = choose|k: int| 0 <= k < b.len() && b[k] == item;
        assert(out[a.len() + 1 + k] == item);
    }
    if out.contains(item) && item != summary_item(first, id) {
        let k = choose|k: int| 0 <= k < out.len() && out[k] == item;
        if k < a.len() {
            assert(a[k] == item);
        } else {
            assert(b[k - a.len() - 1] == item);
        }
    }
}

proof fn lemma_in_before(items: Seq<ItemView>, first: i64, item: ItemView)
    ensures
        items_before(items, first).contains(item) <==> items.contains(item) && item.ordinal < first,
    decreases items.len(),
{
    if items.len() > 0 {
        let rest = items.drop_last();
        let before = items_before(rest, first);
        let out = items_before(items, first);
        lemma_in_before(rest, first, item);
        if rest.contains(item) {
            let k = choose|k: int| 0 <= k < rest.len() && rest[k] == item;
            assert(items[k] == item);
        }
        if items.contains(item) && !rest.contains(item) {
            let k = choose|k: int| 0 <= k < items.len() && items[k] == item;
            if k < rest.len() {
                assert(rest[k] == item);
            }
        }
        assert(items[items.len() - 1] == items.last());
        if before.contains(item) {
            let k = choose|k: int| 0 <= k < before.len() && before[k] == item;
            assert(out[k] == item);
        }
        if items.last().ordinal < first {
            assert(out[out.len() - 1] == items.last());
            if out.contains(item) && !before.contains(item) {
                let k = choose|k: int| 0 <= k < out.len() && out[k] == item;
                if k < before.len() {
                    assert(before[k] == item);
                }
            }
        }
    }
}

proof fn lemma_in_after(items: Seq<ItemView>, last: i64, item: ItemView)
    ensures
        items_after(items, last).contains(item) <==> items.contains(item) && item.ordinal > last,
    decreases items.len(),
{
    if items.len() > 0 {
        let rest = items.drop_last();
        let before = items_after(rest, last);
        let out = items_after(items, last);
        lemma_in_after(rest, last, item);
        if rest.contains(item) {
            let k = choose|k: int| 0 <= k < rest.len() && rest[k] == item;
            assert(items[k] == item);
        }
        if items.contains(item) && !rest.contains(item) {
            let k = choose|k: int| 0 <= k < items.len() && items[k] == item;
            if k < rest.len() {
                assert(rest[k] == item);
            }
        }
        assert(items[items.len() - 1] == items.last());
        if before.contains(item) {
            let k = choose|k: int| 0 <= k < before.len() && before[k] == item;
            assert(out[k] == item);
        }
        if items.last().ordinal > last {
            assert(out[out.len() - 1] == items.last());
            if out.contains(item) && !before.contains(item) {
                let k = choose|k: int| 0 <= k < out.len() && out[k] == item;
                if k < before.len() {
                    assert(before[k] == item);
                }
            }
        }
    }
}

} // verus!
