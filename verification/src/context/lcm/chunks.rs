//! Choosing what a compaction collapses: runs of raw messages outside the
//! protected tail, and runs of summaries of one depth.

use vstd::prelude::*;

use super::counts::{counts_fit, total};
use super::rows::{message_of, part_views, reconstruct_message, Part, PartView, RowError, RowFault};
use crate::config::LcmConfig;
use crate::text::number::{push_i64, signed_decimal};
use crate::text::{has_prefix, has_suffix, same};
use crate::types::{message_views, Message, MessageView};

verus! {

// ── Rows ────────────────────────────────────────────────────────────

/// A message of the active context, as stored.
pub struct MessageRow {
    pub ordinal: i64,
    pub message_id: i64,
    pub role: String,
    pub content: String,
    pub token_count: i64,
    pub created_at: String,
    pub parts: Vec<Part>,
}

/// The view of a [`MessageRow`].
pub struct MessageRowView {
    pub ordinal: i64,
    pub message_id: i64,
    pub role: Seq<char>,
    pub content: Seq<char>,
    pub token_count: i64,
    pub created_at: Seq<char>,
    pub parts: Seq<PartView>,
}

impl View for MessageRow {
    type V = MessageRowView;

    open spec fn view(&self) -> MessageRowView {
        MessageRowView {
            ordinal: self.ordinal,
            message_id: self.message_id,
            role: self.role@,
            content: self.content@,
            token_count: self.token_count,
            created_at: self.created_at@,
            parts: part_views(self.parts@),
        }
    }
}

/// The views of stored messages.
pub open spec fn row_views(rows: Seq<MessageRow>) -> Seq<MessageRowView> {
    rows.map_values(|r: MessageRow| r@)
}

/// A message that will be collapsed.
pub struct ChunkRow {
    pub ordinal: i64,
    pub message_id: i64,
    pub token_count: i64,
    pub created_at: String,
    pub message: Message,
}

/// The view of a [`ChunkRow`].
pub struct ChunkRowView {
    pub ordinal: i64,
    pub message_id: i64,
    pub token_count: i64,
    pub created_at: Seq<char>,
    pub message: MessageView,
}

impl View for ChunkRow {
    type V = ChunkRowView;

    open spec fn view(&self) -> ChunkRowView {
        ChunkRowView {
            ordinal: self.ordinal,
            message_id: self.message_id,
            token_count: self.token_count,
            created_at: self.created_at@,
            message: self.message@,
        }
    }
}

/// A run of messages that collapses into one summary.
pub struct LeafChunk {
    pub rows: Vec<ChunkRow>,
}

/// The views of messages that will be collapsed.
pub open spec fn chunk_views(rows: Seq<ChunkRow>) -> Seq<ChunkRowView> {
    rows.map_values(|r: ChunkRow| r@)
}

impl View for LeafChunk {
    type V = Seq<ChunkRowView>;

    open spec fn view(&self) -> Seq<ChunkRowView> {
        chunk_views(self.rows@)
    }
}

impl LeafChunk {
    /// The messages that are summarized.
    pub fn messages(&self) -> (out: Vec<Message>)
        ensures
            message_views(out@) == self@.map_values(|r: ChunkRowView| r.message),
    {
        let mut out: Vec<Message> = Vec::new();
        let n: usize = self.rows.len();
        let mut i: usize = 0;
        while i < n
            invariant
                i <= n,
                n == self.rows@.len(),
                out@.len() == i,
                forall|k: int| 0 <= k < i ==> (#[trigger] out@[k])@ == self.rows@[k]@.message,
            decreases n - i,
        {
            out.push(self.rows[i].message.clone());
            i += 1;
        }
        assert(message_views(out@) =~= self@.map_values(|r: ChunkRowView| r.message));
        out
    }
}

// ── The leaf pass ───────────────────────────────────────────────────

/// An item of the active context: a message, or `None` for a summary.
pub open spec fn slot_view(slot: Option<MessageRow>) -> Option<MessageRowView> {
    match slot {
        Some(row) => Some(row@),
        None => None,
    }
}

/// The items of the active context: a message each, or `None` for a summary.
pub open spec fn slot_views(slots: Seq<Option<MessageRow>>) -> Seq<Option<MessageRowView>> {
    slots.map_values(|e: Option<MessageRow>| slot_view(e))
}

/// The token count of a message; a summary has none of its own here.
pub open spec fn slot_tokens(slot: Option<MessageRowView>) -> int {
    match slot {
        Some(row) => row.token_count as int,
        None => 0,
    }
}

/// The sum of the token counts of `rows` from `from` to `to`.
pub open spec fn row_tokens(rows: Seq<Option<MessageRowView>>, from: int, to: int) -> int
    decreases to - from,
{
    if to <= from {
        0
    } else {
        row_tokens(rows, from, to - 1) + slot_tokens(rows[to - 1])
    }
}

/// Whether the token counts are counts, and their sum is within range.
pub open spec fn rows_fit(rows: Seq<Option<MessageRowView>>) -> bool {
    &&& forall|i: int| 0 <= i < rows.len() ==> slot_tokens(#[trigger] rows[i]) >= 0
    &&& row_tokens(rows, 0, rows.len() as int) <= i64::MAX
}

proof fn lemma_row_tokens(rows: Seq<Option<MessageRowView>>, from: int, mid: int, to: int)
    requires
        0 <= from <= mid <= to <= rows.len(),
        forall|i: int| 0 <= i < rows.len() ==> slot_tokens(#[trigger] rows[i]) >= 0,
    ensures
        row_tokens(rows, from, to) == row_tokens(rows, from, mid) + row_tokens(rows, mid, to),
        0 <= row_tokens(rows, from, mid),
        0 <= row_tokens(rows, mid, to),
    decreases to - from,
{
    if mid < to {
        lemma_row_tokens(rows, from, mid, to - 1);
    } else if from < mid {
        lemma_row_tokens(rows, from, mid - 1, mid - 1);
    }
}

/// Whether the token counts are counts, and their sum is within range.
pub fn rows_are_countable(rows: &Vec<Option<MessageRow>>) -> (r: bool)
    ensures
        r == rows_fit(slot_views(rows@)),
{
    let ghost all = slot_views(rows@);
    let n: usize = rows.len();
    let mut total: i64 = 0;
    let mut i: usize = 0;
    while i < n
        invariant
            i <= n,
            n == rows@.len(),
            all == slot_views(rows@),
            total == row_tokens(all, 0, i as int),
            total >= 0,
            forall|k: int| 0 <= k < i ==> slot_tokens(#[trigger] all[k]) >= 0,
        decreases n - i,
    {
        let count: i64 = match &rows[i] {
            Some(row) => row.token_count,
            None => 0,
        };
        assert(slot_tokens(all[i as int]) == count);
        if count < 0 {
            return false;
        }
        if count > i64::MAX - total {
            proof {
                if rows_fit(all) {
                    lemma_row_tokens(all, 0, i + 1, n as int);
                }
            }
            return false;
        }
        total += count;
        i += 1;
    }
    true
}

/// The place of the newest message of the user among the first `n` rows.
pub open spec fn newest_user(rows: Seq<Option<MessageRowView>>, n: int) -> Option<i64>
    decreases n,
{
    if n <= 0 {
        None
    } else {
        let before = newest_user(rows, n - 1);
        match rows[n - 1] {
            Some(row) if row.role == "user"@ => match before {
                Some(o) if o >= row.ordinal => before,
                _ => Some(row.ordinal),
            },
            _ => before,
        }
    }
}

/// Whether an item is pinned: the newest message of the user stays verbatim,
/// wherever it stands.
pub open spec fn is_pinned(rows: Seq<Option<MessageRowView>>, i: int) -> bool {
    rows[i] is Some && newest_user(rows, rows.len() as int) == Some(rows[i]->0.ordinal)
}

/// Whether an item is a message that may be collapsed.
pub open spec fn is_collapsible(rows: Seq<Option<MessageRowView>>, i: int) -> bool {
    rows[i] is Some && !is_pinned(rows, i)
}

/// How many messages are among the items from `from` to `to`.
pub open spec fn messages_among(rows: Seq<Option<MessageRowView>>, from: int, to: int) -> int
    decreases to - from,
{
    if to <= from {
        0
    } else {
        messages_among(rows, from, to - 1) + if rows[to - 1] is Some {
            1int
        } else {
            0
        }
    }
}

/// Where the newest `tail` messages among the first `n` items start; 0 where
/// there are not as many.
pub open spec fn tail_start(rows: Seq<Option<MessageRowView>>, n: int, tail: int) -> int
    decreases n,
{
    if n <= 0 {
        0
    } else if tail <= 0 {
        n
    } else if rows[n - 1] is Some {
        tail_start(rows, n - 1, tail - 1)
    } else {
        tail_start(rows, n - 1, tail)
    }
}

/// How many items lie before the protected tail.
pub open spec fn eligible(rows: Seq<Option<MessageRowView>>, cfg: LcmConfig) -> int {
    tail_start(rows, rows.len() as int, cfg.fresh_tail_count as int)
}

/// Where a sequence is cut: the runs that are complete, and where the open
/// one starts.
pub struct Cut {
    pub done: Seq<(int, int)>,
    pub start: int,
}

/// The cut with its open run completed at `to`, the next one starting at
/// `next`.
pub open spec fn closed_at(cut: Cut, to: int, next: int) -> Cut {
    Cut {
        done: if cut.start < to {
            cut.done.push((cut.start, to))
        } else {
            cut.done
        },
        start: next,
    }
}

/// The runs among the first `n` items: one ends before a pinned message,
/// before a summary, and before a message that would bring it over the budget.
pub open spec fn leaf_cut(rows: Seq<Option<MessageRowView>>, budget: int, n: int) -> Cut
    decreases n,
{
    if n <= 0 {
        Cut { done: Seq::empty(), start: 0 }
    } else {
        let cut = leaf_cut(rows, budget, n - 1);
        if !is_collapsible(rows, n - 1) {
            closed_at(cut, n - 1, n)
        } else if cut.start < n - 1 && row_tokens(rows, cut.start, n) > budget {
            closed_at(cut, n - 1, n - 1)
        } else {
            cut
        }
    }
}

/// The runs of messages that are collapsed, as ranges of items.
pub open spec fn leaf_runs(rows: Seq<Option<MessageRowView>>, cfg: LcmConfig) -> Seq<(int, int)> {
    let n = eligible(rows, cfg);
    closed_at(leaf_cut(rows, cfg.leaf_chunk_tokens as int, n), n, n).done
}

/// What reading a row back gives.
pub open spec fn read_row(row: MessageRowView) -> Result<MessageView, RowFault> {
    message_of(row.message_id, row.role, row.content, row.parts)
}

/// The first fault among the messages that are read: those of the first `n`
/// items, without the pinned one.
pub open spec fn first_fault(rows: Seq<Option<MessageRowView>>, n: int) -> Option<RowFault>
    decreases n,
{
    if n <= 0 {
        None
    } else {
        match first_fault(rows, n - 1) {
            Some(fault) => Some(fault),
            None => if is_collapsible(rows, n - 1) {
                match read_row(rows[n - 1]->0) {
                    Ok(_) => None,
                    Err(fault) => Some(fault),
                }
            } else {
                None
            },
        }
    }
}

/// A stored message as it stands in a chunk.
pub open spec fn chunk_row(row: MessageRowView) -> ChunkRowView {
    ChunkRowView {
        ordinal: row.ordinal,
        message_id: row.message_id,
        token_count: row.token_count,
        created_at: row.created_at,
        message: read_row(row)->Ok_0,
    }
}

/// The messages of a run, as they stand in a chunk.
pub open spec fn chunk_of(rows: Seq<Option<MessageRowView>>, run: (int, int)) -> Seq<ChunkRowView> {
    rows.subrange(run.0, run.1).map_values(|r: Option<MessageRowView>| chunk_row(r->0))
}

/// Whether `chunks` are the runs, one by one.
pub open spec fn are_runs(
    chunks: Seq<LeafChunk>,
    rows: Seq<Option<MessageRowView>>,
    runs: Seq<(int, int)>,
) -> bool {
    &&& chunks.len() == runs.len()
    &&& forall|k: int| 0 <= k < chunks.len() ==> (#[trigger] chunks[k])@ == chunk_of(rows, runs[k])
}

/// The token counts of the messages of a chunk.
pub open spec fn message_counts(rows: Seq<ChunkRowView>) -> Seq<i64> {
    rows.map_values(|r: ChunkRowView| r.token_count)
}

/// The tokens of a run are those of its chunk, and their sum is within range.
proof fn lemma_chunk_counts(rows: Seq<Option<MessageRowView>>, from: int, to: int)
    requires
        rows_fit(rows),
        0 <= from <= to <= rows.len(),
        forall|i: int| from <= i < to ==> (#[trigger] rows[i]) is Some,
    ensures
        total(message_counts(chunk_of(rows, (from, to)))) == row_tokens(rows, from, to),
        counts_fit(message_counts(chunk_of(rows, (from, to)))),
    decreases to - from,
{
    let counts = message_counts(chunk_of(rows, (from, to)));
    assert forall|i: int| 0 <= i < counts.len() implies #[trigger] counts[i] >= 0 by {
        assert(rows[from + i] is Some);
        assert(counts[i] == slot_tokens(rows[from + i]));
    }
    if from < to {
        lemma_chunk_counts(rows, from, to - 1);
        assert(counts.drop_last() =~= message_counts(chunk_of(rows, (from, to - 1))));
        assert(counts.last() == slot_tokens(rows[to - 1]));
    }
    lemma_row_tokens(rows, from, to, rows.len() as int);
    lemma_row_tokens(rows, 0, from, rows.len() as int);
}

/// The tail holds as many messages as asked, or all there are.
proof fn lemma_tail_start(rows: Seq<Option<MessageRowView>>, n: int, tail: int)
    requires
        0 <= n <= rows.len(),
        0 <= tail,
    ensures
        ({
            let start = tail_start(rows, n, tail);
            &&& 0 <= start <= n
            &&& messages_among(rows, start, n) == tail || (start == 0 && messages_among(rows, 0, n)
                < tail)
        }),
    decreases n,
{
    if n > 0 && tail > 0 {
        lemma_tail_start(
            rows,
            n - 1,
            if rows[n - 1] is Some {
                tail - 1
            } else {
                tail
            },
        );
    }
}

/// Where the protected tail starts.
fn find_tail(rows: &Vec<Option<MessageRow>>, tail: u32) -> (n: usize)
    ensures
        n <= rows@.len(),
        n == tail_start(slot_views(rows@), rows@.len() as int, tail as int),
{
    let ghost all = slot_views(rows@);
    let mut n: usize = rows.len();
    let mut left: u32 = tail;
    while n > 0 && left > 0
        invariant
            n <= rows@.len(),
            all == slot_views(rows@),
            tail_start(all, n as int, left as int) == tail_start(
                all,
                rows@.len() as int,
                tail as int,
            ),
        decreases n,
    {
        assert(all[n - 1] == slot_view(rows@[n - 1]));
        if rows[n - 1].is_some() {
            left -= 1;
        }
        n -= 1;
    }
    n
}

/// The place of the newest message of the user.
fn find_newest_user(rows: &Vec<Option<MessageRow>>) -> (r: Option<i64>)
    ensures
        r == newest_user(slot_views(rows@), rows@.len() as int),
{
    let ghost all = slot_views(rows@);
    let n: usize = rows.len();
    let mut best: Option<i64> = None;
    let mut i: usize = 0;
    while i < n
        invariant
            i <= n,
            n == rows@.len(),
            all == slot_views(rows@),
            best == newest_user(all, i as int),
        decreases n - i,
    {
        assert(all[i as int] == slot_view(rows@[i as int]));
        if let Some(row) = &rows[i] {
            if same(row.role.as_str(), "user") {
                let ordinal: i64 = row.ordinal;
                best = match best {
                    Some(o) if o >= ordinal => best,
                    _ => Some(ordinal),
                };
            }
        }
        i += 1;
    }
    best
}

proof fn lemma_first_fault(rows: Seq<Option<MessageRowView>>, i: int, n: int)
    requires
        0 <= i <= n,
        first_fault(rows, i) is Some,
    ensures
        first_fault(rows, n) == first_fault(rows, i),
    decreases n - i,
{
    if i < n {
        lemma_first_fault(rows, i, n - 1);
    }
}

proof fn lemma_cut_start(rows: Seq<Option<MessageRowView>>, budget: int, n: int)
    requires
        0 <= n,
    ensures
        0 <= leaf_cut(rows, budget, n).start <= n,
    decreases n,
{
    if n > 0 {
        lemma_cut_start(rows, budget, n - 1);
    }
}

/// The chunks of messages that a leaf pass collapses. Messages of the
/// protected tail are left out, and so is the newest message of the user: a
/// long turn pushes hundreds of tool results through the tail, and the task
/// statement is still needed word for word. A pinned message and a summary
/// split a run, since the whole range of a chunk is replaced.
pub fn load_leaf_chunks(rows: &Vec<Option<MessageRow>>, cfg: &LcmConfig) -> (r: Result<
    Vec<LeafChunk>,
    RowError,
>)
    requires
        rows_fit(slot_views(rows@)),
    ensures
        match r {
            Ok(chunks) => {
                &&& first_fault(slot_views(rows@), eligible(slot_views(rows@), *cfg)) is None
                &&& are_runs(chunks@, slot_views(rows@), leaf_runs(slot_views(rows@), *cfg))
                &&& forall|k: int|
                    0 <= k < chunks@.len() ==> counts_fit(message_counts((#[trigger] chunks@[k])@))
            },
            Err(e) => first_fault(slot_views(rows@), eligible(slot_views(rows@), *cfg)) == Some(e@),
        },
{
    let ghost all = slot_views(rows@);
    let budget: i64 = cfg.leaf_chunk_tokens as i64;
    let mut chunks: Vec<LeafChunk> = Vec::new();
    let n: usize = find_tail(rows, cfg.fresh_tail_count);
    let pinned = find_newest_user(rows);
    let mut current: Vec<ChunkRow> = Vec::new();
    let mut tokens: i64 = 0;
    let mut i: usize = 0;
    assert(chunk_views(current@) =~= chunk_of(all, (0, 0)));
    while i < n
        invariant
            i <= n <= rows@.len(),
            n == eligible(all, *cfg),
            all == slot_views(rows@),
            rows_fit(all),
            budget == cfg.leaf_chunk_tokens,
            pinned == newest_user(all, all.len() as int),
            first_fault(all, i as int) is None,
            are_runs(chunks@, all, leaf_cut(all, budget as int, i as int).done),
            0 <= leaf_cut(all, budget as int, i as int).start <= i,
            chunk_views(current@) == chunk_of(
                all,
                (leaf_cut(all, budget as int, i as int).start, i as int),
            ),
            tokens == row_tokens(all, leaf_cut(all, budget as int, i as int).start, i as int),
        decreases n - i,
    {
        let ghost cut = leaf_cut(all, budget as int, i as int);
        let ghost next = leaf_cut(all, budget as int, i + 1);
        assert(all[i as int] == slot_view(rows@[i as int]));
        assert(current@.len() == i - cut.start) by {
            assert(chunk_views(current@).len() == i - cut.start);
        }
        let open = match (&rows[i], pinned) {
            (Some(row), Some(o)) if o == row.ordinal => None,
            (Some(row), _) => Some(row),
            (None, _) => None,
        };
        let row = match open {
            Some(row) => row,
            None => {
                assert(!is_collapsible(all, i as int));
                if current.len() > 0 {
                    chunks.push(LeafChunk { rows: current });
                    current = Vec::new();
                    assert(chunks@.last()@ == chunk_of(all, (cut.start, i as int)));
                }
                tokens = 0;
                assert(chunk_views(current@) =~= chunk_of(all, (i + 1, i + 1)));
                i += 1;
                continue;
            },
        };
        assert(is_collapsible(all, i as int) && all[i as int] == Some(row@));
        let count: i64 = row.token_count;
        let message = match reconstruct_message(
            row.message_id,
            row.role.as_str(),
            row.content.as_str(),
            &row.parts,
        ) {
            Ok(m) => m,
            Err(e) => {
                proof {
                    assert(first_fault(all, i + 1) == Some(e@));
                    lemma_first_fault(all, i + 1, n as int);
                }
                return Err(e);
            },
        };
        proof {
            let len = all.len() as int;
            lemma_row_tokens(all, cut.start, i as int, i + 1);
            lemma_row_tokens(all, cut.start, i + 1, len);
            lemma_row_tokens(all, 0, cut.start, len);
            assert(row_tokens(all, i as int, i + 1) == row_tokens(all, i as int, i as int) + count);
        }
        if current.len() > 0 && tokens + count > budget {
            chunks.push(LeafChunk { rows: current });
            current = Vec::new();
            tokens = 0;
            assert(chunks@.last()@ == chunk_of(all, (cut.start, i as int)));
        }
        tokens += count;
        let ghost before = current@;
        current.push(
            ChunkRow {
                ordinal: row.ordinal,
                message_id: row.message_id,
                token_count: count,
                created_at: row.created_at.clone(),
                message,
            },
        );
        proof {
            assert(chunk_views(before) =~= chunk_of(all, (next.start, i as int)));
            assert(all.subrange(next.start, i + 1) =~= all.subrange(next.start, i as int).push(
                all[i as int],
            ));
            assert(current@.last()@ == chunk_row(row@));
            assert(chunk_views(current@) =~= chunk_views(before).push(chunk_row(row@)));
            assert(chunk_of(all, (next.start, i + 1)) =~= chunk_of(
                all,
                (next.start, i as int),
            ).push(chunk_row(row@)));
        }
        i += 1;
    }
    let ghost cut = leaf_cut(all, budget as int, n as int);
    assert(current@.len() == n - cut.start) by {
        assert(chunk_views(current@).len() == n - cut.start);
    }
    if current.len() > 0 {
        chunks.push(LeafChunk { rows: current });
        assert(chunks@.last()@ == chunk_of(all, (cut.start, n as int)));
    }
    proof {
        leaf_runs_cover_all_but_the_pin(all, *cfg);
        assert forall|k: int| 0 <= k < chunks@.len() implies counts_fit(
            message_counts((#[trigger] chunks@[k])@),
        ) by {
            let run = leaf_runs(all, *cfg)[k];
            assert(0 <= run.0 < run.1 <= all.len());
            assert forall|i: int| run.0 <= i < run.1 implies (#[trigger] all[i]) is Some by {
                assert(in_some_run(leaf_runs(all, *cfg), i));
            }
            lemma_chunk_counts(all, run.0, run.1);
        }
    }
    Ok(chunks)
}

/// Whether row `i` is in one of the runs.
pub open spec fn in_some_run(runs: Seq<(int, int)>, i: int) -> bool {
    exists|k: int| 0 <= k < runs.len() && (#[trigger] runs[k]).0 <= i < runs[k].1
}

/// Whether the runs follow each other, each with at least one row, and end
/// by `n`.
pub open spec fn in_order(runs: Seq<(int, int)>, n: int) -> bool {
    &&& forall|k: int|
        0 <= k < runs.len() ==> 0 <= (#[trigger] runs[k]).0 < runs[k].1 && runs[k].1 <= n
    &&& forall|j: int, k: int|
        0 <= j < k < runs.len() ==> (#[trigger] runs[j]).1 <= (#[trigger] runs[k]).0
}

proof fn lemma_leaf_cut(rows: Seq<Option<MessageRowView>>, budget: int, n: int)
    requires
        0 <= n <= rows.len(),
    ensures
        ({
            let cut = leaf_cut(rows, budget, n);
            let runs = cut.done;
            &&& 0 <= cut.start <= n
            &&& in_order(runs, cut.start)
            &&& forall|i: int| 0 <= i < cut.start ==> (in_some_run(runs, i) <==> is_collapsible(rows, i))
            &&& forall|i: int| cut.start <= i < n ==> is_collapsible(rows, i)
            &&& forall|k: int|
                0 <= k < runs.len() ==> (#[trigger] runs[k]).1 == runs[k].0 + 1 || row_tokens(
                    rows,
                    runs[k].0,
                    runs[k].1,
                ) <= budget
            &&& n <= cut.start + 1 || row_tokens(rows, cut.start, n) <= budget
        }),
    decreases n,
{
    if n > 0 {
        lemma_leaf_cut(rows, budget, n - 1);
        let prev = leaf_cut(rows, budget, n - 1);
        let cut = leaf_cut(rows, budget, n);
        if cut.done.len() > prev.done.len() {
            assert(cut.done == prev.done.push((prev.start, n - 1)));
            assert forall|i: int| 0 <= i < cut.start implies (in_some_run(cut.done, i)
                <==> is_collapsible(rows, i)) by {
                lemma_in_pushed(prev.done, (prev.start, n - 1), i);
                if i >= prev.start {
                    lemma_not_in_order(prev.done, prev.start, i);
                }
            }
        } else {
            assert(cut.done == prev.done);
            if !is_collapsible(rows, n - 1) {
                assert forall|i: int| 0 <= i < cut.start implies (in_some_run(cut.done, i)
                    <==> is_collapsible(rows, i)) by {
                    if i >= prev.start {
                        lemma_not_in_order(prev.done, prev.start, i);
                    }
                }
            }
        }
    }
}

proof fn lemma_in_pushed(runs: Seq<(int, int)>, run: (int, int), i: int)
    ensures
        in_some_run(runs.push(run), i) <==> in_some_run(runs, i) || run.0 <= i < run.1,
{
    let more = runs.push(run);
    if in_some_run(runs, i) {
        let k = choose|k: int| 0 <= k < runs.len() && (#[trigger] runs[k]).0 <= i < runs[k].1;
        assert(more[k] == runs[k]);
    }
    if run.0 <= i < run.1 {
        assert(more[runs.len() as int] == run);
    }
    if in_some_run(more, i) {
        let k = choose|k: int| 0 <= k < more.len() && (#[trigger] more[k]).0 <= i < more[k].1;
        if k < runs.len() {
            assert(runs[k] == more[k]);
        }
    }
}

proof fn lemma_not_in_order(runs: Seq<(int, int)>, n: int, i: int)
    requires
        in_order(runs, n),
        n <= i,
    ensures
        !in_some_run(runs, i),
{
}

/// A leaf pass collapses every message outside the protected tail exactly
/// once, in order, and leaves summaries, the newest message of the user and
/// the tail alone: no run reaches over any of them. The tail holds as many
/// messages as configured, or all there are. A chunk stays within the token budget, unless it is one message
/// that is over it by itself.
pub proof fn leaf_runs_cover_all_but_the_pin(rows: Seq<Option<MessageRowView>>, cfg: LcmConfig)
    ensures
        0 <= eligible(rows, cfg) <= rows.len(),
        messages_among(rows, eligible(rows, cfg), rows.len() as int) == cfg.fresh_tail_count || (
        eligible(rows, cfg) == 0 && messages_among(rows, 0, rows.len() as int)
            < cfg.fresh_tail_count),
        in_order(leaf_runs(rows, cfg), eligible(rows, cfg)),
        forall|i: int|
            0 <= i < eligible(rows, cfg) ==> (#[trigger] in_some_run(leaf_runs(rows, cfg), i)
                <==> is_collapsible(rows, i)),
        forall|i: int|
            eligible(rows, cfg) <= i < rows.len() ==> !#[trigger] in_some_run(
                leaf_runs(rows, cfg),
                i,
            ),
        forall|k: int|
            0 <= k < leaf_runs(rows, cfg).len() ==> {
                let run = #[trigger] leaf_runs(rows, cfg)[k];
                run.1 == run.0 + 1 || row_tokens(rows, run.0, run.1) <= cfg.leaf_chunk_tokens
            },
{
    let budget = cfg.leaf_chunk_tokens as int;
    let n = eligible(rows, cfg);
    let cut = leaf_cut(rows, budget, n);
    let runs = leaf_runs(rows, cfg);
    lemma_tail_start(rows, rows.len() as int, cfg.fresh_tail_count as int);
    lemma_leaf_cut(rows, budget, n);
    assert forall|i: int| 0 <= i < n implies (#[trigger] in_some_run(runs, i)
        <==> is_collapsible(rows, i)) by {
        if cut.start < n {
            lemma_in_pushed(cut.done, (cut.start, n), i);
        }
        if i >= cut.start {
            lemma_not_in_order(cut.done, cut.start, i);
        }
    }
    assert forall|i: int| n <= i < rows.len() implies !#[trigger] in_some_run(runs, i) by {
        lemma_not_in_order(runs, n, i);
    }
}

// ── The condensed pass ──────────────────────────────────────────────

/// A summary of the active context, as stored.
pub struct CondensedRow {
    pub ordinal: i64,
    pub summary_id: String,
    pub depth: i64,
    pub token_count: i64,
    pub earliest_at: String,
    pub latest_at: String,
    pub descendant_count: i64,
    pub descendant_token_count: i64,
    pub source_message_token_count: i64,
    pub content: String,
}

/// The view of a [`CondensedRow`].
pub struct CondensedRowView {
    pub ordinal: i64,
    pub summary_id: Seq<char>,
    pub depth: i64,
    pub token_count: i64,
    pub earliest_at: Seq<char>,
    pub latest_at: Seq<char>,
    pub descendant_count: i64,
    pub descendant_token_count: i64,
    pub source_message_token_count: i64,
    pub content: Seq<char>,
}

impl View for CondensedRow {
    type V = CondensedRowView;

    open spec fn view(&self) -> CondensedRowView {
        CondensedRowView {
            ordinal: self.ordinal,
            summary_id: self.summary_id@,
            depth: self.depth,
            token_count: self.token_count,
            earliest_at: self.earliest_at@,
            latest_at: self.latest_at@,
            descendant_count: self.descendant_count,
            descendant_token_count: self.descendant_token_count,
            source_message_token_count: self.source_message_token_count,
            content: self.content@,
        }
    }
}

impl Clone for CondensedRow {
    fn clone(&self) -> (r: Self)
        ensures
            r@ == self@,
    {
        CondensedRow {
            ordinal: self.ordinal,
            summary_id: self.summary_id.clone(),
            depth: self.depth,
            token_count: self.token_count,
            earliest_at: self.earliest_at.clone(),
            latest_at: self.latest_at.clone(),
            descendant_count: self.descendant_count,
            descendant_token_count: self.descendant_token_count,
            source_message_token_count: self.source_message_token_count,
            content: self.content.clone(),
        }
    }
}

/// A run of summaries of one depth that collapses into one summary at the
/// next depth.
pub struct CondensedChunk {
    pub rows: Vec<CondensedRow>,
    pub depth: i64,
}

impl View for CondensedChunk {
    type V = Seq<CondensedRowView>;

    open spec fn view(&self) -> Seq<CondensedRowView> {
        self.rows@.map_values(|r: CondensedRow| r@)
    }
}

/// A summary as it is shown to the summarizer.
pub open spec fn wrapped_summary(r: CondensedRowView) -> Seq<char> {
    "<summary id=\""@ + r.summary_id + "\" depth=\""@ + signed_decimal(r.depth as int) + "\">\n"@
        + r.content + "\n</summary>"@
}

impl CondensedChunk {
    /// The messages that are summarized: one system message per summary, in
    /// a `<summary>` tag, so that the summarizer sees structure.
    pub fn messages(&self) -> (out: Vec<Message>)
        ensures
            message_views(out@) == self@.map_values(
                |r: CondensedRowView| MessageView::System { content: wrapped_summary(r) },
            ),
    {
        let mut out: Vec<Message> = Vec::new();
        let n: usize = self.rows.len();
        let mut i: usize = 0;
        while i < n
            invariant
                i <= n,
                n == self.rows@.len(),
                out@.len() == i,
                forall|k: int|
                    0 <= k < i ==> (#[trigger] out@[k])@ == (MessageView::System {
                        content: wrapped_summary(self.rows@[k]@),
                    }),
            decreases n - i,
        {
            let row = &self.rows[i];
            let mut content = String::new();
            content.append("<summary id=\"");
            content.append(row.summary_id.as_str());
            content.append("\" depth=\"");
            push_i64(&mut content, row.depth);
            content.append("\">\n");
            content.append(row.content.as_str());
            content.append("\n</summary>");
            assert(content@ =~= wrapped_summary(row@));
            out.push(Message::System { content });
            i += 1;
        }
        assert(message_views(out@) =~= self@.map_values(
            |r: CondensedRowView| MessageView::System { content: wrapped_summary(r) },
        ));
        out
    }
}

/// An item of the active context: a summary, or `None` for a message.
pub open spec fn entry_views(entries: Seq<Option<CondensedRow>>) -> Seq<Option<CondensedRowView>> {
    entries.map_values(
        |e: Option<CondensedRow>|
            match e {
                Some(r) => Some(r@),
                None => None,
            },
    )
}

/// What is summed up over summaries.
#[derive(Clone, Copy, PartialEq, Eq, Structural)]
pub enum Measure {
    /// The tokens of the summary itself.
    Tokens,
    /// The messages that it covers.
    Descendants,
    /// The tokens of what it covers.
    DescendantTokens,
    /// The tokens of the messages that it covers.
    SourceTokens,
}

/// A measure of a summary.
pub open spec fn measure(r: CondensedRowView, m: Measure) -> i64 {
    match m {
        Measure::Tokens => r.token_count,
        Measure::Descendants => r.descendant_count,
        Measure::DescendantTokens => r.descendant_token_count,
        Measure::SourceTokens => r.source_message_token_count,
    }
}

/// A measure of an item: nothing for a message.
pub open spec fn entry_measure(e: Option<CondensedRowView>, m: Measure) -> int {
    match e {
        Some(r) => measure(r, m) as int,
        None => 0,
    }
}

/// The sum of a measure over the items from `from` to `to`.
pub open spec fn entry_total(
    entries: Seq<Option<CondensedRowView>>,
    m: Measure,
    from: int,
    to: int,
) -> int
    decreases to - from,
{
    if to <= from {
        0
    } else {
        entry_total(entries, m, from, to - 1) + entry_measure(entries[to - 1], m)
    }
}

/// The sum of the token counts of the summaries from `from` to `to`.
pub open spec fn entry_tokens(entries: Seq<Option<CondensedRowView>>, from: int, to: int) -> int {
    entry_total(entries, Measure::Tokens, from, to)
}

/// Whether a measure counts, and its sum is within range.
pub open spec fn measure_fits(entries: Seq<Option<CondensedRowView>>, m: Measure) -> bool {
    &&& forall|i: int| 0 <= i < entries.len() ==> entry_measure(#[trigger] entries[i], m) >= 0
    &&& entry_total(entries, m, 0, entries.len() as int) <= i64::MAX
}

/// Whether every measure counts and is within range, and every depth has a
/// next one.
pub open spec fn entries_fit(entries: Seq<Option<CondensedRowView>>) -> bool {
    &&& measure_fits(entries, Measure::Tokens)
    &&& measure_fits(entries, Measure::Descendants)
    &&& measure_fits(entries, Measure::DescendantTokens)
    &&& measure_fits(entries, Measure::SourceTokens)
    &&& forall|i: int|
        0 <= i < entries.len() ==> ((#[trigger] entries[i]) matches Some(r) ==> r.depth < i64::MAX)
}

proof fn lemma_entry_total(
    entries: Seq<Option<CondensedRowView>>,
    m: Measure,
    from: int,
    mid: int,
    to: int,
)
    requires
        0 <= from <= mid <= to <= entries.len(),
        forall|i: int| 0 <= i < entries.len() ==> entry_measure(#[trigger] entries[i], m) >= 0,
    ensures
        entry_total(entries, m, from, to) == entry_total(entries, m, from, mid) + entry_total(
            entries,
            m,
            mid,
            to,
        ),
        0 <= entry_total(entries, m, from, mid),
        0 <= entry_total(entries, m, mid, to),
    decreases to - from,
{
    if mid < to {
        lemma_entry_total(entries, m, from, mid, to - 1);
    } else if from < mid {
        lemma_entry_total(entries, m, from, mid - 1, mid - 1);
    }
}

/// A measure of a summary.
fn measure_of(r: &CondensedRow, m: Measure) -> (n: i64)
    ensures
        n == measure(r@, m),
{
    match m {
        Measure::Tokens => r.token_count,
        Measure::Descendants => r.descendant_count,
        Measure::DescendantTokens => r.descendant_token_count,
        Measure::SourceTokens => r.source_message_token_count,
    }
}

/// Whether a measure counts, and its sum is within range.
fn is_measurable(entries: &Vec<Option<CondensedRow>>, m: Measure) -> (r: bool)
    ensures
        r == measure_fits(entry_views(entries@), m),
{
    let ghost all = entry_views(entries@);
    let n: usize = entries.len();
    let mut acc: i64 = 0;
    let mut i: usize = 0;
    while i < n
        invariant
            i <= n,
            n == entries@.len(),
            all == entry_views(entries@),
            acc == entry_total(all, m, 0, i as int),
            acc >= 0,
            forall|k: int| 0 <= k < i ==> entry_measure(#[trigger] all[k], m) >= 0,
        decreases n - i,
    {
        let count: i64 = match &entries[i] {
            Some(r) => measure_of(r, m),
            None => 0,
        };
        assert(entry_measure(all[i as int], m) == count);
        if count < 0 {
            return false;
        }
        if count > i64::MAX - acc {
            proof {
                if measure_fits(all, m) {
                    lemma_entry_total(all, m, 0, i + 1, n as int);
                }
            }
            return false;
        }
        acc += count;
        i += 1;
    }
    true
}

/// Whether every measure counts and is within range, and every depth has a
/// next one.
pub fn entries_are_countable(entries: &Vec<Option<CondensedRow>>) -> (r: bool)
    ensures
        r == entries_fit(entry_views(entries@)),
{
    let ghost all = entry_views(entries@);
    let n: usize = entries.len();
    let mut i: usize = 0;
    while i < n
        invariant
            i <= n,
            n == entries@.len(),
            all == entry_views(entries@),
            forall|k: int|
                0 <= k < i ==> ((#[trigger] all[k]) matches Some(r) ==> r.depth < i64::MAX),
        decreases n - i,
    {
        if let Some(row) = &entries[i] {
            assert(all[i as int] == Some(row@));
            if row.depth == i64::MAX {
                return false;
            }
        }
        i += 1;
    }
    is_measurable(entries, Measure::Tokens) && is_measurable(entries, Measure::Descendants)
        && is_measurable(entries, Measure::DescendantTokens) && is_measurable(
        entries,
        Measure::SourceTokens,
    )
}

/// Whether two neighbouring items belong to one run: summaries of one depth.
pub open spec fn of_one_depth(a: Option<CondensedRowView>, b: Option<CondensedRowView>) -> bool {
    match (a, b) {
        (Some(x), Some(y)) => x.depth == y.depth,
        _ => false,
    }
}

/// The cut with its open run ended at `to`, the next one starting at `next`.
/// A run is kept where it has enough members and is within the budget.
pub open spec fn flushed(
    entries: Seq<Option<CondensedRowView>>,
    cfg: LcmConfig,
    cut: Cut,
    to: int,
    next: int,
) -> Cut {
    Cut {
        done: if to - cut.start >= cfg.min_condensed_fanout && entry_tokens(entries, cut.start, to)
            <= cfg.leaf_chunk_tokens {
            cut.done.push((cut.start, to))
        } else {
            cut.done
        },
        start: next,
    }
}

/// The runs among the first `n` items: one ends before a message, and where
/// the depth changes.
pub open spec fn condensed_cut(
    entries: Seq<Option<CondensedRowView>>,
    cfg: LcmConfig,
    n: int,
) -> Cut
    decreases n,
{
    if n <= 0 {
        Cut { done: Seq::empty(), start: 0 }
    } else {
        let cut = condensed_cut(entries, cfg, n - 1);
        if entries[n - 1] is None {
            flushed(entries, cfg, cut, n - 1, n)
        } else if cut.start < n - 1 && of_one_depth(entries[cut.start], entries[n - 1]) {
            cut
        } else {
            flushed(entries, cfg, cut, n - 1, n - 1)
        }
    }
}

/// The runs of summaries that are collapsed, as ranges of items.
pub open spec fn condensed_runs(entries: Seq<Option<CondensedRowView>>, cfg: LcmConfig) -> Seq<
    (int, int),
> {
    let n = entries.len() as int;
    flushed(entries, cfg, condensed_cut(entries, cfg, n), n, n).done
}

/// The summaries of a run.
pub open spec fn summaries_of(entries: Seq<Option<CondensedRowView>>, run: (int, int)) -> Seq<
    CondensedRowView,
> {
    entries.subrange(run.0, run.1).map_values(|e: Option<CondensedRowView>| e->0)
}

/// Whether `chunks` are the runs, one by one.
pub open spec fn are_summary_runs(
    chunks: Seq<CondensedChunk>,
    entries: Seq<Option<CondensedRowView>>,
    runs: Seq<(int, int)>,
) -> bool {
    &&& chunks.len() == runs.len()
    &&& forall|k: int|
        0 <= k < chunks.len() ==> (#[trigger] chunks[k])@ == summaries_of(entries, runs[k])
            && chunks[k].depth == entries[runs[k].0]->0.depth
}

/// How many messages each summary covers.
pub open spec fn descendants(rows: Seq<CondensedRowView>) -> Seq<i64> {
    rows.map_values(|r: CondensedRowView| r.descendant_count)
}

/// The tokens of what each summary covers.
pub open spec fn descendant_tokens(rows: Seq<CondensedRowView>) -> Seq<i64> {
    rows.map_values(|r: CondensedRowView| r.descendant_token_count)
}

/// The tokens of the messages that each summary covers.
pub open spec fn source_tokens(rows: Seq<CondensedRowView>) -> Seq<i64> {
    rows.map_values(|r: CondensedRowView| r.source_message_token_count)
}

/// Whether what the children cover can be summed up, and the next depth is
/// within range.
pub open spec fn children_fit(rows: Seq<CondensedRowView>, depth: i64) -> bool {
    &&& counts_fit(descendants(rows))
    &&& counts_fit(descendant_tokens(rows))
    &&& counts_fit(source_tokens(rows))
    &&& depth < i64::MAX
}

/// The sum of a measure over a run is that over its chunk.
proof fn lemma_run_total(
    entries: Seq<Option<CondensedRowView>>,
    m: Measure,
    from: int,
    to: int,
    counts: Seq<i64>,
)
    requires
        measure_fits(entries, m),
        0 <= from <= to <= entries.len(),
        forall|i: int| from <= i < to ==> (#[trigger] entries[i]) is Some,
        counts.len() == to - from,
        forall|i: int| 0 <= i < counts.len() ==> #[trigger] counts[i] == measure(entries[from + i]->0, m),
    ensures
        total(counts) == entry_total(entries, m, from, to),
        counts_fit(counts),
    decreases to - from,
{
    assert forall|i: int| 0 <= i < counts.len() implies #[trigger] counts[i] >= 0 by {
        assert(entry_measure(entries[from + i], m) >= 0);
    }
    if from < to {
        assert(entries[to - 1] is Some);
        assert(counts[to - 1 - from] == measure(entries[to - 1]->0, m));
        lemma_run_total(entries, m, from, to - 1, counts.drop_last());
    }
    lemma_entry_total(entries, m, from, to, entries.len() as int);
    lemma_entry_total(entries, m, 0, from, entries.len() as int);
}

/// What a run covers can be summed up.
proof fn lemma_children_fit(entries: Seq<Option<CondensedRowView>>, from: int, to: int)
    requires
        entries_fit(entries),
        0 <= from < to <= entries.len(),
        forall|i: int| from <= i < to ==> (#[trigger] entries[i]) is Some,
    ensures
        children_fit(summaries_of(entries, (from, to)), entries[from]->0.depth),
{
    let rows = summaries_of(entries, (from, to));
    lemma_run_total(entries, Measure::Descendants, from, to, descendants(rows));
    lemma_run_total(entries, Measure::DescendantTokens, from, to, descendant_tokens(rows));
    lemma_run_total(entries, Measure::SourceTokens, from, to, source_tokens(rows));
}

/// Copies a run of summaries.
fn copy_run(entries: &Vec<Option<CondensedRow>>, from: usize, to: usize) -> (out: Vec<CondensedRow>)
    requires
        from <= to <= entries@.len(),
        forall|i: int| from <= i < to ==> (#[trigger] entries@[i]) is Some,
    ensures
        out@.map_values(|r: CondensedRow| r@) == summaries_of(
            entry_views(entries@),
            (from as int, to as int),
        ),
{
    let ghost all = entry_views(entries@);
    let mut out: Vec<CondensedRow> = Vec::new();
    let mut i: usize = from;
    while i < to
        invariant
            from <= i <= to <= entries@.len(),
            all == entry_views(entries@),
            forall|k: int| from <= k < to ==> (#[trigger] entries@[k]) is Some,
            out@.len() == i - from,
            forall|k: int| 0 <= k < out@.len() ==> (#[trigger] out@[k])@ == all[from + k]->0,
        decreases to - i,
    {
        assert(entries@[i as int] is Some);
        match &entries[i] {
            Some(row) => {
                out.push(row.clone());
            },
            None => {},
        }
        i += 1;
    }
    assert(out@.map_values(|r: CondensedRow| r@) =~= summaries_of(all, (from as int, to as int)));
    out
}

/// The chunks of summaries that a condensed pass collapses: each longest run
/// of neighbouring summaries of one depth that has enough members and fits
/// the token budget. A run over the budget is skipped. No chunk means that
/// the pass is over.
pub fn load_condensed_chunks(entries: &Vec<Option<CondensedRow>>, cfg: &LcmConfig) -> (chunks: Vec<
    CondensedChunk,
>)
    requires
        entries_fit(entry_views(entries@)),
        cfg.min_condensed_fanout >= 1,
    ensures
        are_summary_runs(
            chunks@,
            entry_views(entries@),
            condensed_runs(entry_views(entries@), *cfg),
        ),
        forall|k: int|
            0 <= k < chunks@.len() ==> children_fit(
                (#[trigger] chunks@[k])@,
                chunks@[k].depth,
            ),
{
    let ghost all = entry_views(entries@);
    let fanout: usize = cfg.min_condensed_fanout as usize;
    let budget: i64 = cfg.leaf_chunk_tokens as i64;
    let n: usize = entries.len();
    let mut chunks: Vec<CondensedChunk> = Vec::new();
    let mut start: usize = 0;
    let mut tokens: i64 = 0;
    let mut depth: i64 = 0;
    let mut i: usize = 0;
    while i < n
        invariant
            i <= n,
            n == entries@.len(),
            all == entry_views(entries@),
            entries_fit(all),
            fanout == cfg.min_condensed_fanout,
            fanout >= 1,
            budget == cfg.leaf_chunk_tokens,
            start == condensed_cut(all, *cfg, i as int).start,
            start <= i,
            are_summary_runs(chunks@, all, condensed_cut(all, *cfg, i as int).done),
            tokens == entry_tokens(all, start as int, i as int),
            start < i ==> depth == all[start as int]->0.depth,
            forall|k: int| start <= k < i ==> (#[trigger] entries@[k]) is Some,
        decreases n - i,
    {
        let ghost cut = condensed_cut(all, *cfg, i as int);
        assert(all[i as int] == entry_views(entries@)[i as int]);
        proof {
            lemma_entry_total(all, Measure::Tokens, start as int, i as int, i + 1);
            lemma_entry_total(all, Measure::Tokens, start as int, i + 1, n as int);
            lemma_entry_total(all, Measure::Tokens, 0, start as int, n as int);
            assert(entry_tokens(all, i as int, i + 1) == entry_tokens(all, i as int, i as int)
                + entry_measure(all[i as int], Measure::Tokens));
        }
        if start < i {
            assert(entries@[start as int] is Some);
            assert(all[start as int] is Some);
        }
        let keeps = match &entries[i] {
            Some(row) => start < i && depth == row.depth,
            None => false,
        };
        if keeps {
            match &entries[i] {
                Some(row) => {
                    tokens += row.token_count;
                },
                None => {},
            }
        } else {
            if i - start >= fanout && tokens <= budget {
                chunks.push(CondensedChunk { rows: copy_run(entries, start, i), depth });
                assert(chunks@.last()@ == summaries_of(all, (start as int, i as int)));
            }
            match &entries[i] {
                Some(row) => {
                    start = i;
                    depth = row.depth;
                    tokens = row.token_count;
                },
                None => {
                    start = i + 1;
                    tokens = 0;
                },
            }
        }
        i += 1;
    }
    if n - start >= fanout && tokens <= budget {
        if start < n {
            assert(entries@[start as int] is Some);
        }
        chunks.push(CondensedChunk { rows: copy_run(entries, start, n), depth });
        assert(chunks@.last()@ == summaries_of(all, (start as int, n as int)));
    }
    proof {
        condensed_runs_are_longest_runs(all, *cfg);
        assert forall|k: int| 0 <= k < chunks@.len() implies children_fit(
            (#[trigger] chunks@[k])@,
            chunks@[k].depth,
        ) by {
            let run = condensed_runs(all, *cfg)[k];
            assert(is_longest_run(all, run, n as int));
            assert forall|i: int| run.0 <= i < run.1 implies (#[trigger] all[i]) is Some by {
                assert(of_one_depth(all[run.0], all[i]));
            }
            lemma_children_fit(all, run.0, run.1);
        }
    }
    chunks
}

/// Whether a range of items is a longest run of summaries of one depth.
pub open spec fn is_longest_run(
    entries: Seq<Option<CondensedRowView>>,
    run: (int, int),
    n: int,
) -> bool {
    &&& 0 <= run.0 < run.1 <= n
    &&& forall|i: int|
        run.0 <= i < run.1 ==> of_one_depth(entries[run.0], #[trigger] entries[i])
    &&& run.0 > 0 ==> !of_one_depth(entries[run.0], entries[run.0 - 1])
    &&& run.1 < n ==> !of_one_depth(entries[run.0], entries[run.1])
}

proof fn lemma_condensed_cut(entries: Seq<Option<CondensedRowView>>, cfg: LcmConfig, n: int)
    requires
        0 <= n <= entries.len(),
        cfg.min_condensed_fanout >= 1,
    ensures
        ({
            let cut = condensed_cut(entries, cfg, n);
            let runs = cut.done;
            &&& 0 <= cut.start <= n
            &&& in_order(runs, cut.start)
            &&& cut.start < n ==> is_longest_run(entries, (cut.start, n), n)
            &&& cut.start == n && n > 0 ==> entries[n - 1] is None
            &&& forall|k: int|
                0 <= k < runs.len() ==> {
                    let run = #[trigger] runs[k];
                    &&& is_longest_run(entries, run, n)
                    &&& run.1 - run.0 >= cfg.min_condensed_fanout
                    &&& entry_tokens(entries, run.0, run.1) <= cfg.leaf_chunk_tokens
                }
        }),
    decreases n,
{
    if n > 0 {
        lemma_condensed_cut(entries, cfg, n - 1);
        let prev = condensed_cut(entries, cfg, n - 1);
        let cut = condensed_cut(entries, cfg, n);
        assert forall|k: int| 0 <= k < cut.done.len() implies {
            let run = #[trigger] cut.done[k];
            &&& is_longest_run(entries, run, n)
            &&& run.1 - run.0 >= cfg.min_condensed_fanout
            &&& entry_tokens(entries, run.0, run.1) <= cfg.leaf_chunk_tokens
        } by {
            if k < prev.done.len() {
                assert(cut.done[k] == prev.done[k]);
                let run = prev.done[k];
                assert(run.1 <= prev.start);
                if run.1 == n - 1 {
                    assert(prev.start == n - 1);
                    assert(entries[n - 2] is None);
                    assert(of_one_depth(entries[run.0], entries[n - 2]));
                }
            } else {
                assert(cut.done[k] == (prev.start, n - 1));
            }
        }
    }
}

/// A condensed pass collapses longest runs only: every summary of a chunk has
/// the depth of its first, the items on either side do not, and nothing but
/// summaries stands in it. Each chunk has at least the least fan-out and is
/// within the token budget.
pub proof fn condensed_runs_are_longest_runs(
    entries: Seq<Option<CondensedRowView>>,
    cfg: LcmConfig,
)
    requires
        cfg.min_condensed_fanout >= 1,
    ensures
        in_order(condensed_runs(entries, cfg), entries.len() as int),
        forall|k: int|
            0 <= k < condensed_runs(entries, cfg).len() ==> {
                let run = #[trigger] condensed_runs(entries, cfg)[k];
                &&& is_longest_run(entries, run, entries.len() as int)
                &&& run.1 - run.0 >= cfg.min_condensed_fanout
                &&& entry_tokens(entries, run.0, run.1) <= cfg.leaf_chunk_tokens
            },
{
    let n = entries.len() as int;
    lemma_condensed_cut(entries, cfg, n);
}

/// A longest run is the open one while its items are gone through.
proof fn lemma_run_is_open(
    entries: Seq<Option<CondensedRowView>>,
    cfg: LcmConfig,
    run: (int, int),
    m: int,
)
    requires
        cfg.min_condensed_fanout >= 1,
        is_longest_run(entries, run, entries.len() as int),
        run.0 < m <= run.1,
    ensures
        condensed_cut(entries, cfg, m).start == run.0,
    decreases m,
{
    assert(of_one_depth(entries[run.0], entries[m - 1]));
    if m > run.0 + 1 {
        lemma_run_is_open(entries, cfg, run, m - 1);
    } else {
        let prev = condensed_cut(entries, cfg, run.0);
        lemma_condensed_cut(entries, cfg, run.0);
        if prev.start < run.0 {
            assert(of_one_depth(entries[prev.start], entries[run.0 - 1]));
        }
    }
}

/// A run that was kept stays kept.
proof fn lemma_kept_runs_stay(
    entries: Seq<Option<CondensedRowView>>,
    cfg: LcmConfig,
    run: (int, int),
    m: int,
    n: int,
)
    requires
        m <= n,
        condensed_cut(entries, cfg, m).done.contains(run),
    ensures
        condensed_cut(entries, cfg, n).done.contains(run),
    decreases n - m,
{
    if m < n {
        let prev = condensed_cut(entries, cfg, m);
        let cut = condensed_cut(entries, cfg, m + 1);
        let k = choose|k: int| 0 <= k < prev.done.len() && prev.done[k] == run;
        if m >= 0 {
            assert(cut.done[k] == run);
        }
        lemma_kept_runs_stay(entries, cfg, run, m + 1, n);
    }
}

/// A condensed pass passes over no run that can be collapsed: each longest
/// run with the least fan-out that is within the token budget is a chunk.
pub proof fn no_run_is_passed_over(
    entries: Seq<Option<CondensedRowView>>,
    cfg: LcmConfig,
    run: (int, int),
)
    requires
        cfg.min_condensed_fanout >= 1,
        is_longest_run(entries, run, entries.len() as int),
        run.1 - run.0 >= cfg.min_condensed_fanout,
        entry_tokens(entries, run.0, run.1) <= cfg.leaf_chunk_tokens,
    ensures
        condensed_runs(entries, cfg).contains(run),
{
    let n = entries.len() as int;
    lemma_run_is_open(entries, cfg, run, run.1);
    let open = condensed_cut(entries, cfg, run.1);
    let last = condensed_cut(entries, cfg, n);
    let runs = condensed_runs(entries, cfg);
    if run.1 == n {
        assert(runs[open.done.len() as int] == run);
    } else {
        let cut = condensed_cut(entries, cfg, run.1 + 1);
        assert(cut.done[open.done.len() as int] == run);
        lemma_kept_runs_stay(entries, cfg, run, run.1 + 1, n);
        let k = choose|k: int| 0 <= k < last.done.len() && last.done[k] == run;
        assert(runs[k] == run);
    }
}

// ── What holds of every chunk ───────────────────────────────────────

/// A chunk holds the messages of its run, in order, each as it was stored.
pub proof fn a_chunk_holds_its_messages(rows: Seq<Option<MessageRowView>>, run: (int, int), k: int)
    requires
        0 <= run.0 <= run.1 <= rows.len(),
        0 <= k < run.1 - run.0,
        rows[run.0 + k] is Some,
    ensures
        ({
            let row = rows[run.0 + k]->0;
            let held = chunk_of(rows, run)[k];
            &&& chunk_of(rows, run).len() == run.1 - run.0
            &&& held.ordinal == row.ordinal
            &&& held.message_id == row.message_id
            &&& held.token_count == row.token_count
            &&& held.created_at == row.created_at
            &&& message_of(row.message_id, row.role, row.content, row.parts) matches Ok(m)
                ==> held.message == m
        }),
{
}

/// A chunk holds the summaries of its run, in order, as they are.
pub proof fn a_chunk_holds_its_summaries(
    entries: Seq<Option<CondensedRowView>>,
    run: (int, int),
    k: int,
)
    requires
        0 <= run.0 <= run.1 <= entries.len(),
        0 <= k < run.1 - run.0,
        entries[run.0 + k] is Some,
    ensures
        summaries_of(entries, run).len() == run.1 - run.0,
        entries[run.0 + k] == Some(summaries_of(entries, run)[k]),
{
}

/// A summary is shown to the summarizer with its id, its depth and its whole
/// text.
pub proof fn a_wrapped_summary_is_whole(r: CondensedRowView)
    ensures
        has_prefix(
            wrapped_summary(r),
            "<summary id=\""@ + r.summary_id + "\" depth=\""@ + signed_decimal(r.depth as int),
        ),
        has_suffix(wrapped_summary(r), "\">\n"@ + r.content + "\n</summary>"@),
{
    let t = wrapped_summary(r);
    let a = "<summary id=\""@ + r.summary_id + "\" depth=\""@ + signed_decimal(r.depth as int);
    let b = "\">\n"@ + r.content + "\n</summary>"@;
    assert(t.take(a.len() as int) =~= a);
    assert(t.skip(t.len() - b.len()) =~= b);
}

/// The pin is the message of the user with the highest place.
pub proof fn the_pin_is_the_newest_user_message(rows: Seq<Option<MessageRowView>>, n: int)
    requires
        0 <= n <= rows.len(),
    ensures
        newest_user(rows, n) is None <==> forall|i: int|
            0 <= i < n ==> !((#[trigger] rows[i]) matches Some(r) && r.role == "user"@),
        newest_user(rows, n) matches Some(o) ==> (exists|i: int|
            0 <= i < n && ((#[trigger] rows[i]) matches Some(r) && r.role == "user"@ && r.ordinal
                == o)) && forall|i: int|
            0 <= i < n ==> ((#[trigger] rows[i]) matches Some(r) ==> r.role != "user"@ || r.ordinal
                <= o),
    decreases n,
{
    if n > 0 {
        the_pin_is_the_newest_user_message(rows, n - 1);
        if let Some(o) = newest_user(rows, n - 1) {
            let i = choose|i: int|
                0 <= i < n - 1 && ((#[trigger] rows[i]) matches Some(r) && r.role == "user"@
                    && r.ordinal == o);
            assert(rows[i] is Some);
        }
        assert(rows[n - 1] == rows[n - 1]);
    }
}

/// The first message that cannot be read is the fault that is told.
pub proof fn the_first_fault_is_told(rows: Seq<Option<MessageRowView>>, n: int)
    requires
        0 <= n <= rows.len(),
    ensures
        first_fault(rows, n) is None <==> forall|i: int|
            0 <= i < n && #[trigger] is_collapsible(rows, i) ==> read_row(rows[i]->0) is Ok,
        first_fault(rows, n) matches Some(fault) ==> exists|i: int|
            0 <= i < n && #[trigger] is_collapsible(rows, i) && read_row(rows[i]->0) == Err::<
                MessageView,
                RowFault,
            >(fault) && forall|j: int|
                0 <= j < i && #[trigger] is_collapsible(rows, j) ==> read_row(rows[j]->0) is Ok,
    decreases n,
{
    if n > 0 {
        the_first_fault_is_told(rows, n - 1);
        match first_fault(rows, n - 1) {
            Some(fault) => {
                let i = choose|i: int|
                    0 <= i < n - 1 && #[trigger] is_collapsible(rows, i) && read_row(rows[i]->0)
                        == Err::<MessageView, RowFault>(fault) && forall|j: int|
                        0 <= j < i && #[trigger] is_collapsible(rows, j) ==> read_row(
                            rows[j]->0,
                        ) is Ok;
                assert(is_collapsible(rows, i));
            },
            None => {
                assert(is_collapsible(rows, n - 1) || !is_collapsible(rows, n - 1));
            },
        }
    }
}

/// Chunks are as long as the budget allows: where one follows another directly,
/// the first could not have taken one message more.
pub proof fn leaf_runs_are_filled(rows: Seq<Option<MessageRowView>>, cfg: LcmConfig, k: int)
    requires
        0 <= k < leaf_runs(rows, cfg).len() - 1,
        leaf_runs(rows, cfg)[k].1 == leaf_runs(rows, cfg)[k + 1].0,
    ensures
        row_tokens(rows, leaf_runs(rows, cfg)[k].0, leaf_runs(rows, cfg)[k].1 + 1)
            > cfg.leaf_chunk_tokens,
{
    let budget = cfg.leaf_chunk_tokens as int;
    let n = eligible(rows, cfg);
    lemma_tail_start(rows, rows.len() as int, cfg.fresh_tail_count as int);
    lemma_leaf_cut(rows, budget, n);
    leaf_runs_cover_all_but_the_pin(rows, cfg);
    let cut = leaf_cut(rows, budget, n);
    let runs = leaf_runs(rows, cfg);
    assert(k < cut.done.len());
    assert(runs[k] == cut.done[k]);
    assert(is_collapsible(rows, runs[k].1)) by {
        assert(runs[k + 1].0 <= runs[k].1 < runs[k + 1].1);
        assert(in_some_run(runs, runs[k].1));
    }
    lemma_runs_are_filled(rows, budget, n, k);
}

proof fn lemma_runs_are_filled(
    rows: Seq<Option<MessageRowView>>,
    budget: int,
    n: int,
    k: int,
)
    requires
        0 <= n <= rows.len(),
        0 <= k < leaf_cut(rows, budget, n).done.len(),
        is_collapsible(rows, leaf_cut(rows, budget, n).done[k].1),
    ensures
        row_tokens(
            rows,
            leaf_cut(rows, budget, n).done[k].0,
            leaf_cut(rows, budget, n).done[k].1 + 1,
        ) > budget,
    decreases n,
{
    if n > 0 {
        let prev = leaf_cut(rows, budget, n - 1);
        if k < prev.done.len() {
            assert(leaf_cut(rows, budget, n).done[k] == prev.done[k]);
            lemma_runs_are_filled(rows, budget, n - 1, k);
        }
    }
}

/// The tokens of a run are those of its messages, each once.
pub proof fn run_tokens_add_up(rows: Seq<Option<MessageRowView>>, a: int, b: int, c: int)
    requires
        0 <= a <= b <= c <= rows.len(),
    ensures
        row_tokens(rows, a, a) == 0,
        row_tokens(rows, a, c) == row_tokens(rows, a, b) + row_tokens(rows, b, c),
        a < rows.len() ==> row_tokens(rows, a, a + 1) == match rows[a] {
            Some(row) => row.token_count as int,
            None => 0,
        },
    decreases c - b,
{
    if a < rows.len() {
        assert(row_tokens(rows, a, a + 1) == row_tokens(rows, a, a) + slot_tokens(rows[a]));
    }
    if b < c {
        run_tokens_add_up(rows, a, b, c - 1);
    }
}

/// The tokens of a run of summaries are those of its members, each once, and a
/// message adds none.
pub proof fn summary_tokens_add_up(
    entries: Seq<Option<CondensedRowView>>,
    a: int,
    b: int,
    c: int,
)
    requires
        0 <= a <= b <= c <= entries.len(),
    ensures
        entry_tokens(entries, a, a) == 0,
        entry_tokens(entries, a, c) == entry_tokens(entries, a, b) + entry_tokens(entries, b, c),
        a < entries.len() ==> entry_tokens(entries, a, a + 1) == match entries[a] {
            Some(row) => row.token_count as int,
            None => 0,
        },
    decreases c - b,
{
    if a < entries.len() {
        assert(entry_total(entries, Measure::Tokens, a, a + 1) == entry_total(
            entries,
            Measure::Tokens,
            a,
            a,
        ) + entry_measure(entries[a], Measure::Tokens));
    }
    if b < c {
        summary_tokens_add_up(entries, a, b, c - 1);
    }
}

/// Summaries are condensed together only at one depth, and never with a
/// message.
pub proof fn runs_are_of_one_depth(
    a: CondensedRowView,
    b: CondensedRowView,
    e: Option<CondensedRowView>,
)
    ensures
        of_one_depth(Some(a), Some(b)) <==> a.depth == b.depth,
        !of_one_depth(None, e),
        !of_one_depth(e, None),
{
}

} // verus!
