//! The health section of the statistics report.

use vstd::prelude::*;

use super::compaction::SummaryView;
use super::counts::{counts_fit, total};
use super::engine::{LcmEngine, SessionView};
use super::store::history::token_counts;
use crate::context::names::{desanitize_name, desanitized};
use crate::text::number::{decimal, push_decimal, push_i64, push_usize, signed_decimal};
use crate::text::{
    has_prefix, has_suffix, lemma_occurs_in_part, lemma_occurs_within, occurs, same, to_chars,
};

verus! {

/// The level that marks a summary as cut text.
pub const TRUNCATED_MODEL: &'static str = "level3-truncate";

/// So many spaces.
pub open spec fn spaces(n: nat) -> Seq<char> {
    Seq::new(n, |i: int| ' ')
}

/// A text with spaces behind it, up to a width.
pub open spec fn left_aligned(s: Seq<char>, width: nat) -> Seq<char> {
    if s.len() < width {
        s + spaces((width - s.len()) as nat)
    } else {
        s
    }
}

/// A text with spaces before it, up to a width.
pub open spec fn right_aligned(s: Seq<char>, width: nat) -> Seq<char> {
    if s.len() < width {
        spaces((width - s.len()) as nat) + s
    } else {
        s
    }
}

/// Appends so many spaces.
fn push_spaces(out: &mut String, n: usize)
    ensures
        final(out)@ == old(out)@ + spaces(n as nat),
{
    let ghost before = out@;
    let mut i: usize = 0;
    assert(out@ =~= before + spaces(0));
    while i < n
        invariant
            i <= n,
            out@ == before + spaces(i as nat),
        decreases n - i,
    {
        out.push(' ');
        assert(out@ =~= before + spaces((i + 1) as nat));
        i += 1;
    }
}

/// Appends a text with spaces behind it.
fn push_left(out: &mut String, s: &str, width: usize)
    ensures
        final(out)@ == old(out)@ + left_aligned(s@, width as nat),
{
    let ghost before = out@;
    out.append(s);
    let n: usize = to_chars(s).len();
    if n < width {
        push_spaces(out, width - n);
    }
    assert(out@ =~= before + left_aligned(s@, width as nat));
}

/// Appends a text with spaces before it.
fn push_right(out: &mut String, s: &str, width: usize)
    ensures
        final(out)@ == old(out)@ + right_aligned(s@, width as nat),
{
    let ghost before = out@;
    let n: usize = to_chars(s).len();
    if n < width {
        push_spaces(out, width - n);
    }
    out.append(s);
    assert(out@ =~= before + right_aligned(s@, width as nat));
}

/// A row of the table.
pub open spec fn table_row(name: Seq<char>, raw: Seq<char>, context: Seq<char>) -> Seq<char> {
    left_aligned(name, 20) + " "@ + right_aligned(raw, 12) + "   "@ + right_aligned(context, 14)
        + "\n"@
}

/// Appends a row of the table.
fn push_row(out: &mut String, name: &str, raw: &str, context: &str)
    ensures
        final(out)@ == old(out)@ + table_row(name@, raw@, context@),
{
    let ghost before = out@;
    push_left(out, name, 20);
    out.append(" ");
    push_right(out, raw, 12);
    out.append("   ");
    push_right(out, context, 14);
    out.append("\n");
    assert(out@ =~= before + table_row(name@, raw@, context@));
}

/// A tally with one more of `depth`, in the order of depths.
pub open spec fn tallied(tally: Seq<(i64, nat)>, depth: i64) -> Seq<(i64, nat)>
    decreases tally.len(),
{
    if tally.len() == 0 {
        seq![(depth, 1nat)]
    } else if tally[0].0 == depth {
        seq![(depth, tally[0].1 + 1)] + tally.drop_first()
    } else if depth < tally[0].0 {
        seq![(depth, 1nat)] + tally
    } else {
        seq![tally[0]] + tallied(tally.drop_first(), depth)
    }
}

/// How many summaries there are of each depth, in the order of depths.
pub open spec fn depths_of(summaries: Seq<SummaryView>) -> Seq<(i64, nat)>
    decreases summaries.len(),
{
    if summaries.len() == 0 {
        Seq::empty()
    } else {
        tallied(depths_of(summaries.drop_last()), summaries.last().depth)
    }
}

/// How many summaries are cut text.
pub open spec fn truncated_in(summaries: Seq<SummaryView>) -> nat
    decreases summaries.len(),
{
    if summaries.len() == 0 {
        0
    } else {
        truncated_in(summaries.drop_last()) + if summaries.last().model == TRUNCATED_MODEL@ {
            1nat
        } else {
            0
        }
    }
}

/// The summaries of all sessions.
pub open spec fn all_summaries(sessions: Seq<SessionView>) -> Seq<SummaryView>
    decreases sessions.len(),
{
    if sessions.len() == 0 {
        Seq::empty()
    } else {
        all_summaries(sessions.drop_last()) + sessions.last().conversation.summaries
    }
}

/// The lines on the first `n` depths.
pub open spec fn depth_lines(tally: Seq<(i64, nat)>, n: nat) -> Seq<char>
    decreases n,
{
    if n == 0 {
        Seq::empty()
    } else {
        depth_lines(tally, (n - 1) as nat) + "  depth "@ + signed_decimal(tally[n - 1].0 as int)
            + ": "@ + decimal(tally[n - 1].1) + "\n"@
    }
}

/// The rows on the first `n` sessions: the tokens of all that was said, and
/// of what is shown.
pub open spec fn session_rows(sessions: Seq<SessionView>, n: nat) -> Seq<char>
    decreases n,
{
    if n == 0 {
        Seq::empty()
    } else {
        let s = sessions[n - 1];
        session_rows(sessions, (n - 1) as nat) + table_row(
            desanitized(s.name),
            signed_decimal(total(token_counts(s.conversation.messages))),
            signed_decimal(total(s.conversation.counts())),
        )
    }
}

/// The health section: how many summaries there are of each depth, how many
/// of them failed, what compaction saved, and what is stored outside.
pub open spec fn health_of(sessions: Seq<SessionView>, files: nat, size: Seq<char>) -> Seq<char> {
    let tally = depths_of(all_summaries(sessions));
    "\nLCM Health\n\n"@ + if tally.len() == 0 {
        "Summaries: none\n"@
    } else {
        "Summaries by depth:\n"@ + depth_lines(tally, tally.len())
    } + "Failed summarizations (truncated): "@ + decimal(truncated_in(all_summaries(sessions)))
        + "\n"@ + "\n"@ + table_row("Conversation"@, "Raw Tokens"@, "Context Tokens"@) + table_row(
        "------------"@,
        "----------"@,
        "--------------"@,
    ) + session_rows(sessions, sessions.len()) + "\nLarge files: "@ + decimal(files) + " ("@ + size
        + ")\n"@
}

/// The view of a tally.
spec fn tally_view(tally: Seq<(i64, u64)>) -> Seq<(i64, nat)> {
    tally.map_values(|t: (i64, u64)| (t.0, t.1 as nat))
}

/// Adds one of `depth` to the entries of a tally from `from` on.
proof fn lemma_tallied_skip(tally: Seq<(i64, nat)>, depth: i64, k: int)
    requires
        0 <= k <= tally.len(),
        forall|i: int| 0 <= i < k ==> (#[trigger] tally[i]).0 < depth,
    ensures
        tallied(tally, depth) == tally.take(k) + tallied(tally.skip(k), depth),
    decreases k,
{
    if k == 0 {
        assert(tally.skip(0) =~= tally);
        assert(tally.take(0) + tallied(tally, depth) =~= tallied(tally, depth));
    } else {
        let rest = tally.drop_first();
        assert(tally[0].0 < depth);
        assert forall|i: int| 0 <= i < k - 1 implies (#[trigger] rest[i]).0 < depth by {
            assert(rest[i] == tally[i + 1]);
        }
        lemma_tallied_skip(rest, depth, k - 1);
        assert(rest.skip(k - 1) =~= tally.skip(k));
        assert(seq![tally[0]] + (rest.take(k - 1) + tallied(tally.skip(k), depth)) =~= tally.take(k)
            + tallied(tally.skip(k), depth));
    }
}

/// Adds one of `depth` to a tally.
fn count_depth(tally: &mut Vec<(i64, u64)>, depth: i64)
    requires
        forall|i: int| 0 <= i < old(tally)@.len() ==> (#[trigger] old(tally)@[i]).1 < u64::MAX,
    ensures
        tally_view(final(tally)@) == tallied(tally_view(old(tally)@), depth),
{
    let ghost before = tally@;
    let ghost v = tally_view(tally@);
    let n: usize = tally.len();
    let mut k: usize = 0;
    while k < n && tally[k].0 < depth
        invariant
            k <= n,
            n == tally@.len(),
            tally@ == before,
            v == tally_view(before),
            forall|i: int| 0 <= i < k ==> (#[trigger] v[i]).0 < depth,
        decreases n - k,
    {
        assert(v[k as int].0 == tally@[k as int].0);
        k += 1;
    }
    proof {
        lemma_tallied_skip(v, depth, k as int);
    }
    if k < n && tally[k].0 == depth {
        assert(v.skip(k as int)[0] == (before[k as int].0, before[k as int].1 as nat));
        let more: u64 = tally[k].1 + 1;
        tally.set(k, (depth, more));
        assert(tally_view(tally@) =~= v.take(k as int) + (seq![(depth, more as nat)] + v.skip(
            k as int,
        ).drop_first()));
    } else {
        if k < n {
            assert(v.skip(k as int)[0] == (before[k as int].0, before[k as int].1 as nat));
        }
        tally.insert(k, (depth, 1));
        assert(tally_view(tally@) =~= v.take(k as int) + (seq![(depth, 1nat)] + v.skip(k as int)));
    }
}

/// Counts in a tally are bounded by how much was counted.
proof fn lemma_tally_bound(tally: Seq<(i64, nat)>, depth: i64, bound: nat)
    requires
        forall|i: int| 0 <= i < tally.len() ==> (#[trigger] tally[i]).1 <= bound,
    ensures
        forall|i: int|
            0 <= i < tallied(tally, depth).len() ==> (#[trigger] tallied(tally, depth)[i]).1 <= bound
                + 1,
    decreases tally.len(),
{
    let out = tallied(tally, depth);
    if tally.len() > 0 {
        let rest = tally.drop_first();
        assert forall|i: int| 0 <= i < rest.len() implies (#[trigger] rest[i]).1 <= bound by {
            assert(rest[i] == tally[i + 1]);
        }
        lemma_tally_bound(rest, depth, bound);
        assert(tally[0].1 <= bound);
        assert forall|i: int| 0 <= i < out.len() implies (#[trigger] out[i]).1 <= bound + 1 by {
            if tally[0].0 == depth {
                if i > 0 {
                    assert(out[i] == rest[i - 1]);
                }
            } else if depth < tally[0].0 {
                if i > 0 {
                    assert(out[i] == tally[i - 1]);
                }
            } else if i > 0 {
                assert(out[i] == tallied(rest, depth)[i - 1]);
            }
        }
    }
}

/// Whether the tokens of a session can be summed up.
pub open spec fn session_fits(s: SessionView) -> bool {
    counts_fit(token_counts(s.conversation.messages)) && counts_fit(s.conversation.counts())
}

/// The health section. `size` is the size of what is stored outside, that is
/// [`LcmEngine::payload_bytes`], as it is shown.
pub fn health_section(engine: &LcmEngine, size: &str) -> (r: String)
    requires
        engine@.wf(),
        forall|i: int|
            0 <= i < engine@.sessions.len() ==> session_fits(#[trigger] engine@.sessions[i]),
        all_summaries(engine@.sessions).len() < u64::MAX,
    ensures
        r@ == health_of(engine@.sessions, engine@.files.len(), size@),
{
    let ghost all = engine@.sessions;
    let ghost every = all_summaries(all);
    let n: usize = engine.session_count();
    let mut tally: Vec<(i64, u64)> = Vec::new();
    let mut failed: u64 = 0;
    let mut i: usize = 0;
    assert(all.take(0) =~= Seq::empty());
    assert(tally_view(tally@) =~= depths_of(all_summaries(all.take(0))));
    while i < n
        invariant
            i <= n,
            n == all.len(),
            all == engine@.sessions,
            engine@.wf(),
            every == all_summaries(all),
            every.len() < u64::MAX,
            tally_view(tally@) == depths_of(all_summaries(all.take(i as int))),
            failed == truncated_in(all_summaries(all.take(i as int))),
        decreases n - i,
    {
        let session = engine.session(i);
        let ghost done = all_summaries(all.take(i as int));
        let ghost own = all[i as int].conversation.summaries;
        let count: usize = session.conversation.summary_count();
        proof {
            lemma_some_summaries(all, i + 1);
            assert(all.take(i + 1).drop_last() =~= all.take(i as int));
            assert(all.take(i + 1).last() == all[i as int]);
        }
        let mut k: usize = 0;
        assert(own.take(0) =~= Seq::empty());
        assert(done + own.take(0) =~= done);
        while k < count
            invariant
                k <= count,
                count == own.len(),
                own == session.conversation@.summaries,
                done.len() + own.len() < u64::MAX,
                tally_view(tally@) == depths_of(done + own.take(k as int)),
                failed == truncated_in(done + own.take(k as int)),
            decreases count - k,
        {
            let s = session.conversation.summary(k);
            let ghost so_far = done + own.take(k as int);
            let ghost more = done + own.take(k + 1);
            proof {
                assert(more.drop_last() =~= so_far);
                assert(more.last() == s@);
                lemma_depths_bound(so_far);
                assert forall|j: int| 0 <= j < tally@.len() implies (#[trigger] tally@[j]).1
                    < u64::MAX by {
                    assert(tally_view(tally@)[j].1 == tally@[j].1);
                }
                lemma_truncated_bound(so_far);
            }
            count_depth(&mut tally, s.depth);
            if same(s.model.as_str(), TRUNCATED_MODEL) {
                failed += 1;
            }
            k += 1;
        }
        assert(own.take(count as int) =~= own);
        i += 1;
    }
    assert(all.take(n as int) =~= all);
    let mut out = "\nLCM Health\n\n".to_owned();
    let ghost counts = depths_of(every);
    assert(tally_view(tally@).len() == tally@.len());
    let ghost start = out@;
    if tally.len() == 0 {
        out.append("Summaries: none\n");
    } else {
        out.append("Summaries by depth:\n");
        let ghost head = out@;
        let rows: usize = tally.len();
        i = 0;
        assert(out@ =~= head + depth_lines(counts, 0));
        while i < rows
            invariant
                i <= rows,
                rows == tally@.len(),
                counts == tally_view(tally@),
                out@ == head + depth_lines(counts, i as nat),
            decreases rows - i,
        {
            assert(counts[i as int] == (tally@[i as int].0, tally@[i as int].1 as nat));
            out.append("  depth ");
            push_i64(&mut out, tally[i].0);
            out.append(": ");
            push_decimal(&mut out, tally[i].1);
            out.append("\n");
            assert(out@ =~= head + depth_lines(counts, (i + 1) as nat));
            i += 1;
        }
    }
    let ghost shape = if counts.len() == 0 {
        "Summaries: none\n"@
    } else {
        "Summaries by depth:\n"@ + depth_lines(counts, counts.len())
    };
    assert(out@ =~= start + shape);
    out.append("Failed summarizations (truncated): ");
    push_decimal(&mut out, failed);
    out.append("\n");
    out.append("\n");
    push_row(&mut out, "Conversation", "Raw Tokens", "Context Tokens");
    push_row(&mut out, "------------", "----------", "--------------");
    let ghost head = out@;
    i = 0;
    assert(out@ =~= head + session_rows(all, 0));
    while i < n
        invariant
            i <= n,
            n == all.len(),
            all == engine@.sessions,
            engine@.wf(),
            forall|k: int| 0 <= k < all.len() ==> session_fits(#[trigger] all[k]),
            out@ == head + session_rows(all, i as nat),
        decreases n - i,
    {
        let session = engine.session(i);
        assert(session_fits(all[i as int]));
        let mut raw = String::new();
        push_i64(&mut raw, session.conversation.raw_tokens());
        let mut context = String::new();
        push_i64(&mut context, session.conversation.tokens());
        assert(raw@ =~= signed_decimal(total(token_counts(all[i as int].conversation.messages))));
        assert(context@ =~= signed_decimal(total(all[i as int].conversation.counts())));
        push_row(
            &mut out,
            desanitize_name(session.name.as_str()).as_str(),
            raw.as_str(),
            context.as_str(),
        );
        assert(out@ =~= head + session_rows(all, (i + 1) as nat));
        i += 1;
    }
    out.append("\nLarge files: ");
    push_usize(&mut out, engine.file_count());
    out.append(" (");
    out.append(size);
    out.append(")\n");
    assert(out@ =~= health_of(all, engine@.files.len(), size@));
    out
}

/// The summaries of the first sessions are no more than those of all.
proof fn lemma_some_summaries(sessions: Seq<SessionView>, k: int)
    requires
        0 <= k <= sessions.len(),
    ensures
        all_summaries(sessions.take(k)).len() <= all_summaries(sessions).len(),
    decreases sessions.len() - k,
{
    if k == sessions.len() {
        assert(sessions.take(k) =~= sessions);
    } else {
        lemma_some_summaries(sessions, k + 1);
        assert(sessions.take(k + 1).drop_last() =~= sessions.take(k));
    }
}

proof fn lemma_depths_bound(summaries: Seq<SummaryView>)
    ensures
        forall|i: int|
            0 <= i < depths_of(summaries).len() ==> (#[trigger] depths_of(summaries)[i]).1
                <= summaries.len(),
    decreases summaries.len(),
{
    if summaries.len() > 0 {
        let rest = summaries.drop_last();
        lemma_depths_bound(rest);
        lemma_tally_bound(depths_of(rest), summaries.last().depth, rest.len());
    }
}

proof fn lemma_truncated_bound(summaries: Seq<SummaryView>)
    ensures
        truncated_in(summaries) <= summaries.len(),
    decreases summaries.len(),
{
    if summaries.len() > 0 {
        lemma_truncated_bound(summaries.drop_last());
    }
}

// ── What a report shows ─────────────────────────────────────────────

/// A column holds the text, filled up with spaces to its width on one side.
pub proof fn columns_are_filled_up(s: Seq<char>, width: nat)
    ensures
        has_prefix(left_aligned(s, width), s),
        has_suffix(right_aligned(s, width), s),
        left_aligned(s, width).len() == right_aligned(s, width).len(),
        left_aligned(s, width).len() == if s.len() < width {
            width
        } else {
            s.len()
        },
        forall|i: int|
            s.len() <= i < left_aligned(s, width).len() ==> left_aligned(s, width)[i] == ' ',
        forall|i: int|
            0 <= i < right_aligned(s, width).len() - s.len() ==> right_aligned(s, width)[i] == ' ',
{
    let a = left_aligned(s, width);
    let b = right_aligned(s, width);
    assert(a.take(s.len() as int) =~= s);
    assert(b.skip(b.len() - s.len()) =~= s);
}

/// Whether a summary is of a depth.
pub open spec fn of_depth(s: SummaryView, d: i64) -> bool {
    s.depth == d
}

/// How many entries of a tally are for a depth, added up.
pub open spec fn tally_at(tally: Seq<(i64, nat)>, d: i64) -> nat
    decreases tally.len(),
{
    if tally.len() == 0 {
        0
    } else {
        (if tally[0].0 == d {
            tally[0].1
        } else {
            0
        }) + tally_at(tally.drop_first(), d)
    }
}

proof fn lemma_tallied(tally: Seq<(i64, nat)>, depth: i64, d: i64)
    ensures
        tally_at(tallied(tally, depth), d) == tally_at(tally, d) + if d == depth {
            1nat
        } else {
            0
        },
    decreases tally.len(),
{
    let out = tallied(tally, depth);
    if tally.len() == 0 {
        assert(out.drop_first() =~= Seq::empty());
        assert(tally_at(out.drop_first(), d) == 0);
    } else if tally[0].0 == depth {
        assert(out.drop_first() =~= tally.drop_first());
    } else if depth < tally[0].0 {
        assert(out.drop_first() =~= tally);
    } else {
        lemma_tallied(tally.drop_first(), depth, d);
        assert(out.drop_first() =~= tallied(tally.drop_first(), depth));
    }
}

/// The tally counts every summary under its depth, and names the depths in
/// order, each once.
pub proof fn every_summary_is_tallied(summaries: Seq<SummaryView>, d: i64)
    ensures
        tally_at(depths_of(summaries), d) == summaries.filter(|s: SummaryView| of_depth(s, d)).len(),
        forall|i: int, j: int|
            0 <= i < j < depths_of(summaries).len() ==> (#[trigger] depths_of(summaries)[i]).0 < (
            #[trigger] depths_of(summaries)[j]).0,
    decreases summaries.len(),
{
    reveal(Seq::filter);
    if summaries.len() > 0 {
        let rest = summaries.drop_last();
        every_summary_is_tallied(rest, d);
        lemma_tallied(depths_of(rest), summaries.last().depth, d);
        lemma_tallied_is_ordered(depths_of(rest), summaries.last().depth);
    } else {
        assert(tally_at(Seq::empty(), d) == 0);
    }
}

proof fn lemma_tallied_is_ordered(tally: Seq<(i64, nat)>, depth: i64)
    requires
        forall|i: int, j: int|
            0 <= i < j < tally.len() ==> (#[trigger] tally[i]).0 < (#[trigger] tally[j]).0,
    ensures
        forall|i: int, j: int|
            0 <= i < j < tallied(tally, depth).len() ==> (#[trigger] tallied(tally, depth)[i]).0 < (
            #[trigger] tallied(tally, depth)[j]).0,
        forall|i: int|
            0 <= i < tallied(tally, depth).len() ==> (#[trigger] tallied(tally, depth)[i]).0
                == depth || exists|k: int|
                0 <= k < tally.len() && (#[trigger] tally[k]).0 == tallied(tally, depth)[i].0,
    decreases tally.len(),
{
    let out = tallied(tally, depth);
    if tally.len() > 0 {
        let rest = tally.drop_first();
        assert forall|i: int, j: int| 0 <= i < j < rest.len() implies (#[trigger] rest[i]).0 < (
        #[trigger] rest[j]).0 by {
            assert(rest[i] == tally[i + 1] && rest[j] == tally[j + 1]);
        }
        lemma_tallied_is_ordered(rest, depth);
        let more = tallied(rest, depth);
        assert forall|i: int| 0 <= i < out.len() implies (#[trigger] out[i]).0 == depth || exists|
            k: int,
        | 0 <= k < tally.len() && (#[trigger] tally[k]).0 == out[i].0 by {
            if tally[0].0 == depth {
                if i > 0 {
                    assert(tally[i].0 == out[i].0);
                }
            } else if depth < tally[0].0 {
                if i > 0 {
                    assert(tally[i - 1].0 == out[i].0);
                }
            } else if i == 0 {
                assert(tally[0].0 == out[0].0);
            } else {
                assert(out[i] == more[i - 1]);
                if more[i - 1].0 != depth {
                    let k = choose|k: int|
                        0 <= k < rest.len() && (#[trigger] rest[k]).0 == more[i - 1].0;
                    assert(tally[k + 1].0 == out[i].0);
                }
            }
        }
        assert forall|i: int, j: int| 0 <= i < j < out.len() implies (#[trigger] out[i]).0 < (
        #[trigger] out[j]).0 by {
            if tally[0].0 == depth {
                assert(out[j] == tally[j]);
                if i > 0 {
                    assert(out[i] == tally[i]);
                } else {
                    assert(tally[0].0 < tally[j].0);
                }
            } else if depth < tally[0].0 {
                assert(out[j] == tally[j - 1]);
                if i > 0 {
                    assert(out[i] == tally[i - 1]);
                } else if j > 1 {
                    assert(tally[0].0 < tally[j - 1].0);
                }
            } else {
                assert(out[j] == more[j - 1]);
                if i > 0 {
                    assert(out[i] == more[i - 1]);
                } else if more[j - 1].0 != depth {
                    let k = choose|k: int|
                        0 <= k < rest.len() && (#[trigger] rest[k]).0 == more[j - 1].0;
                    assert(rest[k] == tally[k + 1]);
                    assert(tally[0].0 < tally[k + 1].0);
                }
            }
        }
    }
}

/// A summary counts as failed exactly where it is cut text.
pub proof fn failed_summaries_are_counted(summaries: Seq<SummaryView>)
    ensures
        truncated_in(summaries) == summaries.filter(
            |s: SummaryView| s.model == "level3-truncate"@,
        ).len(),
    decreases summaries.len(),
{
    reveal(Seq::filter);
    if summaries.len() > 0 {
        failed_summaries_are_counted(summaries.drop_last());
    }
}

/// The summaries of all sessions are those of each, one session after another.
pub proof fn summaries_of_all_sessions_count(
    a: Seq<SessionView>,
    b: Seq<SessionView>,
    s: SessionView,
)
    ensures
        all_summaries(seq![s]) == s.conversation.summaries,
        all_summaries(a + b) == all_summaries(a) + all_summaries(b),
    decreases b.len(),
{
    let none = Seq::<SessionView>::empty();
    assert(seq![s].drop_last() =~= none);
    assert(all_summaries(none) =~= Seq::empty());
    assert(all_summaries(seq![s]) =~= s.conversation.summaries);
    if b.len() == 0 {
        assert(a + b =~= a);
        assert(all_summaries(a) + all_summaries(b) =~= all_summaries(a));
    } else {
        summaries_of_all_sessions_count(a, b.drop_last(), s);
        assert((a + b).drop_last() =~= a + b.drop_last());
        assert(all_summaries(a + b) =~= all_summaries(a) + all_summaries(b));
    }
}

/// The row of a session: its name, the tokens of all its messages, and those of
/// its active context.
pub open spec fn row_of(s: SessionView) -> Seq<char> {
    left_aligned(desanitized(s.name), 20) + " "@ + right_aligned(
        signed_decimal(total(token_counts(s.conversation.messages))),
        12,
    ) + "   "@ + right_aligned(signed_decimal(total(s.conversation.counts())), 14) + "\n"@
}

proof fn lemma_session_rows(sessions: Seq<SessionView>, n: nat, i: int)
    requires
        0 <= i < n <= sessions.len(),
    ensures
        occurs(session_rows(sessions, n), row_of(sessions[i])),
    decreases n,
{
    let none = Seq::<char>::empty();
    let rest = session_rows(sessions, (n - 1) as nat);
    let last = row_of(sessions[n - 1]);
    assert(session_rows(sessions, n) =~= rest + last + none);
    assert(session_rows(sessions, n) =~= none + rest + last);
    if i == n - 1 {
        lemma_occurs_within(rest, last, none);
    } else {
        lemma_session_rows(sessions, (n - 1) as nat, i);
        lemma_occurs_in_part(none, rest, last, row_of(sessions[i]));
    }
}

proof fn lemma_depth_lines(tally: Seq<(i64, nat)>, n: nat, i: int)
    requires
        0 <= i < n <= tally.len(),
    ensures
        occurs(
            depth_lines(tally, n),
            "  depth "@ + signed_decimal(tally[i].0 as int) + ": "@ + decimal(tally[i].1) + "\n"@,
        ),
    decreases n,
{
    let none = Seq::<char>::empty();
    let rest = depth_lines(tally, (n - 1) as nat);
    let last = "  depth "@ + signed_decimal(tally[n - 1].0 as int) + ": "@ + decimal(
        tally[n - 1].1,
    ) + "\n"@;
    assert(depth_lines(tally, n) =~= rest + last + none);
    assert(depth_lines(tally, n) =~= none + rest + last);
    if i == n - 1 {
        lemma_occurs_within(rest, last, none);
    } else {
        lemma_depth_lines(tally, (n - 1) as nat, i);
        lemma_occurs_in_part(
            none,
            rest,
            last,
            "  depth "@ + signed_decimal(tally[i].0 as int) + ": "@ + decimal(tally[i].1) + "\n"@,
        );
    }
}

/// The health section has a row for every session, and ends with how many
/// payloads are stored outside and their size.
pub proof fn every_session_has_a_row(
    sessions: Seq<SessionView>,
    files: nat,
    size: Seq<char>,
    i: int,
)
    ensures
        0 <= i < sessions.len() ==> occurs(
            health_of(sessions, files, size),
            row_of(sessions[i]),
        ),
        has_suffix(
            health_of(sessions, files, size),
            "\nLarge files: "@ + decimal(files) + " ("@ + size + ")\n"@,
        ),
{
    let t = health_of(sessions, files, size);
    let rows = session_rows(sessions, sessions.len());
    let end = "\nLarge files: "@ + decimal(files) + " ("@ + size + ")\n"@;
    assert(t.skip(t.len() - end.len()) =~= end);
    let before = t.take(t.len() - end.len() - rows.len());
    assert(t =~= before + rows + end);
    if 0 <= i < sessions.len() {
        lemma_session_rows(sessions, sessions.len(), i);
        lemma_occurs_in_part(before, rows, end, row_of(sessions[i]));
    }
}

/// What the health section says of summaries, and what is left behind it.
#[verifier::rlimit(40)]
proof fn lemma_health_starts(sessions: Seq<SessionView>, files: nat, size: Seq<char>) -> (rest: Seq<
    char,
>)
    ensures
        ({
            let tally = depths_of(all_summaries(sessions));
            let block = if tally.len() == 0 {
                "Summaries: none\n"@
            } else {
                "Summaries by depth:\n"@ + depth_lines(tally, tally.len())
            };
            let failed = "Failed summarizations (truncated): "@ + decimal(
                truncated_in(all_summaries(sessions)),
            ) + "\n"@;
            health_of(sessions, files, size) == "\nLCM Health\n\n"@ + block + failed + rest
        }),
{
    let t = health_of(sessions, files, size);
    let tally = depths_of(all_summaries(sessions));
    let block = if tally.len() == 0 {
        "Summaries: none\n"@
    } else {
        "Summaries by depth:\n"@ + depth_lines(tally, tally.len())
    };
    let failed = "Failed summarizations (truncated): "@ + decimal(
        truncated_in(all_summaries(sessions)),
    ) + "\n"@;
    let start = "\nLCM Health\n\n"@ + block + failed;
    let rest = t.skip(start.len() as int);
    assert(t =~= start + rest);
    rest
}

proof fn lemma_regroup(a: Seq<char>, b: Seq<char>, c: Seq<char>, d: Seq<char>, e: Seq<char>)
    ensures
        a + (b + c) + d + e == (a + b) + c + (d + e),
{
    assert(a + (b + c) + d + e =~= (a + b) + c + (d + e));
}

proof fn lemma_starts(a: Seq<char>, b: Seq<char>, c: Seq<char>)
    ensures
        has_prefix(a + b + c, a),
{
    assert((a + b + c).take(a.len() as int) =~= a);
}

/// The health section has a line for every depth, and says how many summaries
/// are cut text.
#[verifier::rlimit(40)]
pub proof fn every_depth_has_a_line(
    sessions: Seq<SessionView>,
    files: nat,
    size: Seq<char>,
    i: int,
)
    ensures
        ({
            let t = health_of(sessions, files, size);
            let tally = depths_of(all_summaries(sessions));
            &&& 0 <= i < tally.len() ==> occurs(
                t,
                "  depth "@ + signed_decimal(tally[i].0 as int) + ": "@ + decimal(tally[i].1)
                    + "\n"@,
            )
            &&& tally.len() == 0 ==> has_prefix(t, "\nLCM Health\n\n"@ + "Summaries: none\n"@)
            &&& occurs(
                t,
                "Failed summarizations (truncated): "@ + decimal(
                    truncated_in(all_summaries(sessions)),
                ) + "\n"@,
            )
        }),
{
    let tally = depths_of(all_summaries(sessions));
    let head = "\nLCM Health\n\n"@;
    let lines = depth_lines(tally, tally.len());
    let block = if tally.len() == 0 {
        "Summaries: none\n"@
    } else {
        "Summaries by depth:\n"@ + lines
    };
    let failed = "Failed summarizations (truncated): "@ + decimal(
        truncated_in(all_summaries(sessions)),
    ) + "\n"@;
    let rest = lemma_health_starts(sessions, files, size);
    lemma_occurs_within(head + block, failed, rest);
    if tally.len() == 0 {
        lemma_starts(head + block, failed, rest);
    } else if 0 <= i < tally.len() {
        lemma_depth_lines(tally, tally.len(), i);
        let line = "  depth "@ + signed_decimal(tally[i].0 as int) + ": "@ + decimal(tally[i].1)
            + "\n"@;
        lemma_regroup(head, "Summaries by depth:\n"@, lines, failed, rest);
        lemma_occurs_in_part(head + "Summaries by depth:\n"@, lines, failed + rest, line);
    }
}

} // verus!
