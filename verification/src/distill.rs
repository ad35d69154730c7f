//! When to fold recent history into memory: how far each session was
//! distilled, and how much must be pending for a pass.

use vstd::prelude::*;

use crate::config::Config;
use crate::table::{map_of, names_differ, rows_of, Table};

verus! {

/// How far each session was distilled. A session that is not filed counts
/// from its first message.
pub struct DistillState {
    pub watermarks: Table<u64>,
}

impl DistillState {
    /// Whether each session is filed once.
    pub open spec fn wf(self) -> bool {
        self.watermarks.wf()
    }

    /// The state from what was stored; empty where nothing could be read.
    pub fn load(doc: Option<Vec<(String, u64)>>) -> (s: Self)
        ensures
            s.wf(),
            s.watermarks@ == match doc {
                Some(rows) => map_of(rows_of(rows@)),
                None => Map::<Seq<char>, u64>::empty(),
            },
    {
        let mut watermarks: Table<u64> = Table::new();
        if let Some(rows) = &doc {
            let ghost all = rows_of(rows@);
            let n: usize = rows.len();
            let mut i: usize = 0;
            assert(all.take(0) =~= Seq::empty());
            while i < n
                invariant
                    i <= n,
                    n == rows@.len(),
                    all == rows_of(rows@),
                    watermarks.wf(),
                    watermarks@ == map_of(all.take(i as int)),
                decreases n - i,
            {
                assert(all.take(i + 1).drop_last() =~= all.take(i as int));
                assert(all.take(i + 1).last() == (rows@[i as int].0@, rows@[i as int].1));
                watermarks.insert(rows[i].0.as_str(), rows[i].1);
                i += 1;
            }
            assert(all.take(n as int) =~= all);
        }
        DistillState { watermarks }
    }

    /// What is stored of the state.
    pub fn save(&self) -> (rows: Vec<(String, u64)>)
        requires
            self.wf(),
        ensures
            names_differ(rows_of(rows@)),
            map_of(rows_of(rows@)) == self.watermarks@,
    {
        let ghost all = self.watermarks.rows();
        let n: usize = self.watermarks.len();
        let mut rows: Vec<(String, u64)> = Vec::new();
        let mut i: usize = 0;
        while i < n
            invariant
                i <= n,
                all == self.watermarks.rows(),
                n == all.len(),
                rows@.len() == i,
                forall|k: int|
                    0 <= k < i ==> (#[trigger] rows@[k]).0@ == all[k].0 && rows@[k].1 == all[k].1,
            decreases n - i,
        {
            rows.push((self.watermarks.name(i).to_owned(), *self.watermarks.value(i)));
            i += 1;
        }
        proof {
            assert(rows_of(rows@) =~= all);
            self.watermarks.lemma_view_is_rows();
        }
        rows
    }
}

/// What is stored of a state reads back as the state.
pub proof fn saved_watermarks_read_back(
    before: DistillState,
    rows: Seq<(String, u64)>,
    after: DistillState,
)
    requires
        map_of(rows_of(rows)) == before.watermarks@,
        after.watermarks@ == map_of(rows_of(rows)),
    ensures
        after.watermarks@ == before.watermarks@,
{
}

/// The sum of the first `n` entries.
pub open spec fn pending_of_first(rows: Seq<(Seq<char>, u64)>, n: nat) -> nat
    decreases n,
{
    if n == 0 {
        0
    } else {
        pending_of_first(rows, (n - 1) as nat) + rows[n - 1].1 as nat
    }
}

/// The tokens that are pending in all sessions.
pub open spec fn all_pending(pending: Table<u64>) -> nat {
    pending_of_first(pending.rows(), pending.rows().len())
}

proof fn lemma_some_pending(rows: Seq<(Seq<char>, u64)>, k: nat, n: nat)
    requires
        k <= n,
    ensures
        pending_of_first(rows, k) <= pending_of_first(rows, n),
    decreases n - k,
{
    if k < n {
        lemma_some_pending(rows, k, (n - 1) as nat);
    }
}

/// The tokens that are pending in all sessions: what is weighed against
/// the threshold.
pub fn total_pending(pending: &Table<u64>) -> (total: u64)
    requires
        all_pending(*pending) <= u64::MAX,
    ensures
        total == all_pending(*pending),
{
    let ghost rows = pending.rows();
    let n: usize = pending.len();
    let mut total: u64 = 0;
    let mut i: usize = 0;
    while i < n
        invariant
            i <= n,
            rows == pending.rows(),
            n == rows.len(),
            pending_of_first(rows, n as nat) <= u64::MAX,
            total == pending_of_first(rows, i as nat),
        decreases n - i,
    {
        proof {
            lemma_some_pending(rows, (i + 1) as nat, n as nat);
        }
        total += *pending.value(i);
        i += 1;
    }
    total
}

/// Whether enough is pending for a pass.
pub open spec fn opens(total: u64, threshold: u64) -> bool {
    total >= threshold
}

/// Whether enough is pending for a pass. A threshold of zero is refused in
/// the settings, so nothing pending is never enough.
pub fn gate_open(total: u64, threshold: u64) -> (r: bool)
    ensures
        r == opens(total, threshold),
{
    total >= threshold
}

/// With settings that pass validation, nothing pending is not enough for
/// a pass.
pub proof fn nothing_pending_keeps_the_gate_closed(c: Config, temperature_in_range: bool)
    requires
        c.fault(temperature_in_range) is None,
    ensures
        !opens(0, c.memory.distill_threshold_tokens),
{
}

/// What is pending adds up over the sessions, whatever their number.
pub proof fn pending_adds_up(
    a: Seq<(Seq<char>, u64)>,
    b: Seq<(Seq<char>, u64)>,
    name: Seq<char>,
    tokens: u64,
)
    ensures
        pending_of_first(a + b, (a + b).len()) == pending_of_first(a, a.len()) + pending_of_first(
            b,
            b.len(),
        ),
        pending_of_first(seq![(name, tokens)], 1) == tokens,
{
    lemma_pending_of_both(a, b, b.len());
    let one = seq![(name, tokens)];
    assert(pending_of_first(one, 0) == 0);
    assert(one[0].1 == tokens);
}

proof fn lemma_pending_of_both(a: Seq<(Seq<char>, u64)>, b: Seq<(Seq<char>, u64)>, n: nat)
    requires
        n <= b.len(),
    ensures
        pending_of_first(a + b, a.len() + n) == pending_of_first(a, a.len()) + pending_of_first(
            b,
            n,
        ),
    decreases n,
{
    if n > 0 {
        lemma_pending_of_both(a, b, (n - 1) as nat);
        assert((a + b)[a.len() + n - 1] == b[n - 1]);
    } else {
        lemma_pending_of_start(a, b, a.len());
    }
}

proof fn lemma_pending_of_start(a: Seq<(Seq<char>, u64)>, b: Seq<(Seq<char>, u64)>, n: nat)
    requires
        n <= a.len(),
    ensures
        pending_of_first(a + b, n) == pending_of_first(a, n),
    decreases n,
{
    if n > 0 {
        lemma_pending_of_start(a, b, (n - 1) as nat);
        assert((a + b)[n - 1] == a[n - 1]);
    }
}

/// A pass starts at its threshold: there and above, and nowhere below.
pub proof fn a_pass_starts_at_its_threshold(total: u64, threshold: u64)
    ensures
        opens(threshold, threshold),
        total > threshold ==> opens(total, threshold),
        total < threshold ==> !opens(total, threshold),
{
}

} // verus!
