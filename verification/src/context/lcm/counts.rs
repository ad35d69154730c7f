//! Stored counts and their sums.

use vstd::prelude::*;

verus! {

/// The sum of counts.
pub open spec fn total(counts: Seq<i64>) -> int
    decreases counts.len(),
{
    if counts.len() == 0 {
        0
    } else {
        total(counts.drop_last()) + counts.last()
    }
}

/// Whether the numbers are counts, and their sum is within range.
pub open spec fn counts_fit(counts: Seq<i64>) -> bool {
    &&& forall|i: int| 0 <= i < counts.len() ==> #[trigger] counts[i] >= 0
    &&& total(counts) <= i64::MAX
}

pub proof fn lemma_total(counts: Seq<i64>, k: int)
    requires
        0 <= k <= counts.len(),
        forall|i: int| 0 <= i < counts.len() ==> #[trigger] counts[i] >= 0,
    ensures
        0 <= total(counts.take(k)) <= total(counts),
    decreases counts.len() + (counts.len() - k),
{
    if k == counts.len() {
        assert(counts.take(k) =~= counts);
        if k > 0 {
            assert(counts.drop_last() =~= counts.take(k - 1));
            lemma_total(counts.drop_last(), k - 1);
            assert(counts.drop_last().take(k - 1) =~= counts.drop_last());
        }
    } else {
        lemma_total(counts, k + 1);
        assert(counts.take(k + 1).drop_last() =~= counts.take(k));
        lemma_total(counts.drop_last(), k);
        assert(counts.drop_last().take(k) =~= counts.take(k));
    }
}

/// The sum of counts.
pub fn sum(counts: &Vec<i64>) -> (r: i64)
    requires
        counts_fit(counts@),
    ensures
        r == total(counts@),
{
    let n: usize = counts.len();
    let mut acc: i64 = 0;
    let mut i: usize = 0;
    assert(counts@.take(0) =~= Seq::empty());
    while i < n
        invariant
            i <= n,
            n == counts@.len(),
            counts_fit(counts@),
            acc == total(counts@.take(i as int)),
        decreases n - i,
    {
        proof {
            lemma_total(counts@, i + 1);
            assert(counts@.take(i + 1).drop_last() =~= counts@.take(i as int));
        }
        acc += counts[i];
        i += 1;
    }
    assert(counts@.take(n as int) =~= counts@);
    acc
}

/// Whether the numbers are counts, and their sum is within range.
pub fn are_countable(counts: &Vec<i64>) -> (r: bool)
    ensures
        r == counts_fit(counts@),
{
    let n: usize = counts.len();
    let mut acc: i64 = 0;
    let mut i: usize = 0;
    assert(counts@.take(0) =~= Seq::empty());
    while i < n
        invariant
            i <= n,
            n == counts@.len(),
            acc == total(counts@.take(i as int)),
            acc >= 0,
            forall|k: int| 0 <= k < i ==> #[trigger] counts@[k] >= 0,
        decreases n - i,
    {
        let count: i64 = counts[i];
        assert(counts@.take(i + 1).drop_last() =~= counts@.take(i as int));
        if count < 0 {
            return false;
        }
        if count > i64::MAX - acc {
            proof {
                if counts_fit(counts@) {
                    lemma_total(counts@, i + 1);
                }
            }
            return false;
        }
        acc += count;
        i += 1;
    }
    assert(counts@.take(n as int) =~= counts@);
    true
}

/// A size as a stored count: at most the largest one.
pub open spec fn stored_count(n: nat) -> int {
    if n <= i64::MAX {
        n as int
    } else {
        i64::MAX as int
    }
}

/// A size as a stored count: at most the largest one.
pub fn to_stored_count(n: usize) -> (r: i64)
    ensures
        r == stored_count(n as nat),
{
    let wide: u64 = n as u64;
    if wide <= 0x7fff_ffff_ffff_ffff {
        wide as i64
    } else {
        i64::MAX
    }
}

/// A stored count as a size: zero where it is none.
pub open spec fn read_count(n: i64) -> nat {
    if 0 <= n <= usize::MAX {
        n as nat
    } else {
        0
    }
}

/// A stored count as a size: zero where it is none.
pub fn from_stored_count(n: i64) -> (r: usize)
    ensures
        r == read_count(n),
{
    if n < 0 || n as u64 > usize::MAX as u64 {
        0
    } else {
        n as usize
    }
}

// ── What sums are ───────────────────────────────────────────────────

/// A sum counts every number once: that of no numbers is nothing, that of one
/// is the number, and that of two lists is both together.
pub proof fn sums_add_up(a: Seq<i64>, b: Seq<i64>, x: i64)
    ensures
        total(Seq::empty()) == 0,
        total(seq![x]) == x,
        total(a + b) == total(a) + total(b),
    decreases b.len(),
{
    assert(seq![x].drop_last() =~= Seq::empty());
    assert(total(Seq::<i64>::empty()) == 0);
    if b.len() == 0 {
        assert(a + b =~= a);
    } else {
        sums_add_up(a, b.drop_last(), x);
        assert((a + b).drop_last() =~= a + b.drop_last());
    }
}

/// A size within range is stored as it is, and comes back as it was.
pub proof fn stored_counts_come_back(n: nat)
    requires
        n <= i64::MAX,
        n <= usize::MAX,
    ensures
        stored_count(n) == n,
        read_count(n as i64) == n,
{
}

} // verus!
