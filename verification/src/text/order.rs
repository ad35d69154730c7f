//! The order of texts, which is that of their code points.

use vstd::prelude::*;
use vstd::relations::{sorted_by, total_ordering};
use vstd::seq_lib::lemma_sorted_unique;

use super::{to_chars, views};

verus! {

/// Whether `a` comes before `b`.
pub open spec fn text_lt(a: Seq<char>, b: Seq<char>) -> bool
    decreases a.len(),
{
    if b.len() == 0 {
        false
    } else if a.len() == 0 {
        true
    } else if a[0] == b[0] {
        text_lt(a.drop_first(), b.drop_first())
    } else {
        a[0] < b[0]
    }
}

/// Whether `a` comes before `b` or is `b`.
pub open spec fn text_le(a: Seq<char>, b: Seq<char>) -> bool {
    !text_lt(b, a)
}

/// The order of texts as a relation.
pub open spec fn text_order() -> spec_fn(Seq<char>, Seq<char>) -> bool {
    |a: Seq<char>, b: Seq<char>| text_le(a, b)
}

pub proof fn lemma_lt_irreflexive(a: Seq<char>)
    ensures
        !text_lt(a, a),
    decreases a.len(),
{
    if a.len() > 0 {
        lemma_lt_irreflexive(a.drop_first());
    }
}

pub proof fn lemma_lt_transitive(a: Seq<char>, b: Seq<char>, c: Seq<char>)
    requires
        text_lt(a, b),
        text_lt(b, c),
    ensures
        text_lt(a, c),
    decreases a.len(),
{
    if a.len() > 0 && b.len() > 0 && c.len() > 0 && a[0] == b[0] && b[0] == c[0] {
        lemma_lt_transitive(a.drop_first(), b.drop_first(), c.drop_first());
    }
}

pub proof fn lemma_lt_total(a: Seq<char>, b: Seq<char>)
    ensures
        a == b || text_lt(a, b) || text_lt(b, a),
    decreases a.len(),
{
    if a.len() > 0 && b.len() > 0 && a[0] == b[0] {
        lemma_lt_total(a.drop_first(), b.drop_first());
        if a.drop_first() == b.drop_first() {
            assert(a =~= seq![a[0]] + a.drop_first());
            assert(b =~= seq![b[0]] + b.drop_first());
        }
    } else if a.len() == 0 && b.len() == 0 {
        assert(a =~= b);
    }
}

/// Two texts are not each before the other.
pub proof fn lemma_lt_asymmetric(a: Seq<char>, b: Seq<char>)
    requires
        text_lt(a, b),
    ensures
        !text_lt(b, a),
        a != b,
{
    lemma_lt_irreflexive(a);
    if text_lt(b, a) {
        lemma_lt_transitive(a, b, a);
    }
}

/// Texts are totally ordered.
pub proof fn lemma_text_order_is_total()
    ensures
        total_ordering(text_order()),
{
    let le = text_order();
    assert forall|x: Seq<char>| #[trigger] le(x, x) by {
        lemma_lt_irreflexive(x);
    }
    assert forall|x: Seq<char>, y: Seq<char>| #[trigger] le(x, y) && #[trigger] le(y, x) implies x
        == y by {
        lemma_lt_total(x, y);
    }
    assert forall|x: Seq<char>, y: Seq<char>, z: Seq<char>| #[trigger]
        le(x, y) && #[trigger] le(y, z) implies le(x, z) by {
        lemma_le_transitive(x, y, z);
    }
    assert forall|x: Seq<char>, y: Seq<char>| #[trigger] le(x, y) || #[trigger] le(y, x) by {
        if text_lt(y, x) {
            lemma_lt_asymmetric(y, x);
        }
    }
}

pub proof fn lemma_le_transitive(x: Seq<char>, y: Seq<char>, z: Seq<char>)
    requires
        text_le(x, y),
        text_le(y, z),
    ensures
        text_le(x, z),
{
    lemma_lt_total(x, y);
    lemma_lt_total(y, z);
    if text_lt(z, x) {
        if x == y {
            assert(text_lt(z, y));
        } else if y == z {
            assert(text_lt(y, x));
        } else {
            lemma_lt_transitive(x, y, z);
            lemma_lt_asymmetric(x, z);
        }
    }
}

/// Whether `a` comes before `b`.
pub fn lt(a: &str, b: &str) -> (r: bool)
    ensures
        r == text_lt(a@, b@),
{
    let va = to_chars(a);
    let vb = to_chars(b);
    let mut i: usize = 0;
    assert(va@.skip(0) =~= va@);
    assert(vb@.skip(0) =~= vb@);
    while i < va.len() && i < vb.len()
        invariant
            va@ == a@,
            vb@ == b@,
            i <= va@.len(),
            i <= vb@.len(),
            text_lt(va@, vb@) == text_lt(va@.skip(i as int), vb@.skip(i as int)),
        decreases va@.len() - i,
    {
        if va[i] != vb[i] {
            return va[i] < vb[i];
        }
        assert(va@.skip(i as int).drop_first() =~= va@.skip(i + 1));
        assert(vb@.skip(i as int).drop_first() =~= vb@.skip(i + 1));
        i += 1;
    }
    i < vb.len()
}

/// `parts` in order.
pub open spec fn sorted_texts(parts: Seq<Seq<char>>) -> Seq<Seq<char>> {
    parts.sort_by(text_order())
}

/// The order in which texts come does not change what they are sorted to.
pub proof fn lemma_sorted_texts_unique(parts: Seq<Seq<char>>, out: Seq<Seq<char>>)
    requires
        sorted_by(out, text_order()),
        out.to_multiset() == parts.to_multiset(),
    ensures
        out == sorted_texts(parts),
{
    lemma_text_order_is_total();
    parts.lemma_sort_by_ensures(text_order());
    lemma_sorted_unique(out, sorted_texts(parts), text_order());
}

/// Sorting adds nothing.
pub proof fn lemma_sorted_texts_holds(parts: Seq<Seq<char>>, x: Seq<char>)
    requires
        sorted_texts(parts).contains(x),
    ensures
        parts.contains(x),
{
    lemma_text_order_is_total();
    parts.lemma_sort_by_ensures(text_order());
}

/// Sorting drops nothing.
pub proof fn lemma_sorted_texts_keeps(parts: Seq<Seq<char>>, x: Seq<char>)
    requires
        parts.contains(x),
    ensures
        sorted_texts(parts).contains(x),
{
    lemma_text_order_is_total();
    parts.lemma_sort_by_ensures(text_order());
    vstd::seq_lib::to_multiset_contains(parts, x);
    vstd::seq_lib::to_multiset_contains(sorted_texts(parts), x);
}

/// Puts `s` into its place in the ordered list `out`.
fn insert_text(out: &mut Vec<String>, s: String)
    requires
        sorted_by(views(old(out)@), text_order()),
    ensures
        sorted_by(views(final(out)@), text_order()),
        views(final(out)@).to_multiset() == views(old(out)@).push(s@).to_multiset(),
{
    let mut k: usize = 0;
    let ghost before = views(out@);
    while k < out.len() && !lt(s.as_str(), out[k].as_str())
        invariant
            k <= out@.len(),
            before == views(out@),
            forall|j: int| 0 <= j < k ==> text_le(#[trigger] before[j], s@),
        decreases out@.len() - k,
    {
        k += 1;
    }
    let ghost text = s@;
    out.insert(k, s);
    proof {
        let after = views(out@);
        assert(after =~= before.insert(k as int, text));
        broadcast use vstd::seq_lib::group_to_multiset_ensures;

        let le = text_order();
        assert forall|i: int, j: int| 0 <= i < j < after.len() implies #[trigger] le(
            after[i],
            after[j],
        ) by {
            if i < k && j < k {
                assert(le(before[i], before[j]));
            } else if i < k && j == k {
                assert(text_le(before[i], text));
            } else if i < k && j > k {
                assert(le(before[i], before[j - 1]));
            } else if i == k {
                assert(text_lt(text, before[k as int]));
                lemma_lt_asymmetric(text, before[k as int]);
                if j - 1 > k {
                    assert(le(before[k as int], before[j - 1]));
                    lemma_le_transitive(text, before[k as int], before[j - 1]);
                }
            } else {
                assert(le(before[i - 1], before[j - 1]));
            }
        }
    }
}

/// `parts` in order.
pub fn sort_texts(parts: &Vec<String>) -> (out: Vec<String>)
    ensures
        views(out@) == sorted_texts(views(parts@)),
{
    let mut out: Vec<String> = Vec::new();
    let mut i: usize = 0;
    let ghost all = views(parts@);
    assert(views(out@) =~= all.take(0));
    while i < parts.len()
        invariant
            i <= parts@.len(),
            all == views(parts@),
            sorted_by(views(out@), text_order()),
            views(out@).to_multiset() == all.take(i as int).to_multiset(),
        decreases parts@.len() - i,
    {
        let ghost before = views(out@);
        insert_text(&mut out, parts[i].clone());
        proof {
            broadcast use vstd::seq_lib::group_to_multiset_ensures;

            assert(all.take(i + 1) =~= all.take(i as int).push(parts@[i as int]@));
        }
        i += 1;
    }
    proof {
        assert(all.take(i as int) =~= all);
        lemma_sorted_texts_unique(all, views(out@));
    }
    out
}

/// Texts are ordered by the first place where they differ, and a text comes
/// before the longer ones that it starts.
pub proof fn order_is_that_of_the_first_difference(a: Seq<char>, b: Seq<char>)
    ensures
        text_lt(a, b) <==> exists|k: int| #[trigger] differs_first_at(a, b, k),
    decreases a.len(),
{
    if a.len() > 0 && b.len() > 0 && a[0] == b[0] {
        let x = a.drop_first();
        let y = b.drop_first();
        order_is_that_of_the_first_difference(x, y);
        if text_lt(a, b) {
            let k = choose|k: int| #[trigger] differs_first_at(x, y, k);
            assert(a.take(k + 1) =~= seq![a[0]] + x.take(k));
            assert(b.take(k + 1) =~= seq![b[0]] + y.take(k));
            if k < x.len() {
                assert(x[k] == a[k + 1]);
            }
            if k < y.len() {
                assert(y[k] == b[k + 1]);
            }
            assert(differs_first_at(a, b, k + 1));
        }
        if exists|k: int| #[trigger] differs_first_at(a, b, k) {
            let k = choose|k: int| #[trigger] differs_first_at(a, b, k);
            assert(k > 0);
            assert(x.take(k - 1) =~= a.take(k).drop_first());
            assert(y.take(k - 1) =~= b.take(k).drop_first());
            if k < a.len() {
                assert(x[k - 1] == a[k]);
            }
            if k < b.len() {
                assert(y[k - 1] == b[k]);
            }
            assert(differs_first_at(x, y, k - 1));
        }
    } else if text_lt(a, b) {
        assert(a.take(0) =~= b.take(0));
        assert(differs_first_at(a, b, 0));
    } else if exists|k: int| #[trigger] differs_first_at(a, b, k) {
        let k = choose|k: int| #[trigger] differs_first_at(a, b, k);
        if k > 0 {
            assert(a.take(k)[0] == b.take(k)[0]);
        }
    }
}

/// Whether two texts are alike up to `k`, and there the first ends or has the
/// lesser character.
pub open spec fn differs_first_at(a: Seq<char>, b: Seq<char>, k: int) -> bool {
    &&& 0 <= k <= a.len()
    &&& k < b.len()
    &&& a.take(k) == b.take(k)
    &&& k == a.len() || a[k] < b[k]
}

/// Sorted texts come in order, and are those that were given.
pub proof fn sorting_orders_every_text(parts: Seq<Seq<char>>, i: int, j: int)
    requires
        0 <= i < j < parts.len(),
    ensures
        sorted_texts(parts).len() == parts.len(),
        !text_lt(sorted_texts(parts)[j], sorted_texts(parts)[i]),
        sorted_texts(parts).to_multiset() == parts.to_multiset(),
{
    lemma_text_order_is_total();
    parts.lemma_sort_by_ensures(text_order());
    parts.to_multiset_ensures();
    sorted_texts(parts).to_multiset_ensures();
    let s = sorted_texts(parts);
    assert(text_order()(s[i], s[j]));
}

} // verus!
