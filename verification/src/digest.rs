//! Content-addressed ids: the start of a SHA-256 digest, in hexadecimal.

use sha2::{Digest, Sha256};
use vstd::bytes::{spec_u64_to_le_bytes, u64_to_le_bytes};
use vstd::prelude::*;
use vstd::relations::{sorted_by, total_ordering};
use vstd::seq_lib::lemma_sorted_unique;
use vstd::utf8::encode_utf8;

use crate::text::order::{lemma_text_order_is_total, sort_texts, sorted_texts, text_lt, text_order};
use crate::text::views;

verus! {

/// The SHA-256 digest of `data`.
pub uninterp spec fn sha256_of(data: Seq<u8>) -> Seq<u8>;

/// The SHA-256 digest of `data`, by `sha2::Sha256::digest`: 32 bytes that
/// depend on the data alone. Which bytes they are is left to `sha256_of`.
#[verifier::external_body]
pub(crate) fn sha256(data: &[u8]) -> (r: Vec<u8>)
    ensures
        r@ == sha256_of(data@),
        r@.len() == 32,
{
    Sha256::digest(data).to_vec()
}

// ── Hexadecimal ─────────────────────────────────────────────────────

/// The lower-case hexadecimal digit of value `n`.
pub open spec fn hex_digit(n: u8) -> char {
    if n < 10 {
        (48 + n) as char
    } else {
        (87 + n) as char
    }
}

/// Bytes as two hexadecimal digits each.
pub open spec fn hex_of(bytes: Seq<u8>) -> Seq<char>
    decreases bytes.len(),
{
    if bytes.len() == 0 {
        Seq::empty()
    } else {
        hex_of(bytes.drop_last()).push(hex_digit(bytes.last() / 16)).push(
            hex_digit(bytes.last() % 16),
        )
    }
}

/// A hexadecimal text is as long as twice its bytes, and in lower case.
pub proof fn lemma_hex_of(bytes: Seq<u8>)
    ensures
        hex_of(bytes).len() == 2 * bytes.len(),
        forall|i: int|
            0 <= i < hex_of(bytes).len() ==> is_hex_char(#[trigger] hex_of(bytes)[i]),
    decreases bytes.len(),
{
    if bytes.len() > 0 {
        lemma_hex_of(bytes.drop_last());
    }
}

/// Whether `c` is a lower-case hexadecimal digit.
pub open spec fn is_hex_char(c: char) -> bool {
    '0' <= c <= '9' || 'a' <= c <= 'f'
}

/// The hexadecimal digit of value `n`.
fn hex_char(n: u8) -> (c: char)
    requires
        n < 16,
    ensures
        c == hex_digit(n),
{
    if n < 10 {
        (48 + n) as char
    } else {
        (87 + n) as char
    }
}

/// Appends the first `n` bytes in hexadecimal.
pub fn push_hex(out: &mut String, bytes: &Vec<u8>, n: usize)
    requires
        n <= bytes@.len(),
    ensures
        final(out)@ == old(out)@ + hex_of(bytes@.take(n as int)),
{
    let ghost before = out@;
    let mut i: usize = 0;
    assert(bytes@.take(0) =~= Seq::empty());
    assert(out@ =~= before + hex_of(bytes@.take(0)));
    while i < n
        invariant
            i <= n <= bytes@.len(),
            out@ == before + hex_of(bytes@.take(i as int)),
        decreases n - i,
    {
        let b: u8 = bytes[i];
        out.push(hex_char(b / 16));
        out.push(hex_char(b % 16));
        proof {
            assert(bytes@.take(i + 1).drop_last() =~= bytes@.take(i as int));
            assert(out@ =~= before + hex_of(bytes@.take(i + 1)));
        }
        i += 1;
    }
}

/// An id: a prefix, then the first eight bytes of a digest.
pub open spec fn id_text(prefix: Seq<char>, digest: Seq<u8>) -> Seq<char> {
    prefix + hex_of(digest.take(8))
}

/// An id: a prefix, then the first eight bytes of a digest.
pub fn id_from_digest(prefix: &str, digest: &Vec<u8>) -> (r: String)
    requires
        digest@.len() >= 8,
    ensures
        r@ == id_text(prefix@, digest@),
        r@.len() == prefix@.len() + 16,
{
    let mut out = prefix.to_owned();
    push_hex(&mut out, digest, 8);
    proof {
        lemma_hex_of(digest@.take(8));
    }
    out
}

/// The id of a payload: `file_` and 16 hexadecimal digits.
pub fn file_id(content: &str) -> (r: String)
    ensures
        r@ == id_text("file_"@, sha256_of(encode_utf8(content@))),
        r@.len() == 21,
{
    let digest = sha256(content.as_bytes());
    proof {
        reveal_strlit("file_");
    }
    id_from_digest("file_", &digest)
}

// ── Ids of summaries ────────────────────────────────────────────────

/// What the id of a summary is the digest of: its text, then each source key
/// behind a bar.
pub open spec fn keyed_bytes(content: Seq<u8>, keys: Seq<Seq<u8>>) -> Seq<u8>
    decreases keys.len(),
{
    if keys.len() == 0 {
        content
    } else {
        keyed_bytes(content, keys.drop_last()).push(124u8) + keys.last()
    }
}

/// The byte strings of a list.
pub open spec fn byte_views(keys: Seq<Vec<u8>>) -> Seq<Seq<u8>> {
    keys.map_values(|k: Vec<u8>| k@)
}

/// The text's bytes, then each key behind a bar.
pub fn keyed(content: &str, keys: &Vec<Vec<u8>>) -> (r: Vec<u8>)
    ensures
        r@ == keyed_bytes(encode_utf8(content@), byte_views(keys@)),
{
    let mut data = content.as_bytes_vec();
    let mut i: usize = 0;
    let ghost all = byte_views(keys@);
    let ghost start = encode_utf8(content@);
    assert(all.take(0) =~= Seq::empty());
    while i < keys.len()
        invariant
            i <= keys@.len(),
            all == byte_views(keys@),
            data@ == keyed_bytes(start, all.take(i as int)),
        decreases keys@.len() - i,
    {
        data.push(124u8);
        let mut key = keys[i].clone();
        assert(key@ =~= keys@[i as int]@);
        data.append(&mut key);
        proof {
            assert(all.take(i + 1).drop_last() =~= all.take(i as int));
            assert(all.take(i + 1).last() == keys@[i as int]@);
        }
        i += 1;
    }
    assert(all.take(i as int) =~= all);
    data
}

/// Numbers in ascending order.
pub open spec fn id_order() -> spec_fn(i64, i64) -> bool {
    |a: i64, b: i64| a <= b
}

/// `ids` in ascending order.
pub open spec fn sorted_ids(ids: Seq<i64>) -> Seq<i64> {
    ids.sort_by(id_order())
}

/// Puts `id` into its place in the ordered list `out`.
fn insert_id(out: &mut Vec<i64>, id: i64)
    requires
        sorted_by(old(out)@, id_order()),
    ensures
        sorted_by(final(out)@, id_order()),
        final(out)@.to_multiset() == old(out)@.push(id).to_multiset(),
{
    let mut k: usize = 0;
    let ghost before = out@;
    while k < out.len() && out[k] <= id
        invariant
            k <= out@.len(),
            before == out@,
            forall|j: int| 0 <= j < k ==> #[trigger] before[j] <= id,
        decreases out@.len() - k,
    {
        k += 1;
    }
    out.insert(k, id);
    proof {
        broadcast use vstd::seq_lib::group_to_multiset_ensures;

        let le = id_order();
        let after = out@;
        assert(after =~= before.insert(k as int, id));
        assert forall|i: int, j: int| 0 <= i < j < after.len() implies #[trigger] le(
            after[i],
            after[j],
        ) by {
            if i < k && j < k {
                assert(le(before[i], before[j]));
            } else if i < k && j > k {
                assert(le(before[i], before[j - 1]));
            } else if i == k && j - 1 > k {
                assert(le(before[k as int], before[j - 1]));
            } else if i > k {
                assert(le(before[i - 1], before[j - 1]));
            }
        }
    }
}

/// `ids` in ascending order.
pub fn sort_ids(ids: &Vec<i64>) -> (out: Vec<i64>)
    ensures
        out@ == sorted_ids(ids@),
{
    let mut out: Vec<i64> = Vec::new();
    let mut i: usize = 0;
    assert(out@ =~= ids@.take(0));
    while i < ids.len()
        invariant
            i <= ids@.len(),
            sorted_by(out@, id_order()),
            out@.to_multiset() == ids@.take(i as int).to_multiset(),
        decreases ids@.len() - i,
    {
        insert_id(&mut out, ids[i]);
        proof {
            broadcast use vstd::seq_lib::group_to_multiset_ensures;

            assert(ids@.take(i + 1) =~= ids@.take(i as int).push(ids@[i as int]));
        }
        i += 1;
    }
    proof {
        assert(ids@.take(i as int) =~= ids@);
        assert(total_ordering(id_order()));
        ids@.lemma_sort_by_ensures(id_order());
        lemma_sorted_unique(out@, sorted_ids(ids@), id_order());
    }
    out
}

/// The bytes of a message id in a summary's digest: little-endian.
pub open spec fn id_bytes(id: i64) -> Seq<u8> {
    spec_u64_to_le_bytes(id as u64)
}

/// The id of a summary of messages: it depends on the text and on which
/// messages they are, not on the order in which they are named.
pub open spec fn leaf_id(content: Seq<char>, ids: Seq<i64>) -> Seq<char> {
    id_text(
        "sum_"@,
        sha256_of(
            keyed_bytes(encode_utf8(content), sorted_ids(ids).map_values(|id: i64| id_bytes(id))),
        ),
    )
}

/// The id of a summary of summaries.
pub open spec fn condensed_id(content: Seq<char>, ids: Seq<Seq<char>>) -> Seq<char> {
    id_text(
        "sum_"@,
        sha256_of(
            keyed_bytes(
                encode_utf8(content),
                sorted_texts(ids).map_values(|id: Seq<char>| encode_utf8(id)),
            ),
        ),
    )
}

/// The id of a summary of messages: `sum_` and the first 16 hexadecimal
/// digits of the digest of its text and its sorted source ids. Two chunks
/// with the same summary text still get ids of their own.
pub fn derive_summary_id(content: &str, source_ids: &Vec<i64>) -> (r: String)
    ensures
        r@ == leaf_id(content@, source_ids@),
        r@.len() == 20,
{
    let sorted = sort_ids(source_ids);
    let mut keys: Vec<Vec<u8>> = Vec::new();
    let mut i: usize = 0;
    let ghost want = sorted@.map_values(|id: i64| id_bytes(id));
    while i < sorted.len()
        invariant
            i <= sorted@.len(),
            want == sorted@.map_values(|id: i64| id_bytes(id)),
            byte_views(keys@) == want.take(i as int),
        decreases sorted@.len() - i,
    {
        let ghost before = keys@;
        let key = u64_to_le_bytes(sorted[i] as u64);
        keys.push(key);
        proof {
            assert(byte_views(keys@) =~= byte_views(before).push(key@));
            assert(want.take(i + 1) =~= want.take(i as int).push(key@));
        }
        i += 1;
    }
    assert(want.take(i as int) =~= want);
    let data = keyed(content, &keys);
    let digest = sha256(data.as_slice());
    proof {
        reveal_strlit("sum_");
    }
    id_from_digest("sum_", &digest)
}

/// The id of a summary of summaries, whose source ids are theirs.
pub fn derive_summary_id_str(content: &str, source_ids: &Vec<String>) -> (r: String)
    ensures
        r@ == condensed_id(content@, views(source_ids@)),
        r@.len() == 20,
{
    let sorted = sort_texts(source_ids);
    let mut keys: Vec<Vec<u8>> = Vec::new();
    let mut i: usize = 0;
    let ghost want = views(sorted@).map_values(|id: Seq<char>| encode_utf8(id));
    while i < sorted.len()
        invariant
            i <= sorted@.len(),
            want == views(sorted@).map_values(|id: Seq<char>| encode_utf8(id)),
            byte_views(keys@) == want.take(i as int),
        decreases sorted@.len() - i,
    {
        let ghost before = keys@;
        let key = sorted[i].as_str().as_bytes_vec();
        keys.push(key);
        proof {
            assert(byte_views(keys@) =~= byte_views(before).push(key@));
            assert(want.take(i + 1) =~= want.take(i as int).push(key@));
        }
        i += 1;
    }
    assert(want.take(i as int) =~= want);
    let data = keyed(content, &keys);
    let digest = sha256(data.as_slice());
    proof {
        reveal_strlit("sum_");
    }
    id_from_digest("sum_", &digest)
}

/// The order in which the source messages are named does not change the id.
pub proof fn leaf_id_ignores_order(content: Seq<char>, a: Seq<i64>, b: Seq<i64>)
    requires
        a.to_multiset() == b.to_multiset(),
    ensures
        leaf_id(content, a) == leaf_id(content, b),
{
    assert(total_ordering(id_order()));
    a.lemma_sort_by_ensures(id_order());
    b.lemma_sort_by_ensures(id_order());
    lemma_sorted_unique(sorted_ids(a), sorted_ids(b), id_order());
}

/// The order in which the source summaries are named does not change the id.
pub proof fn condensed_id_ignores_order(
    content: Seq<char>,
    a: Seq<Seq<char>>,
    b: Seq<Seq<char>>,
)
    requires
        a.to_multiset() == b.to_multiset(),
    ensures
        condensed_id(content, a) == condensed_id(content, b),
{
    lemma_text_order_is_total();
    a.lemma_sort_by_ensures(text_order());
    b.lemma_sort_by_ensures(text_order());
    lemma_sorted_unique(sorted_texts(a), sorted_texts(b), text_order());
}

/// Sorting numbers keeps every one of them.
pub proof fn sorted_ids_keep_every_number(ids: Seq<i64>, x: i64)
    ensures
        sorted_ids(ids).contains(x) <==> ids.contains(x),
        sorted_ids(ids).len() == ids.len(),
        forall|i: int, j: int|
            0 <= i < j < ids.len() ==> #[trigger] sorted_ids(ids)[i] <= #[trigger] sorted_ids(ids)[j],
{
    assert(total_ordering(id_order()));
    ids.lemma_sort_by_ensures(id_order());
    vstd::seq_lib::to_multiset_contains(ids, x);
    vstd::seq_lib::to_multiset_contains(sorted_ids(ids), x);
    ids.to_multiset_ensures();
    sorted_ids(ids).to_multiset_ensures();
    let s = sorted_ids(ids);
    assert forall|i: int, j: int| 0 <= i < j < ids.len() implies #[trigger] s[i] <= #[trigger] s[j] by {
        assert(id_order()(s[i], s[j]));
    }
}

/// Bytes are written one by one, each as its two hexadecimal digits.
pub proof fn bytes_are_written_in_hexadecimal(a: Seq<u8>, b: Seq<u8>, x: u8)
    ensures
        hex_of(a + b) == hex_of(a) + hex_of(b),
        hex_of(seq![x]) == seq![
            "0123456789abcdef"@[(x / 16) as int],
            "0123456789abcdef"@[(x % 16) as int],
        ],
    decreases b.len(),
{
    reveal_strlit("0123456789abcdef");
    assert(seq![x].drop_last() =~= Seq::<u8>::empty());
    assert(hex_of(Seq::empty()) == Seq::<char>::empty());
    assert(hex_of(seq![x]) =~= seq![hex_digit(x / 16), hex_digit(x % 16)]);
    if b.len() > 0 {
        bytes_are_written_in_hexadecimal(a, b.drop_last(), x);
        assert((a + b).drop_last() =~= a + b.drop_last());
        assert(hex_of(a + b) =~= hex_of(a) + hex_of(b));
    } else {
        assert(a + b =~= a);
        assert(hex_of(a) + hex_of(b) =~= hex_of(a));
    }
}

/// Different bytes are written differently.
pub proof fn hexadecimal_tells_bytes_apart(a: Seq<u8>, b: Seq<u8>)
    requires
        hex_of(a) == hex_of(b),
    ensures
        a == b,
    decreases a.len(),
{
    lemma_hex_of(a);
    lemma_hex_of(b);
    if a.len() > 0 {
        let h = hex_of(a);
        let n = h.len() as int;
        assert(hex_of(b)[n - 1] == hex_digit(b.last() % 16));
        assert(hex_of(b)[n - 2] == hex_digit(b.last() / 16));
        assert(h[n - 1] == hex_digit(a.last() % 16));
        assert(h[n - 2] == hex_digit(a.last() / 16));
        assert(a.last() % 16 == b.last() % 16);
        assert(a.last() / 16 == b.last() / 16);
        assert(a.last() == b.last());
        assert(hex_of(a.drop_last()) =~= h.take(n - 2));
        assert(hex_of(b.drop_last()) =~= h.take(n - 2));
        hexadecimal_tells_bytes_apart(a.drop_last(), b.drop_last());
        assert(a =~= a.drop_last().push(a.last()));
        assert(b =~= b.drop_last().push(b.last()));
    } else {
        assert(a =~= b);
    }
}

/// An id is its prefix and the first eight bytes of the digest: digests with
/// other first bytes have other ids.
pub proof fn an_id_tells_digests_apart(prefix: Seq<char>, a: Seq<u8>, b: Seq<u8>)
    requires
        a.len() >= 8,
        b.len() >= 8,
    ensures
        id_text(prefix, a).len() == prefix.len() + 16,
        id_text(prefix, a).take(prefix.len() as int) == prefix,
        id_text(prefix, a) == id_text(prefix, b) <==> a.take(8) == b.take(8),
{
    lemma_hex_of(a.take(8));
    lemma_hex_of(b.take(8));
    let x = id_text(prefix, a);
    let y = id_text(prefix, b);
    assert(x.take(prefix.len() as int) =~= prefix);
    if x == y {
        assert(hex_of(a.take(8)) =~= x.skip(prefix.len() as int));
        assert(hex_of(b.take(8)) =~= y.skip(prefix.len() as int));
        hexadecimal_tells_bytes_apart(a.take(8), b.take(8));
    }
}

/// What is digested is the text, and behind it every source key, each behind
/// a bar.
pub proof fn every_source_is_digested(
    content: Seq<u8>,
    a: Seq<Seq<u8>>,
    b: Seq<Seq<u8>>,
    key: Seq<u8>,
)
    ensures
        keyed_bytes(content, Seq::empty()) == content,
        keyed_bytes(content, seq![key]) == content + seq![124u8] + key,
        keyed_bytes(content, a + b) == keyed_bytes(keyed_bytes(content, a), b),
    decreases b.len(),
{
    assert(seq![key].drop_last() =~= Seq::<Seq<u8>>::empty());
    assert(keyed_bytes(content, Seq::empty()) == content);
    assert(keyed_bytes(content, seq![key]) =~= content + seq![124u8] + key);
    if b.len() > 0 {
        every_source_is_digested(content, a, b.drop_last(), key);
        assert((a + b).drop_last() =~= a + b.drop_last());
    } else {
        assert(a + b =~= a);
    }
}

/// The id of a summary is made from its own text and its own sources, in
/// ascending order.
pub proof fn a_summary_id_is_of_text_and_sources(
    content: Seq<char>,
    first: i64,
    second: i64,
    a: Seq<char>,
    b: Seq<char>,
)
    ensures
        first <= second ==> leaf_id(content, seq![second, first]) == "sum_"@ + hex_of(
            sha256_of(
                encode_utf8(content) + seq![124u8] + spec_u64_to_le_bytes(first as u64)
                    + seq![124u8] + spec_u64_to_le_bytes(second as u64),
            ).take(8),
        ),
        !text_lt(b, a) ==> condensed_id(content, seq![b, a]) == "sum_"@ + hex_of(
            sha256_of(
                encode_utf8(content) + seq![124u8] + encode_utf8(a) + seq![124u8] + encode_utf8(b),
            ).take(8),
        ),
{
    if first <= second {
        let ids = seq![second, first];
        let up = seq![first, second];
        assert(sorted_by(up, id_order()));
        lemma_swapped(second, first);
        lemma_sorted_is(ids, up);
        let keys = up.map_values(|id: i64| id_bytes(id));
        assert(keys =~= seq![id_bytes(first)] + seq![id_bytes(second)]);
        let c = encode_utf8(content);
        every_source_is_digested(c, seq![id_bytes(first)], seq![id_bytes(second)], id_bytes(first));
        every_source_is_digested(
            c + seq![124u8] + id_bytes(first),
            Seq::empty(),
            Seq::empty(),
            id_bytes(second),
        );
    }
    if !text_lt(b, a) {
        let ids = seq![b, a];
        let up = seq![a, b];
        lemma_text_order_is_total();
        assert(sorted_by(up, text_order()));
        lemma_swapped(b, a);
        ids.lemma_sort_by_ensures(text_order());
        lemma_sorted_unique(sorted_texts(ids), up, text_order());
        let keys = up.map_values(|id: Seq<char>| encode_utf8(id));
        assert(keys =~= seq![encode_utf8(a)] + seq![encode_utf8(b)]);
        let c = encode_utf8(content);
        every_source_is_digested(c, seq![encode_utf8(a)], seq![encode_utf8(b)], encode_utf8(a));
        every_source_is_digested(
            c + seq![124u8] + encode_utf8(a),
            Seq::empty(),
            Seq::empty(),
            encode_utf8(b),
        );
    }
}

/// Two items are the same items in either order.
proof fn lemma_swapped<A>(x: A, y: A)
    ensures
        seq![x, y].to_multiset() == seq![y, x].to_multiset(),
{
    seq![x, y].to_multiset_ensures();
    seq![y, x].to_multiset_ensures();
    assert(seq![x, y] =~= seq![x].push(y));
    assert(seq![y, x] =~= seq![y].push(x));
    assert(seq![x] =~= Seq::<A>::empty().push(x));
    assert(seq![y] =~= Seq::<A>::empty().push(y));
    Seq::<A>::empty().to_multiset_ensures();
    seq![x].to_multiset_ensures();
    seq![y].to_multiset_ensures();
    assert(seq![x, y].to_multiset() =~= seq![y, x].to_multiset());
}

proof fn lemma_sorted_is(ids: Seq<i64>, up: Seq<i64>)
    requires
        sorted_by(up, id_order()),
        ids.to_multiset() == up.to_multiset(),
    ensures
        sorted_ids(ids) == up,
{
    assert(total_ordering(id_order()));
    ids.lemma_sort_by_ensures(id_order());
    lemma_sorted_unique(sorted_ids(ids), up, id_order());
}

} // verus!
