//! Text as sequences of characters, with lengths measured in UTF-8 bytes.

pub mod number;
pub mod order;
pub mod split;

use vstd::prelude::*;
use vstd::utf8::encode_utf8;

verus! {

/// Appends one character (`String::push`).
pub assume_specification[ String::push ](s: &mut String, c: char)
    ensures
        final(s)@ == old(s)@.push(c),
;

/// `s` as the `{:?}` format writes it: in double quotes, with escapes.
pub uninterp spec fn quoted(s: Seq<char>) -> Seq<char>;

/// `s` in double quotes with escapes, as std's `Debug` for `str` writes it.
/// Which characters it escapes, and how, is left to `quoted`.
#[verifier::external_body]
pub(crate) fn quote(s: &str) -> (r: String)
    ensures
        r@ == quoted(s@),
{
    format!("{s:?}")
}

// ── Lengths in bytes ────────────────────────────────────────────────

/// Bytes that one character takes in UTF-8.
pub open spec fn char_width(c: char) -> nat {
    if (c as u32) < 0x80 {
        1
    } else if (c as u32) < 0x800 {
        2
    } else if (c as u32) < 0x10000 {
        3
    } else {
        4
    }
}

/// Bytes that a text takes in UTF-8.
pub open spec fn utf8_len(s: Seq<char>) -> nat
    decreases s.len(),
{
    if s.len() == 0 {
        0
    } else {
        utf8_len(s.drop_last()) + char_width(s.last())
    }
}

pub proof fn lemma_utf8_len_concat(a: Seq<char>, b: Seq<char>)
    ensures
        utf8_len(a + b) == utf8_len(a) + utf8_len(b),
    decreases b.len(),
{
    if b.len() == 0 {
        assert(a + b =~= a);
    } else {
        lemma_utf8_len_concat(a, b.drop_last());
        assert((a + b).drop_last() =~= a + b.drop_last());
    }
}

pub proof fn lemma_utf8_len_push(a: Seq<char>, c: char)
    ensures
        utf8_len(a.push(c)) == utf8_len(a) + char_width(c),
{
    assert(a.push(c).drop_last() =~= a);
}

/// The length in bytes is that of the UTF-8 encoding.
pub proof fn lemma_utf8_len_is_encoding_len(s: Seq<char>)
    ensures
        utf8_len(s) == encode_utf8(s).len(),
    decreases s.len(),
{
    if s.len() > 0 {
        let head = seq![s[0]];
        let rest = s.drop_first();
        lemma_utf8_len_is_encoding_len(rest);
        lemma_utf8_len_concat(head, rest);
        assert(head + rest =~= s);
        lemma_utf8_len_push(Seq::empty(), s[0]);
        assert(head =~= Seq::empty().push(s[0]));
        vstd::utf8::char_is_scalar(s[0]);
    }
}

/// A longer prefix takes at least as many bytes.
pub proof fn lemma_utf8_len_take_mono(s: Seq<char>, i: int, j: int)
    requires
        0 <= i <= j <= s.len(),
    ensures
        utf8_len(s.take(i)) <= utf8_len(s.take(j)),
        j - i <= utf8_len(s.take(j)) - utf8_len(s.take(i)) <= 4 * (j - i),
    decreases j - i,
{
    if i < j {
        lemma_utf8_len_take_mono(s, i, j - 1);
        assert(s.take(j).drop_last() =~= s.take(j - 1));
    }
}

/// A text is the bytes of its prefix and of what follows it.
pub proof fn lemma_utf8_len_split(s: Seq<char>, i: int)
    requires
        0 <= i <= s.len(),
    ensures
        utf8_len(s) == utf8_len(s.take(i)) + utf8_len(s.skip(i)),
{
    lemma_utf8_len_concat(s.take(i), s.skip(i));
    assert(s.take(i) + s.skip(i) =~= s);
}

/// The length of `s` in bytes.
pub fn byte_len(s: &str) -> (n: usize)
    ensures
        n == utf8_len(s@),
{
    proof {
        lemma_utf8_len_is_encoding_len(s@);
    }
    s.as_bytes().len()
}

/// The bytes that `c` takes in UTF-8.
pub fn width(c: char) -> (n: usize)
    ensures
        n == char_width(c),
        1 <= n <= 4,
{
    let code: u32 = c as u32;
    if code < 0x80 {
        1
    } else if code < 0x800 {
        2
    } else if code < 0x10000 {
        3
    } else {
        4
    }
}

// ── Characters ──────────────────────────────────────────────────────

/// The characters of `s`.
pub fn to_chars(s: &str) -> (v: Vec<char>)
    ensures
        v@ == s@,
{
    let mut v: Vec<char> = Vec::new();
    for c in it: s.chars()
        invariant
            v@ == s@.take(it.index()),
            it.seq() == s@,
    {
        proof {
            assert(s@.take(it.index()).push(c) =~= s@.take(it.index() + 1));
        }
        v.push(c);
    }
    assert(s@.take(s@.len() as int) =~= s@);
    v
}

/// The text made of `v[from..to]`.
pub fn from_chars(v: &Vec<char>, from: usize, to: usize) -> (s: String)
    requires
        from <= to <= v@.len(),
    ensures
        s@ == v@.subrange(from as int, to as int),
{
    let mut s = String::new();
    let mut i: usize = from;
    while i < to
        invariant
            from <= i <= to <= v@.len(),
            s@ == v@.subrange(from as int, i as int),
        decreases to - i,
    {
        s.push(v[i]);
        i += 1;
        assert(v@.subrange(from as int, i as int) =~= v@.subrange(from as int, i - 1).push(v@[i - 1]));
    }
    s
}

/// The views of a list of texts.
pub open spec fn views(v: Seq<String>) -> Seq<Seq<char>> {
    v.map_values(|s: String| s@)
}

pub proof fn lemma_views_push(v: Seq<String>, s: String)
    ensures
        views(v.push(s)) == views(v).push(s@),
{
    assert(views(v.push(s)) =~= views(v).push(s@));
}

/// Whether two texts are the same.
pub fn same(a: &str, b: &str) -> (r: bool)
    ensures
        r == (a@ == b@),
{
    let va = to_chars(a);
    let vb = to_chars(b);
    if va.len() != vb.len() {
        return false;
    }
    let mut i: usize = 0;
    while i < va.len()
        invariant
            va@ == a@,
            vb@ == b@,
            va@.len() == vb@.len(),
            i <= va@.len(),
            forall|j: int| 0 <= j < i ==> va@[j] == vb@[j],
        decreases va@.len() - i,
    {
        if va[i] != vb[i] {
            assert(a@[i as int] != b@[i as int]);
            return false;
        }
        i += 1;
    }
    assert(a@ =~= b@);
    true
}

// ── Cutting at a byte budget ────────────────────────────────────────

/// Characters in the longest prefix of at most `max` bytes.
pub open spec fn prefix_chars(s: Seq<char>, max: nat) -> nat
    decreases s.len(),
{
    if s.len() == 0 || utf8_len(s) <= max {
        s.len()
    } else {
        prefix_chars(s.drop_last(), max)
    }
}

/// The longest prefix of at most `max` bytes.
pub open spec fn prefix_of(s: Seq<char>, max: nat) -> Seq<char> {
    s.take(prefix_chars(s, max) as int)
}

/// Characters before the longest suffix of at most `max` bytes.
pub open spec fn suffix_skip(s: Seq<char>, max: nat) -> nat
    decreases s.len(),
{
    if s.len() == 0 || utf8_len(s) <= max {
        0
    } else {
        1 + suffix_skip(s.drop_first(), max)
    }
}

/// The longest suffix of at most `max` bytes.
pub open spec fn suffix_of(s: Seq<char>, max: nat) -> Seq<char> {
    s.skip(suffix_skip(s, max) as int)
}

/// `prefix_chars` is the one cut that fits and cannot grow.
pub proof fn lemma_prefix_chars(s: Seq<char>, max: nat, k: int)
    requires
        0 <= k <= s.len(),
        utf8_len(s.take(k)) <= max,
        k == s.len() || utf8_len(s.take(k + 1)) > max,
    ensures
        prefix_chars(s, max) == k,
    decreases s.len(),
{
    assert(s.take(s.len() as int) =~= s);
    if k < s.len() {
        lemma_utf8_len_take_mono(s, k + 1, s.len() as int);
        let t = s.drop_last();
        assert(t.take(k) =~= s.take(k));
        if k + 1 <= t.len() {
            assert(t.take(k + 1) =~= s.take(k + 1));
        }
        lemma_prefix_chars(t, max, k);
    }
}

/// The longest prefix that fits in `max` bytes is a prefix and fits.
pub proof fn lemma_prefix_of(s: Seq<char>, max: nat)
    ensures
        prefix_chars(s, max) <= s.len(),
        utf8_len(prefix_of(s, max)) <= max,
        utf8_len(s) <= max ==> prefix_of(s, max) == s,
        utf8_len(s) > max ==> prefix_of(s, max).len() < s.len(),
    decreases s.len(),
{
    assert(s.take(s.len() as int) =~= s);
    if s.len() > 0 && utf8_len(s) > max {
        lemma_prefix_of(s.drop_last(), max);
        assert(s.drop_last().take(prefix_chars(s, max) as int) =~= s.take(
            prefix_chars(s, max) as int,
        ));
    }
}

/// The longest suffix that fits in `max` bytes is a suffix and fits.
pub proof fn lemma_suffix_of(s: Seq<char>, max: nat)
    ensures
        suffix_skip(s, max) <= s.len(),
        utf8_len(suffix_of(s, max)) <= max,
        utf8_len(s) <= max ==> suffix_of(s, max) == s,
        utf8_len(s) > max ==> suffix_of(s, max).len() < s.len(),
    decreases s.len(),
{
    assert(s.skip(0) =~= s);
    if s.len() > 0 && utf8_len(s) > max {
        lemma_suffix_of(s.drop_first(), max);
        assert(s.drop_first().skip(suffix_skip(s.drop_first(), max) as int) =~= s.skip(
            suffix_skip(s, max) as int,
        ));
    }
}

/// The longest prefix within a byte budget is a prefix, is within it, and
/// would not be with one character more.
pub proof fn prefix_is_the_longest_that_fits(s: Seq<char>, max: nat)
    ensures
        ({
            let p = prefix_of(s, max);
            &&& p.len() <= s.len()
            &&& p == s.take(p.len() as int)
            &&& utf8_len(p) <= max
            &&& p.len() < s.len() ==> utf8_len(s.take((p.len() + 1) as int)) > max
        }),
    decreases s.len(),
{
    lemma_prefix_of(s, max);
    if s.len() > 0 && utf8_len(s) > max {
        let t = s.drop_last();
        prefix_is_the_longest_that_fits(t, max);
        let p = prefix_of(t, max);
        assert(p =~= prefix_of(s, max));
        if p.len() < t.len() {
            assert(t.take((p.len() + 1) as int) =~= s.take((p.len() + 1) as int));
        } else {
            assert(s.take((p.len() + 1) as int) =~= s);
        }
    }
}

/// The longest suffix within a byte budget is a suffix, is within it, and
/// would not be with one character more.
pub proof fn suffix_is_the_longest_that_fits(s: Seq<char>, max: nat)
    ensures
        ({
            let p = suffix_of(s, max);
            &&& p.len() <= s.len()
            &&& p == s.skip(s.len() - p.len())
            &&& utf8_len(p) <= max
            &&& p.len() < s.len() ==> utf8_len(s.skip(s.len() - p.len() - 1)) > max
        }),
    decreases s.len(),
{
    lemma_suffix_of(s, max);
    if s.len() > 0 && utf8_len(s) > max {
        let t = s.drop_first();
        suffix_is_the_longest_that_fits(t, max);
        let p = suffix_of(t, max);
        assert(p =~= suffix_of(s, max));
        if p.len() < t.len() {
            assert(t.skip(t.len() - p.len() - 1) =~= s.skip(s.len() - p.len() - 1));
        } else {
            assert(s.skip(s.len() - p.len() - 1) =~= s);
        }
    } else {
        assert(s.skip(0) =~= s);
    }
}

/// A text within its cap stays as it is. Of a longer one the longest start
/// that fits is kept, and only the mark follows it.
pub proof fn capping_keeps_the_start(s: Seq<char>, max: nat)
    ensures
        utf8_len(s) <= max ==> capped(s, max) == s,
        utf8_len(s) > max ==> exists|k: int|
            0 <= k < s.len() && utf8_len(#[trigger] s.take(k)) <= max && utf8_len(s.take(k + 1))
                > max && capped(s, max) == s.take(k) + "\n... [output truncated]"@,
{
    prefix_is_the_longest_that_fits(s, max);
    if utf8_len(s) > max {
        let k = prefix_of(s, max).len() as int;
        if k == s.len() {
            assert(s.take(k) =~= s);
        }
        assert(capped(s, max) == s.take(k) + "\n... [output truncated]"@);
    }
}

/// How many characters of `v` fit in `max` bytes.
pub fn count_prefix(v: &Vec<char>, max: usize) -> (k: usize)
    ensures
        k == prefix_chars(v@, max as nat),
        k <= v@.len(),
{
    let mut k: usize = 0;
    let mut used: usize = 0;
    while k < v.len() && width(v[k]) <= max - used
        invariant
            k <= v@.len(),
            used == utf8_len(v@.take(k as int)),
            used <= max,
        decreases v@.len() - k,
    {
        assert(v@.take(k + 1).drop_last() =~= v@.take(k as int));
        used += width(v[k]);
        k += 1;
    }
    proof {
        if k < v@.len() {
            assert(v@.take(k + 1).drop_last() =~= v@.take(k as int));
        }
        lemma_prefix_chars(v@, max as nat, k as int);
    }
    k
}

/// The longest prefix of `s` that takes at most `max` bytes.
pub fn prefix(s: &str, max: usize) -> (r: String)
    ensures
        r@ == prefix_of(s@, max as nat),
{
    let v = to_chars(s);
    let k = count_prefix(&v, max);
    assert(v@.subrange(0, k as int) =~= v@.take(k as int));
    from_chars(&v, 0, k)
}

/// The longest suffix of `s` that takes at most `max` bytes.
pub fn suffix(s: &str, max: usize) -> (r: String)
    ensures
        r@ == suffix_of(s@, max as nat),
{
    let v = to_chars(s);
    let mut left: usize = byte_len(s);
    let mut i: usize = 0;
    let n: usize = v.len();
    assert(v@.skip(0) =~= v@);
    while left > max
        invariant
            n == v@.len(),
            i <= n,
            left == utf8_len(v@.skip(i as int)),
            suffix_skip(v@, max as nat) == i + suffix_skip(v@.skip(i as int), max as nat),
        decreases left,
    {
        let ghost rest = v@.skip(i as int);
        proof {
            assert(rest.len() > 0);
            assert(rest.drop_first() =~= v@.skip(i + 1));
            lemma_utf8_len_split(rest, 1);
            assert(rest.take(1) =~= Seq::empty().push(rest[0]));
            lemma_utf8_len_push(Seq::empty(), rest[0]);
            assert(rest.skip(1) =~= v@.skip(i + 1));
        }
        left -= width(v[i]);
        i += 1;
    }
    proof {
        assert(v@.subrange(i as int, v@.len() as int) =~= v@.skip(i as int));
    }
    from_chars(&v, i, n)
}

// ── Searching ───────────────────────────────────────────────────────

/// Index of the first `c`, or the length where there is none.
pub open spec fn find_char(s: Seq<char>, c: char) -> int
    decreases s.len(),
{
    if s.len() == 0 || s[0] == c {
        0
    } else {
        1 + find_char(s.drop_first(), c)
    }
}

pub proof fn lemma_find_char(s: Seq<char>, c: char)
    ensures
        0 <= find_char(s, c) <= s.len(),
        forall|j: int| 0 <= j < find_char(s, c) ==> s[j] != c,
        find_char(s, c) < s.len() ==> s[find_char(s, c)] == c,
    decreases s.len(),
{
    if s.len() > 0 && s[0] != c {
        let t = s.drop_first();
        lemma_find_char(t, c);
        assert forall|j: int| 0 <= j < find_char(s, c) implies s[j] != c by {
            if j > 0 {
                assert(t[j - 1] == s[j]);
            }
        }
    }
}

pub proof fn lemma_find_char_unique(s: Seq<char>, c: char, k: int)
    requires
        0 <= k <= s.len(),
        forall|j: int| 0 <= j < k ==> s[j] != c,
        k < s.len() ==> s[k] == c,
    ensures
        find_char(s, c) == k,
{
    lemma_find_char(s, c);
    let f = find_char(s, c);
    if f < k {
        assert(s[f] != c);
    } else if k < f {
        assert(s[k] != c);
    }
}

/// Index of the first `c` at or after `from`, or the length.
pub fn find_from(v: &Vec<char>, c: char, from: usize) -> (k: usize)
    requires
        from <= v@.len(),
    ensures
        from <= k <= v@.len(),
        k == from + find_char(v@.skip(from as int), c),
        forall|j: int| from <= j < k ==> v@[j] != c,
        k < v@.len() ==> v@[k as int] == c,
{
    let mut k: usize = from;
    while k < v.len() && v[k] != c
        invariant
            from <= k <= v@.len(),
            forall|j: int| from <= j < k ==> v@[j] != c,
        decreases v@.len() - k,
    {
        k += 1;
    }
    proof {
        lemma_find_char_unique(v@.skip(from as int), c, k - from);
    }
    k
}

/// Whether `pat` stands in `s` at `i`.
pub open spec fn stands_at(s: Seq<char>, pat: Seq<char>, i: int) -> bool {
    &&& 0 <= i
    &&& i + pat.len() <= s.len()
    &&& s.subrange(i, i + pat.len()) == pat
}

/// Whether `pat` occurs in `s`.
pub open spec fn occurs(s: Seq<char>, pat: Seq<char>) -> bool {
    exists|i: int| stands_at(s, pat, i)
}

/// Whether `s` starts with `pat`.
pub open spec fn has_prefix(s: Seq<char>, pat: Seq<char>) -> bool {
    pat.len() <= s.len() && s.take(pat.len() as int) == pat
}

/// Whether `s` ends with `pat`.
pub open spec fn has_suffix(s: Seq<char>, pat: Seq<char>) -> bool {
    pat.len() <= s.len() && s.skip(s.len() - pat.len()) == pat
}

/// Whether `pat` stands in `v` at `i`.
pub fn stands(v: &Vec<char>, pat: &Vec<char>, i: usize) -> (r: bool)
    requires
        i <= v@.len(),
    ensures
        r == stands_at(v@, pat@, i as int),
{
    if pat.len() > v.len() - i {
        return false;
    }
    let mut k: usize = 0;
    let n: usize = v.len();
    while k < pat.len()
        invariant
            n == v@.len(),
            i + pat@.len() <= n,
            k <= pat@.len(),
            forall|j: int| 0 <= j < k ==> v@[i + j] == pat@[j],
        decreases pat@.len() - k,
    {
        if v[i + k] != pat[k] {
            proof {
                if stands_at(v@, pat@, i as int) {
                    assert(v@.subrange(i as int, i + pat@.len())[k as int] == pat@[k as int]);
                }
            }
            return false;
        }
        k += 1;
    }
    assert(v@.subrange(i as int, i + pat@.len()) =~= pat@);
    true
}

/// Whether `pat` occurs in `s`.
pub fn contains(s: &str, pat: &str) -> (r: bool)
    ensures
        r == occurs(s@, pat@),
{
    let v = to_chars(s);
    let p = to_chars(pat);
    if p.len() == 0 {
        assert(s@.subrange(0, 0) =~= pat@);
        assert(stands_at(s@, pat@, 0));
        return true;
    }
    let mut i: usize = 0;
    while i < v.len()
        invariant
            v@ == s@,
            p@ == pat@,
            i <= v@.len(),
            forall|j: int| 0 <= j < i ==> !stands_at(s@, pat@, j),
        decreases v@.len() - i,
    {
        if stands(&v, &p, i) {
            return true;
        }
        i += 1;
    }
    false
}

/// Whether `s` starts with `pat`.
pub fn starts_with(s: &str, pat: &str) -> (r: bool)
    ensures
        r == has_prefix(s@, pat@),
{
    let v = to_chars(s);
    let p = to_chars(pat);
    let r = stands(&v, &p, 0);
    proof {
        if pat@.len() <= s@.len() {
            assert(s@.subrange(0, pat@.len() as int) =~= s@.take(pat@.len() as int));
        }
    }
    r
}

/// Whether `s` ends with `pat`.
pub fn ends_with(s: &str, pat: &str) -> (r: bool)
    ensures
        r == has_suffix(s@, pat@),
{
    let v = to_chars(s);
    let p = to_chars(pat);
    if p.len() > v.len() {
        return false;
    }
    let r = stands(&v, &p, v.len() - p.len());
    assert(s@.subrange(s@.len() - pat@.len(), s@.len() as int) =~= s@.skip(s@.len() - pat@.len()));
    r
}

/// A part of a text occurs in it.
pub proof fn lemma_occurs_within(a: Seq<char>, b: Seq<char>, c: Seq<char>)
    ensures
        occurs(a + b + c, b),
{
    assert((a + b + c).subrange(a.len() as int, (a.len() + b.len()) as int) =~= b);
    assert(stands_at(a + b + c, b, a.len() as int));
}

/// What occurs in a part occurs in the whole.
pub proof fn lemma_occurs_in_part(a: Seq<char>, b: Seq<char>, c: Seq<char>, pat: Seq<char>)
    requires
        occurs(b, pat),
    ensures
        occurs(a + b + c, pat),
{
    let s = a + b + c;
    let i = choose|i: int| stands_at(b, pat, i);
    let at = a.len() + i;
    assert(s.subrange(at, at + pat.len()) =~= b.subrange(i, i + pat.len()));
    assert(stands_at(s, pat, at));
}

// ── Capping ─────────────────────────────────────────────────────────

/// `s` where it takes at most `max` bytes, else the longest prefix that
/// does, marked as cut.
pub open spec fn capped(s: Seq<char>, max: nat) -> Seq<char> {
    if utf8_len(s) <= max {
        s
    } else {
        prefix_of(s, max) + "\n... [output truncated]"@
    }
}

/// `s` where it takes at most `max` bytes, else the longest prefix that
/// does, marked as cut.
pub fn truncate_output(s: &str, max: usize) -> (r: String)
    ensures
        r@ == capped(s@, max as nat),
{
    if byte_len(s) <= max {
        return s.to_owned();
    }
    let mut out = prefix(s, max);
    out.append("\n... [output truncated]");
    out
}

// ── Bytes that need not be text ─────────────────────────────────────

/// The text that bytes spell, each invalid part replaced by U+FFFD.
pub uninterp spec fn lossy_text(bytes: Seq<u8>) -> Seq<char>;

/// The text of `bytes`, by std's `String::from_utf8_lossy`. Valid UTF-8
/// comes back as it is; how many replacement characters stand for an invalid
/// part is left to `lossy_text`.
#[verifier::external_body]
pub(crate) fn from_utf8_lossy(bytes: &[u8]) -> (r: String)
    ensures
        r@ == lossy_text(bytes@),
        vstd::utf8::valid_utf8(bytes@) ==> r@ == vstd::utf8::decode_utf8(bytes@),
{
    String::from_utf8_lossy(bytes).into_owned()
}

/// The text that bytes spell; no bytes spell no text.
pub open spec fn spelled(bytes: Seq<u8>) -> Seq<char> {
    if bytes.len() == 0 {
        Seq::empty()
    } else {
        lossy_text(bytes)
    }
}

/// The text that `bytes` spell.
pub fn spell(bytes: &[u8]) -> (r: String)
    ensures
        r@ == spelled(bytes@),
{
    if bytes.len() == 0 {
        String::new()
    } else {
        from_utf8_lossy(bytes)
    }
}

/// Whether a text is among some.
pub fn among(texts: &Vec<String>, text: &str) -> (r: bool)
    ensures
        r == views(texts@).contains(text@),
{
    let ghost all = views(texts@);
    let n: usize = texts.len();
    let mut i: usize = 0;
    while i < n
        invariant
            i <= n,
            n == texts@.len(),
            all == views(texts@),
            forall|k: int| 0 <= k < i ==> all[k] != text@,
        decreases n - i,
    {
        assert(all[i as int] == texts@[i as int]@);
        if same(texts[i].as_str(), text) {
            return true;
        }
        i += 1;
    }
    false
}

} // verus!
