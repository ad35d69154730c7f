//! Trimming, splitting, joining and replacing.

use vstd::prelude::*;

use super::{
    find_char, find_from, from_chars, has_suffix, lemma_find_char, lemma_views_push, occurs, stands,
    stands_at, to_chars, views,
};

verus! {

// ── Whitespace ──────────────────────────────────────────────────────

/// The characters with the Unicode property `White_Space`.
pub open spec fn is_space(c: char) -> bool {
    let u = c as u32;
    ||| 0x9 <= u <= 0xd
    ||| u == 0x20
    ||| u == 0x85
    ||| u == 0xa0
    ||| u == 0x1680
    ||| 0x2000 <= u <= 0x200a
    ||| u == 0x2028
    ||| u == 0x2029
    ||| u == 0x202f
    ||| u == 0x205f
    ||| u == 0x3000
}

/// Whether `c` is whitespace.
pub fn space(c: char) -> (r: bool)
    ensures
        r == is_space(c),
{
    let u: u32 = c as u32;
    (0x9 <= u && u <= 0xd) || u == 0x20 || u == 0x85 || u == 0xa0 || u == 0x1680 || (0x2000 <= u
        && u <= 0x200a) || u == 0x2028 || u == 0x2029 || u == 0x202f || u == 0x205f || u == 0x3000
}

/// `s` without the whitespace it starts with.
pub open spec fn trimmed_start(s: Seq<char>) -> Seq<char>
    decreases s.len(),
{
    if s.len() > 0 && is_space(s[0]) {
        trimmed_start(s.drop_first())
    } else {
        s
    }
}

/// `s` without the whitespace it ends with.
pub open spec fn trimmed_end(s: Seq<char>) -> Seq<char>
    decreases s.len(),
{
    if s.len() > 0 && is_space(s.last()) {
        trimmed_end(s.drop_last())
    } else {
        s
    }
}

/// `s` without the whitespace at both ends.
pub open spec fn trimmed(s: Seq<char>) -> Seq<char> {
    trimmed_start(trimmed_end(s))
}

/// `s` without the occurrences of `c` it ends with.
pub open spec fn without_trailing(s: Seq<char>, c: char) -> Seq<char>
    decreases s.len(),
{
    if s.len() > 0 && s.last() == c {
        without_trailing(s.drop_last(), c)
    } else {
        s
    }
}

/// Where the text without trailing whitespace ends.
pub fn end_of_text(v: &Vec<char>) -> (k: usize)
    ensures
        k <= v@.len(),
        v@.take(k as int) == trimmed_end(v@),
{
    let mut k: usize = v.len();
    assert(v@.take(k as int) =~= v@);
    while k > 0 && space(v[k - 1])
        invariant
            k <= v@.len(),
            trimmed_end(v@) == trimmed_end(v@.take(k as int)),
        decreases k,
    {
        assert(v@.take(k as int).drop_last() =~= v@.take(k - 1));
        k -= 1;
    }
    k
}

/// Where the text within `v[..end]` starts, past leading whitespace.
pub fn start_of_text(v: &Vec<char>, end: usize) -> (k: usize)
    requires
        end <= v@.len(),
    ensures
        k <= end,
        v@.subrange(k as int, end as int) == trimmed_start(v@.take(end as int)),
{
    let mut k: usize = 0;
    assert(v@.subrange(0, end as int) =~= v@.take(end as int));
    while k < end && space(v[k])
        invariant
            k <= end <= v@.len(),
            trimmed_start(v@.take(end as int)) == trimmed_start(v@.subrange(k as int, end as int)),
        decreases end - k,
    {
        assert(v@.subrange(k as int, end as int).drop_first() =~= v@.subrange(k + 1, end as int));
        k += 1;
    }
    k
}

/// `s` without the whitespace at both ends.
pub fn trim(s: &str) -> (r: String)
    ensures
        r@ == trimmed(s@),
{
    let v = to_chars(s);
    let end = end_of_text(&v);
    let start = start_of_text(&v, end);
    from_chars(&v, start, end)
}

/// `s` without the whitespace it ends with.
pub fn trim_end(s: &str) -> (r: String)
    ensures
        r@ == trimmed_end(s@),
{
    let v = to_chars(s);
    let end = end_of_text(&v);
    assert(v@.subrange(0, end as int) =~= v@.take(end as int));
    from_chars(&v, 0, end)
}

/// `s` without the whitespace it starts with.
pub fn trim_start(s: &str) -> (r: String)
    ensures
        r@ == trimmed_start(s@),
{
    let v = to_chars(s);
    let n: usize = v.len();
    let start = start_of_text(&v, n);
    assert(v@.take(n as int) =~= v@);
    from_chars(&v, start, n)
}

/// `s` without the occurrences of `c` it ends with.
pub fn trim_end_char(s: &str, c: char) -> (r: String)
    ensures
        r@ == without_trailing(s@, c),
{
    let v = to_chars(s);
    let mut k: usize = v.len();
    assert(v@.take(k as int) =~= v@);
    while k > 0 && v[k - 1] == c
        invariant
            k <= v@.len(),
            without_trailing(v@, c) == without_trailing(v@.take(k as int), c),
        decreases k,
    {
        assert(v@.take(k as int).drop_last() =~= v@.take(k - 1));
        k -= 1;
    }
    assert(v@.subrange(0, k as int) =~= v@.take(k as int));
    from_chars(&v, 0, k)
}

/// Whether `s` is empty or whitespace throughout.
pub open spec fn is_blank(s: Seq<char>) -> bool {
    forall|i: int| 0 <= i < s.len() ==> is_space(#[trigger] s[i])
}

/// A text is blank exactly when nothing is left of it after trimming.
pub proof fn lemma_blank_is_trimmed_empty(s: Seq<char>)
    ensures
        is_blank(s) <==> trimmed(s).len() == 0,
    decreases s.len(),
{
    if s.len() > 0 && is_space(s.last()) {
        lemma_blank_is_trimmed_empty(s.drop_last());
        assert(is_blank(s) <==> is_blank(s.drop_last())) by {
            assert forall|i: int| 0 <= i < s.len() && is_blank(s.drop_last()) implies is_space(
                #[trigger] s[i],
            ) by {
                if i < s.len() - 1 {
                    assert(s.drop_last()[i] == s[i]);
                }
            }
            assert forall|i: int| 0 <= i < s.len() - 1 && is_blank(s) implies is_space(
                #[trigger] s.drop_last()[i],
            ) by {
                assert(s.drop_last()[i] == s[i]);
            }
        }
    } else if s.len() > 0 {
        assert(trimmed_end(s) == s);
        lemma_trimmed_start_keeps_last(s);
        assert(!is_space(s[s.len() - 1]));
    }
}

proof fn lemma_trimmed_start_keeps_last(s: Seq<char>)
    requires
        s.len() > 0,
        !is_space(s.last()),
    ensures
        trimmed_start(s).len() > 0,
    decreases s.len(),
{
    if is_space(s[0]) {
        assert(s.drop_first().last() == s.last());
        lemma_trimmed_start_keeps_last(s.drop_first());
    }
}

/// Whether nothing is left of `s` after trimming.
pub fn blank(s: &str) -> (r: bool)
    ensures
        r == (trimmed(s@).len() == 0),
        r == is_blank(s@),
{
    proof {
        lemma_blank_is_trimmed_empty(s@);
    }
    trim(s).as_str().is_empty()
}

/// Whether `s` holds a whitespace character.
pub fn has_space(s: &str) -> (r: bool)
    ensures
        r == exists|i: int| 0 <= i < s@.len() && is_space(#[trigger] s@[i]),
{
    let v = to_chars(s);
    let mut i: usize = 0;
    while i < v.len()
        invariant
            v@ == s@,
            i <= v@.len(),
            forall|j: int| 0 <= j < i ==> !is_space(#[trigger] s@[j]),
        decreases v@.len() - i,
    {
        if space(v[i]) {
            assert(is_space(s@[i as int]));
            return true;
        }
        i += 1;
    }
    false
}

// ── Splitting ───────────────────────────────────────────────────────

/// The pieces of `s` between occurrences of `c`.
pub open spec fn split_at_char(s: Seq<char>, c: char) -> Seq<Seq<char>>
    decreases s.len(),
{
    let n = find_char(s, c);
    if 0 <= n < s.len() {
        seq![s.take(n)] + split_at_char(s.skip(n + 1), c)
    } else {
        seq![s]
    }
}

/// The pieces of `s`, each ending with its newline but perhaps the last.
pub open spec fn pieces(s: Seq<char>) -> Seq<Seq<char>>
    decreases s.len(),
{
    let n = find_char(s, '\n');
    if s.len() == 0 {
        Seq::empty()
    } else if 0 <= n < s.len() {
        seq![s.take(n + 1)] + pieces(s.skip(n + 1))
    } else {
        seq![s]
    }
}

/// A piece without its line ending, `\n` or `\r\n`.
pub open spec fn without_newline(p: Seq<char>) -> Seq<char> {
    if p.len() > 0 && p.last() == '\n' {
        let q = p.drop_last();
        if q.len() > 0 && q.last() == '\r' {
            q.drop_last()
        } else {
            q
        }
    } else {
        p
    }
}

/// The lines of `s`.
pub open spec fn lines_of(s: Seq<char>) -> Seq<Seq<char>> {
    pieces(s).map_values(|p: Seq<char>| without_newline(p))
}

/// The pieces of `s` between occurrences of `c`.
pub fn split(s: &str, c: char) -> (out: Vec<String>)
    ensures
        views(out@) == split_at_char(s@, c),
{
    let v = to_chars(s);
    let n: usize = v.len();
    let mut out: Vec<String> = Vec::new();
    let mut start: usize = 0;
    assert(v@.skip(0) =~= v@);
    assert(views(out@) + split_at_char(v@.skip(0), c) =~= split_at_char(v@, c));
    loop
        invariant
            n == v@.len(),
            start <= n,
            v@ == s@,
            views(out@) + split_at_char(v@.skip(start as int), c) == split_at_char(s@, c),
        decreases n - start,
    {
        let k = find_from(&v, c, start);
        let ghost rest = v@.skip(start as int);
        let piece = from_chars(&v, start, k);
        let ghost before = out@;
        out.push(piece);
        proof {
            lemma_views_push(before, piece);
            assert(piece@ =~= rest.take(k - start));
        }
        if k == n {
            assert(rest.take(k - start) =~= rest);
            assert(views(out@) =~= views(before) + seq![rest]);
            return out;
        }
        proof {
            assert(rest.skip(k - start + 1) =~= v@.skip(k + 1));
        }
        start = k + 1;
        proof {
            assert(split_at_char(rest, c) == seq![piece@] + split_at_char(v@.skip(start as int), c));
            assert(views(out@) + split_at_char(v@.skip(start as int), c) =~= views(before) + (
            seq![piece@] + split_at_char(v@.skip(start as int), c)));
        }
    }
}

/// The pieces of `s`, each ending with its newline but perhaps the last.
pub fn split_inclusive(s: &str) -> (out: Vec<String>)
    ensures
        views(out@) == pieces(s@),
{
    let v = to_chars(s);
    let n: usize = v.len();
    let mut out: Vec<String> = Vec::new();
    let mut start: usize = 0;
    assert(v@.skip(0) =~= v@);
    assert(views(out@) + pieces(v@.skip(0)) =~= pieces(v@));
    while start < n
        invariant
            n == v@.len(),
            start <= n,
            views(out@) + pieces(v@.skip(start as int)) == pieces(v@),
        decreases n - start,
    {
        let ghost rest = v@.skip(start as int);
        let k = find_from(&v, '\n', start);
        let end: usize = if k == n { n } else { k + 1 };
        let piece = from_chars(&v, start, end);
        let ghost before = out@;
        out.push(piece);
        proof {
            lemma_views_push(before, piece);
            if k < n {
                assert(piece@ =~= rest.take(k - start + 1));
                assert(rest.skip(k - start + 1) =~= v@.skip(end as int));
            } else {
                assert(piece@ =~= rest);
                assert(pieces(v@.skip(end as int)) =~= Seq::empty());
                assert(pieces(rest) == seq![rest]);
            }
            assert(pieces(rest) =~= seq![piece@] + pieces(v@.skip(end as int)));
            assert(views(out@) + pieces(v@.skip(end as int)) =~= views(before) + (seq![piece@]
                + pieces(v@.skip(end as int))));
        }
        start = end;
    }
    assert(pieces(v@.skip(start as int)) =~= Seq::empty());
    assert(views(out@) + pieces(v@.skip(start as int)) =~= views(out@));
    out
}

/// `piece` without its line ending.
pub fn strip_newline(piece: &str) -> (r: String)
    ensures
        r@ == without_newline(piece@),
{
    let v = to_chars(piece);
    let mut end: usize = v.len();
    if end > 0 && v[end - 1] == '\n' {
        end -= 1;
        if end > 0 && v[end - 1] == '\r' {
            end -= 1;
        }
    }
    assert(v@.subrange(0, end as int) =~= without_newline(v@));
    from_chars(&v, 0, end)
}

/// The lines of `s`.
pub fn lines(s: &str) -> (out: Vec<String>)
    ensures
        views(out@) == lines_of(s@),
{
    let parts = split_inclusive(s);
    let mut out: Vec<String> = Vec::new();
    let mut i: usize = 0;
    while i < parts.len()
        invariant
            i <= parts@.len(),
            views(parts@) == pieces(s@),
            views(out@) == lines_of(s@).take(i as int),
        decreases parts@.len() - i,
    {
        let line = strip_newline(parts[i].as_str());
        let ghost before = out@;
        out.push(line);
        proof {
            lemma_views_push(before, line);
            assert(views(parts@)[i as int] == parts@[i as int]@);
            assert(lines_of(s@)[i as int] == without_newline(pieces(s@)[i as int]));
            assert(lines_of(s@).take(i + 1) =~= lines_of(s@).take(i as int).push(line@));
        }
        i += 1;
    }
    assert(lines_of(s@).take(i as int) =~= lines_of(s@));
    out
}

/// What stands before and after the first `c` of `s`.
pub open spec fn split_first(s: Seq<char>, c: char) -> Option<(Seq<char>, Seq<char>)> {
    let n = find_char(s, c);
    if 0 <= n < s.len() {
        Some((s.take(n), s.skip(n + 1)))
    } else {
        None
    }
}

/// What stands before and after the first `c` of `s`.
pub fn split_once(s: &str, c: char) -> (r: Option<(String, String)>)
    ensures
        match r {
            Some((a, b)) => split_first(s@, c) == Some((a@, b@)),
            None => split_first(s@, c) is None,
        },
{
    let v = to_chars(s);
    let n: usize = v.len();
    assert(v@.skip(0) =~= v@);
    let k = find_from(&v, c, 0);
    if k == n {
        return None;
    }
    let a = from_chars(&v, 0, k);
    let b = from_chars(&v, k + 1, n);
    assert(a@ =~= s@.take(k as int));
    assert(b@ =~= s@.skip(k + 1));
    Some((a, b))
}

/// `s` without the ending `pat`, where it has that ending.
pub fn strip_suffix(s: &str, pat: &str) -> (r: Option<String>)
    ensures
        match r {
            Some(t) => has_suffix(s@, pat@) && t@ == s@.take(s@.len() - pat@.len()),
            None => !has_suffix(s@, pat@),
        },
{
    if !super::ends_with(s, pat) {
        return None;
    }
    let v = to_chars(s);
    let p = to_chars(pat);
    let end: usize = v.len() - p.len();
    assert(v@.subrange(0, end as int) =~= s@.take(end as int));
    Some(from_chars(&v, 0, end))
}

// ── Joining ─────────────────────────────────────────────────────────

/// The parts with `sep` between each two.
pub open spec fn joined(parts: Seq<Seq<char>>, sep: Seq<char>) -> Seq<char>
    decreases parts.len(),
{
    if parts.len() == 0 {
        Seq::empty()
    } else if parts.len() == 1 {
        parts[0]
    } else {
        joined(parts.drop_last(), sep) + sep + parts.last()
    }
}

/// The parts with `sep` between each two.
pub fn join(parts: &Vec<String>, sep: &str) -> (r: String)
    ensures
        r@ == joined(views(parts@), sep@),
{
    let mut out = String::new();
    let mut i: usize = 0;
    assert(views(parts@).take(0) =~= Seq::empty());
    while i < parts.len()
        invariant
            i <= parts@.len(),
            out@ == joined(views(parts@).take(i as int), sep@),
        decreases parts@.len() - i,
    {
        if i > 0 {
            out.append(sep);
        }
        out.append(parts[i].as_str());
        proof {
            let next = views(parts@).take(i + 1);
            assert(next.drop_last() =~= views(parts@).take(i as int));
            assert(next.last() == parts@[i as int]@);
            assert(out@ =~= joined(next, sep@));
        }
        i += 1;
    }
    assert(views(parts@).take(i as int) =~= views(parts@));
    out
}

// ── Replacing ───────────────────────────────────────────────────────

/// The lines of a text are its first line and those of the rest.
pub proof fn lemma_lines_cons(x: Seq<char>, rest: Seq<char>)
    requires
        !x.contains('\n'),
        x.len() > 0 ==> x.last() != '\r',
    ensures
        lines_of(x + "\n"@ + rest) == seq![x] + lines_of(rest),
{
    reveal_strlit("\n");
    let s = x + "\n"@ + rest;
    let n = find_char(s, '\n');
    lemma_find_char(s, '\n');
    assert(s[x.len() as int] == '\n');
    if n < x.len() {
        assert(x[n] == s[n]);
        assert(false);
    }
    assert(n == x.len());
    assert(s.take(n + 1) =~= x + "\n"@);
    assert(s.skip(n + 1) =~= rest);
    assert(s.take(n + 1).drop_last() =~= x);
    assert(pieces(s) == seq![x + "\n"@] + pieces(rest));
    assert(without_newline(x + "\n"@) == x);
    assert(lines_of(s) =~= seq![x] + lines_of(rest));
}

/// A text without a newline is its one line.
pub proof fn lemma_one_line(x: Seq<char>)
    requires
        x.len() > 0,
        !x.contains('\n'),
    ensures
        lines_of(x) == seq![x],
{
    lemma_find_char(x, '\n');
    assert(lines_of(x) =~= seq![x]);
}

/// Joining puts the first part and a separator before the rest.
pub proof fn lemma_joined_cons(a: Seq<char>, rest: Seq<Seq<char>>, sep: Seq<char>)
    requires
        rest.len() > 0,
    ensures
        joined(seq![a] + rest, sep) == a + sep + joined(rest, sep),
    decreases rest.len(),
{
    let all = seq![a] + rest;
    if rest.len() == 1 {
        assert(all.drop_last() =~= seq![a]);
        assert(joined(seq![a], sep) == a);
        assert(joined(all, sep) =~= a + sep + joined(rest, sep));
    } else {
        lemma_joined_cons(a, rest.drop_last(), sep);
        assert(all.drop_last() =~= seq![a] + rest.drop_last());
        assert(joined(all, sep) =~= a + sep + joined(rest, sep));
    }
}

/// No line holds a character that the text does not hold.
pub proof fn lemma_lines_add_nothing(s: Seq<char>, c: char)
    requires
        !s.contains(c),
    ensures
        forall|i: int| 0 <= i < lines_of(s).len() ==> !(#[trigger] lines_of(s)[i]).contains(c),
{
    lemma_pieces_add_nothing(s, c);
    assert forall|i: int| 0 <= i < lines_of(s).len() implies !(#[trigger] lines_of(s)[i]).contains(
        c,
    ) by {
        let p = pieces(s)[i];
        let line = lines_of(s)[i];
        assert(line == without_newline(p));
        if line.contains(c) {
            let k = choose|k: int| 0 <= k < line.len() && line[k] == c;
            assert(p[k] == c);
        }
    }
}

proof fn lemma_pieces_add_nothing(s: Seq<char>, c: char)
    requires
        !s.contains(c),
    ensures
        forall|i: int| 0 <= i < pieces(s).len() ==> !(#[trigger] pieces(s)[i]).contains(c),
    decreases s.len(),
{
    let n = find_char(s, '\n');
    lemma_find_char(s, '\n');
    if s.len() > 0 && n < s.len() {
        let first = s.take(n + 1);
        let rest = s.skip(n + 1);
        assert forall|k: int| 0 <= k < rest.len() implies rest[k] != c by {
            assert(rest[k] == s[n + 1 + k]);
        }
        assert forall|k: int| 0 <= k < first.len() implies first[k] != c by {
            assert(first[k] == s[k]);
        }
        lemma_pieces_add_nothing(rest, c);
        assert forall|i: int| 0 <= i < pieces(s).len() implies !(#[trigger] pieces(s)[i]).contains(
            c,
        ) by {
            if i > 0 {
                assert(pieces(s)[i] == pieces(rest)[i - 1]);
            }
        }
    }
}

/// A text that has no `\r` and does not end with a newline is its lines with
/// newlines between them. No line holds a newline.
pub proof fn lemma_lines_join_back(s: Seq<char>)
    requires
        s.len() > 0,
        s.last() != '\n',
        !s.contains('\r'),
    ensures
        lines_of(s).len() > 0,
        joined(lines_of(s), "\n"@) == s,
        forall|i: int|
            0 <= i < lines_of(s).len() ==> !(#[trigger] lines_of(s)[i]).contains('\n')
                && !lines_of(s)[i].contains('\r'),
    decreases s.len(),
{
    reveal_strlit("\n");
    let n = find_char(s, '\n');
    lemma_find_char(s, '\n');
    if n < s.len() {
        let x = s.take(n);
        let rest = s.skip(n + 1);
        assert(s =~= x + "\n"@ + rest);
        assert(rest.len() > 0 && rest.last() == s.last());
        assert forall|i: int| 0 <= i < rest.len() implies rest[i] != '\r' by {
            assert(rest[i] == s[n + 1 + i]);
        }
        assert forall|i: int| 0 <= i < x.len() implies x[i] != '\r' && x[i] != '\n' by {
            assert(x[i] == s[i]);
        }
        lemma_lines_join_back(rest);
        lemma_lines_cons(x, rest);
        lemma_joined_cons(x, lines_of(rest), "\n"@);
        assert forall|i: int| 0 <= i < lines_of(s).len() implies !(#[trigger] lines_of(s)[i]).contains('\n')
            && !lines_of(s)[i].contains('\r') by {
            if i > 0 {
                assert(lines_of(s)[i] == lines_of(rest)[i - 1]);
            }
        }
    } else {
        lemma_one_line(s);
    }
}

/// `s` with every occurrence of `pat`, found from the left and not
/// overlapping, replaced by `to`.
pub open spec fn replaced(s: Seq<char>, pat: Seq<char>, to: Seq<char>) -> Seq<char>
    decreases s.len(),
{
    if s.len() == 0 || pat.len() == 0 {
        s
    } else if stands_at(s, pat, 0) {
        to + replaced(s.skip(pat.len() as int), pat, to)
    } else {
        seq![s[0]] + replaced(s.drop_first(), pat, to)
    }
}

/// `s` with every occurrence of `pat`, found from the left and not
/// overlapping, replaced by `to`.
pub fn replace(s: &str, pat: &str, to: &str) -> (r: String)
    requires
        pat@.len() > 0,
    ensures
        r@ == replaced(s@, pat@, to@),
{
    let v = to_chars(s);
    let p = to_chars(pat);
    let n: usize = v.len();
    let mut out = String::new();
    let mut i: usize = 0;
    assert(v@.skip(0) =~= v@);
    assert(out@ + replaced(v@.skip(0), pat@, to@) =~= replaced(v@, pat@, to@));
    while i < n
        invariant
            n == v@.len(),
            i <= n,
            p@ == pat@,
            pat@.len() > 0,
            out@ + replaced(v@.skip(i as int), pat@, to@) == replaced(v@, pat@, to@),
        decreases n - i,
    {
        let ghost rest = v@.skip(i as int);
        let ghost before = out@;
        let hit = stands(&v, &p, i);
        proof {
            if i + pat@.len() <= n {
                assert(rest.subrange(0, pat@.len() as int) =~= v@.subrange(i as int, i + pat@.len()));
            }
            assert(hit == stands_at(rest, pat@, 0));
        }
        if hit {
            out.append(to);
            i = i + p.len();
            proof {
                assert(rest.skip(pat@.len() as int) =~= v@.skip(i as int));
                assert(before + replaced(rest, pat@, to@) =~= out@ + replaced(
                    v@.skip(i as int),
                    pat@,
                    to@,
                ));
            }
        } else {
            out.push(v[i]);
            i += 1;
            proof {
                assert(rest.drop_first() =~= v@.skip(i as int));
                assert(before + replaced(rest, pat@, to@) =~= out@ + replaced(
                    v@.skip(i as int),
                    pat@,
                    to@,
                ));
            }
        }
    }
    assert(out@ + replaced(v@.skip(i as int), pat@, to@) =~= out@);
    out
}

// ── What the operations keep ────────────────────────────────────────

/// Joining keeps every part, in order, and adds nothing but the separators.
pub proof fn joining_adds_only_separators(a: Seq<Seq<char>>, b: Seq<Seq<char>>, sep: Seq<char>, x: Seq<char>)
    ensures
        joined(Seq::empty(), sep) == Seq::<char>::empty(),
        joined(seq![x], sep) == x,
        a.len() > 0 && b.len() > 0 ==> joined(a + b, sep) == joined(a, sep) + sep + joined(b, sep),
    decreases b.len(),
{
    if a.len() > 0 && b.len() > 0 {
        assert((a + b).drop_last() =~= a + b.drop_last());
        if b.len() == 1 {
            assert(a + b.drop_last() =~= a);
        } else {
            joining_adds_only_separators(a, b.drop_last(), sep, x);
            assert(joined(a + b, sep) =~= joined(a, sep) + sep + joined(b, sep));
        }
    }
}

/// Every part stands in what is joined.
pub proof fn joined_text_holds_every_part(parts: Seq<Seq<char>>, sep: Seq<char>, i: int)
    requires
        0 <= i < parts.len(),
    ensures
        occurs(joined(parts, sep), parts[i]),
    decreases parts.len(),
{
    let s = joined(parts, sep);
    let part = parts[i];
    if i == parts.len() - 1 {
        let at = s.len() - part.len();
        assert(s.subrange(at, at + part.len()) =~= part);
        assert(stands_at(s, part, at));
    } else {
        let rest = parts.drop_last();
        joined_text_holds_every_part(rest, sep, i);
        assert(rest[i] == part);
        let t = joined(rest, sep);
        let at = choose|at: int| stands_at(t, part, at);
        assert(s.subrange(at, at + part.len()) =~= t.subrange(at, at + part.len()));
        assert(stands_at(s, part, at));
    }
}

/// Splitting loses nothing: the pieces hold no separator, and joined by it
/// they are the text.
pub proof fn split_pieces_join_back(s: Seq<char>, c: char)
    ensures
        split_at_char(s, c).len() > 0,
        joined(split_at_char(s, c), seq![c]) == s,
        forall|i: int|
            0 <= i < split_at_char(s, c).len() ==> !(#[trigger] split_at_char(s, c)[i]).contains(c),
    decreases s.len(),
{
    let n = find_char(s, c);
    lemma_find_char(s, c);
    if n < s.len() {
        let first = s.take(n);
        let rest = s.skip(n + 1);
        let tail = split_at_char(rest, c);
        split_pieces_join_back(rest, c);
        lemma_joined_cons(first, tail, seq![c]);
        assert(first + seq![c] + rest =~= s);
        assert forall|i: int| 0 <= i < split_at_char(s, c).len() implies !(
        #[trigger] split_at_char(s, c)[i]).contains(c) by {
            if i > 0 {
                assert(split_at_char(s, c)[i] == tail[i - 1]);
            } else if first.contains(c) {
                let k = choose|k: int| 0 <= k < first.len() && first[k] == c;
                assert(s[k] == c);
            }
        }
    }
}

/// Splitting at the first separator loses nothing, and the separator is not
/// in the first part.
pub proof fn split_once_joins_back(s: Seq<char>, c: char)
    ensures
        split_first(s, c) is Some <==> s.contains(c),
        split_first(s, c) matches Some((a, b)) ==> s == a + seq![c] + b && !a.contains(c),
{
    let n = find_char(s, c);
    lemma_find_char(s, c);
    if s.contains(c) {
        let k = choose|k: int| 0 <= k < s.len() && s[k] == c;
        assert(n <= k);
    }
    if n < s.len() {
        assert(s[n] == c);
        assert(s =~= s.take(n) + seq![c] + s.skip(n + 1));
        if s.take(n).contains(c) {
            let k = choose|k: int| 0 <= k < n && s.take(n)[k] == c;
            assert(s[k] == c);
        }
    }
}

/// Trimming takes whitespace off both ends and nothing else.
pub proof fn trimming_takes_off_whitespace(s: Seq<char>)
    ensures
        exists|i: int, j: int| #[trigger]
            is_trim(s, i, j) && trimmed(s) == s.subrange(i, j),
{
    let e = trimmed_end(s);
    lemma_trimmed_end(s);
    lemma_trimmed_start(e);
    let j = e.len() as int;
    let t = trimmed_start(e);
    let i = j - t.len();
    assert(t =~= s.subrange(i, j));
    assert forall|k: int| 0 <= k < i implies is_space(#[trigger] s[k]) by {
        assert(e[k] == s[k]);
    }
    if i < j {
        assert(e[i] == s[i]);
        assert(e[j - 1] == s[j - 1]);
    }
    assert(is_trim(s, i, j));
}

/// Whether whitespace stands before `i` and from `j` on, and what is between
/// neither starts nor ends with any.
pub open spec fn is_trim(s: Seq<char>, i: int, j: int) -> bool {
    &&& 0 <= i <= j <= s.len()
    &&& forall|k: int| 0 <= k < i ==> is_space(#[trigger] s[k])
    &&& forall|k: int| j <= k < s.len() ==> is_space(#[trigger] s[k])
    &&& i < j ==> !is_space(s[i]) && !is_space(s[j - 1])
}

/// Trimming the end takes off whitespace only, and all of it.
pub proof fn lemma_trimmed_end(s: Seq<char>)
    ensures
        trimmed_end(s).len() <= s.len(),
        trimmed_end(s) == s.take(trimmed_end(s).len() as int),
        forall|k: int| trimmed_end(s).len() <= k < s.len() ==> is_space(#[trigger] s[k]),
        trimmed_end(s).len() > 0 ==> !is_space(trimmed_end(s).last()),
    decreases s.len(),
{
    let t = trimmed_end(s);
    assert(s.take(s.len() as int) =~= s);
    if s.len() > 0 && is_space(s.last()) {
        lemma_trimmed_end(s.drop_last());
        assert(s.drop_last().take(t.len() as int) =~= s.take(t.len() as int));
        assert forall|k: int| t.len() <= k < s.len() implies is_space(#[trigger] s[k]) by {
            if k < s.len() - 1 {
                assert(s.drop_last()[k] == s[k]);
            }
        }
    }
}

/// Trimming the start takes off whitespace only, and all of it.
pub proof fn lemma_trimmed_start(s: Seq<char>)
    ensures
        trimmed_start(s).len() <= s.len(),
        trimmed_start(s) == s.skip(s.len() - trimmed_start(s).len()),
        forall|k: int| 0 <= k < s.len() - trimmed_start(s).len() ==> is_space(#[trigger] s[k]),
        trimmed_start(s).len() > 0 ==> !is_space(trimmed_start(s)[0]),
    decreases s.len(),
{
    let t = trimmed_start(s);
    assert(s.skip(0) =~= s);
    if s.len() > 0 && is_space(s[0]) {
        let rest = s.drop_first();
        lemma_trimmed_start(rest);
        assert(rest.skip(rest.len() - t.len()) =~= s.skip(s.len() - t.len()));
        assert forall|k: int| 0 <= k < s.len() - t.len() implies is_space(#[trigger] s[k]) by {
            if k > 0 {
                assert(rest[k - 1] == s[k]);
            }
        }
    }
}

/// Replacing a character changes each place where it stands, and no other.
pub proof fn replacing_a_character_is_local(
    a: Seq<char>,
    b: Seq<char>,
    c: char,
    x: char,
    to: Seq<char>,
)
    ensures
        replaced(Seq::empty(), seq![c], to) == Seq::<char>::empty(),
        replaced(seq![x], seq![c], to) == if x == c {
            to
        } else {
            seq![x]
        },
        replaced(a + b, seq![c], to) == replaced(a, seq![c], to) + replaced(b, seq![c], to),
    decreases a.len(),
{
    let pat = seq![c];
    let one = seq![x];
    assert(one.subrange(0, 1) =~= one);
    assert(one.skip(1) =~= Seq::empty());
    assert(one.drop_first() =~= Seq::empty());
    assert(replaced(Seq::<char>::empty(), pat, to) =~= Seq::empty());
    assert(stands_at(one, pat, 0) <==> x == c) by {
        assert(one[0] == x && pat[0] == c);
        if x == c {
            assert(one =~= pat);
        }
    }
    assert(replaced(one, pat, to) =~= if x == c {
        to
    } else {
        one
    });
    if a.len() == 0 {
        assert(a + b =~= b);
        assert(replaced(a, pat, to) + replaced(b, pat, to) =~= replaced(b, pat, to));
    } else {
        let s = a + b;
        replacing_a_character_is_local(a.drop_first(), b, c, x, to);
        assert(s.drop_first() =~= a.drop_first() + b);
        assert(s.skip(1) =~= s.drop_first());
        assert(a.skip(1) =~= a.drop_first());
        assert(s.subrange(0, 1) =~= a.subrange(0, 1));
        assert(replaced(s, pat, to) =~= replaced(a, pat, to) + replaced(b, pat, to));
    }
}

/// The pieces of a text each hold one line: a newline stands only at the end
/// of a piece, and every piece but the last ends with one.
pub proof fn pieces_hold_one_line_each(s: Seq<char>, i: int)
    requires
        0 <= i < pieces(s).len(),
    ensures
        pieces(s)[i].len() > 0,
        !pieces(s)[i].drop_last().contains('\n'),
        i < pieces(s).len() - 1 ==> pieces(s)[i].last() == '\n',
    decreases s.len(),
{
    let n = find_char(s, '\n');
    lemma_find_char(s, '\n');
    let p = pieces(s)[i];
    if n < s.len() {
        let rest = pieces(s.skip(n + 1));
        if i == 0 {
            assert(p == s.take(n + 1));
            if p.drop_last().contains('\n') {
                let k = choose|k: int| 0 <= k < n && p.drop_last()[k] == '\n';
                assert(s[k] == '\n');
            }
        } else {
            assert(p == rest[i - 1]);
            pieces_hold_one_line_each(s.skip(n + 1), i - 1);
        }
    } else if p.drop_last().contains('\n') {
        let k = choose|k: int| 0 <= k < p.drop_last().len() && p.drop_last()[k] == '\n';
        assert(s[k] == '\n');
    }
}

} // verus!
