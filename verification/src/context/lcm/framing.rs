//! The framing of tool results: taking it off, putting it on, and cutting a
//! result down to an excerpt.
//!
//! A tool result comes in an envelope, and `file_read` numbers the lines
//! within it and adds a line of statistics below them.

use std::borrow::Cow;

use vstd::prelude::*;

use crate::json::{has_only_integers, is_laid_out, json_of, pretty, pretty_of};
use crate::patterns::{is_number, is_plain_trailer, matched, matches_in, read_trailer, READ_TRAILER};
use crate::text::number::{decimal, is_digit, lemma_decimal_reads_back, parse, parsed, push_usize};
use crate::text::split::{
    is_space, join, joined, lemma_lines_add_nothing, lemma_lines_cons, lemma_lines_join_back,
    lemma_one_line, lemma_trimmed_end, lines, lines_of, pieces, split_first, split_inclusive,
    split_once, strip_suffix, trim_end, trim_end_char, trimmed_end, without_trailing,
};
use crate::text::{
    byte_len, ends_with, find_char, from_chars, has_prefix, has_suffix, lemma_find_char,
    lemma_find_char_unique, lemma_prefix_of, lemma_suffix_of, lemma_utf8_len_concat,
    lemma_utf8_len_split, lemma_utf8_len_take_mono, lemma_views_push, prefix,
    prefix_is_the_longest_that_fits, prefix_of, starts_with, suffix,
    suffix_is_the_longest_that_fits, suffix_of, to_chars, utf8_len, views,
};

verus! {

/// Lines kept at each end of an excerpt.
pub const EXCERPT_LINES_PER_SIDE: usize = 30;

/// Bytes kept at most at each end of an excerpt.
pub const EXCERPT_BYTES_PER_SIDE: usize = 2_000;

// ── The envelope ────────────────────────────────────────────────────

/// Whether `s` holds a double quote.
pub open spec fn has_quote(s: Seq<char>) -> bool {
    exists|i: int| 0 <= i < s.len() && #[trigger] s[i] == '"'
}

/// What stands between the quotes of an opening tag.
pub open spec fn tool_name(s: Seq<char>) -> Seq<char> {
    s.subrange("<tool_output name=\""@.len() as int, s.len() - "\">"@.len())
}

/// Whether a line opens an envelope: `<tool_output name="…">` with a name.
pub open spec fn is_open_tag(s: Seq<char>) -> bool {
    &&& has_prefix(s, "<tool_output name=\""@)
    &&& has_suffix(s, "\">"@)
    &&& s.len() > "<tool_output name=\""@.len() + "\">"@.len()
    &&& !has_quote(tool_name(s))
}

/// Whether a line opens an envelope.
pub fn open_tag(line: &str) -> (r: bool)
    ensures
        r == is_open_tag(line@),
{
    if !starts_with(line, "<tool_output name=\"") || !ends_with(line, "\">") {
        return false;
    }
    let v = to_chars(line);
    let n: usize = v.len();
    let before: usize = to_chars("<tool_output name=\"").len();
    let after: usize = to_chars("\">").len();
    if n - before <= after {
        return false;
    }
    let end: usize = n - after;
    let ghost name = tool_name(line@);
    let mut i: usize = before;
    while i < end
        invariant
            n == v@.len(),
            v@ == line@,
            before == "<tool_output name=\""@.len(),
            end == n - "\">"@.len(),
            before <= i <= end <= n,
            name == tool_name(line@),
            name == v@.subrange(before as int, end as int),
            forall|j: int| before <= j < i ==> v@[j] != '"',
        decreases end - i,
    {
        if v[i] == '"' {
            assert(name[i - before] == '"');
            return false;
        }
        i += 1;
    }
    assert(!has_quote(name)) by {
        assert forall|j: int| 0 <= j < name.len() implies #[trigger] name[j] != '"' by {
            assert(name[j] == v@[before + j]);
        }
    }
    true
}

/// What the envelope of a text holds; the text itself where it has none.
pub open spec fn unwrapped(s: Seq<char>) -> Seq<char> {
    match split_first(s, '\n') {
        Some((first, rest)) => {
            let body = trimmed_end(rest);
            if is_open_tag(first) && has_suffix(body, "</tool_output>"@) {
                let inner = body.take(body.len() - "</tool_output>"@.len());
                if inner.len() > 0 && inner.last() == '\n' {
                    inner.drop_last()
                } else {
                    inner
                }
            } else {
                s
            }
        },
        None => s,
    }
}

/// Takes a text out of its envelope; `None` where it has none.
fn strip_envelope(content: &str) -> (r: Option<String>)
    ensures
        match r {
            Some(inner) => inner@ == unwrapped(content@),
            None => unwrapped(content@) == content@,
        },
{
    let (first, rest) = match split_once(content, '\n') {
        Some(parts) => parts,
        None => {
            return None;
        },
    };
    if !open_tag(first.as_str()) {
        return None;
    }
    let body = trim_end(rest.as_str());
    match strip_suffix(body.as_str(), "</tool_output>") {
        None => None,
        Some(inner) => {
            let v = to_chars(inner.as_str());
            let n: usize = v.len();
            if n > 0 && v[n - 1] == '\n' {
                let cut = from_chars(&v, 0, n - 1);
                assert(cut@ =~= inner@.drop_last());
                Some(cut)
            } else {
                Some(inner)
            }
        },
    }
}

/// What the envelope of a text holds; the text itself where it has none. Both
/// its opening and its closing tag are needed.
pub fn strip_tool_output_wrapper(content: &str) -> (r: Cow<'_, str>)
    ensures
        r@ == unwrapped(content@),
{
    match strip_envelope(content) {
        Some(inner) => Cow::Owned(inner),
        None => Cow::Borrowed(content),
    }
}

// ── Line numbers ────────────────────────────────────────────────────

/// The number of a numbered line, and what stands behind it.
pub open spec fn numbered_line(line: Seq<char>) -> Option<(nat, Seq<char>)> {
    match split_first(line, '\t') {
        Some((number, text)) => match parsed(number, u64::MAX as nat) {
            Some(n) => Some((n, text)),
            None => None,
        },
        None => None,
    }
}

/// The lines without their numbers, where each has one and they follow each
/// other.
pub open spec fn unnumbered(lines: Seq<Seq<char>>) -> Option<Seq<Seq<char>>>
    decreases lines.len(),
{
    if lines.len() == 0 {
        Some(Seq::empty())
    } else {
        match (unnumbered(lines.drop_last()), numbered_line(lines.last())) {
            (Some(rest), Some((n, text))) => if lines.len() == 1 || (numbered_line(
                lines[lines.len() - 2],
            ) matches Some((before, _)) && n == before + 1) {
                Some(rest.push(text))
            } else {
                None
            },
            _ => None,
        }
    }
}

/// The lines without the empty ones at their end.
pub open spec fn without_empty_tail(lines: Seq<Seq<char>>) -> Seq<Seq<char>>
    decreases lines.len(),
{
    if lines.len() > 0 && lines.last().len() == 0 {
        without_empty_tail(lines.drop_last())
    } else {
        lines
    }
}

/// The text without its line numbers, where it has the framing of
/// `file_read`: a last line that `is_trailer` accepts, and above it lines
/// that are numbered one after the other.
pub open spec fn unnumbered_text(s: Seq<char>, is_trailer: spec_fn(Seq<char>) -> bool) -> Option<
    Seq<char>,
> {
    let all = lines_of(s);
    if all.len() > 0 && is_trailer(all.last()) {
        let body = without_empty_tail(all.drop_last());
        match unnumbered(body) {
            Some(texts) if body.len() > 0 => Some(joined(texts, "\n"@)),
            _ => None,
        }
    } else {
        None
    }
}

/// A text without its framing, `is_trailer` saying which lines close the
/// numbered lines.
pub open spec fn unframed_by(s: Seq<char>, is_trailer: spec_fn(Seq<char>) -> bool) -> Seq<char> {
    match unnumbered_text(unwrapped(s), is_trailer) {
        Some(text) => text,
        None => unwrapped(s),
    }
}

/// The lines that close the numbered lines.
pub open spec fn closes_reading() -> spec_fn(Seq<char>) -> bool {
    |line: Seq<char>| matched(READ_TRAILER@, line)
}

/// Whether the last of some lines closes numbered lines, if it is a line of
/// statistics written with plain digits.
pub open spec fn knows_trailer(lines: Seq<Seq<char>>) -> bool {
    lines.len() > 0 && is_plain_trailer(lines.last()) ==> closes_reading()(lines.last())
}

/// A text without its framing.
pub open spec fn unframed(s: Seq<char>) -> Seq<char> {
    unframed_by(s, closes_reading())
}

/// The number of a numbered line, and what stands behind it.
fn read_numbered(line: &str) -> (r: Option<(u64, String)>)
    ensures
        match r {
            Some((n, text)) => numbered_line(line@) == Some((n as nat, text@)),
            None => numbered_line(line@) is None,
        },
{
    match split_once(line, '\t') {
        None => None,
        Some((number, text)) => match parse(number.as_str(), u64::MAX) {
            Some(n) => Some((n, text)),
            None => None,
        },
    }
}

proof fn lemma_unnumbered_prefix(lines: Seq<Seq<char>>, k: int)
    requires
        0 <= k <= lines.len(),
        unnumbered(lines.take(k)) is None,
    ensures
        unnumbered(lines) is None,
    decreases lines.len() - k,
{
    if k == lines.len() {
        assert(lines.take(k) =~= lines);
    } else {
        assert(lines.take(k + 1).drop_last() =~= lines.take(k));
        lemma_unnumbered_prefix(lines, k + 1);
    }
}

/// The first `n` lines without their numbers, where each has one and they
/// follow each other.
fn strip_numbers(lines: &Vec<String>, n: usize) -> (r: Option<Vec<String>>)
    requires
        n <= lines@.len(),
    ensures
        match r {
            Some(texts) => unnumbered(views(lines@).take(n as int)) == Some(views(texts@)),
            None => unnumbered(views(lines@).take(n as int)) is None,
        },
{
    let ghost all = views(lines@).take(n as int);
    let mut out: Vec<String> = Vec::new();
    let mut last: u64 = 0;
    let mut i: usize = 0;
    assert(all.take(0) =~= Seq::empty());
    assert(views(out@) =~= Seq::empty());
    while i < n
        invariant
            i <= n <= lines@.len(),
            all == views(lines@).take(n as int),
            unnumbered(all.take(i as int)) == Some(views(out@)),
            i > 0 ==> (numbered_line(all[i - 1]) matches Some((k, _)) && k == last),
        decreases n - i,
    {
        proof {
            assert(all.take(i + 1).drop_last() =~= all.take(i as int));
            assert(all.take(i + 1).last() == lines@[i as int]@);
            assert(all[i as int] == lines@[i as int]@);
            if i > 0 {
                assert(all.take(i + 1)[i - 1] == all[i - 1]);
            }
        }
        match read_numbered(lines[i].as_str()) {
            None => {
                proof {
                    lemma_unnumbered_prefix(all, i + 1);
                }
                return None;
            },
            Some((k, text)) => {
                if i > 0 && (last == u64::MAX || k != last + 1) {
                    proof {
                        lemma_unnumbered_prefix(all, i + 1);
                    }
                    return None;
                }
                last = k;
                let ghost before = out@;
                out.push(text);
                proof {
                    lemma_views_push(before, text);
                }
            },
        }
        i += 1;
    }
    assert(all.take(i as int) =~= all);
    Some(out)
}

/// The text without the line numbers of `file_read`; `None` where it does not
/// have that framing exactly.
pub fn strip_line_numbering(content: &str) -> (r: Option<String>)
    ensures
        match r {
            Some(text) => unnumbered_text(content@, closes_reading()) == Some(text@),
            None => unnumbered_text(content@, closes_reading()) is None,
        },
        knows_trailer(lines_of(content@)),
{
    let all = lines(content);
    let ghost rows = views(all@);
    let count: usize = all.len();
    if count == 0 {
        return None;
    }
    assert(rows.last() == all@[count - 1]@);
    assert(views(all@) == lines_of(content@));
    if !matches_in(READ_TRAILER, all[count - 1].as_str()) {
        return None;
    }
    let mut n: usize = count - 1;
    assert(rows.take(n as int) =~= rows.drop_last());
    while n > 0 && all[n - 1].as_str().is_empty()
        invariant
            n <= count - 1,
            count == all@.len(),
            rows == views(all@),
            without_empty_tail(rows.drop_last()) == without_empty_tail(rows.take(n as int)),
        decreases n,
    {
        proof {
            assert(rows.take(n as int).drop_last() =~= rows.take(n - 1));
            assert(rows.take(n as int).last() == all@[n - 1]@);
        }
        n -= 1;
    }
    proof {
        if n > 0 {
            assert(rows.take(n as int).last() == all@[n - 1]@);
        }
        assert(without_empty_tail(rows.drop_last()) == rows.take(n as int));
    }
    if n == 0 {
        return None;
    }
    match strip_numbers(&all, n) {
        None => None,
        Some(texts) => Some(join(&texts, "\n")),
    }
}

/// Takes the framing off a tool result, so that what it shows can be read.
/// Each layer comes off only where it is there exactly: data that merely has
/// numbers in its first column is left alone.
pub fn strip_tool_framing(content: &str) -> (r: Cow<'_, str>)
    ensures
        r@ == unframed(content@),
        forall|f: ReadFrame|
            f.wf() && content@ == #[trigger] f.text() ==> r@ == joined(f.lines, "\n"@),
{
    let r = strip_layers(content);
    proof {
        assert forall|f: ReadFrame| f.wf() && content@ == #[trigger] f.text() implies r@ == joined(
            f.lines,
            "\n"@,
        ) by {
            lemma_read_frame(f);
            assert(closes_reading()(f.trailer()));
            read_frame_strips_back(f, closes_reading());
        }
    }
    r
}

/// Takes off the envelope, and then the line numbers.
fn strip_layers(content: &str) -> (r: Cow<'_, str>)
    ensures
        r@ == unframed(content@),
        knows_trailer(lines_of(unwrapped(content@))),
{
    match strip_envelope(content) {
        Some(inner) => match strip_line_numbering(inner.as_str()) {
            Some(text) => Cow::Owned(text),
            None => Cow::Owned(inner),
        },
        None => match strip_line_numbering(content) {
            Some(text) => Cow::Owned(text),
            None => Cow::Borrowed(content),
        },
    }
}

// ── Storing a payload ───────────────────────────────────────────────

/// The opening tag of a result whose first line is numbered.
pub open spec fn numbered_frame(s: Seq<char>) -> Option<Seq<char>> {
    match split_first(s, '\n') {
        Some((first, rest)) => {
            let body = trimmed_end(rest);
            if is_open_tag(first) && has_suffix(body, "</tool_output>"@) {
                let inner = trimmed_end(body.take(body.len() - "</tool_output>"@.len()));
                let all = lines_of(inner);
                if all.len() > 0 && numbered_line(all[0]) is Some {
                    Some(first)
                } else {
                    None
                }
            } else {
                None
            }
        },
        None => None,
    }
}

/// The opening tag of a result whose first line is numbered.
pub fn framed_numbering(content: &str) -> (r: Option<String>)
    ensures
        match r {
            Some(open) => numbered_frame(content@) == Some(open@),
            None => numbered_frame(content@) is None,
        },
{
    let (first, rest) = match split_once(content, '\n') {
        Some(parts) => parts,
        None => {
            return None;
        },
    };
    if !open_tag(first.as_str()) {
        return None;
    }
    let body = trim_end(rest.as_str());
    match strip_suffix(body.as_str(), "</tool_output>") {
        None => None,
        Some(inner) => {
            let all = lines(trim_end(inner.as_str()).as_str());
            if all.len() == 0 {
                return None;
            }
            assert(views(all@)[0] == all@[0]@);
            match read_numbered(all[0].as_str()) {
                Some(_) => Some(first),
                None => None,
            }
        },
    }
}

/// One numbered line.
pub open spec fn number_line(i: nat, line: Seq<char>) -> Seq<char> {
    decimal(i) + "\t"@ + line
}

/// The first `n` lines, numbered from 1, each with its newline.
pub open spec fn number_lines(lines: Seq<Seq<char>>, n: nat) -> Seq<char>
    decreases n,
{
    if n == 0 {
        Seq::empty()
    } else {
        number_lines(lines, (n - 1) as nat) + number_line(n, lines[n - 1]) + "\n"@
    }
}

/// The line of statistics below `count` numbered lines of `bytes` bytes.
pub open spec fn trailer_line(count: nat, bytes: nat) -> Seq<char> {
    read_trailer(decimal(count), decimal(count), decimal(bytes))
}

/// A text in the framing of `file_read`, under an opening tag.
pub open spec fn framed_text(open: Seq<char>, text: Seq<char>) -> Seq<char> {
    let all = lines_of(text);
    open + "\n"@ + number_lines(all, all.len()) + trailer_line(all.len(), utf8_len(text)) + "\n"@
        + "</tool_output>"@
}

/// Puts a text into the framing of `file_read`, under an opening tag.
pub fn frame_text(open: &str, text: &str) -> (r: String)
    ensures
        r@ == framed_text(open@, text@),
{
    let all = lines(text);
    let ghost rows = lines_of(text@);
    let count: usize = all.len();
    assert(views(all@).len() == count);
    let mut out = open.to_owned();
    out.append("\n");
    let ghost head = out@;
    let mut i: usize = 0;
    assert(out@ =~= head + number_lines(rows, 0));
    while i < count
        invariant
            i <= count,
            count == all@.len(),
            views(all@) == rows,
            out@ == head + number_lines(rows, i as nat),
        decreases count - i,
    {
        push_usize(&mut out, i + 1);
        out.append("\t");
        assert(rows[i as int] == all@[i as int]@);
        out.append(all[i].as_str());
        out.append("\n");
        assert(out@ =~= head + number_lines(rows, (i + 1) as nat));
        i += 1;
    }
    let ghost body = out@;
    out.append("(");
    push_usize(&mut out, count);
    out.append(" lines shown, ");
    push_usize(&mut out, count);
    out.append(" total, ");
    push_usize(&mut out, byte_len(text));
    out.append(" bytes)");
    assert(out@ =~= body + trailer_line(rows.len(), utf8_len(text@)));
    out.append("\n");
    out.append("</tool_output>");
    out
}

/// What is stored of a payload, given its content written out as JSON:
/// `None` where it is no JSON, and then the payload is stored as it is.
pub open spec fn stored_text(content: Seq<char>, pretty: Option<Seq<char>>) -> Seq<char> {
    match pretty {
        None => content,
        Some(text) => match numbered_frame(content) {
            Some(open) => framed_text(open, text),
            None => text,
        },
    }
}

/// What is stored of a payload, given its content written out as JSON. The
/// framing of a numbered result is put on again; any other is dropped.
pub fn store_pretty(content: &str, pretty: &str) -> (r: String)
    ensures
        r@ == stored_text(content@, Some(pretty@)),
{
    match framed_numbering(content) {
        Some(open) => frame_text(open.as_str(), pretty),
        None => pretty.to_owned(),
    }
}

/// Lays a payload out for storage, so that tools that work by lines can be
/// used on it: a JSON payload is written out over several lines, anything
/// else is left as it is.
pub fn normalize_payload(content: &str) -> (r: Cow<'_, str>)
    ensures
        match json_of(unframed(content@)) {
            None => r is Borrowed && r@ == content@,
            Some(value) => {
                &&& r is Owned
                &&& r@ == stored_text(content@, Some(pretty_of(value)))
                &&& is_laid_out(pretty_of(value))
                &&& has_only_integers(value) ==> json_of(pretty_of(value)) == Some(value)
            },
        },
{
    let inner = strip_tool_framing(content);
    let text: Option<String> = match &inner {
        Cow::Borrowed(s) => pretty(s),
        Cow::Owned(s) => pretty(s.as_str()),
    };
    match text {
        Some(text) => Cow::Owned(store_pretty(content, text.as_str())),
        None => Cow::Borrowed(content),
    }
}

// ── Taking off what was put on ──────────────────────────────────────

/// Lines, each with its newline.
pub open spec fn lined(rows: Seq<Seq<char>>) -> Seq<char>
    decreases rows.len(),
{
    if rows.len() == 0 {
        Seq::empty()
    } else {
        lined(rows.drop_last()) + rows.last() + "\n"@
    }
}

/// Whether a text can stand in a line.
pub open spec fn fits_a_line(x: Seq<char>) -> bool {
    !x.contains('\n') && (x.len() > 0 ==> x.last() != '\r')
}

/// Texts that can each stand in a line are the lines of their lined form.
proof fn lemma_lines_of_lined(rows: Seq<Seq<char>>, end: Seq<char>)
    requires
        forall|i: int| 0 <= i < rows.len() ==> fits_a_line(#[trigger] rows[i]),
        end.len() > 0,
        !end.contains('\n'),
    ensures
        lines_of(lined(rows) + end) == rows.push(end),
    decreases rows.len(),
{
    lemma_lines_before(rows, end);
    lemma_one_line(end);
    assert(rows + seq![end] =~= rows.push(end));
}

proof fn lemma_lines_before(rows: Seq<Seq<char>>, rest: Seq<char>)
    requires
        forall|i: int| 0 <= i < rows.len() ==> fits_a_line(#[trigger] rows[i]),
    ensures
        lines_of(lined(rows) + rest) == rows + lines_of(rest),
    decreases rows.len(),
{
    if rows.len() == 0 {
        assert(lined(rows) + rest =~= rest);
        assert(rows + lines_of(rest) =~= lines_of(rest));
    } else {
        let x = rows.last();
        let more = x + "\n"@ + rest;
        assert(fits_a_line(x));
        lemma_lines_cons(x, rest);
        lemma_lines_before(rows.drop_last(), more);
        assert(lined(rows) + rest =~= lined(rows.drop_last()) + more);
        assert(rows =~= rows.drop_last() + seq![x]);
        assert(rows.drop_last() + (seq![x] + lines_of(rest)) =~= rows + lines_of(rest));
    }
}

/// The lines of a text, numbered from `start`.
pub open spec fn numbered_from(rows: Seq<Seq<char>>, start: nat) -> Seq<Seq<char>> {
    Seq::new(rows.len(), |i: int| number_line((start + i) as nat, rows[i]))
}

proof fn lemma_number_lines(rows: Seq<Seq<char>>, n: nat)
    requires
        n <= rows.len(),
    ensures
        number_lines(rows, n) == lined(numbered_from(rows, 1).take(n as int)),
    decreases n,
{
    let all = numbered_from(rows, 1).take(n as int);
    if n > 0 {
        lemma_number_lines(rows, (n - 1) as nat);
        assert(all.drop_last() =~= numbered_from(rows, 1).take(n - 1));
        assert(all.last() == number_line(n, rows[n - 1]));
    }
}

/// A numbered line reads back as its number and its text.
proof fn lemma_numbered_line(n: nat, line: Seq<char>)
    requires
        n <= u64::MAX,
        fits_a_line(line),
    ensures
        numbered_line(number_line(n, line)) == Some((n, line)),
        fits_a_line(number_line(n, line)),
        number_line(n, line).len() > 0,
        is_digit(number_line(n, line)[0]),
{
    reveal_strlit("\t");
    lemma_decimal_reads_back(n);
    let d = decimal(n);
    let s = number_line(n, line);
    let k = find_char(s, '\t');
    lemma_find_char(s, '\t');
    assert(s[d.len() as int] == '\t');
    if k < d.len() {
        assert(s[k] == d[k]);
        assert(is_digit(d[k]));
    }
    assert(k == d.len());
    assert(s.take(k) =~= d);
    assert(s.skip(k + 1) =~= line);
    assert(is_digit(d[0]));
    assert(s[0] == d[0]);
    if line.len() > 0 {
        assert(s.last() == line.last());
    }
    assert forall|i: int| 0 <= i < s.len() implies s[i] != '\n' by {
        if i < d.len() {
            assert(s[i] == d[i]);
            assert(is_digit(d[i]));
        } else if i > d.len() {
            assert(s[i] == line[i - d.len() - 1]);
            assert(line.contains(s[i]));
        }
    }
}

proof fn lemma_unnumbered_rows(rows: Seq<Seq<char>>, start: nat)
    requires
        start + rows.len() <= u64::MAX + 1,
        forall|i: int| 0 <= i < rows.len() ==> fits_a_line(#[trigger] rows[i]),
    ensures
        unnumbered(numbered_from(rows, start)) == Some(rows),
    decreases rows.len(),
{
    let all = numbered_from(rows, start);
    if rows.len() == 0 {
        assert(rows =~= Seq::empty());
    } else {
        let n = rows.len();
        lemma_unnumbered_rows(rows.drop_last(), start);
        assert(all.drop_last() =~= numbered_from(rows.drop_last(), start));
        assert(fits_a_line(rows[n - 1]));
        lemma_numbered_line((start + n - 1) as nat, rows[n - 1]);
        if n > 1 {
            assert(fits_a_line(rows[n - 2]));
            lemma_numbered_line((start + n - 2) as nat, rows[n - 2]);
        }
        assert(rows.drop_last().push(rows.last()) =~= rows);
    }
}

/// What `file_read` shows of a file, and the framing around it.
pub struct ReadFrame {
    /// The opening tag, where there is an envelope.
    pub open: Option<Seq<char>>,
    /// The lines that are shown.
    pub lines: Seq<Seq<char>>,
    /// The number of the first of them.
    pub start: nat,
    /// Empty lines above the statistics.
    pub blanks: nat,
    /// The numbers of the statistics, in digits.
    pub shown: Seq<char>,
    pub total: Seq<char>,
    pub bytes: Seq<char>,
}

impl ReadFrame {
    /// Whether the parts can be put together: each line can stand in one, the
    /// line numbers are within range, and the tag and the numbers are such.
    pub open spec fn wf(self) -> bool {
        &&& self.open matches Some(open) ==> is_open_tag(open) && !open.contains('\n')
        &&& self.lines.len() > 0
        &&& self.start + self.lines.len() <= u64::MAX + 1
        &&& forall|i: int| 0 <= i < self.lines.len() ==> fits_a_line(#[trigger] self.lines[i])
        &&& is_number(self.shown)
        &&& is_number(self.total)
        &&& is_number(self.bytes)
    }

    /// The line of statistics.
    pub open spec fn trailer(self) -> Seq<char> {
        read_trailer(self.shown, self.total, self.bytes)
    }

    /// The numbered lines, and the empty lines below them.
    pub open spec fn rows(self) -> Seq<Seq<char>> {
        numbered_from(self.lines, self.start) + Seq::new(self.blanks, |i: int| Seq::<char>::empty())
    }

    /// What stands in the envelope.
    pub open spec fn inner(self) -> Seq<char> {
        lined(self.rows()) + self.trailer()
    }

    /// The text with its framing.
    pub open spec fn text(self) -> Seq<char> {
        match self.open {
            Some(open) => open + "\n"@ + self.inner() + "\n"@ + "</tool_output>"@,
            None => self.inner(),
        }
    }
}

/// The envelope of a framed text holds its lines and the statistics.
proof fn lemma_read_frame(f: ReadFrame)
    requires
        f.wf(),
    ensures
        unwrapped(f.text()) == f.inner(),
        lines_of(f.inner()) == f.rows().push(f.trailer()),
        is_plain_trailer(f.trailer()),
        numbered_from(f.lines, f.start).last().len() > 0,
{
    let numbered = numbered_from(f.lines, f.start);
    let rows = f.rows();
    assert forall|i: int| 0 <= i < rows.len() implies fits_a_line(#[trigger] rows[i]) by {
        if i < numbered.len() {
            assert(fits_a_line(f.lines[i]));
            lemma_numbered_line((f.start + i) as nat, f.lines[i]);
        }
    }
    lemma_trailer(f.shown, f.total, f.bytes);
    lemma_lines_of_lined(rows, f.trailer());
    assert(fits_a_line(f.lines[f.lines.len() - 1]));
    lemma_numbered_line((f.start + f.lines.len() - 1) as nat, f.lines[f.lines.len() - 1]);
    match f.open {
        Some(open) => lemma_unwrapped(open, f.inner()),
        None => {
            let inner = f.inner();
            assert(fits_a_line(f.lines[0]));
            lemma_numbered_line(f.start, f.lines[0]);
            lemma_lined_starts(rows);
            assert(rows[0] == number_line(f.start, f.lines[0]));
            assert(inner[0] == rows[0][0]);
            reveal_strlit("<tool_output name=\"");
            lemma_find_char(inner, '\n');
            if let Some((first, rest)) = split_first(inner, '\n') {
                if is_open_tag(first) {
                    assert(first[0] == "<tool_output name=\""@[0]);
                    assert(first[0] == inner[0]);
                }
            }
        },
    }
}

/// Lined texts start with the first of them.
proof fn lemma_lined_starts(rows: Seq<Seq<char>>)
    requires
        rows.len() > 0,
    ensures
        has_prefix(lined(rows), rows[0]),
    decreases rows.len(),
{
    let s = lined(rows);
    if rows.len() == 1 {
        assert(lined(rows.drop_last()) =~= Seq::empty());
        assert(s.take(rows[0].len() as int) =~= rows[0]);
    } else {
        lemma_lined_starts(rows.drop_last());
        let before = lined(rows.drop_last());
        assert(s.take(rows[0].len() as int) =~= before.take(rows[0].len() as int));
    }
}

/// Empty lines at the end do not count.
proof fn lemma_blanks_are_dropped(rows: Seq<Seq<char>>, n: nat)
    requires
        rows.len() > 0,
        rows.last().len() > 0,
    ensures
        without_empty_tail(rows + Seq::new(n, |i: int| Seq::<char>::empty())) == rows,
    decreases n,
{
    let all = rows + Seq::new(n, |i: int| Seq::<char>::empty());
    if n == 0 {
        assert(all =~= rows);
    } else {
        lemma_blanks_are_dropped(rows, (n - 1) as nat);
        assert(all.drop_last() =~= rows + Seq::new((n - 1) as nat, |i: int| Seq::<char>::empty()));
    }
}

/// Taking the framing off gives the lines back, whatever the first number is,
/// with or without the envelope, and with or without empty lines above the
/// statistics. It holds of any way to tell the line of statistics that knows
/// this one.
pub proof fn read_frame_strips_back(f: ReadFrame, is_trailer: spec_fn(Seq<char>) -> bool)
    requires
        f.wf(),
        is_trailer(f.trailer()),
    ensures
        unframed_by(f.text(), is_trailer) == joined(f.lines, "\n"@),
{
    lemma_read_frame(f);
    let numbered = numbered_from(f.lines, f.start);
    assert(lines_of(f.inner()).drop_last() =~= f.rows());
    lemma_blanks_are_dropped(numbered, f.blanks);
    lemma_unnumbered_rows(f.lines, f.start);
}

/// A text that is framed for storage comes back when its framing is taken
/// off. It holds of any text that has no `\r` and does not end with a newline,
/// and for any way to tell the line of statistics that knows those written
/// with plain digits.
pub proof fn framed_text_strips_back(
    open: Seq<char>,
    text: Seq<char>,
    is_trailer: spec_fn(Seq<char>) -> bool,
)
    requires
        is_open_tag(open),
        !open.contains('\n'),
        text.len() > 0,
        text.last() != '\n',
        !text.contains('\r'),
        lines_of(text).len() <= u64::MAX,
        forall|line: Seq<char>| is_plain_trailer(line) ==> #[trigger] is_trailer(line),
    ensures
        unframed_by(framed_text(open, text), is_trailer) == text,
{
    let rows = lines_of(text);
    lemma_lines_join_back(text);
    lemma_decimal_reads_back(rows.len());
    lemma_decimal_reads_back(utf8_len(text));
    let f = ReadFrame {
        open: Some(open),
        lines: rows,
        start: 1,
        blanks: 0,
        shown: decimal(rows.len()),
        total: decimal(rows.len()),
        bytes: decimal(utf8_len(text)),
    };
    assert forall|i: int| 0 <= i < rows.len() implies fits_a_line(#[trigger] rows[i]) by {
        if rows[i].len() > 0 {
            assert(rows[i].contains(rows[i].last()));
        }
    }
    lemma_number_lines(rows, rows.len());
    let numbered = numbered_from(rows, 1);
    assert(numbered.take(rows.len() as int) =~= numbered);
    assert(f.rows() =~= numbered);
    assert(framed_text(open, text) =~= f.text());
    lemma_read_frame(f);
    read_frame_strips_back(f, is_trailer);
}

/// What is stored of a JSON payload reads back: taking the framing off gives
/// the value as it was written out, whether the framing of a numbered result
/// was put on again or none was.
pub proof fn stored_payload_strips_back(
    content: Seq<char>,
    text: Seq<char>,
    is_trailer: spec_fn(Seq<char>) -> bool,
)
    requires
        is_laid_out(text),
        lines_of(text).len() <= u64::MAX,
        forall|line: Seq<char>| is_plain_trailer(line) ==> #[trigger] is_trailer(line),
    ensures
        unframed_by(stored_text(content, Some(text)), is_trailer) == text,
{
    assert(!text.contains('\r'));
    match numbered_frame(content) {
        Some(open) => {
            lemma_find_char(content, '\n');
            framed_text_strips_back(open, text, is_trailer);
        },
        None => {
            reveal_strlit("<tool_output name=\"");
            lemma_find_char(text, '\n');
            if let Some((first, rest)) = split_first(text, '\n') {
                if is_open_tag(first) {
                    assert(first[0] == "<tool_output name=\""@[0]);
                    assert(first[0] == text[0]);
                }
            }
            let body = without_empty_tail(lines_of(text).drop_last());
            if lines_of(text).len() > 0 && body.len() > 0 {
                lemma_without_empty_tail(lines_of(text).drop_last());
                lemma_lines_add_nothing(text, '\t');
                let last = body.last();
                assert(lines_of(text).contains(last));
                let i = choose|i: int| 0 <= i < lines_of(text).len() && lines_of(text)[i] == last;
                lemma_find_char(last, '\t');
                assert(numbered_line(last) is None);
            }
        },
    }
}

proof fn lemma_unwrapped(open: Seq<char>, inner: Seq<char>)
    requires
        is_open_tag(open),
        !open.contains('\n'),
    ensures
        unwrapped(open + "\n"@ + inner + "\n"@ + "</tool_output>"@) == inner,
{
    reveal_strlit("\n");
    reveal_strlit("</tool_output>");
    let s = open + "\n"@ + inner + "\n"@ + "</tool_output>"@;
    let n = find_char(s, '\n');
    lemma_find_char(s, '\n');
    assert(s[open.len() as int] == '\n');
    if n < open.len() {
        assert(s[n] == open[n]);
        assert(open.contains(open[n]));
    }
    assert(n == open.len());
    assert(s.take(n) =~= open);
    let rest = inner + "\n"@ + "</tool_output>"@;
    assert(s.skip(n + 1) =~= rest);
    assert(rest.last() == '>');
    assert(trimmed_end(rest) == rest);
    assert(rest.skip(rest.len() - "</tool_output>"@.len()) =~= "</tool_output>"@);
    assert(rest.take(rest.len() - "</tool_output>"@.len()) =~= inner + "\n"@);
    assert((inner + "\n"@).drop_last() =~= inner);
}

proof fn lemma_without_empty_tail(rows: Seq<Seq<char>>)
    ensures
        without_empty_tail(rows).len() <= rows.len(),
        without_empty_tail(rows) == rows.take(without_empty_tail(rows).len() as int),
    decreases rows.len(),
{
    let kept = without_empty_tail(rows);
    assert(rows.take(rows.len() as int) =~= rows);
    if rows.len() > 0 && rows.last().len() == 0 {
        lemma_without_empty_tail(rows.drop_last());
        assert(rows.drop_last().take(kept.len() as int) =~= rows.take(kept.len() as int));
    }
}

proof fn lemma_trailer(shown: Seq<char>, total: Seq<char>, bytes: Seq<char>)
    requires
        is_number(shown),
        is_number(total),
        is_number(bytes),
    ensures
        is_plain_trailer(read_trailer(shown, total, bytes)),
        read_trailer(shown, total, bytes).len() > 0,
        !read_trailer(shown, total, bytes).contains('\n'),
{
    reveal_strlit("(");
    reveal_strlit(" lines shown, ");
    reveal_strlit(" total, ");
    reveal_strlit(" bytes)");
    let s = read_trailer(shown, total, bytes);
    let p1 = "("@ + shown;
    let p2 = p1 + " lines shown, "@ + total;
    let p3 = p2 + " total, "@ + bytes;
    assert forall|i: int| 0 <= i < shown.len() implies shown[i] != '\n' by {
        assert(is_digit(shown[i]));
    }
    assert forall|i: int| 0 <= i < total.len() implies total[i] != '\n' by {
        assert(is_digit(total[i]));
    }
    assert forall|i: int| 0 <= i < bytes.len() implies bytes[i] != '\n' by {
        assert(is_digit(bytes[i]));
    }
    assert(s =~= p3 + " bytes)"@);
    assert(forall|i: int| 0 <= i < p1.len() ==> p1[i] != '\n');
    assert(forall|i: int| 0 <= i < p2.len() ==> p2[i] != '\n');
    assert(forall|i: int| 0 <= i < p3.len() ==> p3[i] != '\n');
    assert(forall|i: int| 0 <= i < s.len() ==> s[i] != '\n');
}

// ── Excerpts ────────────────────────────────────────────────────────

/// Texts one after the other.
pub open spec fn flat(parts: Seq<Seq<char>>) -> Seq<char>
    decreases parts.len(),
{
    if parts.len() == 0 {
        Seq::empty()
    } else {
        flat(parts.drop_last()) + parts.last()
    }
}

pub proof fn lemma_flat_concat(a: Seq<Seq<char>>, b: Seq<Seq<char>>)
    ensures
        flat(a + b) == flat(a) + flat(b),
    decreases b.len(),
{
    if b.len() == 0 {
        assert(a + b =~= a);
        assert(flat(a) + flat(b) =~= flat(a));
    } else {
        lemma_flat_concat(a, b.drop_last());
        assert((a + b).drop_last() =~= a + b.drop_last());
        assert(flat(a + b) =~= flat(a) + flat(b));
    }
}

/// The pieces of a text make up the text.
pub proof fn lemma_pieces_are_the_text(s: Seq<char>)
    ensures
        flat(pieces(s)) == s,
    decreases s.len(),
{
    let n = crate::text::find_char(s, '\n');
    crate::text::lemma_find_char(s, '\n');
    if s.len() == 0 {
        assert(flat(pieces(s)) =~= s);
    } else if n < s.len() {
        let head = seq![s.take(n + 1)];
        lemma_pieces_are_the_text(s.skip(n + 1));
        lemma_flat_concat(head, pieces(s.skip(n + 1)));
        lemma_flat_one(s.take(n + 1));
        assert(flat(pieces(s)) =~= s.take(n + 1) + s.skip(n + 1));
        assert(s =~= s.take(n + 1) + s.skip(n + 1));
    } else {
        lemma_flat_one(s);
    }
}

proof fn lemma_flat_one(s: Seq<char>)
    ensures
        flat(seq![s]) == s,
{
    assert(seq![s].drop_last() =~= Seq::empty());
    assert(flat(Seq::<Seq<char>>::empty()) =~= Seq::empty());
    assert(flat(seq![s]) =~= s);
}

/// How many of `n` pieces are kept at each end.
pub open spec fn kept(n: nat) -> nat {
    if n < EXCERPT_LINES_PER_SIDE {
        n
    } else {
        EXCERPT_LINES_PER_SIDE as nat
    }
}

/// The start of an excerpt: the first lines, within the byte cap.
pub open spec fn excerpt_head(s: Seq<char>) -> Seq<char> {
    let all = pieces(s);
    prefix_of(flat(all.take(kept(all.len()) as int)), EXCERPT_BYTES_PER_SIDE as nat)
}

/// The end of an excerpt: the last lines, within the byte cap.
pub open spec fn excerpt_tail(s: Seq<char>) -> Seq<char> {
    let all = pieces(s);
    suffix_of(flat(all.skip(all.len() - kept(all.len()))), EXCERPT_BYTES_PER_SIDE as nat)
}

/// What an excerpt leaves out.
pub open spec fn excerpt_gap(s: Seq<char>) -> Seq<char> {
    s.subrange(excerpt_head(s).len() as int, s.len() - excerpt_tail(s).len())
}

/// An excerpt of tool output: all of it where its ends meet, else its two
/// ends with a mark between them.
pub open spec fn excerpt_of(s: Seq<char>) -> Seq<char> {
    let head = excerpt_head(s);
    let tail = excerpt_tail(s);
    let gap = excerpt_gap(s);
    if utf8_len(head) + utf8_len(tail) >= utf8_len(s) {
        s
    } else {
        "Tool output excerpt ("@ + decimal(lines_of(s).len()) + " lines, "@ + decimal(utf8_len(s))
            + " bytes total):\n"@ + without_trailing(head, '\n') + "\n... ["@ + decimal(
            lines_of(gap).len(),
        ) + " lines / "@ + decimal(utf8_len(gap)) + " bytes omitted] ...\n"@ + tail
    }
}

/// The ends of an excerpt are ends of the text.
pub proof fn lemma_excerpt_ends(s: Seq<char>)
    ensures
        has_prefix(s, excerpt_head(s)),
        has_suffix(s, excerpt_tail(s)),
        utf8_len(excerpt_head(s)) <= EXCERPT_BYTES_PER_SIDE,
        utf8_len(excerpt_tail(s)) <= EXCERPT_BYTES_PER_SIDE,
        utf8_len(excerpt_head(s)) + utf8_len(excerpt_tail(s)) < utf8_len(s)
            ==> excerpt_head(s).len() + excerpt_tail(s).len() <= s.len(),
{
    let all = pieces(s);
    let k = kept(all.len()) as int;
    let cap = EXCERPT_BYTES_PER_SIDE as nat;
    lemma_pieces_are_the_text(s);
    let front = flat(all.take(k));
    lemma_flat_concat(all.take(k), all.skip(k));
    assert(all.take(k) + all.skip(k) =~= all);
    assert(s.take(front.len() as int) =~= front);
    lemma_prefix_of(front, cap);
    let head = excerpt_head(s);
    assert(head =~= s.take(head.len() as int));
    let j = all.len() - k;
    let back = flat(all.skip(j));
    lemma_flat_concat(all.take(j), all.skip(j));
    assert(all.take(j) + all.skip(j) =~= all);
    assert(s.skip(s.len() - back.len()) =~= back);
    lemma_suffix_of(back, cap);
    let tail = excerpt_tail(s);
    assert(tail =~= s.skip(s.len() - tail.len()));
    if head.len() + tail.len() > s.len() {
        let q = s.len() - tail.len();
        lemma_utf8_len_take_mono(s, q, head.len() as int);
        lemma_utf8_len_split(s, q);
    }
}

/// An excerpt keeps both ends of the output and says how much it leaves out:
/// the three parts make up the output.
pub proof fn excerpt_accounts_for_everything(s: Seq<char>)
    requires
        utf8_len(excerpt_head(s)) + utf8_len(excerpt_tail(s)) < utf8_len(s),
    ensures
        s == excerpt_head(s) + excerpt_gap(s) + excerpt_tail(s),
        utf8_len(s) == utf8_len(excerpt_head(s)) + utf8_len(excerpt_gap(s)) + utf8_len(
            excerpt_tail(s),
        ),
{
    lemma_excerpt_ends(s);
    let head = excerpt_head(s);
    let gap = excerpt_gap(s);
    let tail = excerpt_tail(s);
    assert(s.take(head.len() as int) == head);
    assert(s.skip(s.len() - tail.len()) == tail);
    assert(s =~= head + gap + tail);
    lemma_utf8_len_concat(head, gap);
    lemma_utf8_len_concat(head + gap, tail);
}

/// The pieces from `from` to `to`, one after the other.
fn concat_pieces(parts: &Vec<String>, from: usize, to: usize) -> (r: String)
    requires
        from <= to <= parts@.len(),
    ensures
        r@ == flat(views(parts@).subrange(from as int, to as int)),
{
    let ghost all = views(parts@);
    let mut out = String::new();
    let mut i: usize = from;
    assert(all.subrange(from as int, from as int) =~= Seq::empty());
    while i < to
        invariant
            from <= i <= to <= parts@.len(),
            all == views(parts@),
            out@ == flat(all.subrange(from as int, i as int)),
        decreases to - i,
    {
        out.append(parts[i].as_str());
        proof {
            let next = all.subrange(from as int, i + 1);
            assert(next.drop_last() =~= all.subrange(from as int, i as int));
            assert(next.last() == parts@[i as int]@);
        }
        i += 1;
    }
    out
}

/// An excerpt of tool output: its first and last lines, within a byte cap,
/// with a mark between them. The end is kept because build and test logs put
/// the failure there.
pub fn mechanical_excerpt(content: &str) -> (r: String)
    ensures
        r@ == excerpt_of(content@),
{
    let parts = split_inclusive(content);
    let ghost all = pieces(content@);
    let count: usize = parts.len();
    assert(views(parts@).len() == count);
    let k: usize = if count < EXCERPT_LINES_PER_SIDE {
        count
    } else {
        EXCERPT_LINES_PER_SIDE
    };
    assert(all.subrange(0, k as int) =~= all.take(k as int));
    assert(all.subrange(count - k, count as int) =~= all.skip(count - k));
    let head = prefix(concat_pieces(&parts, 0, k).as_str(), EXCERPT_BYTES_PER_SIDE);
    let tail = suffix(concat_pieces(&parts, count - k, count).as_str(), EXCERPT_BYTES_PER_SIDE);
    proof {
        lemma_excerpt_ends(content@);
    }
    let total: usize = byte_len(content);
    if byte_len(head.as_str()) + byte_len(tail.as_str()) >= total {
        return content.to_owned();
    }
    let v = to_chars(content);
    let n: usize = v.len();
    let head_len: usize = to_chars(head.as_str()).len();
    let tail_len: usize = to_chars(tail.as_str()).len();
    let gap = from_chars(&v, head_len, n - tail_len);
    let rows = lines(content);
    assert(views(rows@).len() == rows@.len());
    let gap_rows = lines(gap.as_str());
    assert(views(gap_rows@).len() == gap_rows@.len());
    let mut out = String::new();
    out.append("Tool output excerpt (");
    push_usize(&mut out, rows.len());
    out.append(" lines, ");
    push_usize(&mut out, total);
    out.append(" bytes total):\n");
    out.append(trim_end_char(head.as_str(), '\n').as_str());
    out.append("\n... [");
    push_usize(&mut out, gap_rows.len());
    out.append(" lines / ");
    push_usize(&mut out, byte_len(gap.as_str()));
    out.append(" bytes omitted] ...\n");
    out.append(tail.as_str());
    assert(out@ =~= excerpt_of(content@));
    out
}

// ── What an excerpt shows ───────────────────────────────────────────

/// The start of an excerpt is the start of the output: its first 30 lines, or
/// as much of them as 2000 bytes allow.
pub proof fn an_excerpt_starts_with_the_first_lines(s: Seq<char>)
    ensures
        ({
            let all = pieces(s);
            let lines = flat(
                all.take(
                    if all.len() < 30 {
                        all.len() as int
                    } else {
                        30
                    },
                ),
            );
            let head = excerpt_head(s);
            &&& has_prefix(s, lines)
            &&& head.len() <= lines.len()
            &&& head == s.take(head.len() as int)
            &&& utf8_len(head) <= 2_000
            &&& head.len() < lines.len() ==> utf8_len(s.take((head.len() + 1) as int)) > 2_000
        }),
{
    let all = pieces(s);
    let k = kept(all.len()) as int;
    let lines = flat(all.take(k));
    lemma_pieces_are_the_text(s);
    lemma_flat_concat(all.take(k), all.skip(k));
    assert(all.take(k) + all.skip(k) =~= all);
    assert(s.take(lines.len() as int) =~= lines);
    prefix_is_the_longest_that_fits(lines, 2_000);
    let head = excerpt_head(s);
    assert(head =~= s.take(head.len() as int));
    if head.len() < lines.len() {
        assert(lines.take((head.len() + 1) as int) =~= s.take((head.len() + 1) as int));
    }
}

/// The end of an excerpt is the end of the output: its last 30 lines, or as
/// much of them as 2000 bytes allow.
pub proof fn an_excerpt_ends_with_the_last_lines(s: Seq<char>)
    ensures
        ({
            let all = pieces(s);
            let lines = flat(
                all.skip(
                    if all.len() < 30 {
                        0
                    } else {
                        all.len() - 30
                    },
                ),
            );
            let tail = excerpt_tail(s);
            &&& has_suffix(s, lines)
            &&& tail.len() <= lines.len()
            &&& tail == s.skip(s.len() - tail.len())
            &&& utf8_len(tail) <= 2_000
            &&& tail.len() < lines.len() ==> utf8_len(s.skip(s.len() - tail.len() - 1)) > 2_000
        }),
{
    let all = pieces(s);
    let j = all.len() - kept(all.len());
    let lines = flat(all.skip(j));
    lemma_pieces_are_the_text(s);
    lemma_flat_concat(all.take(j), all.skip(j));
    assert(all.take(j) + all.skip(j) =~= all);
    assert(s.skip(s.len() - lines.len()) =~= lines);
    suffix_is_the_longest_that_fits(lines, 2_000);
    let tail = excerpt_tail(s);
    assert(tail =~= s.skip(s.len() - tail.len()));
    if tail.len() < lines.len() {
        assert(lines.skip(lines.len() - tail.len() - 1) =~= s.skip(s.len() - tail.len() - 1));
    }
}

/// An excerpt shows the output whole where both ends meet. Otherwise it shows
/// both ends, and between them how much is left out.
pub proof fn an_excerpt_shows_both_ends(s: Seq<char>)
    ensures
        utf8_len(excerpt_head(s)) + utf8_len(excerpt_tail(s)) >= utf8_len(s) ==> excerpt_of(s) == s,
        utf8_len(excerpt_head(s)) + utf8_len(excerpt_tail(s)) < utf8_len(s) ==> has_prefix(
            excerpt_of(s),
            "Tool output excerpt ("@ + decimal(lines_of(s).len()) + " lines, "@ + decimal(
                utf8_len(s),
            ) + " bytes total):\n"@ + without_trailing(excerpt_head(s), '\n') + "\n... ["@ + decimal(
                lines_of(excerpt_gap(s)).len(),
            ) + " lines / "@ + decimal(utf8_len(excerpt_gap(s))) + " bytes omitted] ...\n"@,
        ) && has_suffix(excerpt_of(s), " bytes omitted] ...\n"@ + excerpt_tail(s)),
{
    let t = excerpt_of(s);
    let gap = excerpt_gap(s);
    if utf8_len(excerpt_head(s)) + utf8_len(excerpt_tail(s)) < utf8_len(s) {
        let a = "Tool output excerpt ("@ + decimal(lines_of(s).len()) + " lines, "@ + decimal(
            utf8_len(s),
        ) + " bytes total):\n"@ + without_trailing(excerpt_head(s), '\n') + "\n... ["@ + decimal(
            lines_of(gap).len(),
        ) + " lines / "@ + decimal(utf8_len(gap)) + " bytes omitted] ...\n"@;
        let b = " bytes omitted] ...\n"@ + excerpt_tail(s);
        assert(t =~= a + excerpt_tail(s));
        assert(t.take(a.len() as int) =~= a);
        assert(t.skip(t.len() - b.len()) =~= b);
    }
}

/// A numbered result in an envelope keeps its envelope when it is stored as
/// JSON: its opening tag is found again, and the new text is framed under it.
pub proof fn a_numbered_result_keeps_its_frame(f: ReadFrame, text: Seq<char>)
    requires
        f.wf(),
        f.open is Some,
    ensures
        numbered_frame(f.text()) == f.open,
        has_prefix(stored_text(f.text(), Some(text)), f.open->0 + "\n"@),
{
    let open = f.open->0;
    let inner = f.inner();
    let s = f.text();
    reveal_strlit("\n");
    reveal_strlit("</tool_output>");
    reveal_strlit(" bytes)");
    lemma_read_frame(f);
    let n = find_char(s, '\n');
    assert(s[open.len() as int] == '\n');
    assert forall|j: int| 0 <= j < open.len() implies s[j] != '\n' by {
        assert(s[j] == open[j]);
        assert(open.contains(open[j]));
    }
    lemma_find_char_unique(s, '\n', open.len() as int);
    assert(s.take(n) =~= open);
    let rest = inner + "\n"@ + "</tool_output>"@;
    assert(s.skip(n + 1) =~= rest);
    assert(rest.last() == '>');
    assert(trimmed_end(rest) == rest);
    assert(rest.skip(rest.len() - "</tool_output>"@.len()) =~= "</tool_output>"@);
    assert(rest.take(rest.len() - "</tool_output>"@.len()) =~= inner + "\n"@);
    assert((inner + "\n"@).last() == '\n');
    assert((inner + "\n"@).drop_last() =~= inner);
    assert(f.trailer().last() == ')');
    assert(inner.last() == ')');
    assert(trimmed_end(inner) == inner);
    assert(trimmed_end(inner + "\n"@) == inner);
    assert(lines_of(inner)[0] == number_line(f.start, f.lines[0]));
    assert(fits_a_line(f.lines[0]));
    lemma_numbered_line(f.start, f.lines[0]);
    let framed = framed_text(open, text);
    assert(framed.take((open.len() + 1) as int) =~= open + "\n"@);
}

/// A result without an envelope is stored as the JSON alone.
pub proof fn an_unwrapped_result_gets_no_frame(content: Seq<char>, text: Seq<char>)
    requires
        !content.contains('\n'),
    ensures
        numbered_frame(content) is None,
        stored_text(content, Some(text)) == text,
        stored_text(content, None) == content,
{
    lemma_find_char(content, '\n');
    if find_char(content, '\n') < content.len() {
        assert(content.contains(content[find_char(content, '\n')]));
    }
}

/// An envelope is known by its two tags: what stands between them comes out as
/// it is, and without either tag the text stays.
pub proof fn an_envelope_needs_both_tags(open: Seq<char>, inner: Seq<char>, s: Seq<char>)
    requires
        is_open_tag(open),
        !open.contains('\n'),
    ensures
        unwrapped(open + "\n"@ + inner + "\n"@ + "</tool_output>"@) == inner,
        !has_suffix(trimmed_end(s), "</tool_output>"@) ==> unwrapped(s) == s,
        (forall|name: Seq<char>|
            !has_prefix(s, "<tool_output name=\""@ + name + "\">\n"@)) ==> unwrapped(s) == s,
{
    lemma_unwrapped(open, inner);
    reveal_strlit("</tool_output>");
    reveal_strlit("<tool_output name=\"");
    reveal_strlit("\">");
    reveal_strlit("\">\n");
    lemma_find_char(s, '\n');
    let n = find_char(s, '\n');
    if n < s.len() {
        let first = s.take(n);
        let rest = s.skip(n + 1);
        let body = trimmed_end(rest);
        if is_open_tag(first) && has_suffix(body, "</tool_output>"@) {
            lemma_trimmed_end(rest);
            lemma_trimmed_end(s);
            let end = trimmed_end(s);
            let k = body.len() + n + 1;
            assert(body.last() == '>') by {
                assert(body.skip(body.len() - 14)[13] == '>');
            }
            assert(s[k - 1] == body.last());
            assert(rest[body.len() - 1] == body.last());
            assert forall|i: int| k <= i < s.len() implies is_space(#[trigger] s[i]) by {
                assert(rest[i - n - 1] == s[i]);
            }
            assert(!is_space('>'));
            assert(end.len() == k) by {
                if end.len() < k {
                    assert(is_space(s[k - 1]));
                } else if end.len() > k {
                    assert(end.last() == s[end.len() - 1]);
                }
            }
            assert(end.skip(end.len() - 14) =~= body.skip(body.len() - 14));
            let name = tool_name(first);
            let tag = "<tool_output name=\""@ + name + "\">\n"@;
            assert(first.take(19) =~= "<tool_output name=\""@);
            assert(first.skip(first.len() - 2) =~= "\">"@);
            assert(s.take(tag.len() as int) =~= tag) by {
                assert(tag.len() == n + 1);
                assert forall|i: int| 0 <= i < tag.len() implies s[i] == tag[i] by {
                    if i < 19 {
                        assert(first.take(19)[i] == first[i]);
                    } else if i < n - 2 {
                        assert(name[i - 19] == first[i]);
                    } else if i < n {
                        assert(first.skip(first.len() - 2)[i - (n - 2)] == first[i]);
                    }
                }
            }
            assert(has_prefix(s, "<tool_output name=\""@ + name + "\">\n"@));
        }
    }
}

} // verus!
