//! Bounding log lines, so that one oversized entry does not crowd out the
//! others.

use vstd::prelude::*;
use vstd::utf8::encode_utf8;

use crate::json::{json_escape, json_escaped, json_quoted, json_string};
use crate::text::number::{decimal, lemma_decimal_is_short, push_usize};
use crate::text::{
    byte_len, char_width, from_chars, from_utf8_lossy, has_prefix, lemma_prefix_of,
    lemma_utf8_len_concat, lemma_utf8_len_is_encoding_len, lossy_text, prefix,
    prefix_is_the_longest_that_fits, prefix_of, to_chars, utf8_len, width,
};

verus! {

/// Byte cap on a line.
pub const LINE_MAX_BYTES: usize = 8_192;

/// How an oversized line is shortened.
#[derive(Clone, Copy, Debug, PartialEq, Eq, Structural)]
pub enum LineFormat {
    /// To a small JSON object with the start of the line, so that the log can
    /// still be parsed.
    Json,
    /// To its start and a note on its size.
    Text,
}

/// What is kept of an oversized line at most.
pub open spec fn kept_head(text: Seq<char>) -> Seq<char> {
    prefix_of(text, (LINE_MAX_BYTES / 2) as nat)
}

/// An oversized line of plain text, shortened.
pub open spec fn cut_text(head: Seq<char>, bytes: nat) -> Seq<char> {
    head + "...[line truncated, "@ + decimal(bytes) + " bytes total]"@
}

/// The object that stands for an oversized JSON line. `head` is the start of
/// the line as a JSON string.
pub open spec fn stub_text(head: Seq<char>, bytes: nat) -> Seq<char> {
    "{\"original_bytes\":"@ + decimal(bytes) + ",\"truncated_line\":"@ + head + "}"@
}

/// Bytes that the start of a line may take in the object that stands for it.
pub open spec fn stub_room(bytes: nat) -> int {
    LINE_MAX_BYTES - utf8_len(stub_text("\"\""@, bytes))
}

/// The longest prefix that takes at most `max` bytes in a JSON string.
pub open spec fn escaped_prefix(s: Seq<char>, max: int) -> Seq<char>
    decreases s.len(),
{
    if s.len() == 0 || utf8_len(json_escaped(s)) <= max {
        s
    } else {
        escaped_prefix(s.drop_last(), max)
    }
}

/// An oversized line, shortened. `text` is what it spells. In a JSON string
/// characters may be escaped, so fewer of them may fit there.
pub open spec fn shortened(text: Seq<char>, bytes: nat, format: LineFormat) -> Seq<char> {
    let head = kept_head(text);
    match format {
        LineFormat::Json => stub_text(json_quoted(escaped_prefix(head, stub_room(bytes))), bytes),
        LineFormat::Text => cut_text(head, bytes),
    }
}

/// The object that stands for an oversized JSON line.
pub fn stub_line(head: &str, bytes: usize) -> (r: String)
    ensures
        r@ == stub_text(head@, bytes as nat),
{
    let mut out = "{\"original_bytes\":".to_owned();
    push_usize(&mut out, bytes);
    out.append(",\"truncated_line\":");
    out.append(head);
    out.append("}");
    out
}

/// The bytes that a character takes in a JSON string.
fn escaped_width(c: char) -> (n: usize)
    ensures
        n == utf8_len(json_escape(c)),
        1 <= n <= 6,
{
    proof {
        lemma_escape_width(c);
    }
    if c == '"' || c == '\\' || c == '\u{8}' || c == '\t' || c == '\n' || c == '\u{c}' || c == '\r' {
        2
    } else if c <= '\u{1f}' {
        6
    } else {
        width(c)
    }
}

proof fn lemma_escape_width(c: char)
    ensures
        utf8_len(json_escape(c)) == if c == '"' || c == '\\' || c == '\u{8}' || c == '\t' || c
            == '\n' || c == '\u{c}' || c == '\r' {
            2
        } else if c <= '\u{1f}' {
            6
        } else {
            char_width(c)
        },
{
    reveal_strlit("\\b");
    reveal_strlit("\\t");
    reveal_strlit("\\n");
    reveal_strlit("\\f");
    reveal_strlit("\\r");
    reveal_strlit("\\u00");
    reveal_with_fuel(utf8_len, 7);
}

/// A longer prefix takes at least as many bytes in a JSON string.
proof fn lemma_escaped_grows(s: Seq<char>, i: int, j: int)
    requires
        0 <= i <= j <= s.len(),
    ensures
        utf8_len(json_escaped(s.take(i))) <= utf8_len(json_escaped(s.take(j))),
    decreases j - i,
{
    if i < j {
        lemma_escaped_grows(s, i, j - 1);
        assert(s.take(j).drop_last() =~= s.take(j - 1));
        lemma_utf8_len_concat(json_escaped(s.take(j - 1)), json_escape(s[j - 1]));
    }
}

/// A prefix that fits, and is all or would not fit with one character more,
/// is the longest that fits.
proof fn lemma_escaped_prefix(s: Seq<char>, k: int, max: int)
    requires
        0 <= k <= s.len(),
        utf8_len(json_escaped(s.take(k))) <= max,
        k < s.len() ==> utf8_len(json_escaped(s.take(k + 1))) > max,
    ensures
        escaped_prefix(s, max) == s.take(k),
    decreases s.len(),
{
    assert(s.take(s.len() as int) =~= s);
    if k < s.len() {
        lemma_escaped_grows(s, k + 1, s.len() as int);
        assert(s.drop_last().take(k) =~= s.take(k));
        if k + 1 < s.len() {
            assert(s.drop_last().take(k + 1) =~= s.take(k + 1));
        }
        lemma_escaped_prefix(s.drop_last(), k, max);
    }
}

/// The longest prefix of `s` that takes at most `max` bytes in a JSON string.
fn prefix_escaped(s: &str, max: usize) -> (r: String)
    ensures
        r@ == escaped_prefix(s@, max as int),
{
    let v = to_chars(s);
    let n: usize = v.len();
    let mut k: usize = 0;
    let mut left: usize = max;
    assert(s@.take(0) =~= Seq::empty());
    while k < n
        invariant
            k <= n,
            n == v@.len(),
            v@ == s@,
            left <= max,
            utf8_len(json_escaped(s@.take(k as int))) == max - left,
        decreases n - k,
    {
        let w: usize = escaped_width(v[k]);
        proof {
            assert(s@.take(k + 1).drop_last() =~= s@.take(k as int));
            lemma_utf8_len_concat(json_escaped(s@.take(k as int)), json_escape(s@[k as int]));
        }
        if w > left {
            proof {
                lemma_escaped_prefix(s@, k as int, max as int);
            }
            assert(v@.subrange(0, k as int) =~= s@.take(k as int));
            return from_chars(&v, 0, k);
        }
        left -= w;
        k += 1;
    }
    proof {
        lemma_escaped_prefix(s@, n as int, max as int);
    }
    assert(s@.take(n as int) =~= s@);
    s.to_owned()
}

/// An oversized line, shortened. `text` is what it spells.
pub fn shorten(text: &str, bytes: usize, format: LineFormat) -> (r: String)
    ensures
        r@ == shortened(text@, bytes as nat, format),
{
    let head = prefix(text, LINE_MAX_BYTES / 2);
    match format {
        LineFormat::Json => {
            proof {
                lemma_stub_has_room(bytes);
            }
            let frame: usize = byte_len(stub_line("\"\"", bytes).as_str());
            let fitting = prefix_escaped(head.as_str(), LINE_MAX_BYTES - frame);
            stub_line(json_string(fitting.as_str()).as_str(), bytes)
        },
        LineFormat::Text => {
            let mut out = head;
            out.append("...[line truncated, ");
            push_usize(&mut out, bytes);
            out.append(" bytes total]");
            out
        },
    }
}

/// A line as it is passed on.
pub open spec fn bounded(line: Seq<u8>, format: LineFormat) -> Seq<u8> {
    if line.len() <= LINE_MAX_BYTES {
        line
    } else {
        encode_utf8(shortened(lossy_text(line), line.len(), format))
    }
}

/// Bounds a line, without its newline. `None` where it passes unchanged.
pub fn bound_line(line: &[u8], format: LineFormat) -> (r: Option<Vec<u8>>)
    ensures
        match r {
            Some(bytes) => line@.len() > LINE_MAX_BYTES && bytes@ == bounded(line@, format)
                && bytes@.len() <= LINE_MAX_BYTES,
            None => line@.len() <= LINE_MAX_BYTES,
        },
{
    if line.len() <= LINE_MAX_BYTES {
        return None;
    }
    let text = from_utf8_lossy(line);
    let short = shorten(text.as_str(), line.len(), format);
    proof {
        shortened_lines_are_within_the_cap(text@, line.len(), format);
        lemma_utf8_len_is_encoding_len(short@);
    }
    Some(short.as_str().as_bytes_vec())
}

/// A shortened line is within the cap, whatever it held.
pub proof fn shortened_lines_are_within_the_cap(text: Seq<char>, bytes: usize, format: LineFormat)
    ensures
        utf8_len(shortened(text, bytes as nat, format)) <= LINE_MAX_BYTES,
{
    let head = kept_head(text);
    let b = decimal(bytes as nat);
    lemma_prefix_of(text, (LINE_MAX_BYTES / 2) as nat);
    match format {
        LineFormat::Json => {
            let room = stub_room(bytes as nat);
            let kept = escaped_prefix(head, room);
            lemma_stub_has_room(bytes);
            lemma_escaped_prefix_fits(head, room);
            lemma_stub_len(json_quoted(kept), bytes as nat);
            lemma_stub_len("\"\""@, bytes as nat);
            lemma_utf8_len_concat(seq!['"'] + json_escaped(kept), seq!['"']);
            lemma_utf8_len_concat(seq!['"'], json_escaped(kept));
            lemma_utf8_len_concat(seq!['"'], seq!['"']);
            reveal_strlit("\"\"");
            assert("\"\""@ =~= seq!['"'] + seq!['"']);
        },
        LineFormat::Text => {
            let a = "...[line truncated, "@;
            let c = " bytes total]"@;
            reveal_strlit("...[line truncated, ");
            reveal_strlit(" bytes total]");
            lemma_width(a);
            lemma_width(c);
            lemma_decimal_is_short(bytes as nat);
            lemma_utf8_len_concat(head, a);
            lemma_utf8_len_concat(head + a, b);
            lemma_utf8_len_concat(head + a + b, c);
        },
    }
}

/// What is kept of a shortened line is a prefix of it.
pub proof fn shortened_lines_keep_their_start(text: Seq<char>, bytes: nat)
    ensures
        has_prefix(text, kept_head(text)),
        has_prefix(text, escaped_prefix(kept_head(text), stub_room(bytes))),
{
    let head = kept_head(text);
    let kept = escaped_prefix(head, stub_room(bytes));
    lemma_prefix_of(text, (LINE_MAX_BYTES / 2) as nat);
    lemma_escaped_prefix_is_one(head, stub_room(bytes));
    assert(text.take(head.len() as int) =~= head);
    assert(text.take(kept.len() as int) =~= head.take(kept.len() as int));
}

proof fn lemma_escaped_prefix_is_one(s: Seq<char>, max: int)
    ensures
        escaped_prefix(s, max).len() <= s.len(),
        escaped_prefix(s, max) == s.take(escaped_prefix(s, max).len() as int),
    decreases s.len(),
{
    let kept = escaped_prefix(s, max);
    assert(s.take(s.len() as int) =~= s);
    if s.len() > 0 && utf8_len(json_escaped(s)) > max {
        lemma_escaped_prefix_is_one(s.drop_last(), max);
        assert(s.drop_last().take(kept.len() as int) =~= s.take(kept.len() as int));
    }
}

proof fn lemma_escaped_prefix_fits(s: Seq<char>, max: int)
    requires
        max >= 0,
    ensures
        utf8_len(json_escaped(escaped_prefix(s, max))) <= max,
    decreases s.len(),
{
    if s.len() > 0 && utf8_len(json_escaped(s)) > max {
        lemma_escaped_prefix_fits(s.drop_last(), max);
    }
}

/// The object takes as many bytes as its parts.
proof fn lemma_stub_len(head: Seq<char>, bytes: nat)
    ensures
        utf8_len(stub_text(head, bytes)) == utf8_len("{\"original_bytes\":"@) + utf8_len(
            decimal(bytes),
        ) + utf8_len(",\"truncated_line\":"@) + utf8_len(head) + utf8_len("}"@),
{
    let a = "{\"original_bytes\":"@;
    let b = a + decimal(bytes);
    let c = b + ",\"truncated_line\":"@;
    lemma_utf8_len_concat(a, decimal(bytes));
    lemma_utf8_len_concat(b, ",\"truncated_line\":"@);
    lemma_utf8_len_concat(c, head);
    lemma_utf8_len_concat(c + head, "}"@);
}

/// An empty object of its kind is within the cap.
proof fn lemma_stub_has_room(bytes: usize)
    ensures
        stub_room(bytes as nat) >= 0,
{
    lemma_stub_len("\"\""@, bytes as nat);
    lemma_decimal_is_short(bytes as nat);
    reveal_strlit("{\"original_bytes\":");
    reveal_strlit(",\"truncated_line\":");
    reveal_strlit("}");
    reveal_strlit("\"\"");
    lemma_width("{\"original_bytes\":"@);
    lemma_width(",\"truncated_line\":"@);
    lemma_width("}"@);
    lemma_width("\"\""@);
}

/// A text takes at most four bytes per character.
proof fn lemma_width(s: Seq<char>)
    ensures
        utf8_len(s) <= 4 * s.len(),
    decreases s.len(),
{
    if s.len() > 0 {
        lemma_width(s.drop_last());
    }
}

// ── Writing ─────────────────────────────────────────────────────────

/// A line with its newline, as it is passed on.
pub open spec fn passed_on(line: Seq<u8>, format: LineFormat) -> Seq<u8> {
    bounded(line, format) + seq![10u8]
}

/// What is passed on when bytes come after those of an open line, and what is
/// left open.
pub open spec fn fed(open: Seq<u8>, data: Seq<u8>, format: LineFormat) -> (Seq<u8>, Seq<u8>)
    decreases data.len(),
{
    if data.len() == 0 {
        (Seq::empty(), open)
    } else {
        let (out, rest) = fed(open, data.drop_last(), format);
        if data.last() == 10u8 {
            (out + passed_on(rest, format), Seq::empty())
        } else {
            (out, rest.push(data.last()))
        }
    }
}

proof fn lemma_fed_in_pieces(open: Seq<u8>, a: Seq<u8>, b: Seq<u8>, format: LineFormat)
    ensures
        ({
            let (out, rest) = fed(open, a, format);
            let (more, left) = fed(rest, b, format);
            fed(open, a + b, format) == (out + more, left)
        }),
    decreases b.len(),
{
    let (out, rest) = fed(open, a, format);
    if b.len() == 0 {
        assert(a + b =~= a);
        assert(out + Seq::<u8>::empty() =~= out);
    } else {
        lemma_fed_in_pieces(open, a, b.drop_last(), format);
        assert((a + b).drop_last() =~= a + b.drop_last());
        let (more, left) = fed(rest, b.drop_last(), format);
        assert(out + more + passed_on(left, format) =~= out + (more + passed_on(left, format)));
    }
}

/// What a write passes on, and the line it leaves open. A line that is open
/// past twice the cap is passed on without its end.
pub open spec fn written(open: Seq<u8>, data: Seq<u8>, format: LineFormat) -> (Seq<u8>, Seq<u8>) {
    let (lines, rest) = fed(open, data, format);
    if rest.len() > 2 * LINE_MAX_BYTES {
        (lines + passed_on(rest, format), Seq::empty())
    } else {
        (lines, rest)
    }
}

/// How the bytes come does not matter: two writes pass on what one write of
/// both would, where the first leaves no line open past twice the cap.
pub proof fn lines_may_come_in_pieces(open: Seq<u8>, a: Seq<u8>, b: Seq<u8>, format: LineFormat)
    requires
        fed(open, a, format).1.len() <= 2 * LINE_MAX_BYTES,
    ensures
        ({
            let (out, rest) = written(open, a, format);
            let (more, left) = written(rest, b, format);
            written(open, a + b, format) == (out + more, left)
        }),
{
    lemma_fed_in_pieces(open, a, b, format);
    let (out, rest) = fed(open, a, format);
    let (more, left) = fed(rest, b, format);
    assert(out + more + passed_on(left, format) =~= out + (more + passed_on(left, format)));
}

/// Bounds each line of what is written to it. A line without an end is passed
/// on at twice the cap, so that it cannot grow without bound.
pub struct BoundedLineWriter {
    format: LineFormat,
    buf: Vec<u8>,
}

impl View for BoundedLineWriter {
    type V = Seq<u8>;

    /// The open line.
    closed spec fn view(&self) -> Seq<u8> {
        self.buf@
    }
}

impl BoundedLineWriter {
    /// How lines are shortened.
    pub closed spec fn line_format(self) -> LineFormat {
        self.format
    }

    /// A writer without an open line.
    pub fn new(format: LineFormat) -> (w: Self)
        ensures
            w@ == Seq::<u8>::empty(),
            w.line_format() == format,
    {
        BoundedLineWriter { format, buf: Vec::new() }
    }

    /// Appends the open line to `out`, bounded, and closes it.
    fn emit(&mut self, out: &mut Vec<u8>)
        ensures
            final(out)@ == old(out)@ + passed_on(old(self)@, old(self).line_format()),
            final(self)@ == Seq::<u8>::empty(),
            final(self).line_format() == old(self).line_format(),
    {
        let ghost before = out@;
        let ghost line = self.buf@;
        let mut short: Vec<u8> = match bound_line(self.buf.as_slice(), self.format) {
            Some(bytes) => bytes,
            None => self.buf.clone(),
        };
        out.append(&mut short);
        out.push(10);
        self.buf = Vec::new();
        assert(out@ =~= before + passed_on(line, self.format));
    }

    /// Takes bytes, and gives what is passed on.
    pub fn write(&mut self, data: &[u8]) -> (out: Vec<u8>)
        ensures
            (out@, final(self)@) == written(old(self)@, data@, old(self).line_format()),
            final(self)@.len() <= 2 * LINE_MAX_BYTES,
            final(self).line_format() == old(self).line_format(),
    {
        let ghost open = self@;
        let ghost f = self.format;
        let mut out: Vec<u8> = Vec::new();
        let n: usize = data.len();
        let mut i: usize = 0;
        assert(data@.take(0) =~= Seq::empty());
        while i < n
            invariant
                i <= n,
                n == data@.len(),
                f == self.format,
                self.format == old(self).line_format(),
                open == old(self)@,
                (out@, self@) == fed(open, data@.take(i as int), f),
            decreases n - i,
        {
            assert(data@.take(i + 1).drop_last() =~= data@.take(i as int));
            if data[i] == 10 {
                self.emit(&mut out);
            } else {
                self.buf.push(data[i]);
            }
            i += 1;
        }
        assert(data@.take(n as int) =~= data@);
        if self.buf.len() > 2 * LINE_MAX_BYTES {
            self.emit(&mut out);
        }
        out
    }

    /// Passes on what is left at the end.
    pub fn finish(&mut self) -> (out: Vec<u8>)
        ensures
            out@ == (if old(self)@.len() > 0 {
                passed_on(old(self)@, old(self).line_format())
            } else {
                Seq::empty()
            }),
            final(self)@ == Seq::<u8>::empty(),
    {
        let mut out: Vec<u8> = Vec::new();
        if self.buf.len() > 0 {
            self.emit(&mut out);
        }
        assert(self.buf@ =~= Seq::empty());
        out
    }
}

// ── What is passed on ───────────────────────────────────────────────

/// The start of a text that is kept is the longest that takes at most `max`
/// bytes in a JSON string.
pub proof fn escaped_prefix_is_the_longest_that_fits(s: Seq<char>, max: nat)
    ensures
        ({
            let p = escaped_prefix(s, max as int);
            &&& p.len() <= s.len()
            &&& p == s.take(p.len() as int)
            &&& utf8_len(json_escaped(p)) <= max
            &&& p.len() < s.len() ==> utf8_len(json_escaped(s.take((p.len() + 1) as int))) > max
        }),
    decreases s.len(),
{
    lemma_escaped_prefix_is_one(s, max as int);
    lemma_escaped_prefix_fits(s, max as int);
    if s.len() > 0 && utf8_len(json_escaped(s)) > max {
        let t = s.drop_last();
        escaped_prefix_is_the_longest_that_fits(t, max);
        let p = escaped_prefix(t, max as int);
        if p.len() < t.len() {
            assert(t.take((p.len() + 1) as int) =~= s.take((p.len() + 1) as int));
        } else {
            assert(s.take((p.len() + 1) as int) =~= s);
        }
    }
}

/// An oversized line of text keeps as much of its start as fits in half the
/// cap, and says how large it was.
pub proof fn a_shortened_text_keeps_its_start(text: Seq<char>, bytes: nat)
    ensures
        exists|k: int|
            0 <= k <= text.len() && utf8_len(#[trigger] text.take(k)) <= 4_096 && (k < text.len()
                ==> utf8_len(text.take(k + 1)) > 4_096) && shortened(text, bytes, LineFormat::Text)
                == text.take(k) + "...[line truncated, "@ + decimal(bytes) + " bytes total]"@,
{
    prefix_is_the_longest_that_fits(text, 4_096);
    let p = prefix_of(text, 4_096);
    let k = p.len() as int;
    assert(kept_head(text) == text.take(k));
}

/// An oversized line of JSON becomes an object with its size and as much of
/// its start as fits in half the cap, where the object stays within the cap.
pub proof fn a_shortened_object_keeps_its_start(text: Seq<char>, bytes: usize)
    ensures
        exists|k: int|
            0 <= k <= text.len() && utf8_len(#[trigger] text.take(k)) <= 4_096 && (k < text.len()
                ==> utf8_len(text.take(k + 1)) > 4_096 || utf8_len(
                object_with(text.take(k + 1), bytes as nat),
            ) > 8_192) && shortened(text, bytes as nat, LineFormat::Json) == object_with(
                text.take(k),
                bytes as nat,
            ),
{
    let n = bytes as nat;
    let head = kept_head(text);
    let room = stub_room(n);
    prefix_is_the_longest_that_fits(text, 4_096);
    lemma_stub_has_room(bytes);
    escaped_prefix_is_the_longest_that_fits(head, room as nat);
    let p = escaped_prefix(head, room);
    let k = p.len() as int;
    assert(text.take(k) =~= head.take(k));
    prefix_is_the_longest_that_fits(head, 4_096);
    assert(utf8_len(head.take(k)) <= utf8_len(head)) by {
        lemma_utf8_len_concat(head.take(k), head.skip(k));
        assert(head.take(k) + head.skip(k) =~= head);
    }
    lemma_object_with(p, n);
    if k < text.len() && k < head.len() {
        assert(text.take(k + 1) =~= head.take(k + 1));
        lemma_object_with(text.take(k + 1), n);
        lemma_quoted_len(text.take(k + 1));
        lemma_stub_len(json_quoted(text.take(k + 1)), n);
        lemma_stub_len("\"\""@, n);
        reveal_strlit("\"\"");
        lemma_two_bytes();
    }
    assert(text.take(k) == p);
}

/// The object that stands for a line: its size, and a start of it.
pub open spec fn object_with(start: Seq<char>, bytes: nat) -> Seq<char> {
    "{\"original_bytes\":"@ + decimal(bytes) + ",\"truncated_line\":\""@ + json_escaped(start)
        + "\"}"@
}

proof fn lemma_object_with(start: Seq<char>, bytes: nat)
    ensures
        stub_text(json_quoted(start), bytes) == object_with(start, bytes),
{
    reveal_strlit(",\"truncated_line\":");
    reveal_strlit(",\"truncated_line\":\"");
    reveal_strlit("}");
    reveal_strlit("\"}");
    assert(",\"truncated_line\":\""@ =~= ",\"truncated_line\":"@ + seq!['"']);
    assert("\"}"@ =~= seq!['"'] + "}"@);
    assert(stub_text(json_quoted(start), bytes) =~= object_with(start, bytes));
}

proof fn lemma_quoted_len(s: Seq<char>)
    ensures
        utf8_len(json_quoted(s)) == utf8_len(json_escaped(s)) + 2,
{
    lemma_utf8_len_concat(seq!['"'] + json_escaped(s), seq!['"']);
    lemma_utf8_len_concat(seq!['"'], json_escaped(s));
    assert(seq!['"'].drop_last() =~= Seq::<char>::empty());
    assert(utf8_len(Seq::<char>::empty()) == 0);
    assert(utf8_len(seq!['"']) == 1);
}

proof fn lemma_two_bytes()
    ensures
        utf8_len("\"\""@) == 2,
{
    reveal_strlit("\"\"");
    lemma_quoted_len(Seq::empty());
    assert("\"\""@ =~= json_quoted(Seq::empty()));
}

/// A line is passed on at its newline, bounded and with what was open before
/// it, and the bytes behind it start a new one.
pub proof fn a_line_ends_at_its_newline(
    open: Seq<u8>,
    line: Seq<u8>,
    rest: Seq<u8>,
    format: LineFormat,
)
    requires
        !line.contains(10u8),
    ensures
        fed(open, line, format) == (Seq::<u8>::empty(), open + line),
        ({
            let (out, left) = fed(Seq::empty(), rest, format);
            fed(open, line.push(10u8) + rest, format) == (
                bounded(open + line, format) + seq![10u8] + out,
                left,
            )
        }),
{
    lemma_open_line(open, line, format);
    let whole = line.push(10u8);
    assert(whole.drop_last() =~= line);
    lemma_fed_in_pieces(open, whole, rest, format);
    assert(fed(open, whole, format).0 =~= bounded(open + line, format) + seq![10u8]);
}

proof fn lemma_open_line(open: Seq<u8>, line: Seq<u8>, format: LineFormat)
    requires
        !line.contains(10u8),
    ensures
        fed(open, line, format) == (Seq::<u8>::empty(), open + line),
    decreases line.len(),
{
    if line.len() > 0 {
        let t = line.drop_last();
        if t.contains(10u8) {
            let k = choose|k: int| 0 <= k < t.len() && t[k] == 10u8;
            assert(line[k] == 10u8);
        }
        lemma_open_line(open, t, format);
        assert(line.last() == line[line.len() - 1]);
        assert((open + t).push(line.last()) =~= open + line);
    } else {
        assert(open + line =~= open);
    }
}

/// A line that is within the cap is passed on as it came, and one without an
/// end is passed on once it is past twice the cap.
pub proof fn lines_within_the_cap_pass_unchanged(
    open: Seq<u8>,
    line: Seq<u8>,
    format: LineFormat,
)
    requires
        !line.contains(10u8),
    ensures
        (open + line).len() <= 8_192 ==> written(open, line.push(10u8), format) == (
            (open + line).push(10u8),
            Seq::<u8>::empty(),
        ),
        (open + line).len() <= 16_384 ==> written(open, line, format) == (
            Seq::<u8>::empty(),
            open + line,
        ),
        (open + line).len() > 16_384 ==> written(open, line, format) == (
            bounded(open + line, format).push(10u8),
            Seq::<u8>::empty(),
        ),
{
    a_line_ends_at_its_newline(open, line, Seq::empty(), format);
    assert(line.push(10u8) + Seq::<u8>::empty() =~= line.push(10u8));
    let b = bounded(open + line, format);
    assert(b + seq![10u8] + Seq::<u8>::empty() =~= b.push(10u8));
    assert(Seq::<u8>::empty() + (b + seq![10u8]) =~= b.push(10u8));
}

} // verus!
