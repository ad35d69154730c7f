//! Exploring large payloads: what kind they are, and what a reader should
//! know of them before opening them.

use vstd::prelude::*;

use crate::json::Json;
use crate::patterns::{find_all, or_none, regex_found};
use crate::text::number::{decimal, push_usize};
use crate::text::split::{is_space, join, joined, space, trim, trim_start, trimmed, trimmed_start};
use crate::text::{
    among, byte_len, contains, from_chars, has_suffix, lemma_occurs_within,
    lemma_utf8_len_take_mono, lemma_views_push, occurs, prefix, prefix_is_the_longest_that_fits,
    prefix_of, same, to_chars, utf8_len, views,
};

verus! {

/// Bytes of each slice of a text payload that the model sees.
pub const TEXT_SLICE_BYTES: usize = 2_400;

/// Section headers reported at most.
pub const TEXT_HEADER_LIMIT: usize = 18;

/// Bytes of a binary payload shown in hexadecimal.
pub const BINARY_DUMP_BYTES: usize = 256;

/// Bytes looked at for control characters.
pub const BINARY_SNIFF_BYTES: usize = 4_096;

/// A reference to a stored payload, anywhere in a text.
pub const FILE_ID_PATTERN: &'static str = r"\bfile_[a-fA-F0-9]{16}\b";

/// The table that a SQL statement creates.
pub const SQL_TABLE_PATTERN: &'static str = r#"(?i)\bCREATE\s+TABLE\s+(?:IF\s+NOT\s+EXISTS\s+)?([A-Za-z0-9_."\[\]]+)"#;

/// The start of a SQL statement that inserts rows.
pub const SQL_INSERT_PATTERN: &'static str = r"(?i)\bINSERT\s+INTO\b";

/// A line of source code that imports something.
pub const IMPORT_PATTERN: &'static str = r"^\s*(use\s|import\s|from\s+\S+\s+import\s|#include\s|require\s*\()";

/// A line of source code that starts a definition.
pub const SIGNATURE_PATTERN: &'static str = r"^(?:pub(?:\([^)]*\))?\s+)?(?:export\s+)?(?:async\s+)?(?:unsafe\s+)?(?:fn|def|class|struct|enum|trait|impl|interface|function|func|type)\s";

/// What a payload is.
#[derive(Clone, Copy, Debug, PartialEq, Eq, Structural)]
pub enum FileKind {
    Json,
    Csv,
    Tsv,
    Yaml,
    Xml,
    Sql,
    Code,
    Text,
    Binary,
}

/// The MIME type of a kind.
pub open spec fn mime_of(kind: FileKind) -> Seq<char> {
    match kind {
        FileKind::Json => "application/json"@,
        FileKind::Csv => "text/csv"@,
        FileKind::Tsv => "text/tab-separated-values"@,
        FileKind::Yaml => "application/yaml"@,
        FileKind::Xml => "application/xml"@,
        FileKind::Sql => "application/sql"@,
        FileKind::Code => "text/x-source-code"@,
        FileKind::Text => "text/plain"@,
        FileKind::Binary => "application/octet-stream"@,
    }
}

/// Best-effort MIME type for a kind.
pub fn mime_hint(kind: FileKind) -> (r: &'static str)
    ensures
        r@ == mime_of(kind),
{
    match kind {
        FileKind::Json => "application/json",
        FileKind::Csv => "text/csv",
        FileKind::Tsv => "text/tab-separated-values",
        FileKind::Yaml => "application/yaml",
        FileKind::Xml => "application/xml",
        FileKind::Sql => "application/sql",
        FileKind::Code => "text/x-source-code",
        FileKind::Text => "text/plain",
        FileKind::Binary => "application/octet-stream",
    }
}

/// The optional path by its view.
pub open spec fn path_view(path: Option<&str>) -> Option<Seq<char>> {
    match path {
        Some(p) => Some(p@),
        None => None,
    }
}

// ── Lists ───────────────────────────────────────────────────────────

/// The values in the order of their first appearance, each once.
pub open spec fn unique_of(values: Seq<Seq<char>>) -> Seq<Seq<char>>
    decreases values.len(),
{
    if values.len() == 0 {
        Seq::empty()
    } else {
        let rest = unique_of(values.drop_last());
        if rest.contains(values.last()) {
            rest
        } else {
            rest.push(values.last())
        }
    }
}

/// The values in the order of their first appearance, each once.
pub fn unique_ordered(values: &Vec<String>) -> (out: Vec<String>)
    ensures
        views(out@) == unique_of(views(values@)),
{
    let mut out: Vec<String> = Vec::new();
    let mut i: usize = 0;
    let ghost all = views(values@);
    assert(all.take(0) =~= Seq::empty());
    assert(views(out@) =~= Seq::empty());
    while i < values.len()
        invariant
            i <= values@.len(),
            all == views(values@),
            views(out@) == unique_of(all.take(i as int)),
        decreases values@.len() - i,
    {
        proof {
            assert(all.take(i + 1).drop_last() =~= all.take(i as int));
            assert(all.take(i + 1).last() == values@[i as int]@);
        }
        if !among(&out, values[i].as_str()) {
            let ghost before = out@;
            let value = values[i].clone();
            out.push(value);
            proof {
                lemma_views_push(before, value);
            }
        }
        i += 1;
    }
    assert(all.take(i as int) =~= all);
    out
}

/// Taking each value once drops none and repeats none.
pub proof fn unique_keeps_every_value_once(values: Seq<Seq<char>>)
    ensures
        forall|x: Seq<char>| values.contains(x) <==> #[trigger] unique_of(values).contains(x),
        unique_of(values).no_duplicates(),
    decreases values.len(),
{
    if values.len() > 0 {
        let before = values.drop_last();
        let rest = unique_of(before);
        unique_keeps_every_value_once(before);
        let last = values.last();
        assert forall|x: Seq<char>| values.contains(x) <==> #[trigger] unique_of(values).contains(
            x,
        ) by {
            if values.contains(x) {
                let k = choose|k: int| 0 <= k < values.len() && values[k] == x;
                if k < before.len() {
                    assert(before[k] == x);
                    assert(before.contains(x));
                    assert(unique_of(before).contains(x));
                    let m = choose|m: int| 0 <= m < rest.len() && rest[m] == x;
                    assert(unique_of(values)[m] == x);
                } else if !rest.contains(last) {
                    assert(unique_of(values)[rest.len() as int] == x);
                }
            }
            if unique_of(values).contains(x) {
                let m = choose|m: int| 0 <= m < unique_of(values).len() && unique_of(values)[m]
                    == x;
                if m < rest.len() {
                    assert(rest[m] == x);
                    assert(rest.contains(x));
                    let k = choose|k: int| 0 <= k < before.len() && before[k] == x;
                    assert(values[k] == x);
                } else {
                    assert(values[values.len() - 1] == x);
                }
            }
        }
    }
}

/// The first `n` values.
pub open spec fn first_of(values: Seq<Seq<char>>, n: nat) -> Seq<Seq<char>> {
    if values.len() <= n {
        values
    } else {
        values.take(n as int)
    }
}

/// The first `n` values.
pub fn first(values: &Vec<String>, n: usize) -> (out: Vec<String>)
    ensures
        views(out@) == first_of(views(values@), n as nat),
{
    let mut out: Vec<String> = Vec::new();
    let mut i: usize = 0;
    while i < values.len() && i < n
        invariant
            i <= values@.len(),
            i <= n,
            views(out@) == views(values@).take(i as int),
        decreases values@.len() - i,
    {
        let ghost before = out@;
        let value = values[i].clone();
        out.push(value);
        proof {
            lemma_views_push(before, value);
            assert(views(values@).take(i + 1) =~= views(values@).take(i as int).push(value@));
        }
        i += 1;
    }
    assert(views(values@).take(values@.len() as int) =~= views(values@));
    out
}

/// A list in text, or what stands for an empty one.
pub open spec fn listed(values: Seq<Seq<char>>, sep: Seq<char>, none: Seq<char>) -> Seq<char> {
    if values.len() == 0 {
        none
    } else {
        joined(values, sep)
    }
}

/// A list in text, or what stands for an empty one.
pub fn list(values: &Vec<String>, sep: &str, none: &str) -> (r: String)
    ensures
        r@ == listed(views(values@), sep@, none@),
{
    if values.len() == 0 {
        none.to_owned()
    } else {
        join(values, sep)
    }
}

// ── References ──────────────────────────────────────────────────────

/// `c` as an ASCII lower-case letter where it is an upper-case one.
pub open spec fn lower_char(c: char) -> char {
    if 'A' <= c <= 'Z' {
        (c as u32 + 32) as char
    } else {
        c
    }
}

/// `s` with its ASCII letters in lower case.
pub open spec fn lowered(s: Seq<char>) -> Seq<char> {
    s.map_values(|c: char| lower_char(c))
}

/// `s` with its ASCII letters in lower case.
pub fn to_lower(s: &str) -> (r: String)
    ensures
        r@ == lowered(s@),
{
    let v = to_chars(s);
    let mut out = String::new();
    let mut i: usize = 0;
    while i < v.len()
        invariant
            i <= v@.len(),
            out@ == lowered(v@).take(i as int),
        decreases v@.len() - i,
    {
        let c = v[i];
        let low = if 'A' <= c && c <= 'Z' {
            (c as u8 + 32) as char
        } else {
            c
        };
        out.push(low);
        assert(lowered(v@).take(i + 1) =~= lowered(v@).take(i as int).push(low));
        i += 1;
    }
    assert(lowered(v@).take(i as int) =~= lowered(v@));
    out
}

/// The ids among the references found, in lower case, each once.
pub open spec fn ids_among(found: Seq<Seq<char>>) -> Seq<Seq<char>> {
    unique_of(found.map_values(|s: Seq<char>| lowered(s)))
}

/// The ids among the references found, in lower case, each once.
pub fn normalize_ids(found: &Vec<String>) -> (out: Vec<String>)
    ensures
        views(out@) == ids_among(views(found@)),
{
    let mut low: Vec<String> = Vec::new();
    let mut i: usize = 0;
    let ghost want = views(found@).map_values(|s: Seq<char>| lowered(s));
    while i < found.len()
        invariant
            i <= found@.len(),
            want == views(found@).map_values(|s: Seq<char>| lowered(s)),
            views(low@) == want.take(i as int),
        decreases found@.len() - i,
    {
        let ghost before = low@;
        let id = to_lower(found[i].as_str());
        low.push(id);
        proof {
            lemma_views_push(before, id);
            assert(want.take(i + 1) =~= want.take(i as int).push(id@));
        }
        i += 1;
    }
    assert(want.take(i as int) =~= want);
    unique_ordered(&low)
}

/// The ids of the payloads that a text refers to.
pub open spec fn file_ids_of(content: Seq<char>) -> Seq<Seq<char>> {
    ids_among(or_none(regex_found(FILE_ID_PATTERN@, content)))
}

/// Every payload id referenced in `content`, each once in the order of first
/// appearance, in lower case.
pub fn extract_file_ids(content: &str) -> (out: Vec<String>)
    ensures
        views(out@) == file_ids_of(content@),
{
    let found = match find_all(FILE_ID_PATTERN, content) {
        Some(found) => found,
        None => Vec::new(),
    };
    assert(views(found@) =~= or_none(regex_found(FILE_ID_PATTERN@, content@)));
    normalize_ids(&found)
}

/// The reference that stands in a message in place of a payload.
pub open spec fn reference_text(
    file_id: Seq<char>,
    path: Seq<char>,
    token_count: nat,
    summary: Seq<char>,
    next_step: Seq<char>,
) -> Seq<char> {
    let body = if next_step.len() == 0 {
        trimmed(summary)
    } else {
        trimmed(summary) + "\n"@ + next_step
    };
    "<file id=\""@ + file_id + "\" path=\""@ + path + "\" tokens=\""@ + decimal(token_count)
        + "\">\n"@ + body + "\n</file>"@
}

/// The reference that stands in a message in place of a payload. `next_step`
/// says how to look into it; an empty one is left out.
pub fn format_file_reference(
    file_id: &str,
    path: &str,
    token_count: usize,
    summary: &str,
    next_step: &str,
) -> (r: String)
    ensures
        r@ == reference_text(file_id@, path@, token_count as nat, summary@, next_step@),
{
    let mut out = String::new();
    out.append("<file id=\"");
    out.append(file_id);
    out.append("\" path=\"");
    out.append(path);
    out.append("\" tokens=\"");
    push_usize(&mut out, token_count);
    out.append("\">\n");
    out.append(trim(summary).as_str());
    if !next_step.is_empty() {
        out.append("\n");
        out.append(next_step);
    }
    out.append("\n</file>");
    assert(out@ =~= reference_text(file_id@, path@, token_count as nat, summary@, next_step@));
    out
}

/// Whether a text looks like the output of a test run.
pub open spec fn is_test_run(s: Seq<char>) -> bool {
    ||| occurs(s, "test result:"@)
    ||| occurs(s, "panicked at"@)
    ||| occurs(s, "=== RUN"@)
    ||| occurs(s, "passed"@) && occurs(s, "failed"@)
}

/// Whether `content` looks like the output of a test run, in any ecosystem.
pub fn looks_like_test_run(content: &str) -> (r: bool)
    ensures
        r == is_test_run(content@),
{
    contains(content, "test result:") || contains(content, "panicked at") || contains(
        content,
        "=== RUN",
    ) || (contains(content, "passed") && contains(content, "failed"))
}

/// How to look into a stored payload.
pub open spec fn next_step_text(
    kind: FileKind,
    test_run: bool,
    has_source_path: bool,
    path: Seq<char>,
) -> Seq<char> {
    if test_run {
        "Next: grep pattern='panicked at|FAILED|error' path="@ + path
            + " pulls the failures from the stored copy; do not re-run the command."@
    } else if has_source_path {
        "Next: file_read "@ + path + " with offset/limit windows the original file."@
    } else if kind == FileKind::Json || kind == FileKind::Xml || kind == FileKind::Yaml {
        "Next: the stored copy at "@ + path
            + " is line-oriented; grep it or file_read a range of it."@
    } else {
        "Next: grep pattern=<regex> path="@ + path + " searches the stored text; file_read "@
            + path + " windows it."@
    }
}

/// How to look into a stored payload: each reference names its own next step.
pub fn next_step(kind: FileKind, test_run: bool, has_source_path: bool, path: &str) -> (r: String)
    ensures
        r@ == next_step_text(kind, test_run, has_source_path, path@),
{
    let mut out = String::new();
    if test_run {
        out.append("Next: grep pattern='panicked at|FAILED|error' path=");
        out.append(path);
        out.append(" pulls the failures from the stored copy; do not re-run the command.");
    } else if has_source_path {
        out.append("Next: file_read ");
        out.append(path);
        out.append(" with offset/limit windows the original file.");
    } else if kind == FileKind::Json || kind == FileKind::Xml || kind == FileKind::Yaml {
        out.append("Next: the stored copy at ");
        out.append(path);
        out.append(" is line-oriented; grep it or file_read a range of it.");
    } else {
        out.append("Next: grep pattern=<regex> path=");
        out.append(path);
        out.append(" searches the stored text; file_read ");
        out.append(path);
        out.append(" windows it.");
    }
    assert(out@ =~= next_step_text(kind, test_run, has_source_path, path@));
    out
}

// ── Detection ───────────────────────────────────────────────────────

/// Whether `c` separates the parts of a path.
pub open spec fn is_separator(c: char) -> bool {
    c == '/' || c == '\\'
}

/// What stands behind the last separator.
pub open spec fn base_of(s: Seq<char>) -> Seq<char>
    decreases s.len(),
{
    if s.len() == 0 || is_separator(s.last()) {
        Seq::empty()
    } else {
        base_of(s.drop_last()).push(s.last())
    }
}

/// The position of the last `c`, or -1.
pub open spec fn last_of(s: Seq<char>, c: char) -> int
    decreases s.len(),
{
    if s.len() == 0 {
        -1
    } else if s.last() == c {
        s.len() - 1
    } else {
        last_of(s.drop_last(), c)
    }
}

/// Whether `c` is an ASCII letter or digit.
pub open spec fn is_alphanumeric(c: char) -> bool {
    'a' <= c <= 'z' || 'A' <= c <= 'Z' || '0' <= c <= '9'
}

/// The extension of a path in lower case: what stands behind the last dot of
/// its last part, where something stands before it, and where it is at most
/// ten letters and digits.
pub open spec fn extension_of(path: Option<Seq<char>>) -> Option<Seq<char>> {
    match path {
        None => None,
        Some(p) => {
            let base = base_of(p);
            let dot = last_of(base, '.');
            let ext = base.skip(dot + 1);
            if dot >= 1 && ext.len() > 0 && utf8_len(ext) <= 10 && (forall|i: int|
                0 <= i < ext.len() ==> is_alphanumeric(#[trigger] ext[i])) {
                Some(lowered(ext))
            } else {
                None
            }
        },
    }
}

proof fn lemma_base_of(s: Seq<char>, k: int)
    requires
        0 <= k <= s.len(),
        forall|i: int| k <= i < s.len() ==> !is_separator(#[trigger] s[i]),
        k > 0 ==> is_separator(s[k - 1]),
    ensures
        base_of(s) == s.skip(k),
    decreases s.len(),
{
    if k < s.len() {
        let t = s.drop_last();
        assert forall|i: int| k <= i < t.len() implies !is_separator(#[trigger] t[i]) by {
            assert(t[i] == s[i]);
        }
        lemma_base_of(t, k);
        assert(!is_separator(s[s.len() - 1]));
        assert(base_of(s) =~= s.skip(k));
    } else {
        assert(base_of(s) =~= s.skip(k));
    }
}

proof fn lemma_last_of(s: Seq<char>, c: char, k: int)
    requires
        -1 <= k < s.len(),
        forall|i: int| k < i < s.len() ==> #[trigger] s[i] != c,
        k >= 0 ==> s[k] == c,
    ensures
        last_of(s, c) == k,
    decreases s.len(),
{
    if s.len() > 0 && k < s.len() - 1 {
        let t = s.drop_last();
        assert(s[s.len() - 1] != c);
        assert forall|i: int| k < i < t.len() implies #[trigger] t[i] != c by {
            assert(t[i] == s[i]);
        }
        lemma_last_of(t, c, k);
    }
}

/// The extension of a path in lower case.
pub fn extension(path: Option<&str>) -> (r: Option<String>)
    ensures
        match r {
            Some(ext) => extension_of(path_view(path)) == Some(ext@),
            None => extension_of(path_view(path)) is None,
        },
{
    let p = match path {
        Some(p) => p,
        None => {
            return None;
        },
    };
    let v = to_chars(p);
    let n: usize = v.len();
    let mut k: usize = n;
    while k > 0 && v[k - 1] != '/' && v[k - 1] != '\\'
        invariant
            n == v@.len(),
            k <= n,
            forall|i: int| k <= i < n ==> !is_separator(#[trigger] v@[i]),
        decreases k,
    {
        k -= 1;
    }
    let mut d: usize = n;
    while d > k && v[d - 1] != '.'
        invariant
            n == v@.len(),
            k <= d <= n,
            forall|i: int| d <= i < n ==> #[trigger] v@[i] != '.',
        decreases d,
    {
        d -= 1;
    }
    let ghost base = v@.skip(k as int);
    proof {
        lemma_base_of(v@, k as int);
        assert forall|i: int| d - k - 1 < i < base.len() implies #[trigger] base[i] != '.' by {
            assert(base[i] == v@[k + i]);
        }
        lemma_last_of(base, '.', d - k - 1);
        assert(base.skip(d - k) =~= v@.skip(d as int));
    }
    // The dot stands at `d - 1`; nothing stands before it where `d` is `k + 1`.
    if d - k <= 1 || d == n {
        return None;
    }
    let ext = from_chars(&v, d, n);
    assert(ext@ =~= v@.skip(d as int));
    if byte_len(ext.as_str()) > 10 {
        return None;
    }
    let mut i: usize = d;
    while i < n
        invariant
            n == v@.len(),
            d <= i <= n,
            ext@ == v@.skip(d as int),
            ext@ == base.skip(d - k),
            base == base_of(p@),
            v@ == p@,
            path == Some(p),
            last_of(base, '.') == d - k - 1,
            forall|j: int| d <= j < i ==> is_alphanumeric(#[trigger] v@[j]),
        decreases n - i,
    {
        let c = v[i];
        if !(('a' <= c && c <= 'z') || ('A' <= c && c <= 'Z') || ('0' <= c && c <= '9')) {
            assert(ext@[i - d] == v@[i as int]);
            assert(!is_alphanumeric(base.skip(d - k)[i - d]));
            return None;
        }
        i += 1;
    }
    proof {
        let e = base.skip(d - k);
        assert forall|j: int| 0 <= j < e.len() implies is_alphanumeric(#[trigger] e[j]) by {
            assert(e[j] == v@[d + j]);
        }
    }
    Some(to_lower(ext.as_str()))
}

/// Whether `c` is a control character.
pub open spec fn is_control(c: char) -> bool {
    let u = c as u32;
    u <= 0x1f || 0x7f <= u <= 0x9f
}

/// Whether `c` marks a payload as binary: a control character that is neither
/// whitespace nor the escape of a terminal.
pub open spec fn marks_binary(c: char) -> bool {
    is_control(c) && !is_space(c) && c != '\u{1b}'
}

/// Whether the start of a payload holds a character that marks it as binary.
pub open spec fn is_binary(s: Seq<char>) -> bool {
    let head = prefix_of(s, BINARY_SNIFF_BYTES as nat);
    exists|i: int| 0 <= i < head.len() && marks_binary(#[trigger] head[i])
}

/// Whether the start of `content` holds a character that marks it as binary.
pub fn looks_binary(content: &str) -> (r: bool)
    ensures
        r == is_binary(content@),
{
    let head = prefix(content, BINARY_SNIFF_BYTES);
    let v = to_chars(head.as_str());
    let mut i: usize = 0;
    while i < v.len()
        invariant
            i <= v@.len(),
            v@ == prefix_of(content@, BINARY_SNIFF_BYTES as nat),
            forall|j: int| 0 <= j < i ==> !marks_binary(#[trigger] v@[j]),
        decreases v@.len() - i,
    {
        let c = v[i];
        let u: u32 = c as u32;
        let control = u <= 0x1f || (0x7f <= u && u <= 0x9f);
        if control && !space(c) && c != '\u{1b}' {
            assert(marks_binary(v@[i as int]));
            return true;
        }
        i += 1;
    }
    false
}

/// Whether an extension is that of source code.
pub open spec fn is_code_extension(e: Seq<char>) -> bool {
    ||| e == "c"@
    ||| e == "cc"@
    ||| e == "cpp"@
    ||| e == "cs"@
    ||| e == "go"@
    ||| e == "h"@
    ||| e == "hpp"@
    ||| e == "java"@
    ||| e == "js"@
    ||| e == "jsx"@
    ||| e == "kt"@
    ||| e == "m"@
    ||| e == "php"@
    ||| e == "py"@
    ||| e == "rb"@
    ||| e == "rs"@
    ||| e == "scala"@
    ||| e == "sh"@
    ||| e == "swift"@
    ||| e == "ts"@
    ||| e == "tsx"@
}

/// The kind that an extension stands for.
pub open spec fn kind_of_extension(e: Seq<char>) -> FileKind {
    if e == "json"@ {
        FileKind::Json
    } else if e == "csv"@ {
        FileKind::Csv
    } else if e == "tsv"@ {
        FileKind::Tsv
    } else if e == "yaml"@ || e == "yml"@ {
        FileKind::Yaml
    } else if e == "xml"@ {
        FileKind::Xml
    } else if e == "sql"@ {
        FileKind::Sql
    } else if is_code_extension(e) {
        FileKind::Code
    } else {
        FileKind::Text
    }
}

/// The kind of a payload: binary where it looks it, else by its extension,
/// else by its first character.
pub open spec fn kind_of(path: Option<Seq<char>>, content: Seq<char>) -> FileKind {
    if is_binary(content) {
        FileKind::Binary
    } else {
        match extension_of(path) {
            Some(ext) => kind_of_extension(ext),
            None => {
                let text = trimmed_start(content);
                if text.len() > 0 && (text[0] == '{' || text[0] == '[') {
                    FileKind::Json
                } else if text.len() > 0 && text[0] == '<' {
                    FileKind::Xml
                } else {
                    FileKind::Text
                }
            },
        }
    }
}

/// The kind that an extension stands for.
fn extension_kind(e: &str) -> (r: FileKind)
    ensures
        r == kind_of_extension(e@),
{
    if same(e, "json") {
        FileKind::Json
    } else if same(e, "csv") {
        FileKind::Csv
    } else if same(e, "tsv") {
        FileKind::Tsv
    } else if same(e, "yaml") || same(e, "yml") {
        FileKind::Yaml
    } else if same(e, "xml") {
        FileKind::Xml
    } else if same(e, "sql") {
        FileKind::Sql
    } else if same(e, "c") || same(e, "cc") || same(e, "cpp") || same(e, "cs") || same(e, "go") || same(e, "h") || same(e, "hpp") || same(e, "java") || same(e, "js") || same(e, "jsx") || same(e, "kt") || same(e, "m") || same(e, "php") || same(e, "py") || same(e, "rb") || same(e, "rs") || same(e, "scala") || same(e, "sh") || same(e, "swift") || same(e, "ts") || same(e, "tsx") {
        FileKind::Code
    } else {
        FileKind::Text
    }
}

/// The kind of a payload, from its path or else from its content.
pub fn detect_kind(path: Option<&str>, content: &str) -> (r: FileKind)
    ensures
        r == kind_of(path_view(path), content@),
{
    if looks_binary(content) {
        return FileKind::Binary;
    }
    match extension(path) {
        Some(ext) => extension_kind(ext.as_str()),
        None => {
            let text = to_chars(trim_start(content).as_str());
            if text.len() == 0 {
                return FileKind::Text;
            }
            if text[0] == '{' || text[0] == '[' {
                FileKind::Json
            } else if text[0] == '<' {
                FileKind::Xml
            } else {
                FileKind::Text
            }
        },
    }
}

// ── Lines ───────────────────────────────────────────────────────────

/// The words of a text, and the word that is not yet ended.
pub open spec fn words_so_far(s: Seq<char>) -> (Seq<Seq<char>>, Seq<char>)
    decreases s.len(),
{
    if s.len() == 0 {
        (Seq::empty(), Seq::empty())
    } else {
        let (done, open) = words_so_far(s.drop_last());
        if !is_space(s.last()) {
            (done, open.push(s.last()))
        } else if open.len() > 0 {
            (done.push(open), Seq::empty())
        } else {
            (done, open)
        }
    }
}

/// The words of a text: its runs of characters that are not whitespace.
pub open spec fn words_of(s: Seq<char>) -> Seq<Seq<char>> {
    let (done, open) = words_so_far(s);
    if open.len() > 0 {
        done.push(open)
    } else {
        done
    }
}

/// The words of a text.
pub fn words(s: &str) -> (out: Vec<String>)
    ensures
        views(out@) == words_of(s@),
{
    let v = to_chars(s);
    let mut out: Vec<String> = Vec::new();
    let mut start: usize = 0;
    let mut i: usize = 0;
    assert(v@.take(0) =~= Seq::empty());
    assert(views(out@) =~= Seq::empty());
    assert(v@.subrange(0, 0) =~= Seq::empty());
    while i < v.len()
        invariant
            start <= i <= v@.len(),
            words_so_far(v@.take(i as int)) == (
                views(out@),
                v@.subrange(start as int, i as int),
            ),
        decreases v@.len() - i,
    {
        proof {
            assert(v@.take(i + 1).drop_last() =~= v@.take(i as int));
        }
        if space(v[i]) {
            if start < i {
                let ghost before = out@;
                let word = from_chars(&v, start, i);
                out.push(word);
                proof {
                    lemma_views_push(before, word);
                }
            }
            start = i + 1;
            assert(v@.subrange(start as int, i + 1) =~= Seq::empty());
        } else {
            assert(v@.subrange(start as int, i + 1) =~= v@.subrange(start as int, i as int).push(
                v@[i as int],
            ));
        }
        i += 1;
    }
    assert(v@.take(i as int) =~= v@);
    if start < i {
        let ghost before = out@;
        let word = from_chars(&v, start, i);
        out.push(word);
        proof {
            lemma_views_push(before, word);
        }
    }
    out
}

/// A text on one line: its words with one blank between them, cut to
/// `max_bytes` and marked where it is longer.
pub open spec fn normalized(s: Seq<char>, max_bytes: nat) -> Seq<char> {
    let compact = joined(words_of(s), " "@);
    if utf8_len(compact) <= max_bytes {
        compact
    } else {
        prefix_of(compact, max_bytes) + "..."@
    }
}

/// A text on one line, cut to `max_bytes` and marked where it is longer.
pub fn normalize_line(text: &str, max_bytes: usize) -> (r: String)
    ensures
        r@ == normalized(text@, max_bytes as nat),
{
    let compact = join(&words(text), " ");
    if byte_len(compact.as_str()) <= max_bytes {
        return compact;
    }
    let mut out = prefix(compact.as_str(), max_bytes);
    out.append("...");
    out
}

// ── What lists keep ─────────────────────────────────────────────────

/// Each value stands where it appeared first: a value that was there before
/// changes nothing, and a new one comes last.
pub proof fn unique_keeps_the_order(values: Seq<Seq<char>>, x: Seq<char>)
    ensures
        unique_of(Seq::empty()) == Seq::<Seq<char>>::empty(),
        values.contains(x) ==> unique_of(values.push(x)) == unique_of(values),
        !values.contains(x) ==> unique_of(values.push(x)) == unique_of(values).push(x),
{
    unique_keeps_every_value_once(values);
    assert(values.push(x).drop_last() =~= values);
    assert(values.contains(x) <==> unique_of(values).contains(x));
}

/// The first so many values are those at the start, all of them where there
/// are no more.
pub proof fn first_values_are_the_start(values: Seq<Seq<char>>, n: nat)
    ensures
        values.len() <= n ==> first_of(values, n) == values,
        values.len() > n ==> first_of(values, n).len() == n,
        forall|i: int| 0 <= i < first_of(values, n).len() ==> first_of(values, n)[i] == values[i],
{
}

/// A next step names the path, and for the output of a test run says not to
/// run it again.
pub proof fn a_next_step_names_the_path(
    kind: FileKind,
    test_run: bool,
    has_source_path: bool,
    path: Seq<char>,
)
    ensures
        occurs(next_step_text(kind, test_run, has_source_path, path), path),
        test_run ==> has_suffix(
            next_step_text(kind, test_run, has_source_path, path),
            "do not re-run the command."@,
        ),
        !test_run && has_source_path ==> next_step_text(kind, test_run, has_source_path, path)
            == "Next: file_read "@ + path + " with offset/limit windows the original file."@,
        !test_run && !has_source_path ==> next_step_text(kind, test_run, has_source_path, path)
            == if kind == FileKind::Json || kind == FileKind::Xml || kind == FileKind::Yaml {
            "Next: the stored copy at "@ + path
                + " is line-oriented; grep it or file_read a range of it."@
        } else {
            "Next: grep pattern=<regex> path="@ + path + " searches the stored text; file_read "@
                + path + " windows it."@
        },
{
    let t = next_step_text(kind, test_run, has_source_path, path);
    if test_run {
        let a = "Next: grep pattern='panicked at|FAILED|error' path="@;
        let c = " pulls the failures from the stored copy; do not re-run the command."@;
        let end = "do not re-run the command."@;
        lemma_occurs_within(a, path, c);
        reveal_strlit(" pulls the failures from the stored copy; do not re-run the command.");
        reveal_strlit("do not re-run the command.");
        assert(t.skip(t.len() - end.len()) =~= end);
    } else if has_source_path {
        lemma_occurs_within(
            "Next: file_read "@,
            path,
            " with offset/limit windows the original file."@,
        );
    } else if kind == FileKind::Json || kind == FileKind::Xml || kind == FileKind::Yaml {
        lemma_occurs_within(
            "Next: the stored copy at "@,
            path,
            " is line-oriented; grep it or file_read a range of it."@,
        );
    } else {
        let c = " searches the stored text; file_read "@ + path + " windows it."@;
        lemma_occurs_within("Next: grep pattern=<regex> path="@, path, c);
        assert(t =~= "Next: grep pattern=<regex> path="@ + path + c);
    }
}

/// What stands behind the last separator of a path is its last part: it has
/// none, and one stands before it unless it is the whole path.
pub proof fn the_base_is_the_last_part(s: Seq<char>)
    ensures
        exists|k: int|
            0 <= k <= s.len() && base_of(s) == #[trigger] s.skip(k) && (k > 0 ==> s[k - 1] == '/'
                || s[k - 1] == '\\') && forall|i: int|
                k <= i < s.len() ==> #[trigger] s[i] != '/' && s[i] != '\\',
    decreases s.len(),
{
    if s.len() == 0 {
        assert(base_of(s) =~= s.skip(0));
    } else if is_separator(s.last()) {
        assert(base_of(s) =~= s.skip(s.len() as int));
    } else {
        let t = s.drop_last();
        the_base_is_the_last_part(t);
        let k = choose|k: int|
            0 <= k <= t.len() && base_of(t) == #[trigger] t.skip(k) && (k > 0 ==> t[k - 1] == '/'
                || t[k - 1] == '\\') && forall|i: int|
                k <= i < t.len() ==> #[trigger] t[i] != '/' && t[i] != '\\';
        assert(base_of(s) =~= s.skip(k));
        assert(k > 0 ==> s[k - 1] == t[k - 1]);
        assert forall|i: int| k <= i < s.len() implies #[trigger] s[i] != '/' && s[i] != '\\' by {
            if i < t.len() {
                assert(t[i] == s[i]);
            }
        }
    }
}

/// Lower case changes the letters A to Z and nothing else.
pub proof fn lowering_changes_letters_only(s: Seq<char>, i: int)
    requires
        0 <= i < s.len(),
    ensures
        lowered(s).len() == s.len(),
        'A' <= s[i] <= 'Z' ==> lowered(s)[i] as u32 == s[i] as u32 + 32,
        !('A' <= s[i] <= 'Z') ==> lowered(s)[i] == s[i],
{
}

/// The words of a text are what whitespace separates: none in an empty text, a
/// text without whitespace is one word, and around whitespace both sides have
/// their own.
pub proof fn words_are_what_whitespace_separates(a: Seq<char>, b: Seq<char>, c: char)
    ensures
        words_of(Seq::empty()) == Seq::<Seq<char>>::empty(),
        a.len() > 0 && (forall|i: int| 0 <= i < a.len() ==> !is_space(#[trigger] a[i])) ==> words_of(
            a,
        ) == seq![a],
        is_space(c) ==> words_of(a + seq![c] + b) == words_of(a) + words_of(b),
{
    if a.len() > 0 && (forall|i: int| 0 <= i < a.len() ==> !is_space(#[trigger] a[i])) {
        lemma_one_word(a);
        assert(words_of(a) =~= seq![a]);
    }
    if is_space(c) {
        lemma_words_behind(a.push(c), b);
        assert(a.push(c) + b =~= a + seq![c] + b);
        assert(a.push(c).drop_last() =~= a);
        let (done, open) = words_so_far(b);
        assert(words_of(a + seq![c] + b) =~= words_of(a) + words_of(b));
    }
}

proof fn lemma_one_word(a: Seq<char>)
    requires
        forall|i: int| 0 <= i < a.len() ==> !is_space(#[trigger] a[i]),
    ensures
        words_so_far(a) == (Seq::<Seq<char>>::empty(), a),
    decreases a.len(),
{
    if a.len() > 0 {
        let rest = a.drop_last();
        assert forall|i: int| 0 <= i < rest.len() implies !is_space(#[trigger] rest[i]) by {
            assert(rest[i] == a[i]);
        }
        lemma_one_word(rest);
        assert(!is_space(a[a.len() - 1]));
        assert(rest.push(a.last()) =~= a);
    } else {
        assert(a =~= Seq::empty());
    }
}

/// Behind whitespace, words start anew.
proof fn lemma_words_behind(front: Seq<char>, b: Seq<char>)
    requires
        front.len() > 0,
        is_space(front.last()),
    ensures
        words_so_far(front + b) == (
            words_so_far(front).0 + words_so_far(b).0,
            words_so_far(b).1,
        ),
    decreases b.len(),
{
    if b.len() == 0 {
        assert(front + b =~= front);
        assert(words_so_far(front).0 + Seq::<Seq<char>>::empty() =~= words_so_far(front).0);
    } else {
        lemma_words_behind(front, b.drop_last());
        assert((front + b).drop_last() =~= front + b.drop_last());
        let (done, open) = words_so_far(b.drop_last());
        assert(words_so_far(front).0 + done.push(open) =~= (words_so_far(front).0 + done).push(
            open,
        ));
    }
}

/// A payload is binary exactly where one of its first 4096 bytes is of a
/// control character that is neither whitespace nor the escape of a terminal.
pub proof fn binary_payloads_hold_control_characters(s: Seq<char>)
    ensures
        is_binary(s) <==> exists|i: int|
            0 <= i < s.len() && utf8_len(s.take(i + 1)) <= 4_096 && marks_binary(#[trigger] s[i]),
{
    let head = prefix_of(s, BINARY_SNIFF_BYTES as nat);
    prefix_is_the_longest_that_fits(s, BINARY_SNIFF_BYTES as nat);
    if is_binary(s) {
        let i = choose|i: int| 0 <= i < head.len() && marks_binary(#[trigger] head[i]);
        assert(s[i] == head[i]);
        lemma_utf8_len_take_mono(s, i + 1, head.len() as int);
    }
    if exists|i: int|
        0 <= i < s.len() && utf8_len(s.take(i + 1)) <= 4_096 && marks_binary(#[trigger] s[i]) {
        let i = choose|i: int|
            0 <= i < s.len() && utf8_len(s.take(i + 1)) <= 4_096 && marks_binary(#[trigger] s[i]);
        if i >= head.len() {
            lemma_utf8_len_take_mono(s, (head.len() + 1) as int, i + 1);
        }
        assert(head[i] == s[i]);
    }
}

/// A line is what its words are, one space between them, cut at its budget with
/// dots behind it.
pub proof fn a_normalized_line_keeps_its_words(text: Seq<char>, max: nat)
    ensures
        ({
            let whole = joined(words_of(text), " "@);
            &&& utf8_len(whole) <= max ==> normalized(text, max) == whole
            &&& utf8_len(whole) > max ==> exists|k: int|
                0 <= k < whole.len() && utf8_len(#[trigger] whole.take(k)) <= max && utf8_len(
                    whole.take(k + 1),
                ) > max && normalized(text, max) == whole.take(k) + "..."@
        }),
{
    let whole = joined(words_of(text), " "@);
    prefix_is_the_longest_that_fits(whole, max);
    if utf8_len(whole) > max {
        let k = prefix_of(whole, max).len() as int;
        if k == whole.len() {
            assert(whole.take(k) =~= whole);
        }
        assert(normalized(text, max) == whole.take(k) + "..."@);
    }
}

/// Whether a text can be an extension: one to ten letters and digits.
pub open spec fn is_extension(ext: Seq<char>) -> bool {
    0 < ext.len() <= 10 && forall|i: int| 0 <= i < ext.len() ==> is_alphanumeric(#[trigger] ext[i])
}

/// The extension of a path is what stands behind the last dot of its last part,
/// in lower case, where something stands before the dot.
pub proof fn the_extension_stands_behind_the_last_dot(
    dir: Seq<char>,
    stem: Seq<char>,
    ext: Seq<char>,
)
    requires
        dir.len() > 0 ==> dir.last() == '/' || dir.last() == '\\',
        stem.len() > 0,
        !stem.contains('/') && !stem.contains('\\'),
        is_extension(ext),
    ensures
        extension_of(Some(dir + stem + "."@ + ext)) == Some(lowered(ext)),
        extension_of(Some(dir + "."@ + ext)) is None,
        extension_of(None) is None,
{
    reveal_strlit(".");
    lemma_extension_parts(dir, stem, ext);
    lemma_extension_parts(dir, Seq::empty(), ext);
    assert(dir + Seq::<char>::empty() + "."@ + ext =~= dir + "."@ + ext);
    lemma_short_extension(ext);
}

proof fn lemma_short_extension(ext: Seq<char>)
    requires
        forall|i: int| 0 <= i < ext.len() ==> is_alphanumeric(#[trigger] ext[i]),
    ensures
        utf8_len(ext) == ext.len(),
    decreases ext.len(),
{
    if ext.len() > 0 {
        let rest = ext.drop_last();
        assert forall|i: int| 0 <= i < rest.len() implies is_alphanumeric(#[trigger] rest[i]) by {
            assert(rest[i] == ext[i]);
        }
        lemma_short_extension(rest);
        assert(is_alphanumeric(ext[ext.len() - 1]));
    }
}

proof fn lemma_extension_parts(dir: Seq<char>, stem: Seq<char>, ext: Seq<char>)
    requires
        dir.len() > 0 ==> dir.last() == '/' || dir.last() == '\\',
        !stem.contains('/') && !stem.contains('\\'),
        is_extension(ext),
    ensures
        ({
            let p = dir + stem + "."@ + ext;
            &&& base_of(p) == stem + "."@ + ext
            &&& last_of(base_of(p), '.') == stem.len()
            &&& base_of(p).skip((stem.len() + 1) as int) == ext
        }),
{
    reveal_strlit(".");
    let p = dir + stem + "."@ + ext;
    let base = stem + "."@ + ext;
    assert forall|i: int| dir.len() <= i < p.len() implies !is_separator(#[trigger] p[i]) by {
        if i < dir.len() + stem.len() {
            assert(p[i] == stem[i - dir.len()]);
            assert(stem.contains(p[i]));
        } else if i > dir.len() + stem.len() {
            assert(p[i] == ext[i - dir.len() - stem.len() - 1]);
            assert(is_alphanumeric(ext[i - dir.len() - stem.len() - 1]));
        }
    }
    lemma_base_of(p, dir.len() as int);
    assert(p.skip(dir.len() as int) =~= base);
    assert forall|i: int| stem.len() < i < base.len() implies #[trigger] base[i] != '.' by {
        assert(base[i] == ext[i - stem.len() - 1]);
        assert(is_alphanumeric(ext[i - stem.len() - 1]));
    }
    lemma_last_of(base, '.', stem.len() as int);
    assert(base.skip((stem.len() + 1) as int) =~= ext);
}

/// The kind of a payload is told by what it holds before its name is looked at,
/// by its name before its first character, and plain text is what is left.
pub proof fn kinds_are_told_in_order(path: Option<Seq<char>>, content: Seq<char>)
    ensures
        is_binary(content) <==> kind_of(path, content) == FileKind::Binary,
        !is_binary(content) ==> (extension_of(path) matches Some(e) ==> kind_of(path, content)
            == kind_of_extension(e)),
        !is_binary(content) && extension_of(path) is None ==> {
            let text = trimmed_start(content);
            &&& kind_of(path, content) == FileKind::Json <==> text.len() > 0 && (text[0] == '{'
                || text[0] == '[')
            &&& kind_of(path, content) == FileKind::Xml <==> text.len() > 0 && text[0] == '<'
            &&& kind_of(path, content) == FileKind::Json || kind_of(path, content) == FileKind::Xml
                || kind_of(path, content) == FileKind::Text
        },
{
    lemma_kind_is_not_binary(match extension_of(path) {
        Some(e) => e,
        None => Seq::empty(),
    });
}

proof fn lemma_kind_is_not_binary(e: Seq<char>)
    ensures
        kind_of_extension(e) != FileKind::Binary,
{
}

/// An extension is that of source code exactly where it is one of these.
pub proof fn code_is_told_by_its_extension(e: Seq<char>)
    ensures
        is_code_extension(e) <==> seq![
            "c"@,
            "cc"@,
            "cpp"@,
            "cs"@,
            "go"@,
            "h"@,
            "hpp"@,
            "java"@,
            "js"@,
            "jsx"@,
            "kt"@,
            "m"@,
            "php"@,
            "py"@,
            "rb"@,
            "rs"@,
            "scala"@,
            "sh"@,
            "swift"@,
            "ts"@,
            "tsx"@,
        ].contains(e),
        e == "json"@ ==> kind_of_extension(e) == FileKind::Json,
        e == "yaml"@ || e == "yml"@ ==> kind_of_extension(e) == FileKind::Yaml || e == "json"@,
{
    let all = seq![
        "c"@,
        "cc"@,
        "cpp"@,
        "cs"@,
        "go"@,
        "h"@,
        "hpp"@,
        "java"@,
        "js"@,
        "jsx"@,
        "kt"@,
        "m"@,
        "php"@,
        "py"@,
        "rb"@,
        "rs"@,
        "scala"@,
        "sh"@,
        "swift"@,
        "ts"@,
        "tsx"@,
    ];
    assert(all[0] == "c"@ && all[1] == "cc"@ && all[2] == "cpp"@ && all[3] == "cs"@);
    assert(all[4] == "go"@ && all[5] == "h"@ && all[6] == "hpp"@ && all[7] == "java"@);
    assert(all[8] == "js"@ && all[9] == "jsx"@ && all[10] == "kt"@ && all[11] == "m"@);
    assert(all[12] == "php"@ && all[13] == "py"@ && all[14] == "rb"@ && all[15] == "rs"@);
    assert(all[16] == "scala"@ && all[17] == "sh"@ && all[18] == "swift"@ && all[19] == "ts"@);
    assert(all[20] == "tsx"@);
    if all.contains(e) {
        let k = choose|k: int| 0 <= k < all.len() && all[k] == e;
        assert(is_code_extension(all[k]));
    }
    reveal_strlit("json");
    reveal_strlit("yaml");
    reveal_strlit("yml");
    reveal_strlit("csv");
    reveal_strlit("tsv");
    assert("yml"@[0] == 'y' && "csv"@[0] == 'c' && "tsv"@[0] == 't' && "yaml"@[0] == 'y');
}

/// Each kind has the MIME type under which it is known.
pub proof fn kinds_have_their_mime_types(kind: FileKind)
    ensures
        mime_of(kind) == "application/json"@ <==> kind is Json,
        mime_of(kind) == "text/csv"@ <==> kind is Csv,
        mime_of(kind) == "text/tab-separated-values"@ <==> kind is Tsv,
        mime_of(kind) == "application/yaml"@ <==> kind is Yaml,
        mime_of(kind) == "application/xml"@ <==> kind is Xml,
        mime_of(kind) == "application/sql"@ <==> kind is Sql,
        mime_of(kind) == "text/x-source-code"@ <==> kind is Code,
        mime_of(kind) == "text/plain"@ <==> kind is Text,
        mime_of(kind) == "application/octet-stream"@ <==> kind is Binary,
{
    reveal_strlit("application/json");
    reveal_strlit("text/csv");
    reveal_strlit("text/tab-separated-values");
    reveal_strlit("application/yaml");
    reveal_strlit("application/xml");
    reveal_strlit("application/sql");
    reveal_strlit("text/x-source-code");
    reveal_strlit("text/plain");
    reveal_strlit("application/octet-stream");
    assert("application/json"@.len() == 16 && "application/yaml"@.len() == 16);
    assert("application/xml"@.len() == 15 && "application/sql"@.len() == 15);
    assert("text/csv"@.len() == 8 && "text/plain"@.len() == 10);
    assert("text/tab-separated-values"@.len() == 25 && "text/x-source-code"@.len() == 18);
    assert("application/octet-stream"@.len() == 24);
    assert("application/xml"@[12] != "application/sql"@[12]);
    assert("application/json"@[12] != "application/yaml"@[12]);
}

/// Test output is told by the marks that test runners leave, wherever they
/// stand.
pub proof fn test_runs_are_told_by_their_marks(a: Seq<char>, b: Seq<char>, c: Seq<char>)
    ensures
        is_test_run(a + "test result:"@ + b),
        is_test_run(a + "panicked at"@ + b),
        is_test_run(a + "=== RUN"@ + b),
        is_test_run(a + "passed"@ + b + "failed"@ + c),
        is_test_run(a + "failed"@ + b + "passed"@ + c),
        is_test_run(a) && !occurs(a, "test result:"@) && !occurs(a, "panicked at"@) ==> occurs(
            a,
            "=== RUN"@,
        ) || occurs(a, "failed"@) && occurs(a, "passed"@),
{
    lemma_occurs_within(a, "test result:"@, b);
    lemma_occurs_within(a, "panicked at"@, b);
    lemma_occurs_within(a, "=== RUN"@, b);
    let x = a + "passed"@ + b + "failed"@ + c;
    lemma_occurs_within(a + "passed"@ + b, "failed"@, c);
    lemma_occurs_within(a, "passed"@, b + "failed"@ + c);
    assert(x =~= a + "passed"@ + (b + "failed"@ + c));
    let y = a + "failed"@ + b + "passed"@ + c;
    lemma_occurs_within(a + "failed"@ + b, "passed"@, c);
    lemma_occurs_within(a, "failed"@, b + "passed"@ + c);
    assert(y =~= a + "failed"@ + (b + "passed"@ + c));
}

/// The ids among what was found are those of every reference, in lower case,
/// each once.
pub proof fn every_reference_is_counted_once(found: Seq<Seq<char>>, id: Seq<char>)
    ensures
        ids_among(found).contains(id) <==> exists|i: int|
            0 <= i < found.len() && lowered(#[trigger] found[i]) == id,
        ids_among(found).no_duplicates(),
{
    let low = found.map_values(|s: Seq<char>| lowered(s));
    unique_keeps_every_value_once(low);
    if low.contains(id) {
        let i = choose|i: int| 0 <= i < low.len() && low[i] == id;
        assert(lowered(found[i]) == id);
    }
    if exists|i: int| 0 <= i < found.len() && lowered(#[trigger] found[i]) == id {
        let i = choose|i: int| 0 <= i < found.len() && lowered(#[trigger] found[i]) == id;
        assert(low[i] == id);
    }
}

} // verus!
