//! Surveys of payloads: a few lines that say what a payload of each kind
//! holds.

use vstd::prelude::*;

use super::explore::{
    detect_kind, first, first_of, kind_of, list, listed, normalize_line, normalized, path_view,
    unique_keeps_every_value_once, unique_of, unique_ordered, words, words_of, FileKind,
    BINARY_DUMP_BYTES, IMPORT_PATTERN, SIGNATURE_PATTERN, SQL_INSERT_PATTERN, SQL_TABLE_PATTERN,
    TEXT_HEADER_LIMIT, TEXT_SLICE_BYTES,
};
use crate::digest::{hex_of, lemma_hex_of, push_hex};
use crate::json::{
    field_views, item_views, json_of, json_view, lemma_field_views, lemma_item_views, parse, Json,
    JsonView,
};
use crate::patterns::{
    find_all, first_groups, matched, matches_in, or_none, regex_found, regex_groups,
};
use crate::text::number::{decimal, push_decimal, push_usize};
use crate::text::split::{
    is_blank, is_space, join, joined, joined_text_holds_every_part, lemma_blank_is_trimmed_empty,
    lines, lines_of, space, split, split_at_char, trim, trimmed,
};
use crate::text::{
    byte_len, from_chars, has_prefix, has_suffix, lemma_occurs_in_part, lemma_occurs_within,
    lemma_utf8_len_split, lemma_views_push, occurs, prefix, prefix_is_the_longest_that_fits,
    prefix_of, stands_at, suffix, suffix_is_the_longest_that_fits, suffix_of, to_chars, utf8_len,
    views,
};
use crate::types::{message_views, Message, MessageView};

verus! {

// ── JSON ────────────────────────────────────────────────────────────

/// Levels of nesting that are described below `depth`.
pub open spec fn levels_below(depth: nat) -> nat {
    if depth >= 2 {
        0
    } else {
        (2 - depth) as nat
    }
}

/// The shape of a value, two levels deep.
pub open spec fn shape_of(value: JsonView, depth: nat) -> Seq<char>
    decreases levels_below(depth), 0nat,
{
    if depth >= 2 {
        "..."@
    } else {
        match value {
            JsonView::Array(items) => if items.len() == 0 {
                "array(len=0)"@
            } else {
                "array(len="@ + decimal(items.len()) + ", sample=["@ + joined(
                    item_shapes(items, least(items.len(), 3), depth + 1),
                    ", "@,
                ) + "])"@
            },
            JsonView::Object(fields) => if fields.len() == 0 {
                "object(keys=0)"@
            } else {
                "object(keys="@ + decimal(fields.len()) + ": "@ + joined(
                    field_shapes(fields, least(fields.len(), 10), depth + 1),
                    ", "@,
                ) + ")"@
            },
            JsonView::Null => "null"@,
            JsonView::Bool(_) => "bool"@,
            JsonView::Number(_) => "number"@,
            JsonView::Text(_) => "string"@,
        }
    }
}

/// The shapes of the first `n` items.
pub open spec fn item_shapes(items: Seq<JsonView>, n: nat, depth: nat) -> Seq<Seq<char>>
    decreases levels_below(depth), n,
{
    if n == 0 {
        Seq::empty()
    } else {
        item_shapes(items, (n - 1) as nat, depth).push(shape_of(items[n - 1], depth))
    }
}

/// The names and shapes of the first `n` fields.
pub open spec fn field_shapes(fields: Seq<(Seq<char>, JsonView)>, n: nat, depth: nat) -> Seq<
    Seq<char>,
>
    decreases levels_below(depth), n,
{
    if n == 0 {
        Seq::empty()
    } else {
        field_shapes(fields, (n - 1) as nat, depth).push(
            fields[n - 1].0 + ": "@ + shape_of(fields[n - 1].1, depth),
        )
    }
}

/// The smaller of two numbers.
pub open spec fn least(a: nat, b: nat) -> nat {
    if a < b {
        a
    } else {
        b
    }
}

/// The shape of a value, two levels deep: arrays by their first three items,
/// objects by their first ten fields.
pub fn describe_json(value: &Json, depth: u8) -> (r: String)
    ensures
        r@ == shape_of(value@, depth as nat),
    decreases levels_below(depth as nat),
{
    if depth >= 2 {
        return "...".to_owned();
    }
    match value {
        Json::Array(items) => {
            let ghost all = item_views(items@, items@.len());
            proof {
                lemma_item_views(items@, items@.len());
            }
            if items.len() == 0 {
                return "array(len=0)".to_owned();
            }
            let n: usize = if items.len() < 3 {
                items.len()
            } else {
                3
            };
            let mut sample: Vec<String> = Vec::new();
            let mut i: usize = 0;
            assert(views(sample@) =~= Seq::empty());
            while i < n
                invariant
                    i <= n <= items@.len(),
                    depth < 2,
                    all == item_views(items@, items@.len()),
                    forall|k: int|
                        0 <= k < items@.len() ==> #[trigger] all[k] == json_view(items@[k]),
                    views(sample@) == item_shapes(all, i as nat, (depth + 1) as nat),
                decreases n - i,
            {
                let ghost before = sample@;
                let shape = describe_json(&items[i], depth + 1);
                sample.push(shape);
                proof {
                    lemma_views_push(before, shape);
                    assert(all[i as int] == json_view(items@[i as int]));
                }
                i += 1;
            }
            let mut out = String::new();
            out.append("array(len=");
            push_usize(&mut out, items.len());
            out.append(", sample=[");
            out.append(join(&sample, ", ").as_str());
            out.append("])");
            assert(out@ =~= shape_of(value@, depth as nat));
            out
        },
        Json::Object(fields) => {
            let ghost all = field_views(fields@, fields@.len());
            proof {
                lemma_field_views(fields@, fields@.len());
            }
            if fields.len() == 0 {
                return "object(keys=0)".to_owned();
            }
            let n: usize = if fields.len() < 10 {
                fields.len()
            } else {
                10
            };
            let mut preview: Vec<String> = Vec::new();
            let mut i: usize = 0;
            assert(views(preview@) =~= Seq::empty());
            while i < n
                invariant
                    i <= n <= fields@.len(),
                    depth < 2,
                    all == field_views(fields@, fields@.len()),
                    forall|k: int|
                        0 <= k < fields@.len() ==> #[trigger] all[k] == (
                            fields@[k].0@,
                            json_view(fields@[k].1),
                        ),
                    views(preview@) == field_shapes(all, i as nat, (depth + 1) as nat),
                decreases n - i,
            {
                let ghost before = preview@;
                let mut entry = fields[i].0.clone();
                entry.append(": ");
                entry.append(describe_json(&fields[i].1, depth + 1).as_str());
                preview.push(entry);
                proof {
                    lemma_views_push(before, entry);
                    assert(all[i as int] == (fields@[i as int].0@, json_view(fields@[i as int].1)));
                }
                i += 1;
            }
            let mut out = String::new();
            out.append("object(keys=");
            push_usize(&mut out, fields.len());
            out.append(": ");
            out.append(join(&preview, ", ").as_str());
            out.append(")");
            assert(out@ =~= shape_of(value@, depth as nat));
            out
        },
        Json::Null => "null".to_owned(),
        Json::Bool(_) => "bool".to_owned(),
        Json::Number(_) => "number".to_owned(),
        Json::Text(_) => "string".to_owned(),
    }
}

/// The name of a value's type.
pub open spec fn kind_name(value: JsonView) -> Seq<char> {
    match value {
        JsonView::Array(_) => "array"@,
        JsonView::Object(_) => "object"@,
        JsonView::Null => "null"@,
        JsonView::Bool(_) => "bool"@,
        JsonView::Number(_) => "number"@,
        JsonView::Text(_) => "string"@,
    }
}

/// What is said of a JSON payload.
pub open spec fn json_survey(value: JsonView) -> Seq<char> {
    "Structured summary (JSON):\nTop-level type: "@ + kind_name(value) + ".\nShape: "@ + shape_of(
        value,
        0,
    ) + "."@
}

/// What is said of a JSON payload.
pub fn survey_json(value: &Json) -> (r: String)
    ensures
        r@ == json_survey(value@),
{
    let top_level = match value {
        Json::Array(_) => "array",
        Json::Object(_) => "object",
        Json::Null => "null",
        Json::Bool(_) => "bool",
        Json::Number(_) => "number",
        Json::Text(_) => "string",
    };
    let mut out = String::new();
    out.append("Structured summary (JSON):\nTop-level type: ");
    out.append(top_level);
    out.append(".\nShape: ");
    out.append(describe_json(value, 0).as_str());
    out.append(".");
    assert(out@ =~= json_survey(value@));
    out
}

/// What is said of a JSON payload; `None` where it is not valid JSON.
pub fn explore_json(content: &str) -> (r: Option<String>)
    ensures
        match (json_of(content@), r) {
            (Some(value), Some(text)) => text@ == json_survey(value),
            (None, None) => true,
            _ => false,
        },
{
    match parse(content) {
        Some(value) => Some(survey_json(&value)),
        None => None,
    }
}

// ── Delimited rows ──────────────────────────────────────────────────

/// The lines without surrounding whitespace, blank ones left out.
pub open spec fn trimmed_lines(lines: Seq<Seq<char>>) -> Seq<Seq<char>>
    decreases lines.len(),
{
    if lines.len() == 0 {
        Seq::empty()
    } else {
        let rest = trimmed_lines(lines.drop_last());
        let line = lines.last();
        if trimmed(line).len() > 0 {
            rest.push(trimmed(line))
        } else {
            rest
        }
    }
}

/// The lines without surrounding whitespace, blank ones left out.
fn trim_lines(lines: &Vec<String>) -> (out: Vec<String>)
    ensures
        views(out@) == trimmed_lines(views(lines@)),
{
    let mut out: Vec<String> = Vec::new();
    let mut i: usize = 0;
    let ghost all = views(lines@);
    assert(all.take(0) =~= Seq::empty());
    assert(views(out@) =~= Seq::empty());
    while i < lines.len()
        invariant
            i <= lines@.len(),
            all == views(lines@),
            views(out@) == trimmed_lines(all.take(i as int)),
        decreases lines@.len() - i,
    {
        let line = lines[i].as_str();
        proof {
            assert(all.take(i + 1).drop_last() =~= all.take(i as int));
            assert(all.take(i + 1).last() == lines@[i as int]@);
        }
        let text = trim(line);
        if !text.as_str().is_empty() {
            let ghost before = out@;
            let value = text;
            out.push(value);
            proof {
                lemma_views_push(before, value);
            }
        }
        i += 1;
    }
    assert(all.take(i as int) =~= all);
    out
}

/// What is said of a payload of delimited rows.
pub open spec fn delimited_survey(s: Seq<char>, delimiter: char, kind: Seq<char>) -> Seq<char> {
    let rows = trimmed_lines(lines_of(s));
    if rows.len() == 0 {
        "Structured summary ("@ + kind + "): no rows found."@
    } else {
        let headers = trimmed_lines(split_at_char(rows[0], delimiter));
        let sample = if rows.len() > 1 {
            normalized(rows[1], 180)
        } else {
            "(no data rows)"@
        };
        "Structured summary ("@ + kind + "):\nRows: "@ + decimal((rows.len() - 1) as nat)
            + ".\nColumns ("@ + decimal(headers.len()) + "): "@ + listed(
            headers,
            ", "@,
            "(none detected)"@,
        ) + ".\nFirst row sample: "@ + sample + "."@
    }
}

/// What is said of a payload of delimited rows: its columns, how many rows it
/// has, and the first of them.
pub fn explore_delimited(content: &str, delimiter: char, kind: &str) -> (r: String)
    ensures
        r@ == delimited_survey(content@, delimiter, kind@),
{
    let rows = trim_lines(&lines(content));
    assert(views(rows@).len() == rows@.len());
    let mut out = String::new();
    out.append("Structured summary (");
    out.append(kind);
    if rows.len() == 0 {
        out.append("): no rows found.");
        assert(out@ =~= delimited_survey(content@, delimiter, kind@));
        return out;
    }
    assert(views(rows@)[0] == rows@[0]@);
    let headers = trim_lines(&split(rows[0].as_str(), delimiter));
    assert(views(headers@).len() == headers@.len());
    let sample = if rows.len() > 1 {
        assert(views(rows@)[1] == rows@[1]@);
        normalize_line(rows[1].as_str(), 180)
    } else {
        "(no data rows)".to_owned()
    };
    out.append("):\nRows: ");
    push_usize(&mut out, rows.len() - 1);
    out.append(".\nColumns (");
    push_usize(&mut out, headers.len());
    out.append("): ");
    out.append(list(&headers, ", ", "(none detected)").as_str());
    out.append(".\nFirst row sample: ");
    out.append(sample.as_str());
    out.append(".");
    assert(out@ =~= delimited_survey(content@, delimiter, kind@));
    out
}

// ── YAML ────────────────────────────────────────────────────────────

/// Whether `c` can stand in a top-level YAML key.
pub open spec fn is_key_char(c: char) -> bool {
    'a' <= c <= 'z' || 'A' <= c <= 'Z' || '0' <= c <= '9' || c == '_' || c == '.' || c == '-'
}

/// Whether `c` can stand in the name of an XML element.
pub open spec fn is_tag_char(c: char) -> bool {
    'a' <= c <= 'z' || 'A' <= c <= 'Z' || '0' <= c <= '9' || c == '_' || c == ':' || c == '-'
}

/// How many characters at the start of `s` can stand in a key.
pub open spec fn key_run(s: Seq<char>) -> nat
    decreases s.len(),
{
    if s.len() == 0 || !is_key_char(s[0]) {
        0
    } else {
        1 + key_run(s.drop_first())
    }
}

/// How many characters at the start of `s` can stand in a tag.
pub open spec fn tag_run(s: Seq<char>) -> nat
    decreases s.len(),
{
    if s.len() == 0 || !is_tag_char(s[0]) {
        0
    } else {
        1 + tag_run(s.drop_first())
    }
}

proof fn lemma_key_run(s: Seq<char>, k: int)
    requires
        0 <= k <= s.len(),
        forall|i: int| 0 <= i < k ==> is_key_char(#[trigger] s[i]),
        k < s.len() ==> !is_key_char(s[k]),
    ensures
        key_run(s) == k,
    decreases s.len(),
{
    if k > 0 {
        let t = s.drop_first();
        assert forall|i: int| 0 <= i < k - 1 implies is_key_char(#[trigger] t[i]) by {
            assert(t[i] == s[i + 1]);
        }
        assert(is_key_char(s[0]));
        lemma_key_run(t, k - 1);
    }
}

proof fn lemma_tag_run(s: Seq<char>, k: int)
    requires
        0 <= k <= s.len(),
        forall|i: int| 0 <= i < k ==> is_tag_char(#[trigger] s[i]),
        k < s.len() ==> !is_tag_char(s[k]),
    ensures
        tag_run(s) == k,
    decreases s.len(),
{
    if k > 0 {
        let t = s.drop_first();
        assert forall|i: int| 0 <= i < k - 1 implies is_tag_char(#[trigger] t[i]) by {
            assert(t[i] == s[i + 1]);
        }
        assert(is_tag_char(s[0]));
        lemma_tag_run(t, k - 1);
    }
}

/// The key that a line starts with: key characters, then a colon.
pub open spec fn key_of(line: Seq<char>) -> Option<Seq<char>> {
    let k = key_run(line) as int;
    if 0 < k < line.len() && line[k] == ':' {
        Some(line.take(k))
    } else {
        None
    }
}

/// The key that a line starts with.
fn line_key(line: &str) -> (r: Option<String>)
    ensures
        match r {
            Some(key) => key_of(line@) == Some(key@),
            None => key_of(line@) is None,
        },
{
    let v = to_chars(line);
    let mut k: usize = 0;
    while k < v.len() && (('a' <= v[k] && v[k] <= 'z') || ('A' <= v[k] && v[k] <= 'Z') || ('0'
        <= v[k] && v[k] <= '9') || v[k] == '_' || v[k] == '.' || v[k] == '-')
        invariant
            k <= v@.len(),
            forall|i: int| 0 <= i < k ==> is_key_char(#[trigger] v@[i]),
        decreases v@.len() - k,
    {
        k += 1;
    }
    proof {
        lemma_key_run(v@, k as int);
    }
    if k > 0 && k < v.len() && v[k] == ':' {
        let key = from_chars(&v, 0, k);
        assert(key@ =~= line@.take(k as int));
        Some(key)
    } else {
        None
    }
}

/// The keys of the lines that start with one.
pub open spec fn keys_of(lines: Seq<Seq<char>>) -> Seq<Seq<char>>
    decreases lines.len(),
{
    if lines.len() == 0 {
        Seq::empty()
    } else {
        let rest = keys_of(lines.drop_last());
        match key_of(lines.last()) {
            Some(key) => rest.push(key),
            None => rest,
        }
    }
}

/// What is said of a YAML payload.
pub open spec fn yaml_survey(s: Seq<char>) -> Seq<char> {
    let keys = unique_of(keys_of(lines_of(s)));
    "Structured summary (YAML):\nTop-level keys ("@ + decimal(keys.len()) + "): "@ + if keys.len()
        == 0 {
        "(none detected)"@
    } else {
        joined(first_of(keys, 30), ", "@)
    } + "."@
}

/// What is said of a YAML payload: its top-level keys.
pub fn explore_yaml(content: &str) -> (r: String)
    ensures
        r@ == yaml_survey(content@),
{
    let rows = lines(content);
    let mut found: Vec<String> = Vec::new();
    let mut i: usize = 0;
    let ghost all = views(rows@);
    assert(all.take(0) =~= Seq::empty());
    assert(views(found@) =~= Seq::empty());
    while i < rows.len()
        invariant
            i <= rows@.len(),
            all == views(rows@),
            views(found@) == keys_of(all.take(i as int)),
        decreases rows@.len() - i,
    {
        proof {
            assert(all.take(i + 1).drop_last() =~= all.take(i as int));
            assert(all.take(i + 1).last() == rows@[i as int]@);
        }
        match line_key(rows[i].as_str()) {
            Some(key) => {
                let ghost before = found@;
                found.push(key);
                proof {
                    lemma_views_push(before, key);
                }
            },
            None => {},
        }
        i += 1;
    }
    assert(all.take(i as int) =~= all);
    let keys = unique_ordered(&found);
    assert(views(keys@).len() == keys@.len());
    let mut out = String::new();
    out.append("Structured summary (YAML):\nTop-level keys (");
    push_usize(&mut out, keys.len());
    out.append("): ");
    if keys.len() == 0 {
        out.append("(none detected)");
    } else {
        out.append(join(&first(&keys, 30), ", ").as_str());
    }
    out.append(".");
    assert(out@ =~= yaml_survey(content@));
    out
}

// ── XML ─────────────────────────────────────────────────────────────

/// The names of the opening tags, in order: `<`, a name, then `>` or
/// whitespace.
pub open spec fn tags_of(s: Seq<char>) -> Seq<Seq<char>>
    decreases s.len(),
{
    if s.len() == 0 {
        Seq::empty()
    } else {
        let k = tag_run(s.drop_first()) as int;
        if s[0] == '<' && 0 < k && 1 + k < s.len() && (is_space(s[1 + k]) || s[1 + k] == '>') {
            seq![s.subrange(1, 1 + k)] + tags_of(s.skip(k + 2))
        } else {
            tags_of(s.drop_first())
        }
    }
}

/// The names of the opening tags, in order.
fn find_tags(content: &str) -> (out: Vec<String>)
    ensures
        views(out@) == tags_of(content@),
{
    let v = to_chars(content);
    let n: usize = v.len();
    let mut out: Vec<String> = Vec::new();
    let mut i: usize = 0;
    assert(v@.skip(0) =~= v@);
    assert(views(out@) + tags_of(v@.skip(0)) =~= tags_of(v@));
    while i < n
        invariant
            n == v@.len(),
            i <= n,
            views(out@) + tags_of(v@.skip(i as int)) == tags_of(v@),
        decreases n - i,
    {
        let ghost rest = v@.skip(i as int);
        let mut k: usize = i + 1;
        while k < n && (('a' <= v[k] && v[k] <= 'z') || ('A' <= v[k] && v[k] <= 'Z') || ('0'
            <= v[k] && v[k] <= '9') || v[k] == '_' || v[k] == ':' || v[k] == '-')
            invariant
                n == v@.len(),
                i < n,
                i + 1 <= k <= n,
                forall|j: int| i + 1 <= j < k ==> is_tag_char(#[trigger] v@[j]),
            decreases n - k,
        {
            k += 1;
        }
        proof {
            let t = rest.drop_first();
            assert forall|j: int| 0 <= j < k - i - 1 implies is_tag_char(#[trigger] t[j]) by {
                assert(t[j] == v@[i + 1 + j]);
            }
            lemma_tag_run(t, k - i - 1);
            assert(rest.drop_first() =~= v@.skip(i + 1));
            assert(rest[0] == v@[i as int]);
        }
        if v[i] == '<' && k > i + 1 && k < n && (space(v[k]) || v[k] == '>') {
            let ghost before = out@;
            let tag = from_chars(&v, i + 1, k);
            out.push(tag);
            proof {
                lemma_views_push(before, tag);
                assert(rest[k - i] == v@[k as int]);
                assert(tag@ =~= rest.subrange(1, k - i));
                assert(rest.skip(k - i + 1) =~= v@.skip(k + 1));
                assert(views(before) + tags_of(rest) =~= views(out@) + tags_of(v@.skip(k + 1)));
            }
            i = k + 1;
        } else {
            proof {
                if k < n {
                    assert(rest[k - i] == v@[k as int]);
                }
                assert(tags_of(rest) == tags_of(v@.skip(i + 1)));
            }
            i += 1;
        }
    }
    assert(views(out@) + tags_of(v@.skip(i as int)) =~= views(out@));
    out
}

/// The texts that are not `root`.
pub open spec fn others_than(lines: Seq<Seq<char>>, root: Seq<char>) -> Seq<Seq<char>>
    decreases lines.len(),
{
    if lines.len() == 0 {
        Seq::empty()
    } else {
        let rest = others_than(lines.drop_last(), root);
        let line = lines.last();
        if line != root {
            rest.push(line)
        } else {
            rest
        }
    }
}

/// The texts that are not `root`.
fn other_than(lines: &Vec<String>, root: &str) -> (out: Vec<String>)
    ensures
        views(out@) == others_than(views(lines@), root@),
{
    let mut out: Vec<String> = Vec::new();
    let mut i: usize = 0;
    let ghost all = views(lines@);
    assert(all.take(0) =~= Seq::empty());
    assert(views(out@) =~= Seq::empty());
    while i < lines.len()
        invariant
            i <= lines@.len(),
            all == views(lines@),
            views(out@) == others_than(all.take(i as int), root@),
        decreases lines@.len() - i,
    {
        let line = lines[i].as_str();
        proof {
            assert(all.take(i + 1).drop_last() =~= all.take(i as int));
            assert(all.take(i + 1).last() == lines@[i as int]@);
        }
        if !crate::text::same(line, root) {
            let ghost before = out@;
            let value = lines[i].clone();
            out.push(value);
            proof {
                lemma_views_push(before, value);
            }
        }
        i += 1;
    }
    assert(all.take(i as int) =~= all);
    out
}

/// What is said of an XML payload.
pub open spec fn xml_survey(s: Seq<char>) -> Seq<char> {
    let tags = tags_of(s);
    if tags.len() == 0 {
        "Structured summary (XML): no elements detected."@
    } else {
        let children = unique_of(first_of(others_than(tags.drop_first(), tags[0]), 30));
        "Structured summary (XML):\nRoot element: "@ + tags[0] + ".\nChild elements seen: "@
            + listed(children, ", "@, "(none detected)"@) + "."@
    }
}

/// What is said of an XML payload: its root element, and the others seen.
pub fn explore_xml(content: &str) -> (r: String)
    ensures
        r@ == xml_survey(content@),
{
    let mut tags = find_tags(content);
    assert(views(tags@).len() == tags@.len());
    if tags.len() == 0 {
        return "Structured summary (XML): no elements detected.".to_owned();
    }
    let ghost all = views(tags@);
    assert(all[0] == tags@[0]@);
    let root = tags.remove(0);
    assert(views(tags@) =~= all.drop_first());
    let children = unique_ordered(&first(&other_than(&tags, root.as_str()), 30));
    let mut out = String::new();
    out.append("Structured summary (XML):\nRoot element: ");
    out.append(root.as_str());
    out.append(".\nChild elements seen: ");
    out.append(list(&children, ", ", "(none detected)").as_str());
    out.append(".");
    assert(out@ =~= xml_survey(content@));
    out
}

// ── SQL ─────────────────────────────────────────────────────────────

/// What is said of a SQL payload, given the tables it names and how many
/// statements insert rows.
pub open spec fn sql_survey(found: Seq<Seq<char>>, inserts: nat) -> Seq<char> {
    let tables = unique_of(found);
    "Structured summary (SQL):\nTables ("@ + decimal(tables.len()) + "): "@ + listed(
        tables,
        ", "@,
        "(none detected)"@,
    ) + ".\nINSERT statements: "@ + decimal(inserts) + "."@
}

/// What is said of a SQL payload, given the tables it names and how many
/// statements insert rows.
pub fn survey_sql(found: &Vec<String>, inserts: usize) -> (r: String)
    ensures
        r@ == sql_survey(views(found@), inserts as nat),
{
    let tables = unique_ordered(found);
    assert(views(tables@).len() == tables@.len());
    let mut out = String::new();
    out.append("Structured summary (SQL):\nTables (");
    push_usize(&mut out, tables.len());
    out.append("): ");
    out.append(list(&tables, ", ", "(none detected)").as_str());
    out.append(".\nINSERT statements: ");
    push_usize(&mut out, inserts);
    out.append(".");
    assert(out@ =~= sql_survey(views(found@), inserts as nat));
    out
}

/// What is said of a SQL payload: the tables it creates, and how many
/// statements insert rows.
pub fn explore_sql(content: &str) -> (r: String)
    ensures
        r@ == sql_survey(
            or_none(regex_groups(SQL_TABLE_PATTERN@, content@)),
            or_none(regex_found(SQL_INSERT_PATTERN@, content@)).len(),
        ),
{
    let found = match first_groups(SQL_TABLE_PATTERN, content) {
        Some(found) => found,
        None => Vec::new(),
    };
    assert(views(found@) =~= or_none(regex_groups(SQL_TABLE_PATTERN@, content@)));
    let inserts = match find_all(SQL_INSERT_PATTERN, content) {
        Some(found) => found,
        None => Vec::new(),
    };
    assert(views(inserts@) =~= or_none(regex_found(SQL_INSERT_PATTERN@, content@)));
    survey_sql(&found, inserts.len())
}

// ── Source code ─────────────────────────────────────────────────────

/// The lines that import something, each on one line.
pub open spec fn import_lines(lines: Seq<Seq<char>>) -> Seq<Seq<char>>
    decreases lines.len(),
{
    if lines.len() == 0 {
        Seq::empty()
    } else {
        let rest = import_lines(lines.drop_last());
        let line = lines.last();
        if matched(IMPORT_PATTERN@, line) {
            rest.push(normalized(line, 180))
        } else {
            rest
        }
    }
}

/// The lines that import something, each on one line.
fn imports_in(lines: &Vec<String>) -> (out: Vec<String>)
    ensures
        views(out@) == import_lines(views(lines@)),
{
    let mut out: Vec<String> = Vec::new();
    let mut i: usize = 0;
    let ghost all = views(lines@);
    assert(all.take(0) =~= Seq::empty());
    assert(views(out@) =~= Seq::empty());
    while i < lines.len()
        invariant
            i <= lines@.len(),
            all == views(lines@),
            views(out@) == import_lines(all.take(i as int)),
        decreases lines@.len() - i,
    {
        let line = lines[i].as_str();
        proof {
            assert(all.take(i + 1).drop_last() =~= all.take(i as int));
            assert(all.take(i + 1).last() == lines@[i as int]@);
        }
        if matches_in(IMPORT_PATTERN, line) {
            let ghost before = out@;
            let value = normalize_line(line, 180);
            out.push(value);
            proof {
                lemma_views_push(before, value);
            }
        }
        i += 1;
    }
    assert(all.take(i as int) =~= all);
    out
}

/// The lines that start a definition, each on one line.
pub open spec fn signature_lines(lines: Seq<Seq<char>>) -> Seq<Seq<char>>
    decreases lines.len(),
{
    if lines.len() == 0 {
        Seq::empty()
    } else {
        let rest = signature_lines(lines.drop_last());
        let line = lines.last();
        if matched(SIGNATURE_PATTERN@, trimmed(line)) {
            rest.push(normalized(trimmed(line), 200))
        } else {
            rest
        }
    }
}

/// The lines that start a definition, each on one line.
fn signatures_in(lines: &Vec<String>) -> (out: Vec<String>)
    ensures
        views(out@) == signature_lines(views(lines@)),
{
    let mut out: Vec<String> = Vec::new();
    let mut i: usize = 0;
    let ghost all = views(lines@);
    assert(all.take(0) =~= Seq::empty());
    assert(views(out@) =~= Seq::empty());
    while i < lines.len()
        invariant
            i <= lines@.len(),
            all == views(lines@),
            views(out@) == signature_lines(all.take(i as int)),
        decreases lines@.len() - i,
    {
        let line = lines[i].as_str();
        proof {
            assert(all.take(i + 1).drop_last() =~= all.take(i as int));
            assert(all.take(i + 1).last() == lines@[i as int]@);
        }
        let text = trim(line);
        if matches_in(SIGNATURE_PATTERN, text.as_str()) {
            let ghost before = out@;
            let value = normalize_line(text.as_str(), 200);
            out.push(value);
            proof {
                lemma_views_push(before, value);
            }
        }
        i += 1;
    }
    assert(all.take(i as int) =~= all);
    out
}

/// The name of a payload in a heading.
pub open spec fn name_part(path: Option<Seq<char>>) -> Seq<char> {
    match path {
        Some(p) => " ("@ + p + ")"@,
        None => Seq::empty(),
    }
}

/// Appends the name of a payload in a heading.
fn push_name(out: &mut String, path: Option<&str>)
    ensures
        final(out)@ == old(out)@ + name_part(path_view(path)),
{
    let ghost before = out@;
    match path {
        Some(p) => {
            out.append(" (");
            out.append(p);
            out.append(")");
        },
        None => {},
    }
    assert(out@ =~= before + name_part(path_view(path)));
}

/// What is said of source code, given its imports and definitions.
pub open spec fn code_survey(
    path: Option<Seq<char>>,
    line_count: nat,
    imports: Seq<Seq<char>>,
    signatures: Seq<Seq<char>>,
) -> Seq<char> {
    "Code exploration summary"@ + name_part(path) + ":\nLines: "@ + decimal(line_count)
        + ".\nImports/dependencies ("@ + decimal(imports.len()) + "): "@ + listed(
        imports,
        " | "@,
        "none detected"@,
    ) + ".\nTop-level definitions ("@ + decimal(signatures.len()) + "): "@ + listed(
        signatures,
        " | "@,
        "none detected"@,
    ) + "."@
}

/// What is said of source code, given its imports and definitions.
pub fn survey_code(
    path: Option<&str>,
    line_count: usize,
    imports: &Vec<String>,
    signatures: &Vec<String>,
) -> (r: String)
    ensures
        r@ == code_survey(
            path_view(path),
            line_count as nat,
            views(imports@),
            views(signatures@),
        ),
{
    assert(views(imports@).len() == imports@.len());
    assert(views(signatures@).len() == signatures@.len());
    let mut out = String::new();
    out.append("Code exploration summary");
    push_name(&mut out, path);
    out.append(":\nLines: ");
    push_usize(&mut out, line_count);
    out.append(".\nImports/dependencies (");
    push_usize(&mut out, imports.len());
    out.append("): ");
    out.append(list(imports, " | ", "none detected").as_str());
    out.append(".\nTop-level definitions (");
    push_usize(&mut out, signatures.len());
    out.append("): ");
    out.append(list(signatures, " | ", "none detected").as_str());
    out.append(".");
    assert(out@ =~= code_survey(
        path_view(path),
        line_count as nat,
        views(imports@),
        views(signatures@),
    ));
    out
}

/// What is said of source code: up to twelve imports and up to twenty-four
/// definitions.
pub fn explore_code(content: &str, path: Option<&str>) -> (r: String)
    ensures
        r@ == code_survey(
            path_view(path),
            lines_of(content@).len(),
            unique_of(first_of(import_lines(lines_of(content@)), 12)),
            unique_of(first_of(signature_lines(lines_of(content@)), 24)),
        ),
{
    let rows = lines(content);
    assert(views(rows@).len() == rows@.len());
    let imports = unique_ordered(&first(&imports_in(&rows), 12));
    let signatures = unique_ordered(&first(&signatures_in(&rows), 24));
    survey_code(path, rows.len(), &imports, &signatures)
}

// ── Binary data ─────────────────────────────────────────────────────

/// Bytes in hexadecimal with a blank between each two.
pub open spec fn hex_dump(bytes: Seq<u8>) -> Seq<char>
    decreases bytes.len(),
{
    if bytes.len() == 0 {
        Seq::empty()
    } else if bytes.len() == 1 {
        hex_of(bytes)
    } else {
        hex_dump(bytes.drop_last()) + " "@ + hex_of(seq![bytes.last()])
    }
}

/// What is said of binary data.
pub open spec fn binary_survey(bytes: Seq<u8>) -> Seq<char> {
    let n = least(bytes.len(), BINARY_DUMP_BYTES as nat);
    "Binary payload summary:\nBytes: "@ + decimal(bytes.len()) + ".\nFirst "@ + decimal(n)
        + " bytes (hex): "@ + hex_dump(bytes.take(n as int))
}

/// What is said of binary data: its length and its first bytes.
pub fn explore_binary(content: &str) -> (r: String)
    ensures
        r@ == binary_survey(vstd::utf8::encode_utf8(content@)),
{
    let bytes = content.as_bytes_vec();
    let n: usize = if bytes.len() < BINARY_DUMP_BYTES {
        bytes.len()
    } else {
        BINARY_DUMP_BYTES
    };
    let mut out = String::new();
    out.append("Binary payload summary:\nBytes: ");
    push_usize(&mut out, bytes.len());
    out.append(".\nFirst ");
    push_usize(&mut out, n);
    out.append(" bytes (hex): ");
    let ghost head = out@;
    let mut i: usize = 0;
    assert(bytes@.take(0) =~= Seq::empty());
    assert(out@ =~= head + hex_dump(bytes@.take(0)));
    while i < n
        invariant
            i <= n <= bytes@.len(),
            out@ == head + hex_dump(bytes@.take(i as int)),
        decreases n - i,
    {
        let ghost before = out@;
        if i > 0 {
            out.append(" ");
        }
        let mut one: Vec<u8> = Vec::new();
        one.push(bytes[i]);
        push_hex(&mut out, &one, 1);
        proof {
            let next = bytes@.take(i + 1);
            assert(next.drop_last() =~= bytes@.take(i as int));
            assert(one@.take(1) =~= seq![bytes@[i as int]]);
            if i == 0 {
                assert(next =~= seq![bytes@[0]]);
            }
            assert(out@ =~= head + hex_dump(next));
        }
        i += 1;
    }
    out
}

// ── Plain text ──────────────────────────────────────────────────────

/// How many `#` a text starts with.
pub open spec fn hashes(s: Seq<char>) -> nat
    decreases s.len(),
{
    if s.len() == 0 || s[0] != '#' {
        0
    } else {
        1 + hashes(s.drop_first())
    }
}

/// Whether a line is a Markdown header: one to six `#`, then whitespace.
pub open spec fn is_markdown_header(s: Seq<char>) -> bool {
    let k = hashes(s) as int;
    1 <= k <= 6 && k < s.len() && is_space(s[k])
}

/// Whether `c` can stand in a header in capitals.
pub open spec fn is_caps_char(c: char) -> bool {
    'A' <= c <= 'Z' || '0' <= c <= '9' || c == ' ' || c == ':' || c == '_' || c == '-'
}

/// Whether a line is a header in capitals: at least seven such characters,
/// the first a letter or digit.
pub open spec fn is_caps_header(s: Seq<char>) -> bool {
    &&& s.len() >= 7
    &&& 'A' <= s[0] <= 'Z' || '0' <= s[0] <= '9'
    &&& forall|i: int| 0 <= i < s.len() ==> is_caps_char(#[trigger] s[i])
}

/// Whether a line looks like the header of a section.
pub open spec fn is_header(line: Seq<char>) -> bool {
    let s = trimmed(line);
    utf8_len(s) > 1 && (is_markdown_header(s) || is_caps_header(s))
}

proof fn lemma_hashes(s: Seq<char>, k: int)
    requires
        0 <= k <= s.len(),
        forall|i: int| 0 <= i < k ==> #[trigger] s[i] == '#',
        k < s.len() ==> s[k] != '#',
    ensures
        hashes(s) == k,
    decreases s.len(),
{
    if k > 0 {
        let t = s.drop_first();
        assert forall|i: int| 0 <= i < k - 1 implies #[trigger] t[i] == '#' by {
            assert(t[i] == s[i + 1]);
        }
        assert(s[0] == '#');
        lemma_hashes(t, k - 1);
    }
}

/// Whether a text is a Markdown header.
fn markdown_header(s: &str) -> (r: bool)
    ensures
        r == is_markdown_header(s@),
{
    let v = to_chars(s);
    let mut k: usize = 0;
    while k < v.len() && v[k] == '#'
        invariant
            k <= v@.len(),
            forall|i: int| 0 <= i < k ==> #[trigger] v@[i] == '#',
        decreases v@.len() - k,
    {
        k += 1;
    }
    proof {
        lemma_hashes(v@, k as int);
    }
    1 <= k && k <= 6 && k < v.len() && space(v[k])
}

/// Whether a text is a header in capitals.
fn caps_header(s: &str) -> (r: bool)
    ensures
        r == is_caps_header(s@),
{
    let v = to_chars(s);
    if v.len() < 7 {
        return false;
    }
    if !(('A' <= v[0] && v[0] <= 'Z') || ('0' <= v[0] && v[0] <= '9')) {
        return false;
    }
    let mut i: usize = 0;
    while i < v.len()
        invariant
            v@ == s@,
            i <= v@.len(),
            forall|j: int| 0 <= j < i ==> is_caps_char(#[trigger] v@[j]),
        decreases v@.len() - i,
    {
        let c = v[i];
        if !(('A' <= c && c <= 'Z') || ('0' <= c && c <= '9') || c == ' ' || c == ':' || c == '_'
            || c == '-') {
            assert(!is_caps_char(s@[i as int]));
            return false;
        }
        i += 1;
    }
    true
}

/// Whether a line looks like the header of a section.
fn header_line(line: &str) -> (r: bool)
    ensures
        r == is_header(line@),
{
    let s = trim(line);
    byte_len(s.as_str()) > 1 && (markdown_header(s.as_str()) || caps_header(s.as_str()))
}

/// The lines that look like headers, each on one line.
pub open spec fn header_lines(lines: Seq<Seq<char>>) -> Seq<Seq<char>>
    decreases lines.len(),
{
    if lines.len() == 0 {
        Seq::empty()
    } else {
        let rest = header_lines(lines.drop_last());
        let line = lines.last();
        if is_header(line) {
            rest.push(normalized(trimmed(line), 160))
        } else {
            rest
        }
    }
}

/// The lines that look like headers, each on one line.
fn headers_in(lines: &Vec<String>) -> (out: Vec<String>)
    ensures
        views(out@) == header_lines(views(lines@)),
{
    let mut out: Vec<String> = Vec::new();
    let mut i: usize = 0;
    let ghost all = views(lines@);
    assert(all.take(0) =~= Seq::empty());
    assert(views(out@) =~= Seq::empty());
    while i < lines.len()
        invariant
            i <= lines@.len(),
            all == views(lines@),
            views(out@) == header_lines(all.take(i as int)),
        decreases lines@.len() - i,
    {
        let line = lines[i].as_str();
        proof {
            assert(all.take(i + 1).drop_last() =~= all.take(i as int));
            assert(all.take(i + 1).last() == lines@[i as int]@);
        }
        if header_line(line) {
            let ghost before = out@;
            let value = normalize_line(trim(line).as_str(), 160);
            out.push(value);
            proof {
                lemma_views_push(before, value);
            }
        }
        i += 1;
    }
    assert(all.take(i as int) =~= all);
    out
}

/// The section headers of a text.
pub open spec fn headers_of(s: Seq<char>) -> Seq<Seq<char>> {
    unique_of(first_of(header_lines(lines_of(s)), TEXT_HEADER_LIMIT as nat))
}

/// The section headers of a text, at most [`TEXT_HEADER_LIMIT`].
pub fn extract_text_headers(content: &str) -> (out: Vec<String>)
    ensures
        views(out@) == headers_of(content@),
{
    unique_ordered(&first(&headers_in(&lines(content)), TEXT_HEADER_LIMIT))
}

/// The middle slice of a text.
pub open spec fn middle_slice(s: Seq<char>) -> Seq<char> {
    let start = (utf8_len(s) - TEXT_SLICE_BYTES) / 2;
    prefix_of(suffix_of(s, (utf8_len(s) - start) as nat), TEXT_SLICE_BYTES as nat)
}

/// What the model sees of a text: all of it where it is small, else its
/// start, middle and end.
pub open spec fn text_sample(s: Seq<char>) -> Seq<char> {
    if utf8_len(s) <= TEXT_SLICE_BYTES * 2 {
        s
    } else {
        "[Document Start]\n\n"@ + prefix_of(s, TEXT_SLICE_BYTES as nat)
            + "\n\n[Document Middle]\n\n"@ + middle_slice(s) + "\n\n[Document End]\n\n"@
            + suffix_of(s, TEXT_SLICE_BYTES as nat)
    }
}

/// What the model sees of a text.
pub fn build_text_sample(content: &str) -> (r: String)
    ensures
        r@ == text_sample(content@),
{
    let n: usize = byte_len(content);
    if n <= TEXT_SLICE_BYTES * 2 {
        return content.to_owned();
    }
    let start: usize = (n - TEXT_SLICE_BYTES) / 2;
    let rest = suffix(content, n - start);
    let mut out = String::new();
    out.append("[Document Start]\n\n");
    out.append(prefix(content, TEXT_SLICE_BYTES).as_str());
    out.append("\n\n[Document Middle]\n\n");
    out.append(prefix(rest.as_str(), TEXT_SLICE_BYTES).as_str());
    out.append("\n\n[Document End]\n\n");
    out.append(suffix(content, TEXT_SLICE_BYTES).as_str());
    assert(out@ =~= text_sample(content@));
    out
}

/// What the model is asked about a text.
pub open spec fn instructions_text(
    s: Seq<char>,
    path: Option<Seq<char>>,
    headers: Seq<Seq<char>>,
    bound: nat,
) -> Seq<char> {
    "Summarize this large file for retrieval-time context references.\nPath: "@ + match path {
        Some(p) => p,
        None => "unknown"@,
    } + "\nLength: "@ + decimal(utf8_len(s)) + " chars, "@ + decimal(lines_of(s).len())
        + " lines.\nDetected section headers: "@ + listed(headers, " | "@, "none"@)
        + "\nProduce at most "@ + decimal(bound)
        + " tokens covering:\n- What the document is about\n- Key sections and topics\n- Important names, dates, and numbers\n- Any action items or constraints\nDo not quote long passages verbatim."@
}

/// What the model is asked about a text.
pub fn build_text_instructions(
    content: &str,
    path: Option<&str>,
    headers: &Vec<String>,
    summary_token_bound: u32,
) -> (r: String)
    ensures
        r@ == instructions_text(
            content@,
            path_view(path),
            views(headers@),
            summary_token_bound as nat,
        ),
{
    let rows = lines(content);
    assert(views(rows@).len() == rows@.len());
    let mut out = String::new();
    out.append("Summarize this large file for retrieval-time context references.\nPath: ");
    match path {
        Some(p) => out.append(p),
        None => out.append("unknown"),
    }
    out.append("\nLength: ");
    push_usize(&mut out, byte_len(content));
    out.append(" chars, ");
    push_usize(&mut out, rows.len());
    out.append(" lines.\nDetected section headers: ");
    out.append(list(headers, " | ", "none").as_str());
    out.append("\nProduce at most ");
    push_decimal(&mut out, summary_token_bound as u64);
    out.append(
        " tokens covering:\n- What the document is about\n- Key sections and topics\n- Important names, dates, and numbers\n- Any action items or constraints\nDo not quote long passages verbatim.",
    );
    assert(out@ =~= instructions_text(
        content@,
        path_view(path),
        views(headers@),
        summary_token_bound as nat,
    ));
    out
}

/// What is said of a text without a model.
pub open spec fn fallback_survey(s: Seq<char>, path: Option<Seq<char>>) -> Seq<char> {
    "Text exploration summary"@ + name_part(path) + ":\nCharacters: "@ + decimal(utf8_len(s))
        + ".\nWords: "@ + decimal(words_of(s).len()) + ".\nLines: "@ + decimal(lines_of(s).len())
        + ".\nDetected section headers: "@ + listed(headers_of(s), " | "@, "none detected"@)
        + ".\nOpening excerpt: "@ + normalized(prefix_of(s, 500), 500) + ".\nClosing excerpt: "@
        + normalized(suffix_of(s, 500), 500) + "."@
}

/// What is said of a text without a model.
pub fn explore_text_fallback(content: &str, path: Option<&str>) -> (r: String)
    ensures
        r@ == fallback_survey(content@, path_view(path)),
{
    let headers = extract_text_headers(content);
    let rows = lines(content);
    assert(views(rows@).len() == rows@.len());
    let counted = words(content);
    assert(views(counted@).len() == counted@.len());
    let mut out = String::new();
    out.append("Text exploration summary");
    push_name(&mut out, path);
    out.append(":\nCharacters: ");
    push_usize(&mut out, byte_len(content));
    out.append(".\nWords: ");
    push_usize(&mut out, counted.len());
    out.append(".\nLines: ");
    push_usize(&mut out, rows.len());
    out.append(".\nDetected section headers: ");
    out.append(list(&headers, " | ", "none detected").as_str());
    out.append(".\nOpening excerpt: ");
    out.append(normalize_line(prefix(content, 500).as_str(), 500).as_str());
    out.append(".\nClosing excerpt: ");
    out.append(normalize_line(suffix(content, 500).as_str(), 500).as_str());
    out.append(".");
    assert(out@ =~= fallback_survey(content@, path_view(path)));
    out
}

// ── The whole ───────────────────────────────────────────────────────

/// What an exploration does next.
pub enum ExplorationStep {
    /// The summary is settled.
    Done(String),
    /// Ask the model with these instructions about this sample.
    Ask { instructions: String, sample: Vec<Message> },
}

/// What is said of a payload without a model; `None` where a model is asked.
pub open spec fn survey_of(content: Seq<char>, path: Option<Seq<char>>) -> Option<Seq<char>> {
    match kind_of(path, content) {
        FileKind::Json => match json_of(content) {
            Some(value) => Some(json_survey(value)),
            None => None,
        },
        FileKind::Csv => Some(delimited_survey(content, ',', "CSV"@)),
        FileKind::Tsv => Some(delimited_survey(content, '\t', "TSV"@)),
        FileKind::Yaml => Some(yaml_survey(content)),
        FileKind::Xml => Some(xml_survey(content)),
        FileKind::Sql => Some(
            sql_survey(
                or_none(regex_groups(SQL_TABLE_PATTERN@, content)),
                or_none(regex_found(SQL_INSERT_PATTERN@, content)).len(),
            ),
        ),
        FileKind::Code => Some(
            code_survey(
                path,
                lines_of(content).len(),
                unique_of(first_of(import_lines(lines_of(content)), 12)),
                unique_of(first_of(signature_lines(lines_of(content)), 24)),
            ),
        ),
        FileKind::Binary => Some(binary_survey(vstd::utf8::encode_utf8(content))),
        FileKind::Text => None,
    }
}

/// The request that asks the model about a text.
pub fn text_request(content: &str, path: Option<&str>, summary_token_bound: u32) -> (r: (
    String,
    Vec<Message>,
))
    ensures
        r.0@ == instructions_text(
            content@,
            path_view(path),
            headers_of(content@),
            summary_token_bound as nat,
        ),
        message_views(r.1@) == seq![MessageView::User { content: text_sample(content@) }],
{
    let headers = extract_text_headers(content);
    let instructions = build_text_instructions(content, path, &headers, summary_token_bound);
    let mut sample: Vec<Message> = Vec::new();
    sample.push(Message::User { content: build_text_sample(content) });
    assert(message_views(sample@) =~= seq![MessageView::User { content: text_sample(content@) }]);
    (instructions, sample)
}

/// Whether `r` is what the exploration of a payload takes: its survey, or the
/// request to the model where there is none.
pub open spec fn explores(
    content: Seq<char>,
    path: Option<Seq<char>>,
    bound: u32,
    r: ExplorationStep,
) -> bool {
    match (survey_of(content, path), r) {
        (Some(text), ExplorationStep::Done(s)) => s@ == text,
        (None, ExplorationStep::Ask { instructions, sample }) => {
            &&& instructions@ == instructions_text(content, path, headers_of(content), bound as nat)
            &&& message_views(sample@) == seq![MessageView::User { content: text_sample(content) }]
        },
        _ => false,
    }
}

/// What is said of a text, given the model's reply.
pub open spec fn settled(content: Seq<char>, path: Option<Seq<char>>, reply: Option<String>) -> Seq<
    char,
> {
    match reply {
        Some(text) if trimmed(text@).len() > 0 => trimmed(text@),
        _ => fallback_survey(content, path),
    }
}

/// Explores a payload by its kind. Plain text, and what claims to be JSON but
/// is not, is put before the model.
pub fn exploration_summary(content: &str, path: Option<&str>, summary_token_bound: u32) -> (r:
    ExplorationStep)
    ensures
        explores(content@, path_view(path), summary_token_bound, r),
{
    let settled: Option<String> = match detect_kind(path, content) {
        FileKind::Json => explore_json(content),
        FileKind::Csv => Some(explore_delimited(content, ',', "CSV")),
        FileKind::Tsv => Some(explore_delimited(content, '\t', "TSV")),
        FileKind::Yaml => Some(explore_yaml(content)),
        FileKind::Xml => Some(explore_xml(content)),
        FileKind::Sql => Some(explore_sql(content)),
        FileKind::Code => Some(explore_code(content, path)),
        FileKind::Binary => Some(explore_binary(content)),
        FileKind::Text => None,
    };
    match settled {
        Some(text) => ExplorationStep::Done(text),
        None => {
            let (instructions, sample) = text_request(content, path, summary_token_bound);
            ExplorationStep::Ask { instructions, sample }
        },
    }
}

/// What is said of a text, given the model's reply: `None` where the call
/// failed. A blank reply counts for none.
pub fn settle_exploration(content: &str, path: Option<&str>, reply: &Option<String>) -> (r:
    String)
    ensures
        r@ == settled(content@, path_view(path), *reply),
{
    match reply {
        Some(text) => {
            let summary = trim(text.as_str());
            if !summary.as_str().is_empty() {
                return summary;
            }
        },
        None => {},
    }
    explore_text_fallback(content, path)
}

// ── What a survey says ──────────────────────────────────────────────

/// The lines that are not blank are kept, in order, without whitespace around
/// them.
pub proof fn trimmed_lines_leave_out_blanks(lines: Seq<Seq<char>>)
    ensures
        trimmed_lines(lines) == lines.filter(|line: Seq<char>| !is_blank(line)).map_values(
            |line: Seq<char>| trimmed(line),
        ),
    decreases lines.len(),
{
    reveal(Seq::filter);
    let picked = lines.filter(|line: Seq<char>| !is_blank(line));
    if lines.len() > 0 {
        lemma_blank_is_trimmed_empty(lines.last());
        trimmed_lines_leave_out_blanks(lines.drop_last());
    }
    assert(trimmed_lines(lines) =~= picked.map_values(|line: Seq<char>| trimmed(line)));
}

/// The keys are those of the lines that start with one, in order.
pub proof fn keys_are_those_of_the_lines(lines: Seq<Seq<char>>)
    ensures
        keys_of(lines) == lines.filter(|line: Seq<char>| key_of(line) is Some).map_values(
            |line: Seq<char>| key_of(line)->0,
        ),
    decreases lines.len(),
{
    reveal(Seq::filter);
    let picked = lines.filter(|line: Seq<char>| key_of(line) is Some);
    if lines.len() > 0 {
        keys_are_those_of_the_lines(lines.drop_last());
    }
    assert(keys_of(lines) =~= picked.map_values(|line: Seq<char>| key_of(line)->0));
}

/// Every text but the root is kept, in order.
pub proof fn others_are_all_but_the_root(lines: Seq<Seq<char>>, root: Seq<char>)
    ensures
        others_than(lines, root) == lines.filter(|line: Seq<char>| line != root).map_values(
            |line: Seq<char>| line,
        ),
    decreases lines.len(),
{
    reveal(Seq::filter);
    let picked = lines.filter(|line: Seq<char>| line != root);
    if lines.len() > 0 {
        others_are_all_but_the_root(lines.drop_last(), root);
    }
    assert(others_than(lines, root) =~= picked.map_values(|line: Seq<char>| line));
}

/// The imports are the lines that import something, in order.
pub proof fn imports_are_the_lines_that_import(lines: Seq<Seq<char>>)
    ensures
        import_lines(lines) == lines.filter(|line: Seq<char>| matched(IMPORT_PATTERN@, line)).map_values(
            |line: Seq<char>| normalized(line, 180),
        ),
    decreases lines.len(),
{
    reveal(Seq::filter);
    let picked = lines.filter(|line: Seq<char>| matched(IMPORT_PATTERN@, line));
    if lines.len() > 0 {
        imports_are_the_lines_that_import(lines.drop_last());
    }
    assert(import_lines(lines) =~= picked.map_values(|line: Seq<char>| normalized(line, 180)));
}

/// The definitions are the lines that start one, in order, whatever their
/// indentation.
pub proof fn signatures_are_the_lines_that_define(lines: Seq<Seq<char>>)
    ensures
        signature_lines(lines) == lines.filter(|line: Seq<char>| matched(SIGNATURE_PATTERN@, trimmed(line))).map_values(
            |line: Seq<char>| normalized(trimmed(line), 200),
        ),
    decreases lines.len(),
{
    reveal(Seq::filter);
    let picked = lines.filter(|line: Seq<char>| matched(SIGNATURE_PATTERN@, trimmed(line)));
    if lines.len() > 0 {
        signatures_are_the_lines_that_define(lines.drop_last());
    }
    assert(signature_lines(lines) =~= picked.map_values(|line: Seq<char>| normalized(trimmed(line), 200)));
}

/// The headers are the lines that look like one, in order.
pub proof fn headers_are_the_lines_that_head(lines: Seq<Seq<char>>)
    ensures
        header_lines(lines) == lines.filter(|line: Seq<char>| is_header(line)).map_values(
            |line: Seq<char>| normalized(trimmed(line), 160),
        ),
    decreases lines.len(),
{
    reveal(Seq::filter);
    let picked = lines.filter(|line: Seq<char>| is_header(line));
    if lines.len() > 0 {
        headers_are_the_lines_that_head(lines.drop_last());
    }
    assert(header_lines(lines) =~= picked.map_values(|line: Seq<char>| normalized(trimmed(line), 160)));
}

/// A list that is shown names every value, or says that there is none.
proof fn lemma_listed(values: Seq<Seq<char>>, sep: Seq<char>, none: Seq<char>, i: int)
    ensures
        0 <= i < values.len() ==> occurs(listed(values, sep, none), values[i]),
        values.len() == 0 ==> listed(values, sep, none) == none,
{
    if 0 <= i < values.len() {
        joined_text_holds_every_part(values, sep, i);
    }
}

/// A line starts with a key exactly where letters, digits, underscores, dots
/// or dashes stand at its start with a colon behind them.
pub proof fn a_key_stands_before_a_colon(line: Seq<char>)
    ensures
        key_of(line) matches Some(key) ==> key.len() > 0 && has_prefix(line, key + ":"@) && forall|
            i: int,
        |
            0 <= i < key.len() ==> is_key_char(#[trigger] key[i]),
        (exists|k: int|
            0 < k < line.len() && #[trigger] line[k] == ':' && forall|i: int|
                0 <= i < k ==> is_key_char(#[trigger] line[i])) ==> key_of(line) is Some,
{
    reveal_strlit(":");
    lemma_key_run_is_a_run(line);
    let k = key_run(line) as int;
    if let Some(key) = key_of(line) {
        assert(line.take(k + 1) =~= key + ":"@);
    }
    if exists|k: int|
        0 < k < line.len() && #[trigger] line[k] == ':' && forall|i: int|
            0 <= i < k ==> is_key_char(#[trigger] line[i]) {
        let j = choose|j: int|
            0 < j < line.len() && #[trigger] line[j] == ':' && forall|i: int|
                0 <= i < j ==> is_key_char(#[trigger] line[i]);
        lemma_key_run(line, j);
    }
}

proof fn lemma_key_run_is_a_run(s: Seq<char>)
    ensures
        key_run(s) <= s.len(),
        forall|i: int| 0 <= i < key_run(s) ==> is_key_char(#[trigger] s[i]),
    decreases s.len(),
{
    if s.len() > 0 && is_key_char(s[0]) {
        let rest = s.drop_first();
        lemma_key_run_is_a_run(rest);
        assert forall|i: int| 0 <= i < key_run(s) implies is_key_char(#[trigger] s[i]) by {
            if i > 0 {
                assert(rest[i - 1] == s[i]);
            }
        }
    }
}

/// Tags are found one after the other: text without an angle bracket is passed
/// over, and the name of an element is taken where it opens.
pub proof fn tags_are_found_in_order(text: Seq<char>, name: Seq<char>, end: char, rest: Seq<char>)
    requires
        !text.contains('<'),
        name.len() > 0,
        forall|i: int| 0 <= i < name.len() ==> is_tag_char(#[trigger] name[i]),
        end == '>' || is_space(end),
    ensures
        tags_of(text) == Seq::<Seq<char>>::empty(),
        tags_of(text + seq!['<'] + name + seq![end] + rest) == seq![name] + tags_of(rest),
    decreases text.len(),
{
    let s = text + seq!['<'] + name + seq![end] + rest;
    if text.len() == 0 {
        let after = s.drop_first();
        assert(s[0] == '<');
        assert forall|i: int| 0 <= i < name.len() implies is_tag_char(#[trigger] after[i]) by {
            assert(after[i] == name[i]);
        }
        assert(after[name.len() as int] == end);
        assert(!is_tag_char(end));
        lemma_tag_run(after, name.len() as int);
        assert(s.subrange(1, (1 + name.len()) as int) =~= name);
        assert(s.skip((name.len() + 2) as int) =~= rest);
    } else {
        let tail = text.drop_first();
        assert(text.contains(text[0]));
        assert forall|i: int| 0 <= i < tail.len() implies tail[i] != '<' by {
            assert(text.contains(text[i + 1]));
        }
        tags_are_found_in_order(tail, name, end, rest);
        assert(s.drop_first() =~= tail + seq!['<'] + name + seq![end] + rest);
        assert(s[0] == text[0]);
    }
}

/// The items of an array and the fields of an object are described one by one:
/// each item by its shape, each field by its name and its shape.
pub proof fn shapes_are_given_one_by_one(
    items: Seq<JsonView>,
    fields: Seq<(Seq<char>, JsonView)>,
    n: nat,
    depth: nat,
)
    ensures
        item_shapes(items, n, depth).len() == n,
        field_shapes(fields, n, depth).len() == n,
        forall|i: int|
            0 <= i < n ==> #[trigger] item_shapes(items, n, depth)[i] == shape_of(items[i], depth),
        forall|i: int|
            0 <= i < n ==> #[trigger] field_shapes(fields, n, depth)[i] == fields[i].0 + ": "@
                + shape_of(fields[i].1, depth),
    decreases n,
{
    if n > 0 {
        shapes_are_given_one_by_one(items, fields, (n - 1) as nat, depth);
    }
}

/// The shape of a value is told two levels deep: an array with its length and
/// its first three items, an object with how many keys it has and its first ten
/// fields, anything else by its type.
pub proof fn a_shape_tells_two_levels(value: JsonView, depth: nat, i: int)
    ensures
        depth >= 2 ==> shape_of(value, depth) == "..."@,
        depth < 2 ==> (value matches JsonView::Array(items) ==> has_prefix(
            shape_of(value, depth),
            "array(len="@ + decimal(items.len()),
        ) && (0 <= i < items.len() && i < 3 ==> occurs(
            shape_of(value, depth),
            shape_of(items[i], depth + 1),
        ))),
        depth < 2 ==> (value matches JsonView::Object(fields) ==> has_prefix(
            shape_of(value, depth),
            "object(keys="@ + decimal(fields.len()),
        ) && (0 <= i < fields.len() && i < 10 ==> occurs(
            shape_of(value, depth),
            fields[i].0 + ": "@ + shape_of(fields[i].1, depth + 1),
        ))),
        depth < 2 && !(value is Array) && !(value is Object) ==> shape_of(value, depth) == match value {
            JsonView::Null => "null"@,
            JsonView::Bool(_) => "bool"@,
            JsonView::Number(_) => "number"@,
            _ => "string"@,
        },
{
    if depth < 2 {
        match value {
            JsonView::Array(items) => {
                let t = shape_of(value, depth);
                let a = "array(len="@ + decimal(items.len());
                if items.len() > 0 {
                    let n = least(items.len(), 3);
                    let shapes = item_shapes(items, n, depth + 1);
                    let list = joined(shapes, ", "@);
                    assert(t.take(a.len() as int) =~= a);
                    shapes_are_given_one_by_one(items, Seq::empty(), n, depth + 1);
                    if 0 <= i < n {
                        joined_text_holds_every_part(shapes, ", "@, i);
                        lemma_occurs_in_part(a + ", sample=["@, list, "])"@, shapes[i]);
                    }
                } else {
                    reveal_strlit("array(len=0)");
                    reveal_strlit("array(len=");
                    assert(decimal(0) =~= seq!['0']);
                    assert(t.take(a.len() as int) =~= a);
                }
            },
            JsonView::Object(fields) => {
                let t = shape_of(value, depth);
                let a = "object(keys="@ + decimal(fields.len());
                if fields.len() > 0 {
                    let n = least(fields.len(), 10);
                    let shapes = field_shapes(fields, n, depth + 1);
                    let list = joined(shapes, ", "@);
                    assert(t.take(a.len() as int) =~= a);
                    shapes_are_given_one_by_one(Seq::empty(), fields, n, depth + 1);
                    if 0 <= i < n {
                        joined_text_holds_every_part(shapes, ", "@, i);
                        lemma_occurs_in_part(a + ": "@, list, ")"@, shapes[i]);
                    }
                } else {
                    reveal_strlit("object(keys=0)");
                    reveal_strlit("object(keys=");
                    assert(decimal(0) =~= seq!['0']);
                    assert(t.take(a.len() as int) =~= a);
                }
            },
            _ => {},
        }
    }
}

/// The survey of a JSON payload gives its type and its shape.
pub proof fn a_json_survey_gives_the_shape(value: JsonView)
    ensures
        has_suffix(json_survey(value), ".\nShape: "@ + shape_of(value, 0) + "."@),
        has_prefix(
            json_survey(value),
            "Structured summary (JSON):\nTop-level type: "@ + kind_name(value),
        ),
        kind_name(value) == match value {
            JsonView::Array(_) => "array"@,
            JsonView::Object(_) => "object"@,
            _ => shape_of(value, 0),
        },
{
    let t = json_survey(value);
    let a = "Structured summary (JSON):\nTop-level type: "@ + kind_name(value);
    let b = ".\nShape: "@ + shape_of(value, 0) + "."@;
    assert(t.take(a.len() as int) =~= a);
    assert(t.skip(t.len() - b.len()) =~= b);
}

/// The survey of delimited rows counts the rows below the first, names every
/// column of the first, and shows the second.
pub proof fn a_row_survey_names_every_column(s: Seq<char>, delimiter: char, kind: Seq<char>, i: int)
    ensures
        ({
            let rows = trimmed_lines(lines_of(s));
            let t = delimited_survey(s, delimiter, kind);
            &&& rows.len() == 0 ==> t == "Structured summary ("@ + kind + "): no rows found."@
            &&& rows.len() > 0 ==> {
                let headers = trimmed_lines(split_at_char(rows[0], delimiter));
                &&& has_prefix(
                    t,
                    "Structured summary ("@ + kind + "):\nRows: "@ + decimal((rows.len() - 1) as nat)
                        + ".\nColumns ("@ + decimal(headers.len()) + "): "@,
                )
                &&& 0 <= i < headers.len() ==> occurs(t, headers[i])
                &&& rows.len() > 1 ==> has_suffix(
                    t,
                    ".\nFirst row sample: "@ + normalized(rows[1], 180) + "."@,
                )
                &&& rows.len() == 1 ==> has_suffix(t, "(no data rows)."@)
            }
        }),
{
    let rows = trimmed_lines(lines_of(s));
    let t = delimited_survey(s, delimiter, kind);
    if rows.len() > 0 {
        let headers = trimmed_lines(split_at_char(rows[0], delimiter));
        let list = listed(headers, ", "@, "(none detected)"@);
        let sample = if rows.len() > 1 {
            normalized(rows[1], 180)
        } else {
            "(no data rows)"@
        };
        let a = "Structured summary ("@ + kind + "):\nRows: "@ + decimal((rows.len() - 1) as nat)
            + ".\nColumns ("@ + decimal(headers.len()) + "): "@;
        let c = ".\nFirst row sample: "@ + sample + "."@;
        assert(t =~= a + list + c);
        assert(t.take(a.len() as int) =~= a);
        assert(t.skip(t.len() - c.len()) =~= c);
        lemma_listed(headers, ", "@, "(none detected)"@, i);
        if 0 <= i < headers.len() {
            lemma_occurs_in_part(a, list, c, headers[i]);
        }
        if rows.len() == 1 {
            reveal_strlit("(no data rows).");
            reveal_strlit("(no data rows)");
            reveal_strlit(".");
            let e = "(no data rows)."@;
            assert(t.skip(t.len() - e.len()) =~= e);
        }
    }
}

/// The survey of a YAML payload counts its top-level keys and names each of the
/// first thirty.
pub proof fn a_yaml_survey_names_the_keys(s: Seq<char>, i: int)
    ensures
        ({
            let keys = unique_of(keys_of(lines_of(s)));
            &&& has_prefix(
                yaml_survey(s),
                "Structured summary (YAML):\nTop-level keys ("@ + decimal(keys.len()) + "): "@,
            )
            &&& 0 <= i < keys.len() && i < 30 ==> occurs(yaml_survey(s), keys[i])
        }),
{
    let keys = unique_of(keys_of(lines_of(s)));
    let t = yaml_survey(s);
    let a = "Structured summary (YAML):\nTop-level keys ("@ + decimal(keys.len()) + "): "@;
    assert(t.take(a.len() as int) =~= a);
    if 0 <= i < keys.len() && i < 30 {
        let some = first_of(keys, 30);
        joined_text_holds_every_part(some, ", "@, i);
        lemma_occurs_in_part(a, joined(some, ", "@), "."@, keys[i]);
    }
}

/// The survey of an XML payload names the first element as its root, and each
/// other element among the first thirty tags.
pub proof fn an_xml_survey_names_the_elements(s: Seq<char>, i: int)
    ensures
        ({
            let tags = tags_of(s);
            let others = others_than(tags.drop_first(), tags[0]);
            &&& tags.len() == 0 ==> xml_survey(s)
                == "Structured summary (XML): no elements detected."@
            &&& tags.len() > 0 ==> has_prefix(
                xml_survey(s),
                "Structured summary (XML):\nRoot element: "@ + tags[0] + ".\nChild elements seen: "@,
            )
            &&& tags.len() > 0 && 0 <= i < others.len() && i < 30 ==> occurs(
                xml_survey(s),
                others[i],
            )
        }),
{
    let tags = tags_of(s);
    let t = xml_survey(s);
    if tags.len() > 0 {
        let some = first_of(others_than(tags.drop_first(), tags[0]), 30);
        let children = unique_of(some);
        let list = listed(children, ", "@, "(none detected)"@);
        let a = "Structured summary (XML):\nRoot element: "@ + tags[0]
            + ".\nChild elements seen: "@;
        assert(t =~= a + list + "."@);
        assert(t.take(a.len() as int) =~= a);
        if 0 <= i < some.len() {
            let x = some[i];
            unique_keeps_every_value_once(some);
            assert(some.contains(x));
            assert(children.contains(x));
            let k = choose|k: int| 0 <= k < children.len() && children[k] == x;
            lemma_listed(children, ", "@, "(none detected)"@, k);
            lemma_occurs_in_part(a, list, "."@, x);
        }
    }
}

/// The survey of a SQL payload names every table, each once, and counts the
/// statements that insert.
pub proof fn a_sql_survey_names_every_table(found: Seq<Seq<char>>, inserts: nat, i: int)
    ensures
        has_prefix(
            sql_survey(found, inserts),
            "Structured summary (SQL):\nTables ("@ + decimal(unique_of(found).len()) + "): "@,
        ),
        has_suffix(sql_survey(found, inserts), ".\nINSERT statements: "@ + decimal(inserts) + "."@),
        0 <= i < found.len() ==> occurs(sql_survey(found, inserts), found[i]),
{
    let tables = unique_of(found);
    let t = sql_survey(found, inserts);
    let list = listed(tables, ", "@, "(none detected)"@);
    let a = "Structured summary (SQL):\nTables ("@ + decimal(tables.len()) + "): "@;
    let c = ".\nINSERT statements: "@ + decimal(inserts) + "."@;
    assert(t =~= a + list + c);
    assert(t.take(a.len() as int) =~= a);
    assert(t.skip(t.len() - c.len()) =~= c);
    if 0 <= i < found.len() {
        unique_keeps_every_value_once(found);
        assert(found.contains(found[i]));
        assert(tables.contains(found[i]));
        let k = choose|k: int| 0 <= k < tables.len() && tables[k] == found[i];
        lemma_listed(tables, ", "@, "(none detected)"@, k);
        lemma_occurs_in_part(a, list, c, found[i]);
    }
}

/// The survey of source code counts its lines, and names every import and every
/// definition that it is given.
pub proof fn a_code_survey_names_what_it_is_given(
    path: Option<Seq<char>>,
    line_count: nat,
    imports: Seq<Seq<char>>,
    signatures: Seq<Seq<char>>,
    i: int,
)
    ensures
        ({
            let t = code_survey(path, line_count, imports, signatures);
            &&& path matches Some(p) ==> has_prefix(t, "Code exploration summary ("@ + p + ")"@)
            &&& occurs(t, ":\nLines: "@ + decimal(line_count) + "."@)
            &&& 0 <= i < imports.len() ==> occurs(t, imports[i])
            &&& 0 <= i < signatures.len() ==> occurs(t, signatures[i])
        }),
{
    let t = code_survey(path, line_count, imports, signatures);
    let x = listed(imports, " | "@, "none detected"@);
    let y = listed(signatures, " | "@, "none detected"@);
    let head = "Code exploration summary"@ + name_part(path);
    let lines = ":\nLines: "@ + decimal(line_count) + "."@;
    reveal_strlit(".\nImports/dependencies (");
    reveal_strlit(".");
    reveal_strlit("\nImports/dependencies (");
    let b = "\nImports/dependencies ("@ + decimal(imports.len()) + "): "@;
    let c = ".\nTop-level definitions ("@ + decimal(signatures.len()) + "): "@;
    assert(".\nImports/dependencies ("@ =~= "."@ + "\nImports/dependencies ("@);
    assert(t =~= head + lines + b + x + c + y + "."@);
    lemma_occurs_within(head, lines, b + x + c + y + "."@);
    assert(t =~= head + lines + (b + x + c + y + "."@));
    lemma_listed(imports, " | "@, "none detected"@, i);
    lemma_listed(signatures, " | "@, "none detected"@, i);
    if 0 <= i < imports.len() {
        lemma_occurs_in_part(head + lines + b, x, c + y + "."@, imports[i]);
        assert(t =~= head + lines + b + x + (c + y + "."@));
    }
    if 0 <= i < signatures.len() {
        lemma_occurs_in_part(head + lines + b + x + c, y, "."@, signatures[i]);
    }
    if let Some(p) = path {
        reveal_strlit("Code exploration summary (");
        reveal_strlit("Code exploration summary");
        reveal_strlit(" (");
        let a = "Code exploration summary ("@ + p + ")"@;
        assert(head =~= a);
        assert(t.take(a.len() as int) =~= a);
    }
}

/// A dump shows every byte in two hexadecimal digits, one space between each
/// two bytes.
pub proof fn a_dump_shows_every_byte(bytes: Seq<u8>, i: int)
    requires
        0 <= i < bytes.len(),
    ensures
        hex_dump(bytes).len() == 3 * bytes.len() - 1,
        hex_dump(bytes).subrange(3 * i, 3 * i + 2) == hex_of(seq![bytes[i]]),
        i > 0 ==> hex_dump(bytes)[3 * i - 1] == ' ',
    decreases bytes.len(),
{
    reveal_strlit(" ");
    let t = hex_dump(bytes);
    lemma_hex_of(seq![bytes.last()]);
    if bytes.len() == 1 {
        assert(bytes =~= seq![bytes.last()]);
        assert(t.subrange(0, 2) =~= t);
    } else {
        let rest = bytes.drop_last();
        if i < rest.len() {
            a_dump_shows_every_byte(rest, i);
            assert(rest[i] == bytes[i]);
            assert(t.subrange(3 * i, 3 * i + 2) =~= hex_dump(rest).subrange(3 * i, 3 * i + 2));
        } else {
            a_dump_shows_every_byte(rest, 0);
            assert(t.subrange(3 * i, 3 * i + 2) =~= hex_of(seq![bytes[i]]));
        }
    }
}

/// The survey of binary data gives its length, and the first 256 bytes or all.
pub proof fn a_binary_survey_shows_the_start(bytes: Seq<u8>)
    ensures
        has_prefix(
            binary_survey(bytes),
            "Binary payload summary:\nBytes: "@ + decimal(bytes.len()) + ".\nFirst "@,
        ),
        bytes.len() <= 256 ==> has_suffix(
            binary_survey(bytes),
            decimal(bytes.len()) + " bytes (hex): "@ + hex_dump(bytes),
        ),
        bytes.len() > 256 ==> has_suffix(
            binary_survey(bytes),
            decimal(256) + " bytes (hex): "@ + hex_dump(bytes.take(256)),
        ),
{
    let t = binary_survey(bytes);
    let a = "Binary payload summary:\nBytes: "@ + decimal(bytes.len()) + ".\nFirst "@;
    assert(t.take(a.len() as int) =~= a);
    if bytes.len() <= 256 {
        assert(bytes.take(bytes.len() as int) =~= bytes);
        let b = decimal(bytes.len()) + " bytes (hex): "@ + hex_dump(bytes);
        assert(t.skip(t.len() - b.len()) =~= b);
    } else {
        let b = decimal(256) + " bytes (hex): "@ + hex_dump(bytes.take(256));
        assert(t.skip(t.len() - b.len()) =~= b);
    }
}

/// The model sees a small text whole. Of a larger one it sees the longest start
/// and the longest end of 2400 bytes, and a piece between them.
pub proof fn a_sample_shows_start_middle_and_end(s: Seq<char>)
    ensures
        utf8_len(s) <= 4_800 ==> text_sample(s) == s,
        utf8_len(s) > 4_800 ==> exists|i: int, j: int, m: int, k: int| #[trigger]
            is_sample(s, i, j, m, k) && text_sample(s) == "[Document Start]\n\n"@ + s.take(i)
                + "\n\n[Document Middle]\n\n"@ + s.subrange(m, k) + "\n\n[Document End]\n\n"@
                + s.skip(j),
{
    if utf8_len(s) > 4_800 {
        let head = prefix_of(s, 2_400);
        let tail = suffix_of(s, 2_400);
        prefix_is_the_longest_that_fits(s, 2_400);
        suffix_is_the_longest_that_fits(s, 2_400);
        let start = (utf8_len(s) - 2_400) / 2;
        let back = suffix_of(s, (utf8_len(s) - start) as nat);
        suffix_is_the_longest_that_fits(s, (utf8_len(s) - start) as nat);
        let mid = prefix_of(back, 2_400);
        prefix_is_the_longest_that_fits(back, 2_400);
        let i = head.len() as int;
        let j = s.len() - tail.len();
        let m = s.len() - back.len();
        let k = m + mid.len();
        assert(mid =~= s.subrange(m, k));
        lemma_utf8_len_split(s, m);
        lemma_utf8_len_split(s, j);
        if m > 0 {
            lemma_utf8_len_split(s, m - 1);
        }
        assert(k < s.len() ==> utf8_len(s.subrange(m, k + 1)) > 2_400) by {
            if k < s.len() {
                assert(back.take((mid.len() + 1) as int) =~= s.subrange(m, k + 1));
            }
        }
        assert(s.skip(0) =~= s);
        assert(s.take(s.len() as int) =~= s);
        assert(is_sample(s, i, j, m, k));
    }
}

/// Whether a text is cut for a sample: its start ends at `i` and its end begins
/// at `j`, each as long as 2400 bytes allow, and what is shown of its middle
/// goes from `m`, half way between, to `k`.
pub open spec fn is_sample(s: Seq<char>, i: int, j: int, m: int, k: int) -> bool {
    &&& 0 <= i < s.len()
    &&& utf8_len(s.take(i)) <= 2_400
    &&& utf8_len(s.take(i + 1)) > 2_400
    &&& 0 < j <= s.len()
    &&& utf8_len(s.skip(j)) <= 2_400
    &&& utf8_len(s.skip(j - 1)) > 2_400
    &&& 0 <= m <= k <= s.len()
    &&& utf8_len(s.take(m)) >= (utf8_len(s) - 2_400) / 2
    &&& m > 0 ==> utf8_len(s.take(m - 1)) < (utf8_len(s) - 2_400) / 2
    &&& utf8_len(s.subrange(m, k)) <= 2_400
    &&& k < s.len() ==> utf8_len(s.subrange(m, k + 1)) > 2_400
}

/// The model is told the path, the size and the headers of a text, and how long
/// its answer may be.
pub proof fn instructions_tell_what_is_known(
    s: Seq<char>,
    path: Option<Seq<char>>,
    headers: Seq<Seq<char>>,
    bound: nat,
    i: int,
)
    ensures
        ({
            let t = instructions_text(s, path, headers, bound);
            &&& path matches Some(p) ==> occurs(t, "\nPath: "@ + p + "\n"@)
            &&& occurs(t, "Produce at most "@ + decimal(bound) + " tokens"@)
            &&& 0 <= i < headers.len() ==> occurs(t, headers[i])
        }),
{
    let t = instructions_text(s, path, headers, bound);
    let p = match path {
        Some(p) => p,
        None => "unknown"@,
    };
    let a = "Summarize this large file for retrieval-time context references.\nPath: "@;
    let size = "\nLength: "@ + decimal(utf8_len(s)) + " chars, "@ + decimal(lines_of(s).len())
        + " lines.\nDetected section headers: "@;
    let list = listed(headers, " | "@, "none"@);
    let ask = "\nProduce at most "@;
    let end =
        " tokens covering:\n- What the document is about\n- Key sections and topics\n- Important names, dates, and numbers\n- Any action items or constraints\nDo not quote long passages verbatim."@;
    assert(t =~= a + p + size + list + ask + decimal(bound) + end);
    if 0 <= i < headers.len() {
        lemma_listed(headers, " | "@, "none"@, i);
        lemma_occurs_in_part(a + p + size, list, ask + decimal(bound) + end, headers[i]);
        assert(t =~= a + p + size + list + (ask + decimal(bound) + end));
    }
    lemma_ask(a + p + size + list, bound);
    if let Some(q) = path {
        lemma_path_line(q, decimal(utf8_len(s)) + " chars, "@ + decimal(lines_of(s).len())
            + " lines.\nDetected section headers: "@ + list + ask + decimal(bound) + end);
        assert(t =~= a + q + "\nLength: "@ + (decimal(utf8_len(s)) + " chars, "@ + decimal(
            lines_of(s).len(),
        ) + " lines.\nDetected section headers: "@ + list + ask + decimal(bound) + end));
    }
}

proof fn lemma_ask(before: Seq<char>, bound: nat)
    ensures
        occurs(
            before + "\nProduce at most "@ + decimal(bound)
                + " tokens covering:\n- What the document is about\n- Key sections and topics\n- Important names, dates, and numbers\n- Any action items or constraints\nDo not quote long passages verbatim."@,
            "Produce at most "@ + decimal(bound) + " tokens"@,
        ),
{
    let end =
        " tokens covering:\n- What the document is about\n- Key sections and topics\n- Important names, dates, and numbers\n- Any action items or constraints\nDo not quote long passages verbatim."@;
    reveal_strlit("\nProduce at most ");
    reveal_strlit("Produce at most ");
    reveal_strlit(" tokens");
    reveal_strlit(
        " tokens covering:\n- What the document is about\n- Key sections and topics\n- Important names, dates, and numbers\n- Any action items or constraints\nDo not quote long passages verbatim.",
    );
    let t = before + "\nProduce at most "@ + decimal(bound) + end;
    let pat = "Produce at most "@ + decimal(bound) + " tokens"@;
    let at = before.len() + 1;
    assert(t.subrange(at as int, (at + pat.len()) as int) =~= pat);
    assert(stands_at(t, pat, at as int));
}

proof fn lemma_path_line(p: Seq<char>, rest: Seq<char>)
    ensures
        occurs(
            "Summarize this large file for retrieval-time context references.\nPath: "@ + p
                + "\nLength: "@ + rest,
            "\nPath: "@ + p + "\n"@,
        ),
{
    let a = "Summarize this large file for retrieval-time context references.\nPath: "@;
    reveal_strlit("Summarize this large file for retrieval-time context references.\nPath: ");
    reveal_strlit("\nPath: ");
    reveal_strlit("\nLength: ");
    reveal_strlit("\n");
    let t = a + p + "\nLength: "@ + rest;
    let pat = "\nPath: "@ + p + "\n"@;
    let at = a.len() - "\nPath: "@.len();
    assert(t.subrange(at, at + pat.len()) =~= pat);
    assert(stands_at(t, pat, at));
}

/// Without a model, a text is told by its size, its headers, and both its ends.
pub proof fn a_fallback_tells_size_and_ends(s: Seq<char>, path: Option<Seq<char>>)
    ensures
        has_prefix(
            fallback_survey(s, path),
            "Text exploration summary"@ + name_part(path) + ":\nCharacters: "@ + decimal(utf8_len(s))
                + ".\nWords: "@ + decimal(words_of(s).len()) + ".\nLines: "@ + decimal(
                lines_of(s).len(),
            ) + ".\nDetected section headers: "@ + listed(headers_of(s), " | "@, "none detected"@),
        ),
        has_suffix(
            fallback_survey(s, path),
            ".\nOpening excerpt: "@ + normalized(prefix_of(s, 500), 500) + ".\nClosing excerpt: "@
                + normalized(suffix_of(s, 500), 500) + "."@,
        ),
{
    let t = fallback_survey(s, path);
    let a = "Text exploration summary"@ + name_part(path) + ":\nCharacters: "@ + decimal(
        utf8_len(s),
    ) + ".\nWords: "@ + decimal(words_of(s).len()) + ".\nLines: "@ + decimal(lines_of(s).len())
        + ".\nDetected section headers: "@ + listed(headers_of(s), " | "@, "none detected"@);
    let b = ".\nOpening excerpt: "@ + normalized(prefix_of(s, 500), 500)
        + ".\nClosing excerpt: "@ + normalized(suffix_of(s, 500), 500) + "."@;
    assert(t.take(a.len() as int) =~= a);
    assert(t.skip(t.len() - b.len()) =~= b);
}

/// A reply of the model is taken without the whitespace around it; a blank one,
/// or none, gives way to the survey that needs no model.
pub proof fn a_reply_is_taken_unless_blank(
    content: Seq<char>,
    path: Option<Seq<char>>,
    reply: String,
)
    ensures
        settled(content, path, None) == fallback_survey(content, path),
        is_blank(reply@) ==> settled(content, path, Some(reply)) == fallback_survey(content, path),
        !is_blank(reply@) ==> settled(content, path, Some(reply)) == trimmed(reply@),
{
    lemma_blank_is_trimmed_empty(reply@);
}

/// Each kind of payload has the survey made for it, and only plain text, or
/// what claims to be JSON and is not, is put before the model.
pub proof fn surveys_follow_the_kind(content: Seq<char>, path: Option<Seq<char>>)
    ensures
        survey_of(content, path) is None <==> kind_of(path, content) == FileKind::Text || (kind_of(
            path,
            content,
        ) == FileKind::Json && json_of(content) is None),
        survey_of(content, path) matches Some(t) ==> match kind_of(path, content) {
            FileKind::Json => json_of(content) matches Some(v) && t == json_survey(v),
            FileKind::Csv => t == delimited_survey(content, ',', "CSV"@),
            FileKind::Tsv => t == delimited_survey(content, '\t', "TSV"@),
            FileKind::Yaml => t == yaml_survey(content),
            FileKind::Xml => t == xml_survey(content),
            FileKind::Binary => t == binary_survey(vstd::utf8::encode_utf8(content)),
            _ => true,
        },
{
}

} // verus!
