//! JSON documents as plain values.

use vstd::prelude::*;

use crate::text::number::{digit_char, is_digit};
use crate::text::same;

verus! {

/// A JSON value. Numbers are kept as they are written.
pub enum Json {
    Null,
    Bool(bool),
    Number(String),
    Text(String),
    Array(Vec<Json>),
    Object(Vec<(String, Json)>),
}

/// A JSON value by its views.
pub enum JsonView {
    Null,
    Bool(bool),
    Number(Seq<char>),
    Text(Seq<char>),
    Array(Seq<JsonView>),
    Object(Seq<(Seq<char>, JsonView)>),
}

/// The view of a value.
pub open spec fn json_view(j: Json) -> JsonView
    decreases j, 0nat,
{
    match j {
        Json::Null => JsonView::Null,
        Json::Bool(b) => JsonView::Bool(b),
        Json::Number(n) => JsonView::Number(n@),
        Json::Text(t) => JsonView::Text(t@),
        Json::Array(items) => JsonView::Array(item_views(items@, items@.len())),
        Json::Object(fields) => JsonView::Object(field_views(fields@, fields@.len())),
    }
}

/// The views of the first `n` items.
pub open spec fn item_views(items: Seq<Json>, n: nat) -> Seq<JsonView>
    decreases items, n,
{
    if n == 0 || n > items.len() {
        Seq::empty()
    } else {
        item_views(items, (n - 1) as nat).push(json_view(items[n - 1]))
    }
}

/// The views of the first `n` fields.
pub open spec fn field_views(fields: Seq<(String, Json)>, n: nat) -> Seq<(Seq<char>, JsonView)>
    decreases fields, n,
{
    if n == 0 || n > fields.len() {
        Seq::empty()
    } else {
        field_views(fields, (n - 1) as nat).push((fields[n - 1].0@, json_view(fields[n - 1].1)))
    }
}

impl View for Json {
    type V = JsonView;

    open spec fn view(&self) -> JsonView {
        json_view(*self)
    }
}

pub proof fn lemma_item_views(items: Seq<Json>, n: nat)
    requires
        n <= items.len(),
    ensures
        item_views(items, n).len() == n,
        forall|i: int| 0 <= i < n ==> #[trigger] item_views(items, n)[i] == json_view(items[i]),
    decreases n,
{
    if n > 0 {
        lemma_item_views(items, (n - 1) as nat);
    }
}

pub proof fn lemma_field_views(fields: Seq<(String, Json)>, n: nat)
    requires
        n <= fields.len(),
    ensures
        field_views(fields, n).len() == n,
        forall|i: int|
            0 <= i < n ==> #[trigger] field_views(fields, n)[i] == (
                fields[i].0@,
                json_view(fields[i].1),
            ),
    decreases n,
{
    if n > 0 {
        lemma_field_views(fields, (n - 1) as nat);
    }
}

/// A value of `serde_json`.
#[verifier::external_type_specification]
#[verifier::external_body]
pub struct ExValue(serde_json::Value);

/// The value that a text spells in JSON; `None` where it spells none.
pub uninterp spec fn json_of(text: Seq<char>) -> Option<JsonView>;

/// A JSON value written out over several lines, with two spaces of
/// indentation.
pub uninterp spec fn pretty_of(value: JsonView) -> Seq<char>;

/// Whether every number in a value is an integer of 64 bits: any other is
/// written with a point or an exponent.
pub open spec fn has_only_integers(value: JsonView) -> bool
    decreases value,
{
    match value {
        JsonView::Number(n) => forall|i: int|
            0 <= i < n.len() ==> is_digit(#[trigger] n[i]) || n[i] == '-',
        JsonView::Array(items) => forall|i: int|
            0 <= i < items.len() ==> has_only_integers(#[trigger] items[i]),
        JsonView::Object(fields) => forall|i: int|
            0 <= i < fields.len() ==> has_only_integers((#[trigger] fields[i]).1),
        _ => true,
    }
}

/// Whether a text is laid out as JSON is: it has no control character but
/// newlines between its lines, and does not start with an angle bracket.
pub open spec fn is_laid_out(text: Seq<char>) -> bool {
    &&& text.len() > 0
    &&& text[0] != '<'
    &&& text.last() != '\n'
    &&& forall|i: int| 0 <= i < text.len() ==> #[trigger] text[i] == '\n' || text[i] >= ' '
}

/// The hexadecimal digit of value `d`, in lower case.
pub open spec fn hex_digit(d: nat) -> char {
    if d < 10 {
        digit_char(d)
    } else {
        (87 + d) as char
    }
}

/// How a character stands in a JSON string.
pub open spec fn json_escape(c: char) -> Seq<char> {
    if c == '"' || c == '\\' {
        seq!['\\', c]
    } else if c == '\u{8}' {
        "\\b"@
    } else if c == '\t' {
        "\\t"@
    } else if c == '\n' {
        "\\n"@
    } else if c == '\u{c}' {
        "\\f"@
    } else if c == '\r' {
        "\\r"@
    } else if c <= '\u{1f}' {
        "\\u00"@.push(hex_digit(c as nat / 16)).push(hex_digit(c as nat % 16))
    } else {
        seq![c]
    }
}

/// The characters of a JSON string, without its quotes.
pub open spec fn json_escaped(s: Seq<char>) -> Seq<char>
    decreases s.len(),
{
    if s.len() == 0 {
        Seq::empty()
    } else {
        json_escaped(s.drop_last()) + json_escape(s.last())
    }
}

/// A text as a JSON string, with its quotes.
pub open spec fn json_quoted(s: Seq<char>) -> Seq<char> {
    seq!['"'] + json_escaped(s) + seq!['"']
}

/// A `serde_json::Value` as a value of this library, variant by variant.
/// Nothing is said of it here; see `parse`.
#[verifier::external_body]
fn from_value(value: serde_json::Value) -> (r: Json) {
    match value {
        serde_json::Value::Null => Json::Null,
        serde_json::Value::Bool(b) => Json::Bool(b),
        serde_json::Value::Number(n) => Json::Number(n.to_string()),
        serde_json::Value::String(s) => Json::Text(s),
        serde_json::Value::Array(a) => Json::Array(a.into_iter().map(from_value).collect()),
        serde_json::Value::Object(o) => Json::Object(
            o.into_iter().map(|(k, v)| (k, from_value(v))).collect(),
        ),
    }
}

/// The value that `text` spells, by `serde_json::from_str` into a
/// `serde_json::Value`. Which value that is depends on the text alone and is
/// left to `json_of`.
#[verifier::external_body]
pub(crate) fn parse(text: &str) -> (r: Option<Json>)
    ensures
        match r {
            Some(j) => json_of(text@) == Some(j@),
            None => json_of(text@) is None,
        },
{
    serde_json::from_str::<serde_json::Value>(text).ok().map(from_value)
}

/// The value that `text` spells, by `serde_json::from_str`, and that value
/// written out by `serde_json::to_string_pretty`. Which value it is, is named
/// by `json_of`, and how a value is laid out by `pretty_of`. Beyond that two
/// things are said of the layout. It is well formed: control characters are
/// escaped in strings, and lines are separated by newlines alone. And it reads
/// back as the same value, where all numbers are integers of 64 bits; of other
/// numbers nothing is said, since reading one gives an approximation.
#[verifier::external_body]
pub(crate) fn pretty(text: &str) -> (r: Option<String>)
    ensures
        match r {
            Some(p) => json_of(text@) matches Some(value) && p@ == pretty_of(value)
                && is_laid_out(p@) && (has_only_integers(value) ==> json_of(p@) == Some(value)),
            None => json_of(text@) is None,
        },
{
    let value = serde_json::from_str::<serde_json::Value>(text).ok()?;
    serde_json::to_string_pretty(&value).ok()
}

/// `s` as a JSON string with its quotes, by `serde_json::Value::to_string`: a
/// quote, a backslash and each control character below the space are escaped,
/// any other character stands for itself.
#[verifier::external_body]
pub(crate) fn json_string(s: &str) -> (r: String)
    ensures
        r@ == json_quoted(s@),
{
    serde_json::Value::from(s).to_string()
}

// ── Fields ──────────────────────────────────────────────────────────

/// What the last field of that name holds.
pub open spec fn field_of(fields: Seq<(Seq<char>, JsonView)>, name: Seq<char>) -> Option<JsonView>
    decreases fields.len(),
{
    if fields.len() == 0 {
        None
    } else if fields.last().0 == name {
        Some(fields.last().1)
    } else {
        field_of(fields.drop_last(), name)
    }
}

/// The text that a document holds in a field of its top-level object.
pub open spec fn text_field_of(doc: Option<JsonView>, name: Seq<char>) -> Option<Seq<char>> {
    match doc {
        Some(JsonView::Object(fields)) => match field_of(fields, name) {
            Some(JsonView::Text(t)) => Some(t),
            _ => None,
        },
        _ => None,
    }
}

/// The text that a document holds in a field of its top-level object.
pub fn text_field(doc: &Option<Json>, name: &str) -> (r: Option<String>)
    ensures
        ({
            let view = match *doc {
                Some(j) => Some(j@),
                None => None,
            };
            match r {
                Some(t) => text_field_of(view, name@) == Some(t@),
                None => text_field_of(view, name@) is None,
            }
        }),
{
    match doc {
        Some(Json::Object(fields)) => {
            let ghost all = field_views(fields@, fields@.len());
            proof {
                lemma_field_views(fields@, fields@.len());
            }
            let mut i: usize = fields.len();
            assert(all.take(i as int) =~= all);
            while i > 0
                invariant
                    i <= fields@.len(),
                    all == field_views(fields@, fields@.len()),
                    all.len() == fields@.len(),
                    forall|k: int|
                        0 <= k < fields@.len() ==> #[trigger] all[k] == (
                            fields@[k].0@,
                            json_view(fields@[k].1),
                        ),
                    doc matches Some(Json::Object(f)) && f == fields,
                    field_of(all, name@) == field_of(all.take(i as int), name@),
                decreases i,
            {
                let field = &fields[i - 1];
                proof {
                    assert(all.take(i as int).drop_last() =~= all.take(i - 1));
                    assert(all.take(i as int).last() == all[i - 1]);
                }
                if same(field.0.as_str(), name) {
                    return match &field.1 {
                        Json::Text(t) => Some(t.clone()),
                        _ => None,
                    };
                }
                i -= 1;
            }
            None
        },
        _ => None,
    }
}

/// Of several fields of one name the last counts, and fields of other names
/// do not matter.
pub proof fn the_last_field_of_a_name_counts(
    fields: Seq<(Seq<char>, JsonView)>,
    name: Seq<char>,
    other: Seq<char>,
    value: JsonView,
)
    ensures
        field_of(fields.push((name, value)), name) == Some(value),
        other != name ==> field_of(fields.push((other, value)), name) == field_of(fields, name),
        field_of(fields, name) is None <==> forall|i: int|
            0 <= i < fields.len() ==> (#[trigger] fields[i]).0 != name,
    decreases fields.len(),
{
    assert(fields.push((name, value)).drop_last() =~= fields);
    assert(fields.push((other, value)).drop_last() =~= fields);
    if fields.len() > 0 {
        let t = fields.drop_last();
        the_last_field_of_a_name_counts(t, name, other, value);
        if field_of(fields, name) is None {
            assert forall|i: int| 0 <= i < fields.len() implies (#[trigger] fields[i]).0 != name by {
                if i < t.len() {
                    assert(t[i] == fields[i]);
                }
            }
        } else if fields.last().0 == name {
            assert(fields[fields.len() - 1].0 == name);
        } else {
            let i = choose|i: int| 0 <= i < t.len() && (#[trigger] t[i]).0 == name;
            assert(fields[i].0 == name);
        }
    }
}

/// A JSON string holds its text character by character.
pub proof fn strings_are_escaped_character_by_character(a: Seq<char>, b: Seq<char>, c: char)
    ensures
        json_escaped(a + b) == json_escaped(a) + json_escaped(b),
        json_escaped(seq![c]) == json_escape(c),
        c > '\u{1f}' && c != '"' && c != '\\' ==> json_escape(c) == seq![c],
    decreases b.len(),
{
    assert(seq![c].drop_last() =~= Seq::<char>::empty());
    assert(json_escaped(Seq::empty()) == Seq::<char>::empty());
    assert(Seq::<char>::empty() + json_escape(c) =~= json_escape(c));
    if b.len() > 0 {
        strings_are_escaped_character_by_character(a, b.drop_last(), c);
        assert((a + b).drop_last() =~= a + b.drop_last());
        assert(json_escaped(a + b) =~= json_escaped(a) + json_escaped(b));
    } else {
        assert(a + b =~= a);
        assert(json_escaped(a) + json_escaped(b) =~= json_escaped(a));
    }
}

/// A text is read from the last field of its name, where that holds one.
pub proof fn a_text_is_read_from_its_field(
    fields: Seq<(Seq<char>, JsonView)>,
    name: Seq<char>,
    text: Seq<char>,
    value: JsonView,
)
    ensures
        text_field_of(
            Some(JsonView::Object(fields.push((name, JsonView::Text(text))))),
            name,
        ) == Some(text),
        !(value is Text) ==> text_field_of(
            Some(JsonView::Object(fields.push((name, value)))),
            name,
        ) is None,
        !(value is Object) ==> text_field_of(Some(value), name) is None,
        text_field_of(None, name) is None,
{
    the_last_field_of_a_name_counts(fields, name, name, JsonView::Text(text));
    the_last_field_of_a_name_counts(fields, name, name, value);
}

} // verus!
