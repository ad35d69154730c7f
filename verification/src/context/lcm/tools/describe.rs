//! `lcm_describe`: what is known of a summary or of a stored payload.

use vstd::prelude::*;

use crate::context::lcm::compaction::SummaryView;
use crate::context::lcm::engine::{FileView, StoredFile};
use crate::context::lcm::store::{summary_with, Conversation, ConversationView};
use crate::digest::{condensed_id, leaf_id, sort_ids, sorted_ids, sorted_ids_keep_every_number};
use crate::text::number::{push_i64, signed_decimal};
use crate::text::order::{lemma_sorted_texts_keeps, sort_texts, sorted_texts};
use crate::text::split::{join, joined, joined_text_holds_every_part};
use crate::text::{
    among, has_prefix, has_suffix, lemma_views_push, occurs, quote, quoted, same, starts_with,
    views,
};

verus! {

/// What an id stands for.
#[derive(Clone, Copy, Debug, PartialEq, Eq, Structural)]
pub enum NodeKind {
    Summary,
    File,
}

/// What an id stands for, by its prefix.
pub open spec fn kind_of_id(id: Seq<char>) -> Option<NodeKind> {
    if has_prefix(id, "sum_"@) {
        Some(NodeKind::Summary)
    } else if has_prefix(id, "file_"@) {
        Some(NodeKind::File)
    } else {
        None
    }
}

/// What an id stands for, by its prefix, or what is wrong with it.
pub fn classify_id(id: &str) -> (r: Result<NodeKind, String>)
    ensures
        match r {
            Ok(k) => kind_of_id(id@) == Some(k),
            Err(e) => kind_of_id(id@) is None && e@
                == "id must start with \"sum_\" or \"file_\", got "@ + quoted(id@),
        },
{
    if starts_with(id, "sum_") {
        Ok(NodeKind::Summary)
    } else if starts_with(id, "file_") {
        Ok(NodeKind::File)
    } else {
        let mut e = "id must start with \"sum_\" or \"file_\", got ".to_owned();
        e.append(quote(id).as_str());
        Err(e)
    }
}

/// A list, or a note that it is empty.
pub open spec fn list_or_none(values: Seq<Seq<char>>) -> Seq<char> {
    if values.len() == 0 {
        "(none)"@
    } else {
        joined(values, ", "@)
    }
}

/// A list, or a note that it is empty.
fn show_list(values: &Vec<String>) -> (r: String)
    ensures
        r@ == list_or_none(views(values@)),
{
    assert(views(values@).len() == values@.len());
    if values.len() == 0 {
        "(none)".to_owned()
    } else {
        join(values, ", ")
    }
}

/// The summaries that a summary was collapsed into, in the order in which
/// they were made.
pub open spec fn parents_of(summaries: Seq<SummaryView>, id: Seq<char>) -> Seq<Seq<char>>
    decreases summaries.len(),
{
    if summaries.len() == 0 {
        Seq::empty()
    } else {
        let rest = parents_of(summaries.drop_last(), id);
        if summaries.last().children.contains(id) {
            rest.push(summaries.last().summary_id)
        } else {
            rest
        }
    }
}

/// Numbers written out.
pub open spec fn written(ids: Seq<i64>) -> Seq<Seq<char>> {
    ids.map_values(|id: i64| signed_decimal(id as int))
}

/// What is known of a summary.
pub open spec fn summary_card(s: SummaryView, parents: Seq<Seq<char>>) -> Seq<char> {
    "summary_id: "@ + s.summary_id + "\nkind: "@ + s.kind + "\ndepth: "@ + signed_decimal(
        s.depth as int,
    ) + "\ntoken_count: "@ + signed_decimal(s.token_count as int) + "\nearliest_at: "@
        + s.earliest_at + "\nlatest_at: "@ + s.latest_at + "\ndescendants: "@ + signed_decimal(
        s.descendant_count as int,
    ) + " ("@ + signed_decimal(s.descendant_token_count as int) + " tokens)\nmodel: "@ + s.model
        + "\ncreated_at: "@ + s.created_at + "\nparents: "@ + list_or_none(sorted_texts(parents))
        + "\nchildren: "@ + list_or_none(sorted_texts(s.children)) + "\nsource_messages: "@
        + list_or_none(written(sorted_ids(s.source_messages))) + "\nfiles: "@ + list_or_none(
        sorted_texts(s.files),
    ) + "\n\ncontent:\n"@ + s.content
}

/// What is answered on a summary id.
pub open spec fn summary_answer(v: ConversationView, id: Seq<char>) -> Seq<char> {
    match summary_with(v.summaries, id) {
        None => "No summary with id "@ + quoted(id) + " in the active session."@,
        Some(s) => summary_card(s, parents_of(v.summaries, id)),
    }
}

/// The summaries that a summary was collapsed into.
fn find_parents(c: &Conversation, id: &str) -> (out: Vec<String>)
    ensures
        views(out@) == parents_of(c@.summaries, id@),
{
    let ghost all = c@.summaries;
    let n: usize = c.summary_count();
    let mut out: Vec<String> = Vec::new();
    let mut i: usize = 0;
    assert(all.take(0) =~= Seq::empty());
    assert(views(out@) =~= Seq::empty());
    while i < n
        invariant
            i <= n,
            n == c@.summaries.len(),
            all == c@.summaries,
            views(out@) == parents_of(all.take(i as int), id@),
        decreases n - i,
    {
        assert(all.take(i + 1).drop_last() =~= all.take(i as int));
        assert(all.take(i + 1).last() == all[i as int]);
        let s = c.summary(i);
        if among(&s.children, id) {
            let ghost before = out@;
            let parent = s.summary_id.clone();
            out.push(parent);
            proof {
                lemma_views_push(before, parent);
            }
        }
        i += 1;
    }
    assert(all.take(n as int) =~= all);
    out
}

/// Numbers written out.
fn write_ids(ids: &Vec<i64>) -> (out: Vec<String>)
    ensures
        views(out@) == written(ids@),
{
    let n: usize = ids.len();
    let mut out: Vec<String> = Vec::new();
    let mut i: usize = 0;
    while i < n
        invariant
            i <= n,
            n == ids@.len(),
            out@.len() == i,
            forall|k: int| 0 <= k < i ==> (#[trigger] out@[k])@ == written(ids@)[k],
        decreases n - i,
    {
        let mut text = String::new();
        push_i64(&mut text, ids[i]);
        assert(text@ =~= signed_decimal(ids@[i as int] as int));
        out.push(text);
        i += 1;
    }
    assert(views(out@) =~= written(ids@));
    out
}

/// What is answered on a summary id: its metadata, its links and its text.
pub fn describe_summary(c: &Conversation, id: &str) -> (r: String)
    ensures
        r@ == summary_answer(c@, id@),
{
    let mut out = String::new();
    match c.find(id) {
        None => {
            out.append("No summary with id ");
            out.append(quote(id).as_str());
            out.append(" in the active session.");
            assert(out@ =~= summary_answer(c@, id@));
        },
        Some(s) => {
            let parents = find_parents(c, id);
            out.append("summary_id: ");
            out.append(s.summary_id.as_str());
            out.append("\nkind: ");
            out.append(s.kind.as_str());
            out.append("\ndepth: ");
            push_i64(&mut out, s.depth);
            out.append("\ntoken_count: ");
            push_i64(&mut out, s.token_count);
            out.append("\nearliest_at: ");
            out.append(s.earliest_at.as_str());
            out.append("\nlatest_at: ");
            out.append(s.latest_at.as_str());
            out.append("\ndescendants: ");
            push_i64(&mut out, s.descendant_count);
            out.append(" (");
            push_i64(&mut out, s.descendant_token_count);
            out.append(" tokens)\nmodel: ");
            out.append(s.model.as_str());
            out.append("\ncreated_at: ");
            out.append(s.created_at.as_str());
            out.append("\nparents: ");
            out.append(show_list(&sort_texts(&parents)).as_str());
            out.append("\nchildren: ");
            out.append(show_list(&sort_texts(&s.children)).as_str());
            out.append("\nsource_messages: ");
            out.append(show_list(&write_ids(&sort_ids(&s.source_messages))).as_str());
            out.append("\nfiles: ");
            out.append(show_list(&sort_texts(&s.files)).as_str());
            out.append("\n\ncontent:\n");
            out.append(s.content.as_str());
            assert(out@ =~= summary_card(s@, parents_of(c@.summaries, id@)));
        },
    }
    out
}

/// What is answered on a payload of a session: only those of the session are
/// shown.
pub open spec fn file_answer(id: Seq<char>, file: Option<FileView>, session: Seq<char>) -> Seq<char> {
    match file {
        Some(f) if f.session == session => "file_id: "@ + id + "\npath: "@ + f.row.path
            + "\nmime_type: "@ + f.row.mime_type + "\nbyte_size: "@ + signed_decimal(
            f.row.byte_size as int,
        ) + "\ntoken_count: "@ + signed_decimal(f.row.token_count as int)
            + "\nfirst_seen_message_id: "@ + match f.first_seen_message_id {
            Some(m) => signed_decimal(m as int),
            None => "(unknown)"@,
        } + "\ncreated_at: "@ + f.created_at + "\n\nexploration_summary:\n"@
            + f.row.exploration_summary,
        _ => "No file with id "@ + quoted(id) + " in the active session."@,
    }
}

/// What is answered on the id of a payload: its metadata and its exploration
/// summary.
pub fn describe_file(id: &str, file: Option<&StoredFile>, session: &str) -> (r: String)
    ensures
        r@ == file_answer(
            id@,
            match file {
                Some(f) => Some(f@),
                None => None,
            },
            session@,
        ),
{
    let mut out = String::new();
    if let Some(f) = file {
        if same(f.session.as_str(), session) {
            out.append("file_id: ");
            out.append(id);
            out.append("\npath: ");
            out.append(f.row.path.as_str());
            out.append("\nmime_type: ");
            out.append(f.row.mime_type.as_str());
            out.append("\nbyte_size: ");
            push_i64(&mut out, f.row.byte_size);
            out.append("\ntoken_count: ");
            push_i64(&mut out, f.row.token_count);
            out.append("\nfirst_seen_message_id: ");
            match f.first_seen_message_id {
                Some(m) => {
                    push_i64(&mut out, m);
                },
                None => {
                    out.append("(unknown)");
                },
            }
            out.append("\ncreated_at: ");
            out.append(f.created_at.as_str());
            out.append("\n\nexploration_summary:\n");
            out.append(f.row.exploration_summary.as_str());
            assert(out@ =~= file_answer(id@, Some(f@), session@));
            return out;
        }
    }
    out.append("No file with id ");
    out.append(quote(id).as_str());
    out.append(" in the active session.");
    assert(out@ =~= "No file with id "@ + quoted(id@) + " in the active session."@);
    out
}

// ── What a description shows ────────────────────────────────────────

/// The parents of a summary are exactly the summaries that were made from it.
pub proof fn parents_are_made_from_their_children(
    summaries: Seq<SummaryView>,
    id: Seq<char>,
    p: Seq<char>,
)
    ensures
        parents_of(summaries, id).contains(p) <==> exists|i: int|
            0 <= i < summaries.len() && (#[trigger] summaries[i]).summary_id == p
                && summaries[i].children.contains(id),
    decreases summaries.len(),
{
    if summaries.len() > 0 {
        let rest = summaries.drop_last();
        let before = parents_of(rest, id);
        let out = parents_of(summaries, id);
        parents_are_made_from_their_children(rest, id, p);
        if out.contains(p) {
            let k = choose|k: int| 0 <= k < out.len() && out[k] == p;
            if k < before.len() {
                assert(before[k] == p);
                let i = choose|i: int|
                    0 <= i < rest.len() && (#[trigger] rest[i]).summary_id == p
                        && rest[i].children.contains(id);
                assert(summaries[i] == rest[i]);
            } else {
                assert(summaries[summaries.len() - 1].summary_id == p);
            }
        }
        if exists|i: int|
            0 <= i < summaries.len() && (#[trigger] summaries[i]).summary_id == p
                && summaries[i].children.contains(id) {
            let i = choose|i: int|
                0 <= i < summaries.len() && (#[trigger] summaries[i]).summary_id == p
                    && summaries[i].children.contains(id);
            if i < rest.len() {
                assert(rest[i] == summaries[i]);
                let k = choose|k: int| 0 <= k < before.len() && before[k] == p;
                assert(out[k] == p);
            } else {
                assert(out[out.len() - 1] == p);
            }
        }
    }
}

/// A list that is shown names every value.
pub proof fn a_list_names_every_value(values: Seq<Seq<char>>, x: Seq<char>)
    requires
        values.contains(x),
    ensures
        occurs(list_or_none(values), x),
        occurs(list_or_none(sorted_texts(values)), x),
        list_or_none(Seq::empty()) == "(none)"@,
{
    let i = choose|i: int| 0 <= i < values.len() && values[i] == x;
    joined_text_holds_every_part(values, ", "@, i);
    lemma_sorted_texts_keeps(values, x);
    let sorted = sorted_texts(values);
    let j = choose|j: int| 0 <= j < sorted.len() && sorted[j] == x;
    joined_text_holds_every_part(sorted, ", "@, j);
}

/// A list of numbers that is shown names every number.
pub proof fn a_list_names_every_number(ids: Seq<i64>, x: i64)
    requires
        ids.contains(x),
    ensures
        occurs(list_or_none(written(sorted_ids(ids))), signed_decimal(x as int)),
{
    sorted_ids_keep_every_number(ids, x);
    let sorted = sorted_ids(ids);
    let j = choose|j: int| 0 <= j < sorted.len() && sorted[j] == x;
    assert(written(sorted)[j] == signed_decimal(x as int));
    joined_text_holds_every_part(written(sorted), ", "@, j);
}

/// The description of a summary starts with its place, its size and the time
/// that it spans.
pub proof fn a_summary_is_described_with_its_measures(s: SummaryView, parents: Seq<Seq<char>>)
    ensures
        has_prefix(
            summary_card(s, parents),
            "summary_id: "@ + s.summary_id + "\nkind: "@ + s.kind + "\ndepth: "@ + signed_decimal(
                s.depth as int,
            ) + "\ntoken_count: "@ + signed_decimal(s.token_count as int) + "\nearliest_at: "@
                + s.earliest_at + "\nlatest_at: "@ + s.latest_at + "\ndescendants: "@
                + signed_decimal(s.descendant_count as int) + " ("@ + signed_decimal(
                s.descendant_token_count as int,
            ) + " tokens)\nmodel: "@ + s.model + "\ncreated_at: "@ + s.created_at,
        ),
{
    let card = summary_card(s, parents);
    let head = "summary_id: "@ + s.summary_id + "\nkind: "@ + s.kind + "\ndepth: "@
        + signed_decimal(s.depth as int) + "\ntoken_count: "@ + signed_decimal(
        s.token_count as int,
    ) + "\nearliest_at: "@ + s.earliest_at + "\nlatest_at: "@ + s.latest_at + "\ndescendants: "@
        + signed_decimal(s.descendant_count as int) + " ("@ + signed_decimal(
        s.descendant_token_count as int,
    ) + " tokens)\nmodel: "@ + s.model + "\ncreated_at: "@ + s.created_at;
    assert(card.take(head.len() as int) =~= head);
}

/// The description of a summary names what it is linked to, and ends with its
/// whole text.
pub proof fn a_summary_is_described_with_its_links(s: SummaryView, parents: Seq<Seq<char>>)
    ensures
        has_suffix(
            summary_card(s, parents),
            "\nparents: "@ + list_or_none(sorted_texts(parents)) + "\nchildren: "@ + list_or_none(
                sorted_texts(s.children),
            ) + "\nsource_messages: "@ + list_or_none(written(sorted_ids(s.source_messages)))
                + "\nfiles: "@ + list_or_none(sorted_texts(s.files)) + "\n\ncontent:\n"@ + s.content,
        ),
{
    let card = summary_card(s, parents);
    let end = "\nparents: "@ + list_or_none(sorted_texts(parents)) + "\nchildren: "@ + list_or_none(
        sorted_texts(s.children),
    ) + "\nsource_messages: "@ + list_or_none(written(sorted_ids(s.source_messages)))
        + "\nfiles: "@ + list_or_none(sorted_texts(s.files)) + "\n\ncontent:\n"@ + s.content;
    assert(card.skip(card.len() - end.len()) =~= end);
}

/// A payload is described to its own session only, with where it is and what
/// was found in it.
pub proof fn a_payload_is_described_to_its_session(id: Seq<char>, f: FileView, session: Seq<char>)
    ensures
        f.session == session ==> has_prefix(
            file_answer(id, Some(f), session),
            "file_id: "@ + id + "\npath: "@ + f.row.path + "\nmime_type: "@ + f.row.mime_type
                + "\nbyte_size: "@ + signed_decimal(f.row.byte_size as int) + "\ntoken_count: "@
                + signed_decimal(f.row.token_count as int),
        ) && has_suffix(
            file_answer(id, Some(f), session),
            "\ncreated_at: "@ + f.created_at + "\n\nexploration_summary:\n"@
                + f.row.exploration_summary,
        ),
        f.session != session ==> file_answer(id, Some(f), session) == file_answer(
            id,
            None,
            session,
        ),
{
    let t = file_answer(id, Some(f), session);
    if f.session == session {
        let a = "file_id: "@ + id + "\npath: "@ + f.row.path + "\nmime_type: "@ + f.row.mime_type
            + "\nbyte_size: "@ + signed_decimal(f.row.byte_size as int) + "\ntoken_count: "@
            + signed_decimal(f.row.token_count as int);
        let b = "\ncreated_at: "@ + f.created_at + "\n\nexploration_summary:\n"@
            + f.row.exploration_summary;
        assert(t.take(a.len() as int) =~= a);
        assert(t.skip(t.len() - b.len()) =~= b);
    }
}

/// A summary is described by its own card, whatever others there are, and an
/// id that is not there is reported.
pub proof fn a_described_summary_is_the_one_asked_for(v: ConversationView, id: Seq<char>)
    ensures
        summary_with(v.summaries, id) matches Some(s) ==> summary_answer(v, id) == summary_card(
            s,
            parents_of(v.summaries, id),
        ),
        summary_with(v.summaries, id) is None ==> has_prefix(
            summary_answer(v, id),
            "No summary with id "@ + quoted(id),
        ),
{
    let t = "No summary with id "@ + quoted(id) + " in the active session."@;
    let a = "No summary with id "@ + quoted(id);
    assert(t.take(a.len() as int) =~= a);
}

/// The ids that are given out tell what they stand for.
pub proof fn ids_tell_what_they_stand_for(
    content: Seq<char>,
    messages: Seq<i64>,
    summaries: Seq<Seq<char>>,
    rest: Seq<char>,
)
    ensures
        kind_of_id(leaf_id(content, messages)) == Some(NodeKind::Summary),
        kind_of_id(condensed_id(content, summaries)) == Some(NodeKind::Summary),
        kind_of_id("sum_"@ + rest) == Some(NodeKind::Summary),
        kind_of_id("file_"@ + rest) == Some(NodeKind::File),
        !has_prefix(rest, "sum_"@) && !has_prefix(rest, "file_"@) ==> kind_of_id(rest) is None,
{
    reveal_strlit("sum_");
    reveal_strlit("file_");
    let a = leaf_id(content, messages);
    let b = condensed_id(content, summaries);
    assert(a.take(4) =~= "sum_"@);
    assert(b.take(4) =~= "sum_"@);
    assert(("sum_"@ + rest).take(4) =~= "sum_"@);
    let f = "file_"@ + rest;
    assert(f.take(5) =~= "file_"@);
    assert(f.take(4)[0] == 'f');
}

} // verus!
