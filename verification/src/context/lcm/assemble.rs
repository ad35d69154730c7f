//! Building the messages of a request from the active context.

use vstd::prelude::*;

use super::explore::{first, first_of, unique_keeps_every_value_once, unique_of, unique_ordered};
use super::rows::{message_of, part_views, reconstruct_message, Part, PartView, RowError, RowFault};
use crate::context::AssembledContext;
use crate::json::{
    a_text_is_read_from_its_field, json_of, parse, text_field, text_field_of, JsonView,
};
use crate::text::number::{push_i64, signed_decimal};
use crate::text::split::{join, joined, joined_text_holds_every_part};
use crate::text::{has_prefix, has_suffix, lemma_occurs_in_part, lemma_views_push, occurs, views};
use crate::types::{message_views, Message, MessageView};

verus! {

/// Cap on entries in the written-files segment.
pub const WRITTEN_FILES_CAP: usize = 30;

pub const WRITTEN_FILES_HEADER: &'static str = "## Files Written For This Request";

/// Appended to the system prompt whenever the context holds a summary.
pub const RECALL_GUIDANCE: &'static str = "## Compacted History\n\nSummaries above are compressed context: maps to details, not the details themselves. Use retrieval tools before asserting specifics from summaries.\n\nTool escalation:\n1. lcm_grep: search by keyword or regex\n2. lcm_describe: inspect a specific summary's metadata and lineage\n3. lcm_expand: drill into a summary to retrieve children or source messages (sub-agent only)\n\nDo not guess exact values (commands, paths, SHAs, config) from condensed summaries. Use lcm_grep to search, or delegate expansion to a sub-agent.";

/// An item of the active context with what it stands for.
pub enum AssembleRow {
    Message { message_id: i64, role: String, content: String, parts: Vec<Part> },
    Summary {
        id: String,
        kind: String,
        depth: i64,
        content: String,
        earliest_at: String,
        latest_at: String,
    },
}

/// The view of an [`AssembleRow`].
pub enum AssembleView {
    Message { message_id: i64, role: Seq<char>, content: Seq<char>, parts: Seq<PartView> },
    Summary {
        id: Seq<char>,
        kind: Seq<char>,
        depth: i64,
        content: Seq<char>,
        earliest_at: Seq<char>,
        latest_at: Seq<char>,
    },
}

impl View for AssembleRow {
    type V = AssembleView;

    open spec fn view(&self) -> AssembleView {
        match self {
            AssembleRow::Message { message_id, role, content, parts } => AssembleView::Message {
                message_id: *message_id,
                role: role@,
                content: content@,
                parts: part_views(parts@),
            },
            AssembleRow::Summary { id, kind, depth, content, earliest_at, latest_at } =>
                AssembleView::Summary {
                id: id@,
                kind: kind@,
                depth: *depth,
                content: content@,
                earliest_at: earliest_at@,
                latest_at: latest_at@,
            },
        }
    }
}

/// The views of the items.
pub open spec fn assemble_views(rows: Seq<AssembleRow>) -> Seq<AssembleView> {
    rows.map_values(|r: AssembleRow| r@)
}

/// A summary as the model sees it.
pub open spec fn shown_summary(
    id: Seq<char>,
    kind: Seq<char>,
    depth: i64,
    content: Seq<char>,
    earliest_at: Seq<char>,
    latest_at: Seq<char>,
) -> Seq<char> {
    "<summary id=\""@ + id + "\" kind=\""@ + kind + "\" depth=\""@ + signed_decimal(depth as int)
        + "\" earliest_at=\""@ + earliest_at + "\" latest_at=\""@ + latest_at + "\">\n"@ + content
        + "\n</summary>"@
}

/// The message that an item stands for.
pub open spec fn shown(row: AssembleView) -> Result<MessageView, RowFault> {
    match row {
        AssembleView::Message { message_id, role, content, parts } => message_of(
            message_id,
            role,
            content,
            parts,
        ),
        AssembleView::Summary { id, kind, depth, content, earliest_at, latest_at } => Ok(
            MessageView::System {
                content: shown_summary(id, kind, depth, content, earliest_at, latest_at),
            },
        ),
    }
}

/// The messages that the items stand for, or the first fault among them.
pub open spec fn shown_all(rows: Seq<AssembleView>) -> Result<Seq<MessageView>, RowFault>
    decreases rows.len(),
{
    if rows.len() == 0 {
        Ok(Seq::empty())
    } else {
        match shown_all(rows.drop_last()) {
            Err(fault) => Err(fault),
            Ok(before) => match shown(rows.last()) {
                Err(fault) => Err(fault),
                Ok(m) => Ok(before.push(m)),
            },
        }
    }
}

/// Whether one of the items is a summary.
pub open spec fn has_summary(rows: Seq<AssembleView>) -> bool {
    exists|i: int| 0 <= i < rows.len() && (#[trigger] rows[i]) is Summary
}

/// The system prompt of a request: with recall guidance, and the files
/// written for the request where there are some, once there is a summary.
pub open spec fn system_text(
    prompt: Seq<char>,
    summarized: bool,
    written: Option<Seq<char>>,
) -> Seq<char> {
    if summarized {
        match written {
            Some(segment) => prompt + "\n\n"@ + RECALL_GUIDANCE@ + "\n\n"@ + segment,
            None => prompt + "\n\n"@ + RECALL_GUIDANCE@,
        }
    } else {
        prompt
    }
}

/// The messages of a request.
pub open spec fn assembled(
    rows: Seq<AssembleView>,
    prompt: Seq<char>,
    written: Option<Seq<char>>,
) -> Result<Seq<MessageView>, RowFault> {
    match shown_all(rows) {
        Err(fault) => Err(fault),
        Ok(messages) => Ok(
            seq![MessageView::System { content: system_text(prompt, has_summary(rows), written) }]
                + messages,
        ),
    }
}

/// The view of an optional text.
pub open spec fn text_view(text: Option<String>) -> Option<Seq<char>> {
    match text {
        Some(t) => Some(t@),
        None => None,
    }
}

proof fn lemma_shown_all(rows: Seq<AssembleView>, k: int)
    requires
        0 <= k <= rows.len(),
        shown_all(rows.take(k)) is Err,
    ensures
        shown_all(rows) == shown_all(rows.take(k)),
    decreases rows.len() - k,
{
    if k == rows.len() {
        assert(rows.take(k) =~= rows);
    } else {
        assert(rows.take(k + 1).drop_last() =~= rows.take(k));
        lemma_shown_all(rows, k + 1);
    }
}

/// A summary as the model sees it.
fn show_summary(
    id: &str,
    kind: &str,
    depth: i64,
    content: &str,
    earliest_at: &str,
    latest_at: &str,
) -> (out: String)
    ensures
        out@ == shown_summary(id@, kind@, depth, content@, earliest_at@, latest_at@),
{
    let mut out = String::new();
    out.append("<summary id=\"");
    out.append(id);
    out.append("\" kind=\"");
    out.append(kind);
    out.append("\" depth=\"");
    push_i64(&mut out, depth);
    out.append("\" earliest_at=\"");
    out.append(earliest_at);
    out.append("\" latest_at=\"");
    out.append(latest_at);
    out.append("\">\n");
    out.append(content);
    out.append("\n</summary>");
    assert(out@ =~= shown_summary(id@, kind@, depth, content@, earliest_at@, latest_at@));
    out
}

/// The message that an item stands for.
fn show(row: &AssembleRow) -> (r: Result<Message, RowError>)
    ensures
        match r {
            Ok(m) => shown(row@) == Ok::<MessageView, RowFault>(m@),
            Err(e) => shown(row@) == Err::<MessageView, RowFault>(e@),
        },
{
    match row {
        AssembleRow::Message { message_id, role, content, parts } => reconstruct_message(
            *message_id,
            role.as_str(),
            content.as_str(),
            parts,
        ),
        AssembleRow::Summary { id, kind, depth, content, earliest_at, latest_at } => {
            Ok(
                Message::System {
                    content: show_summary(
                        id.as_str(),
                        kind.as_str(),
                        *depth,
                        content.as_str(),
                        earliest_at.as_str(),
                        latest_at.as_str(),
                    ),
                },
            )
        },
    }
}

/// Whether one of the items is a summary.
pub fn any_summary(rows: &Vec<AssembleRow>) -> (r: bool)
    ensures
        r == has_summary(assemble_views(rows@)),
{
    let ghost all = assemble_views(rows@);
    let n: usize = rows.len();
    let mut i: usize = 0;
    while i < n
        invariant
            i <= n,
            n == rows@.len(),
            all == assemble_views(rows@),
            forall|k: int| 0 <= k < i ==> !((#[trigger] all[k]) is Summary),
        decreases n - i,
    {
        assert(all[i as int] == rows@[i as int]@);
        if let AssembleRow::Summary { .. } = &rows[i] {
            assert(all[i as int] is Summary);
            return true;
        }
        i += 1;
    }
    false
}

/// Builds the messages of a request: the system prompt, and each item of the
/// active context in order. A summary becomes a system message in a
/// `<summary>` tag, and then the prompt says how to look behind it. `written`
/// is the list of files written for the request.
pub fn assemble_rows(rows: &Vec<AssembleRow>, system_prompt: &str, written: &Option<String>) -> (r:
    Result<AssembledContext, RowError>)
    ensures
        match r {
            Ok(c) => assembled(assemble_views(rows@), system_prompt@, text_view(*written)) == Ok::<
                Seq<MessageView>,
                RowFault,
            >(message_views(c.messages@)),
            Err(e) => assembled(assemble_views(rows@), system_prompt@, text_view(*written)) == Err::<
                Seq<MessageView>,
                RowFault,
            >(e@),
        },
{
    let ghost all = assemble_views(rows@);
    let mut system = system_prompt.to_owned();
    if any_summary(rows) {
        system.append("\n\n");
        system.append(RECALL_GUIDANCE);
        if let Some(segment) = written {
            system.append("\n\n");
            system.append(segment.as_str());
        }
    }
    assert(system@ == system_text(system_prompt@, has_summary(all), text_view(*written)));
    let mut messages: Vec<Message> = Vec::new();
    messages.push(Message::System { content: system });
    let ghost head = seq![
        MessageView::System {
            content: system_text(system_prompt@, has_summary(all), text_view(*written)),
        },
    ];
    let n: usize = rows.len();
    let mut i: usize = 0;
    assert(all.take(0) =~= Seq::empty());
    assert(message_views(messages@) =~= head);
    assert(message_views(messages@) =~= head + Seq::<MessageView>::empty());
    while i < n
        invariant
            i <= n,
            n == rows@.len(),
            all == assemble_views(rows@),
            head == seq![
                MessageView::System {
                    content: system_text(system_prompt@, has_summary(all), text_view(*written)),
                },
            ],
            shown_all(all.take(i as int)) matches Ok(m) && message_views(messages@) == head + m,
        decreases n - i,
    {
        proof {
            assert(all.take(i + 1).drop_last() =~= all.take(i as int));
            assert(all.take(i + 1).last() == rows@[i as int]@);
        }
        match show(&rows[i]) {
            Err(e) => {
                proof {
                    lemma_shown_all(all, i + 1);
                }
                return Err(e);
            },
            Ok(m) => {
                let ghost before = messages@;
                messages.push(m);
                proof {
                    let m0 = shown_all(all.take(i as int))->Ok_0;
                    assert(message_views(messages@) =~= message_views(before).push(m@));
                    assert((head + m0).push(m@) =~= head + m0.push(m@));
                }
            },
        }
        i += 1;
    }
    assert(all.take(n as int) =~= all);
    Ok(AssembledContext { messages })
}

// ── Written files ───────────────────────────────────────────────────

/// The `path` argument of a tool call, from its arguments.
pub open spec fn path_argument(input: Seq<char>) -> Option<Seq<char>> {
    text_field_of(json_of(input), "path"@)
}

/// The `path` argument of a tool call, from its arguments; `None` where they
/// are no JSON object with a text under that name.
pub fn read_path_argument(input: &str) -> (r: Option<String>)
    ensures
        text_view(r) == path_argument(input@),
{
    let doc = parse(input);
    text_field(&doc, "path")
}

/// The paths that calls were made with, in order, with repetitions.
pub open spec fn paths_of(arguments: Seq<Option<Seq<char>>>) -> Seq<Seq<char>>
    decreases arguments.len(),
{
    if arguments.len() == 0 {
        Seq::empty()
    } else {
        match arguments.last() {
            Some(path) => paths_of(arguments.drop_last()).push(path),
            None => paths_of(arguments.drop_last()),
        }
    }
}

/// The paths that calls were made with, from their arguments.
pub open spec fn path_arguments(inputs: Seq<Seq<char>>) -> Seq<Option<Seq<char>>> {
    inputs.map_values(|input: Seq<char>| path_argument(input))
}

/// The list of written files, given the path of each call, newest first:
/// each path once, at most so many.
pub open spec fn segment_of(arguments: Seq<Option<Seq<char>>>) -> Option<Seq<char>> {
    let paths = first_of(unique_of(paths_of(arguments)), WRITTEN_FILES_CAP as nat);
    if paths.len() == 0 {
        None
    } else {
        Some(WRITTEN_FILES_HEADER@ + "\n"@ + joined(paths, "\n"@))
    }
}

/// The view of optional texts.
pub open spec fn text_views(texts: Seq<Option<String>>) -> Seq<Option<Seq<char>>> {
    texts.map_values(|t: Option<String>| text_view(t))
}

/// The list of written files, given the path of each call, newest first.
/// `None` where nothing was written.
pub fn list_written(arguments: &Vec<Option<String>>) -> (r: Option<String>)
    ensures
        text_view(r) == segment_of(text_views(arguments@)),
{
    let ghost all = text_views(arguments@);
    let n: usize = arguments.len();
    let mut paths: Vec<String> = Vec::new();
    let mut i: usize = 0;
    assert(all.take(0) =~= Seq::empty());
    assert(views(paths@) =~= paths_of(all.take(0)));
    while i < n
        invariant
            i <= n,
            n == arguments@.len(),
            all == text_views(arguments@),
            views(paths@) == paths_of(all.take(i as int)),
        decreases n - i,
    {
        proof {
            assert(all.take(i + 1).drop_last() =~= all.take(i as int));
            assert(all.take(i + 1).last() == text_view(arguments@[i as int]));
        }
        if let Some(path) = &arguments[i] {
            let ghost before = paths@;
            let copy = path.clone();
            paths.push(copy);
            proof {
                lemma_views_push(before, copy);
            }
        }
        i += 1;
    }
    assert(all.take(n as int) =~= all);
    let kept = first(&unique_ordered(&paths), WRITTEN_FILES_CAP);
    assert(views(kept@).len() == kept@.len());
    if kept.len() == 0 {
        return None;
    }
    let mut out = WRITTEN_FILES_HEADER.to_owned();
    out.append("\n");
    out.append(join(&kept, "\n").as_str());
    Some(out)
}

/// The list of files written for a request, from the arguments of the calls
/// that wrote them, newest first.
pub fn written_files_segment(inputs: &Vec<String>) -> (r: Option<String>)
    ensures
        text_view(r) == segment_of(path_arguments(views(inputs@))),
{
    let ghost all = views(inputs@);
    let n: usize = inputs.len();
    let mut arguments: Vec<Option<String>> = Vec::new();
    let mut i: usize = 0;
    while i < n
        invariant
            i <= n,
            n == inputs@.len(),
            all == views(inputs@),
            arguments@.len() == i,
            forall|k: int| 0 <= k < i ==> text_view(#[trigger] arguments@[k]) == path_argument(all[k]),
        decreases n - i,
    {
        assert(all[i as int] == inputs@[i as int]@);
        arguments.push(read_path_argument(inputs[i].as_str()));
        i += 1;
    }
    assert(text_views(arguments@) =~= path_arguments(all));
    list_written(&arguments)
}

// ── What holds of every request ─────────────────────────────────────

/// A request shows everything: the system prompt first, and then each item of
/// the active context in its place. It fails only where an item cannot be read.
pub proof fn a_request_shows_every_item(
    rows: Seq<AssembleView>,
    prompt: Seq<char>,
    written: Option<Seq<char>>,
)
    ensures
        assembled(rows, prompt, written) is Ok <==> forall|i: int|
            0 <= i < rows.len() ==> shown(#[trigger] rows[i]) is Ok,
        assembled(rows, prompt, written) matches Ok(messages) ==> {
            &&& messages.len() == rows.len() + 1
            &&& messages[0] is System
            &&& has_prefix(messages[0]->System_content, prompt)
            &&& forall|i: int|
                0 <= i < rows.len() ==> messages[i + 1] == shown(#[trigger] rows[i])->Ok_0
        },
        assembled(rows, prompt, written) matches Err(fault) ==> exists|i: int|
            0 <= i < rows.len() && shown(#[trigger] rows[i]) == Err::<MessageView, RowFault>(fault)
                && forall|j: int| 0 <= j < i ==> shown(#[trigger] rows[j]) is Ok,
{
    lemma_all_shown(rows);
    let text = system_text(prompt, has_summary(rows), written);
    assert(text.take(prompt.len() as int) =~= prompt);
}

proof fn lemma_all_shown(rows: Seq<AssembleView>)
    ensures
        shown_all(rows) is Ok <==> forall|i: int|
            0 <= i < rows.len() ==> shown(#[trigger] rows[i]) is Ok,
        shown_all(rows) matches Ok(messages) ==> messages.len() == rows.len() && forall|i: int|
            0 <= i < rows.len() ==> messages[i] == shown(#[trigger] rows[i])->Ok_0,
        shown_all(rows) matches Err(fault) ==> exists|i: int|
            0 <= i < rows.len() && shown(#[trigger] rows[i]) == Err::<MessageView, RowFault>(fault)
                && forall|j: int| 0 <= j < i ==> shown(#[trigger] rows[j]) is Ok,
    decreases rows.len(),
{
    if rows.len() > 0 {
        let rest = rows.drop_last();
        lemma_all_shown(rest);
        assert(forall|i: int| 0 <= i < rest.len() ==> #[trigger] rest[i] == rows[i]);
        assert(rows[rows.len() - 1] == rows.last());
        match shown_all(rest) {
            Err(fault) => {
                let i = choose|i: int|
                    0 <= i < rest.len() && shown(#[trigger] rest[i]) == Err::<MessageView, RowFault>(
                        fault,
                    ) && forall|j: int| 0 <= j < i ==> shown(#[trigger] rest[j]) is Ok;
                assert(rows[i] == rest[i]);
                assert forall|j: int| 0 <= j < i implies shown(#[trigger] rows[j]) is Ok by {
                    assert(rest[j] == rows[j]);
                }
            },
            Ok(before) => {
                assert forall|i: int| 0 <= i < rest.len() implies shown(#[trigger] rows[i]) is Ok by {
                    assert(rest[i] == rows[i]);
                }
                if let Ok(m) = shown(rows.last()) {
                    let messages = before.push(m);
                    assert forall|i: int| 0 <= i < rows.len() implies messages[i] == shown(
                        #[trigger] rows[i],
                    )->Ok_0 by {
                        if i < rest.len() {
                            assert(rest[i] == rows[i]);
                        }
                    }
                }
            },
        }
    }
}

/// A summary is shown as a system message with its id, its kind, its depth, the
/// time that it spans, and its whole text.
pub proof fn a_summary_is_shown_whole(
    id: Seq<char>,
    kind: Seq<char>,
    depth: i64,
    content: Seq<char>,
    earliest_at: Seq<char>,
    latest_at: Seq<char>,
)
    ensures
        ({
            let row = AssembleView::Summary { id, kind, depth, content, earliest_at, latest_at };
            &&& shown(row) is Ok
            &&& shown(row)->Ok_0 is System
            &&& has_prefix(
                shown(row)->Ok_0->System_content,
                "<summary id=\""@ + id + "\" kind=\""@ + kind + "\" depth=\""@ + signed_decimal(
                    depth as int,
                ),
            )
            &&& has_suffix(
                shown(row)->Ok_0->System_content,
                "\" earliest_at=\""@ + earliest_at + "\" latest_at=\""@ + latest_at + "\">\n"@
                    + content + "\n</summary>"@,
            )
        }),
{
    let t = shown_summary(id, kind, depth, content, earliest_at, latest_at);
    let a = "<summary id=\""@ + id + "\" kind=\""@ + kind + "\" depth=\""@ + signed_decimal(
        depth as int,
    );
    let b = "\" earliest_at=\""@ + earliest_at + "\" latest_at=\""@ + latest_at + "\">\n"@
        + content + "\n</summary>"@;
    assert(t.take(a.len() as int) =~= a);
    assert(t.skip(t.len() - b.len()) =~= b);
}

/// The system prompt stands as it is while nothing is summarized. Once
/// something is, the guidance on how to look behind summaries follows it, and
/// the list of written files where there is one.
pub proof fn the_prompt_is_extended_where_needed(
    prompt: Seq<char>,
    segment: Seq<char>,
    written: Option<Seq<char>>,
)
    ensures
        system_text(prompt, false, written) == prompt,
        has_prefix(system_text(prompt, true, written), prompt + "\n\n"@ + RECALL_GUIDANCE@),
        system_text(prompt, true, None).len() == (prompt + "\n\n"@ + RECALL_GUIDANCE@).len(),
        has_suffix(system_text(prompt, true, Some(segment)), RECALL_GUIDANCE@ + "\n\n"@ + segment),
{
    let a = prompt + "\n\n"@ + RECALL_GUIDANCE@;
    let t = system_text(prompt, true, written);
    assert(t.take(a.len() as int) =~= a);
    let u = system_text(prompt, true, Some(segment));
    let b = RECALL_GUIDANCE@ + "\n\n"@ + segment;
    assert(u.skip(u.len() - b.len()) =~= b);
}

/// The paths of calls are those that are given, in order.
pub proof fn paths_are_those_given(
    a: Seq<Option<Seq<char>>>,
    b: Seq<Option<Seq<char>>>,
    x: Seq<char>,
)
    ensures
        paths_of(seq![Some(x)]) == seq![x],
        paths_of(seq![None]) == Seq::<Seq<char>>::empty(),
        paths_of(a + b) == paths_of(a) + paths_of(b),
    decreases b.len(),
{
    let none = Seq::<Option<Seq<char>>>::empty();
    assert(seq![Some(x)].drop_last() =~= none);
    assert(seq![None::<Seq<char>>].drop_last() =~= none);
    assert(paths_of(none) =~= Seq::empty());
    assert(paths_of(seq![Some(x)]) =~= seq![x]);
    if b.len() == 0 {
        assert(a + b =~= a);
        assert(paths_of(a) + paths_of(b) =~= paths_of(a));
    } else {
        paths_are_those_given(a, b.drop_last(), x);
        assert((a + b).drop_last() =~= a + b.drop_last());
        assert(paths_of(a + b) =~= paths_of(a) + paths_of(b));
    }
}

/// The list of written files names every file that was written, up to 30 of
/// them, each on a line of its own below the heading. There is none where
/// nothing was written.
pub proof fn written_files_are_listed(arguments: Seq<Option<Seq<char>>>, i: int)
    ensures
        segment_of(arguments) is None <==> paths_of(arguments).len() == 0,
        segment_of(arguments) matches Some(text) ==> has_prefix(
            text,
            "## Files Written For This Request\n"@,
        ),
        0 <= i < unique_of(paths_of(arguments)).len() && i < 30 ==> (segment_of(
            arguments,
        ) matches Some(text) && occurs(text, unique_of(paths_of(arguments))[i])),
{
    let all = unique_of(paths_of(arguments));
    let paths = first_of(all, WRITTEN_FILES_CAP as nat);
    unique_keeps_every_value_once(paths_of(arguments));
    if paths_of(arguments).len() > 0 {
        let x = paths_of(arguments)[0];
        assert(paths_of(arguments).contains(x));
        assert(all.contains(x));
    } else {
        assert(all.len() == 0);
    }
    reveal_strlit("## Files Written For This Request");
    reveal_strlit("## Files Written For This Request\n");
    reveal_strlit("\n");
    if paths.len() > 0 {
        let list = joined(paths, "\n"@);
        let head = WRITTEN_FILES_HEADER@ + "\n"@;
        let text = head + list;
        assert(head =~= "## Files Written For This Request\n"@);
        assert(text.take(head.len() as int) =~= head);
        assert(segment_of(arguments) == Some(text));
        if 0 <= i < all.len() && i < 30 {
            joined_text_holds_every_part(paths, "\n"@, i);
            let none = Seq::<char>::empty();
            assert(text =~= head + list + none);
            lemma_occurs_in_part(head, list, none, all[i]);
        }
    }
}

/// The path of a call is the text under `path` in its arguments.
pub proof fn a_path_is_read_from_the_arguments(
    input: Seq<char>,
    fields: Seq<(Seq<char>, JsonView)>,
    path: Seq<char>,
)
    ensures
        json_of(input) == Some(JsonView::Object(fields.push(("path"@, JsonView::Text(path)))))
            ==> path_argument(input) == Some(path),
        json_of(input) is None ==> path_argument(input) is None,
{
    a_text_is_read_from_its_field(fields, "path"@, path, JsonView::Null);
}

} // verus!
