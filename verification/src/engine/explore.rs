//! Exploration summaries of large payloads. A payload that claims to be JSON
//! but is not is said to be so, and a reference need not name a path.

use vstd::prelude::*;

use crate::context::lcm::explore::{detect_kind, kind_of, path_view, FileKind};
use crate::context::lcm::survey::{
    headers_of, instructions_text, json_survey, survey_of, text_sample, ExplorationStep,
};
use crate::json::json_of;
use crate::text::number::{decimal, push_usize};
use crate::text::split::{trim, trimmed};
use crate::text::{has_prefix, has_suffix};
use crate::types::{message_views, MessageView};

verus! {

/// What stands in a message in place of a payload.
pub open spec fn reference_to(
    file_id: Seq<char>,
    path: Option<Seq<char>>,
    token_count: nat,
    summary: Seq<char>,
) -> Seq<char> {
    let named = match path {
        Some(p) => " path=\""@ + p + "\""@,
        None => Seq::empty(),
    };
    "<file id=\""@ + file_id + "\""@ + named + " tokens=\""@ + decimal(token_count) + "\">\n"@
        + trimmed(summary) + "\n</file>"@
}

/// What stands in a message in place of a payload.
pub fn format_file_reference(
    file_id: &str,
    path: Option<&str>,
    token_count: usize,
    summary: &str,
) -> (r: String)
    ensures
        r@ == reference_to(file_id@, path_view(path), token_count as nat, summary@),
{
    let mut out = "<file id=\"".to_owned();
    out.append(file_id);
    out.append("\"");
    if let Some(p) = path {
        out.append(" path=\"");
        out.append(p);
        out.append("\"");
    }
    out.append(" tokens=\"");
    push_usize(&mut out, token_count);
    out.append("\">\n");
    out.append(trim(summary).as_str());
    out.append("\n</file>");
    assert(out@ =~= reference_to(file_id@, path_view(path), token_count as nat, summary@));
    out
}

/// What is said of JSON: its shape, or that it is none.
pub fn explore_json(content: &str) -> (r: String)
    ensures
        r@ == match json_of(content@) {
            Some(value) => json_survey(value),
            None => "Structured summary (JSON): failed to parse as valid JSON."@,
        },
{
    match crate::context::lcm::survey::explore_json(content) {
        Some(text) => text,
        None => "Structured summary (JSON): failed to parse as valid JSON.".to_owned(),
    }
}

/// What is said of a payload; `None` for plain text, which is put before the
/// model.
pub open spec fn first_survey(content: Seq<char>, path: Option<Seq<char>>) -> Option<Seq<char>> {
    match survey_of(content, path) {
        Some(text) => Some(text),
        None => if kind_of(path, content) is Json {
            Some("Structured summary (JSON): failed to parse as valid JSON."@)
        } else {
            None
        },
    }
}

/// Explores a payload by its kind. Only plain text is put before the model.
pub fn exploration_summary(content: &str, path: Option<&str>, summary_token_bound: u32) -> (r:
    ExplorationStep)
    ensures
        match (first_survey(content@, path_view(path)), r) {
            (Some(text), ExplorationStep::Done(s)) => s@ == text,
            (None, ExplorationStep::Ask { instructions, sample }) => {
                &&& instructions@ == instructions_text(
                    content@,
                    path_view(path),
                    headers_of(content@),
                    summary_token_bound as nat,
                )
                &&& message_views(sample@) == seq![
                    MessageView::User { content: text_sample(content@) },
                ]
            },
            _ => false,
        },
{
    let kind = detect_kind(path, content);
    if kind == FileKind::Json {
        return ExplorationStep::Done(explore_json(content));
    }
    crate::context::lcm::survey::exploration_summary(content, path, summary_token_bound)
}

/// A reference names its payload, the path where there is one, and the size,
/// and holds what was found out of it.
pub proof fn a_reference_holds_the_summary(
    file_id: Seq<char>,
    path: Option<Seq<char>>,
    token_count: nat,
    summary: Seq<char>,
)
    ensures
        has_prefix(reference_to(file_id, path, token_count, summary), "<file id=\""@ + file_id + "\""@),
        has_suffix(
            reference_to(file_id, path, token_count, summary),
            " tokens=\""@ + decimal(token_count) + "\">\n"@ + trimmed(summary) + "\n</file>"@,
        ),
        path matches Some(p) ==> reference_to(file_id, path, token_count, summary) == "<file id=\""@
            + file_id + "\" path=\""@ + p + "\" tokens=\""@ + decimal(token_count) + "\">\n"@
            + trimmed(summary) + "\n</file>"@,
        path is None ==> reference_to(file_id, path, token_count, summary) == "<file id=\""@
            + file_id + "\" tokens=\""@ + decimal(token_count) + "\">\n"@ + trimmed(summary)
            + "\n</file>"@,
{
    reveal_strlit("\"");
    reveal_strlit(" path=\"");
    reveal_strlit("\" path=\"");
    reveal_strlit(" tokens=\"");
    reveal_strlit("\" tokens=\"");
    let text = reference_to(file_id, path, token_count, summary);
    let start = "<file id=\""@ + file_id + "\""@;
    let end = " tokens=\""@ + decimal(token_count) + "\">\n"@ + trimmed(summary) + "\n</file>"@;
    let named = match path {
        Some(p) => " path=\""@ + p + "\""@,
        None => Seq::empty(),
    };
    assert(text =~= start + named + end);
    assert(text.take(start.len() as int) =~= start);
    assert(text.skip(text.len() - end.len()) =~= end);
    assert("\" path=\""@ =~= "\""@ + " path=\""@);
    assert("\" tokens=\""@ =~= "\""@ + " tokens=\""@);
    if let Some(p) = path {
        assert(text =~= "<file id=\""@ + file_id + "\" path=\""@ + p + "\" tokens=\""@ + decimal(
            token_count,
        ) + "\">\n"@ + trimmed(summary) + "\n</file>"@);
    } else {
        assert(text =~= "<file id=\""@ + file_id + "\" tokens=\""@ + decimal(token_count)
            + "\">\n"@ + trimmed(summary) + "\n</file>"@);
    }
}

/// A payload gets the survey of its kind; one that claims to be JSON and is
/// not is said to be so, and only plain text goes before the model.
pub proof fn only_plain_text_is_put_before_the_model(content: Seq<char>, path: Option<Seq<char>>)
    ensures
        survey_of(content, path) is Some ==> first_survey(content, path) == survey_of(content, path),
        kind_of(path, content) is Json && json_of(content) is None ==> first_survey(content, path)
            == Some("Structured summary (JSON): failed to parse as valid JSON."@),
        first_survey(content, path) is None ==> kind_of(path, content) is Text,
        kind_of(path, content) is Text ==> first_survey(content, path) is None,
{
}

} // verus!
