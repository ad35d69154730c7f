//! The self-analysis duty: mines the bot's own problem record for defects
//! and files at most one proposal per run.
//!
//! The record is the `[notify]` entries of the journal and the error log.
//! Entries about successful runs never enter the delta.

use vstd::prelude::*;

use crate::text::number::{decimal, push_decimal};
use crate::text::order::{
    lemma_lt_asymmetric, lemma_lt_irreflexive, lemma_lt_transitive, lt, text_lt,
};
use crate::text::split::{
    join, joined, lines, lines_of, split_first, split_once, split_once_joins_back,
};
use crate::text::{
    capped, has_prefix, has_suffix, lemma_find_char_unique, lemma_occurs_in_part,
    lemma_occurs_within, lemma_views_push, occurs, spell, spelled, stands_at, starts_with,
    truncate_output, views,
};
use crate::types::{estimate_tokens, tokens_of};

verus! {

/// Open proposals allowed per repository before filing stops.
pub const PROPOSAL_CAP: usize = 3;

/// Byte cap on each section of the prompt.
pub const SECTION_MAX_BYTES: usize = 32_768;

/// One file of the error log.
pub struct ErrorFile {
    pub name: String,
    pub bytes: Vec<u8>,
}

/// The contents of the duty's two sources. A missing journal is `None`; the
/// error files are in the order of their names, which is that of their dates.
pub struct Sources {
    pub journal: Option<Vec<u8>>,
    pub errors: Vec<ErrorFile>,
}

/// How far the sources have been read.
pub struct Cursor {
    /// Byte offset into the journal.
    pub journal: u64,
    /// The last error file read, and how far.
    pub errors_file: Option<String>,
    pub errors_offset: u64,
}

/// A cursor by its views.
pub struct CursorView {
    pub journal: u64,
    pub errors_file: Option<Seq<char>>,
    pub errors_offset: u64,
}

/// New symptom material since the cursor.
pub struct Delta {
    /// `[notify]` entries of the journal.
    pub notify: String,
    /// Lines of the error log.
    pub errors: String,
}

/// What a probe decided.
pub enum Probe {
    /// Enough new material: dispatch, and advance the cursor on success.
    Open { delta: Delta, next: Cursor },
    /// Not enough new material; the cursor stays and the delta accumulates.
    Closed,
    /// First contact: record the end of the sources, dispatch nothing.
    Prime(Cursor),
}

/// The view of an optional text.
pub open spec fn opt_view(s: Option<String>) -> Option<Seq<char>> {
    match s {
        Some(t) => Some(t@),
        None => None,
    }
}

impl View for Cursor {
    type V = CursorView;

    open spec fn view(&self) -> CursorView {
        CursorView {
            journal: self.journal,
            errors_file: opt_view(self.errors_file),
            errors_offset: self.errors_offset,
        }
    }
}

impl Default for Cursor {
    fn default() -> (c: Self)
        ensures
            c@ == (CursorView { journal: 0, errors_file: None, errors_offset: 0 }),
    {
        Cursor { journal: 0, errors_file: None, errors_offset: 0 }
    }
}


// ── Deltas ──────────────────────────────────────────────────────────

/// A journal line of the shape `[timestamp] [notify] …`: the tag stands right
/// behind the first closing bracket.
pub open spec fn notifies(line: Seq<char>) -> bool {
    match split_first(line, ']') {
        Some((stamp, rest)) => has_prefix(stamp, "["@) && has_prefix(rest, " [notify] "@),
        None => false,
    }
}

/// The lines that are notify entries, in order.
pub open spec fn notify_lines(lines: Seq<Seq<char>>) -> Seq<Seq<char>>
    decreases lines.len(),
{
    if lines.len() == 0 {
        Seq::empty()
    } else {
        let rest = notify_lines(lines.drop_last());
        if notifies(lines.last()) {
            rest.push(lines.last())
        } else {
            rest
        }
    }
}

/// The notify entries of the journal past `offset`.
pub open spec fn journal_text(journal: Option<Seq<u8>>, offset: u64) -> Seq<char> {
    match journal {
        Some(bytes) if offset <= bytes.len() => joined(
            notify_lines(lines_of(spelled(bytes.skip(offset as int)))),
            "\n"@,
        ),
        _ => Seq::empty(),
    }
}

/// Where the journal ends; a missing one ends at 0.
pub open spec fn journal_end(journal: Option<Seq<u8>>) -> u64 {
    match journal {
        Some(bytes) => bytes.len() as u64,
        None => 0,
    }
}

/// A name and the bytes of the file.
pub open spec fn file_view(f: ErrorFile) -> (Seq<char>, Seq<u8>) {
    (f.name@, f.bytes@)
}

/// Error files by their views.
pub open spec fn file_views(files: Seq<ErrorFile>) -> Seq<(Seq<char>, Seq<u8>)> {
    files.map_values(|f: ErrorFile| file_view(f))
}

/// Whether a file is older than the cursor.
pub open spec fn is_older(name: Seq<char>, cursor_file: Option<Seq<char>>) -> bool {
    match cursor_file {
        Some(c) => text_lt(name, c),
        None => false,
    }
}

/// Where reading starts in a file that is not older than the cursor.
pub open spec fn start_in(
    name: Seq<char>,
    cursor_file: Option<Seq<char>>,
    cursor_offset: u64,
) -> u64 {
    match cursor_file {
        Some(c) if name == c => cursor_offset,
        _ => 0,
    }
}

/// The error log past the cursor: the rest of the cursor's file, then every
/// newer file whole.
pub open spec fn errors_text(
    files: Seq<(Seq<char>, Seq<u8>)>,
    cursor_file: Option<Seq<char>>,
    cursor_offset: u64,
) -> Seq<char>
    decreases files.len(),
{
    if files.len() == 0 {
        Seq::empty()
    } else {
        let rest = errors_text(files.drop_last(), cursor_file, cursor_offset);
        let (name, bytes) = files.last();
        let start = start_in(name, cursor_file, cursor_offset);
        if is_older(name, cursor_file) || start > bytes.len() {
            rest
        } else {
            rest + spelled(bytes.skip(start as int))
        }
    }
}

/// Where reading the error log ends: the newest file read, and its length.
pub open spec fn errors_end(
    files: Seq<(Seq<char>, Seq<u8>)>,
    cursor_file: Option<Seq<char>>,
    cursor_offset: u64,
) -> (Option<Seq<char>>, u64)
    decreases files.len(),
{
    if files.len() == 0 {
        (cursor_file, cursor_offset)
    } else {
        let (name, bytes) = files.last();
        if is_older(name, cursor_file) {
            errors_end(files.drop_last(), cursor_file, cursor_offset)
        } else {
            (Some(name), bytes.len() as u64)
        }
    }
}

impl Sources {
    /// The journal's bytes.
    pub open spec fn journal_view(&self) -> Option<Seq<u8>> {
        match self.journal {
            Some(bytes) => Some(bytes@),
            None => None,
        }
    }

    /// The cursor at the end of both sources.
    pub open spec fn end(&self) -> CursorView {
        let files = file_views(self.errors@);
        CursorView {
            journal: journal_end(self.journal_view()),
            errors_file: if files.len() > 0 {
                Some(files.last().0)
            } else {
                None
            },
            errors_offset: if files.len() > 0 {
                files.last().1.len() as u64
            } else {
                0
            },
        }
    }

    /// The notify entries past `c`.
    pub open spec fn notify_since(&self, c: CursorView) -> Seq<char> {
        journal_text(self.journal_view(), c.journal)
    }

    /// The error log past `c`.
    pub open spec fn errors_since(&self, c: CursorView) -> Seq<char> {
        errors_text(file_views(self.errors@), c.errors_file, c.errors_offset)
    }

    /// The cursor after all that stands past `c` has been read.
    pub open spec fn read_to(&self, c: CursorView) -> CursorView {
        let end = errors_end(file_views(self.errors@), c.errors_file, c.errors_offset);
        CursorView {
            journal: journal_end(self.journal_view()),
            errors_file: end.0,
            errors_offset: end.1,
        }
    }
}

/// Whether `line` is a notify entry.
pub fn is_notify_entry(line: &str) -> (r: bool)
    ensures
        r == notifies(line@),
{
    match split_once(line, ']') {
        Some((stamp, rest)) => starts_with(stamp.as_str(), "[") && starts_with(
            rest.as_str(),
            " [notify] ",
        ),
        None => false,
    }
}

/// The notify entries of the journal past `offset`, and where it ends. A
/// journal shorter than `offset` is skipped to its end.
pub fn journal_delta(journal: &Option<Vec<u8>>, offset: u64) -> (r: (String, u64))
    ensures
        ({
            let bytes = match *journal {
                Some(b) => Some(b@),
                None => None,
            };
            r.0@ == journal_text(bytes, offset) && r.1 == journal_end(bytes)
        }),
{
    match journal {
        None => (String::new(), 0),
        Some(bytes) => {
            let end: u64 = bytes.len() as u64;
            if offset > end {
                return (String::new(), end);
            }
            let tail = vstd::slice::slice_subrange(bytes.as_slice(), offset as usize, bytes.len());
            assert(tail@ =~= bytes@.skip(offset as int));
            let text = spell(tail);
            let all = lines(text.as_str());
            let mut kept: Vec<String> = Vec::new();
            let mut i: usize = 0;
            assert(views(all@).take(0) =~= Seq::empty());
            assert(views(kept@) =~= Seq::empty());
            while i < all.len()
                invariant
                    i <= all@.len(),
                    views(kept@) == notify_lines(views(all@).take(i as int)),
                decreases all@.len() - i,
            {
                proof {
                    let next = views(all@).take(i + 1);
                    assert(next.drop_last() =~= views(all@).take(i as int));
                    assert(next.last() == all@[i as int]@);
                }
                if is_notify_entry(all[i].as_str()) {
                    let ghost before = kept@;
                    let line = all[i].clone();
                    kept.push(line);
                    proof {
                        lemma_views_push(before, line);
                    }
                }
                i += 1;
            }
            assert(views(all@).take(i as int) =~= views(all@));
            (join(&kept, "\n"), end)
        },
    }
}

/// The error log past the cursor, and where reading it ends.
pub fn errors_delta(
    files: &Vec<ErrorFile>,
    cursor_file: &Option<String>,
    cursor_offset: u64,
) -> (r: (String, Option<String>, u64))
    ensures
        r.0@ == errors_text(file_views(files@), opt_view(*cursor_file), cursor_offset),
        (opt_view(r.1), r.2) == errors_end(
            file_views(files@),
            opt_view(*cursor_file),
            cursor_offset,
        ),
{
    let mut out = String::new();
    let mut end_file: Option<String> = cursor_file.clone();
    let mut end_offset: u64 = cursor_offset;
    let mut i: usize = 0;
    let ghost all = file_views(files@);
    let ghost cursor = opt_view(*cursor_file);
    assert(all.take(0) =~= Seq::empty());
    while i < files.len()
        invariant
            i <= files@.len(),
            all == file_views(files@),
            cursor == opt_view(*cursor_file),
            out@ == errors_text(all.take(i as int), cursor, cursor_offset),
            (opt_view(end_file), end_offset) == errors_end(
                all.take(i as int),
                cursor,
                cursor_offset,
            ),
        decreases files@.len() - i,
    {
        let name = &files[i].name;
        let bytes = &files[i].bytes;
        proof {
            assert(all.take(i + 1).drop_last() =~= all.take(i as int));
            assert(all.take(i + 1).last() == file_view(files@[i as int]));
        }
        let (skip, offset): (bool, u64) = match cursor_file {
            Some(c) => {
                if lt(name.as_str(), c.as_str()) {
                    (true, 0)
                } else if *name == *c {
                    (false, cursor_offset)
                } else {
                    (false, 0)
                }
            },
            None => (false, 0),
        };
        if !skip {
            let len: u64 = bytes.len() as u64;
            if offset <= len {
                let tail = vstd::slice::slice_subrange(
                    bytes.as_slice(),
                    offset as usize,
                    bytes.len(),
                );
                assert(tail@ =~= bytes@.skip(offset as int));
                let text = spell(tail);
                out.append(text.as_str());
            }
            end_file = Some(name.clone());
            end_offset = len;
        }
        i += 1;
    }
    assert(all.take(i as int) =~= all);
    (out, end_file, end_offset)
}

/// The cursor at the end of both sources.
pub fn end_of_sources(sources: &Sources) -> (c: Cursor)
    ensures
        c@ == sources.end(),
{
    let journal: u64 = match &sources.journal {
        Some(bytes) => bytes.len() as u64,
        None => 0,
    };
    let n: usize = sources.errors.len();
    if n > 0 {
        let newest = &sources.errors[n - 1];
        Cursor {
            journal,
            errors_file: Some(newest.name.clone()),
            errors_offset: newest.bytes.len() as u64,
        }
    } else {
        Cursor { journal, errors_file: None, errors_offset: 0 }
    }
}

/// Probes the sources against the cursor and the threshold.
pub fn probe(sources: &Sources, cursor: Option<Cursor>, min_delta_tokens: usize) -> (r: Probe)
    ensures
        match (cursor, r) {
            (None, Probe::Prime(c)) => c@ == sources.end(),
            (Some(c), Probe::Closed) => tokens_of(sources.notify_since(c@)) + tokens_of(
                sources.errors_since(c@),
            ) < min_delta_tokens,
            (Some(c), Probe::Open { delta, next }) => {
                &&& tokens_of(sources.notify_since(c@)) + tokens_of(sources.errors_since(c@))
                    >= min_delta_tokens
                &&& delta.notify@ == sources.notify_since(c@)
                &&& delta.errors@ == sources.errors_since(c@)
                &&& next@ == sources.read_to(c@)
            },
            _ => false,
        },
{
    let cursor = match cursor {
        Some(c) => c,
        None => {
            return Probe::Prime(end_of_sources(sources));
        },
    };
    let (notify, journal) = journal_delta(&sources.journal, cursor.journal);
    let (errors, errors_file, errors_offset) = errors_delta(
        &sources.errors,
        &cursor.errors_file,
        cursor.errors_offset,
    );
    if estimate_tokens(notify.as_str()) + estimate_tokens(errors.as_str()) < min_delta_tokens {
        return Probe::Closed;
    }
    Probe::Open {
        delta: Delta { notify, errors },
        next: Cursor { journal, errors_file, errors_offset },
    }
}

// ── Laws of the cursor ──────────────────────────────────────────────

/// Whether the error files come in the order of their names, no name twice.
pub open spec fn in_name_order(files: Seq<(Seq<char>, Seq<u8>)>) -> bool {
    forall|i: int, j: int|
        0 <= i < j < files.len() ==> text_lt((#[trigger] files[i]).0, (#[trigger] files[j]).0)
}

proof fn lemma_all_older(
    files: Seq<(Seq<char>, Seq<u8>)>,
    cursor_file: Option<Seq<char>>,
    offset: u64,
)
    requires
        forall|i: int| 0 <= i < files.len() ==> is_older((#[trigger] files[i]).0, cursor_file),
    ensures
        errors_text(files, cursor_file, offset) == Seq::<char>::empty(),
        errors_end(files, cursor_file, offset) == (cursor_file, offset),
    decreases files.len(),
{
    if files.len() > 0 {
        let rest = files.drop_last();
        assert forall|i: int| 0 <= i < rest.len() implies is_older(
            (#[trigger] rest[i]).0,
            cursor_file,
        ) by {
            assert(rest[i] == files[i]);
        }
        lemma_all_older(rest, cursor_file, offset);
        assert(is_older(files[files.len() - 1].0, cursor_file));
    }
}

/// At the end of its files the error log holds nothing more to read.
proof fn lemma_nothing_past_newest(files: Seq<(Seq<char>, Seq<u8>)>)
    requires
        in_name_order(files),
        files.len() > 0,
        files.last().1.len() <= u64::MAX,
    ensures
        errors_text(files, Some(files.last().0), files.last().1.len() as u64) == Seq::<
            char,
        >::empty(),
{
    let c = Some(files.last().0);
    let n = files.last().1.len() as u64;
    let rest = files.drop_last();
    assert forall|i: int| 0 <= i < rest.len() implies is_older((#[trigger] rest[i]).0, c) by {
        assert(rest[i] == files[i]);
        assert(text_lt(files[i].0, files[files.len() - 1].0));
    }
    lemma_all_older(rest, c, n);
    lemma_lt_irreflexive(files.last().0);
    assert(files.last().1.skip(n as int) =~= Seq::empty());
}

/// Once the material past a cursor has been read, nothing of it is read
/// again: a probe from the advanced cursor finds neither entries nor errors.
pub proof fn nothing_is_read_twice(sources: Sources, c: CursorView)
    requires
        in_name_order(file_views(sources.errors@)),
        forall|i: int|
            0 <= i < sources.errors@.len() ==> (#[trigger] sources.errors@[i]).bytes@.len()
                <= u64::MAX,
        sources.journal_view() matches Some(bytes) ==> bytes.len() <= u64::MAX,
    ensures
        sources.notify_since(sources.read_to(c)) == Seq::<char>::empty(),
        sources.errors_since(sources.read_to(c)) == Seq::<char>::empty(),
{
    let files = file_views(sources.errors@);
    let next = sources.read_to(c);
    match sources.journal_view() {
        Some(bytes) => {
            assert(bytes.skip(bytes.len() as int) =~= Seq::empty());
            assert(lines_of(Seq::<char>::empty()) =~= Seq::empty());
            assert(notify_lines(Seq::empty()) =~= Seq::empty());
        },
        None => {},
    }
    if files.len() > 0 {
        let newest = files.last().0;
        assert(file_view(sources.errors@[files.len() - 1]) == files.last());
        if is_older(newest, c.errors_file) {
            // The cursor is past every file, and stays where it is.
            let mark = c.errors_file->0;
            assert forall|i: int| 0 <= i < files.len() implies is_older(
                (#[trigger] files[i]).0,
                c.errors_file,
            ) by {
                if i < files.len() - 1 {
                    assert(text_lt(files[i].0, files[files.len() - 1].0));
                    lemma_lt_transitive(files[i].0, newest, mark);
                }
            }
            lemma_all_older(files, c.errors_file, c.errors_offset);
        } else {
            lemma_nothing_past_newest(files);
        }
    }
}

/// A cursor primed at the end of the sources has nothing before it: a probe
/// of the same sources finds neither entries nor errors.
pub proof fn priming_skips_the_backlog(sources: Sources)
    requires
        in_name_order(file_views(sources.errors@)),
        forall|i: int|
            0 <= i < sources.errors@.len() ==> (#[trigger] sources.errors@[i]).bytes@.len()
                <= u64::MAX,
        sources.journal_view() matches Some(bytes) ==> bytes.len() <= u64::MAX,
    ensures
        sources.notify_since(sources.end()) == Seq::<char>::empty(),
        sources.errors_since(sources.end()) == Seq::<char>::empty(),
{
    let start = CursorView { journal: 0, errors_file: None, errors_offset: 0 };
    let files = file_views(sources.errors@);
    nothing_is_read_twice(sources, start);
    if files.len() > 0 {
        assert(sources.read_to(start) == sources.end());
    } else {
        assert(errors_text(files, None, 0) == Seq::<char>::empty());
    }
}

// ── The prompt ──────────────────────────────────────────────────────

/// A section of the prompt, left out where there is nothing to show.
pub open spec fn section(heading: Seq<char>, body: Seq<char>) -> Seq<char> {
    if body.len() == 0 {
        Seq::empty()
    } else {
        heading + capped(body, SECTION_MAX_BYTES as nat) + "\n"@
    }
}

/// The query for the open issues that the bot filed on a repository.
pub fn proposal_query(login: &str, repo: &str) -> (r: String)
    ensures
        r@ == "is:issue is:open author:"@ + login@ + " repo:"@ + repo@,
{
    let mut out = "is:issue is:open author:".to_owned();
    out.append(login);
    out.append(" repo:");
    out.append(repo);
    out
}

/// An open issue, as the prompt lists it.
pub fn proposal_title(number: u64, title: &str) -> (r: String)
    ensures
        r@ == "#"@ + decimal(number as nat) + " "@ + title@,
{
    let mut out = "#".to_owned();
    push_decimal(&mut out, number);
    out.append(" ");
    out.append(title);
    out
}

/// One line per open proposal.
pub open spec fn proposal_lines(titles: Seq<Seq<char>>) -> Seq<char>
    decreases titles.len(),
{
    if titles.len() == 0 {
        Seq::empty()
    } else {
        proposal_lines(titles.drop_last()) + "- "@ + titles.last() + "\n"@
    }
}

pub open spec fn proposals_section(titles: Seq<Seq<char>>) -> Seq<char> {
    if titles.len() == 0 {
        Seq::empty()
    } else {
        "\nOpen issues on this repo — if your symptom matches one (yours or human-filed), do not file; cite it instead:\n"@
            + proposal_lines(titles)
    }
}

/// The contract that the prompt ends with.
pub open spec fn contract_text(repo: Seq<char>) -> Seq<char> {
    "\nInvestigate the most significant symptom. Ground it in the code first: explore the checkout of "@
        + repo + " before concluding. Then either file ONE issue on "@ + repo
        + " with github_issue_create — evidence quoted, your analysis, the suspected code location — or reply briefly that nothing is actionable. Transient one-off failures that self-corrected are not actionable. Do not fix anything: proposals are triaged by a human, and an issue you file only becomes work when a human assigns it."@
}

/// The dispatch prompt: symptoms, open issues, and the contract.
pub open spec fn prompt_text(
    repo: Seq<char>,
    notify: Seq<char>,
    errors: Seq<char>,
    proposals: Seq<Seq<char>>,
) -> Seq<char> {
    "Self-analysis: review your own operational record since the last run and decide whether it evidences a defect in kitaebot worth filing.\n"@
        + section("\nProblem reports from your journal:\n"@, notify) + section(
        "\nError events (WARN/ERROR):\n"@,
        errors,
    ) + proposals_section(proposals) + contract_text(repo)
}

/// Appends a section unless its body is empty.
fn push_section(out: &mut String, heading: &str, body: &str)
    ensures
        final(out)@ == old(out)@ + section(heading@, body@),
{
    let ghost before = out@;
    if !body.is_empty() {
        out.append(heading);
        out.append(truncate_output(body, SECTION_MAX_BYTES).as_str());
        out.append("\n");
    }
    assert(out@ =~= before + section(heading@, body@));
}

/// The dispatch prompt: symptoms, open issues on the repository for
/// deduplication, and the one-proposal contract.
pub fn format_prompt(repo: &str, delta: &Delta, open_proposals: &Vec<String>) -> (r: String)
    ensures
        r@ == prompt_text(repo@, delta.notify@, delta.errors@, views(open_proposals@)),
{
    let mut s = String::new();
    s.append(
        "Self-analysis: review your own operational record since the last run and decide whether it evidences a defect in kitaebot worth filing.\n",
    );
    push_section(&mut s, "\nProblem reports from your journal:\n", delta.notify.as_str());
    push_section(&mut s, "\nError events (WARN/ERROR):\n", delta.errors.as_str());
    let ghost head = s@;
    if open_proposals.len() > 0 {
        s.append(
            "\nOpen issues on this repo — if your symptom matches one (yours or human-filed), do not file; cite it instead:\n",
        );
        let ghost before = s@;
        let ghost titles = views(open_proposals@);
        let mut i: usize = 0;
        assert(titles.take(0) =~= Seq::empty());
        assert(s@ =~= before + proposal_lines(titles.take(0)));
        while i < open_proposals.len()
            invariant
                i <= open_proposals@.len(),
                titles == views(open_proposals@),
                s@ == before + proposal_lines(titles.take(i as int)),
            decreases open_proposals@.len() - i,
        {
            s.append("- ");
            s.append(open_proposals[i].as_str());
            s.append("\n");
            proof {
                let next = titles.take(i + 1);
                assert(next.drop_last() =~= titles.take(i as int));
                assert(next.last() == open_proposals@[i as int]@);
                assert(s@ =~= before + proposal_lines(next));
            }
            i += 1;
        }
        assert(titles.take(i as int) =~= titles);
        assert(s@ =~= head + proposals_section(titles));
    }
    assert(s@ =~= head + proposals_section(views(open_proposals@)));
    let ghost body = s@;
    s.append(
        "\nInvestigate the most significant symptom. Ground it in the code first: explore the checkout of ",
    );
    s.append(repo);
    s.append(" before concluding. Then either file ONE issue on ");
    s.append(repo);
    s.append(
        " with github_issue_create — evidence quoted, your analysis, the suspected code location — or reply briefly that nothing is actionable. Transient one-off failures that self-corrected are not actionable. Do not fix anything: proposals are triaged by a human, and an issue you file only becomes work when a human assigns it.",
    );
    assert(s@ =~= body + contract_text(repo@));
    s
}

// ── What a delta and a prompt hold ──────────────────────────────────

/// A line is a notify entry exactly where it is a stamp in brackets, then the
/// tag, then the report.
pub proof fn a_notify_entry_has_its_shape(line: Seq<char>)
    ensures
        notifies(line) <==> exists|stamp: Seq<char>, report: Seq<char>|
            !stamp.contains(']') && line == #[trigger] entry_of(stamp, report),
{
    split_once_joins_back(line, ']');
    reveal_strlit("[");
    reveal_strlit("] [notify] ");
    reveal_strlit(" [notify] ");
    if notifies(line) {
        let (head, rest) = split_first(line, ']')->0;
        let stamp = head.drop_first();
        let report = rest.skip(" [notify] "@.len() as int);
        assert(head.take(1)[0] == "["@[0]);
        assert(head =~= seq!['['] + stamp);
        assert(rest =~= " [notify] "@ + report);
        assert(line =~= entry_of(stamp, report));
        if stamp.contains(']') {
            let k = choose|k: int| 0 <= k < stamp.len() && stamp[k] == ']';
            assert(head[k + 1] == ']');
        }
    }
    if exists|stamp: Seq<char>, report: Seq<char>|
        !stamp.contains(']') && line == #[trigger] entry_of(stamp, report) {
        let (stamp, report) = choose|stamp: Seq<char>, report: Seq<char>|
            !stamp.contains(']') && line == #[trigger] entry_of(stamp, report);
        let k = stamp.len() + 1;
        assert(line[k as int] == ']');
        assert forall|j: int| 0 <= j < k implies line[j] != ']' by {
            if j > 0 {
                assert(line[j] == stamp[j - 1]);
                assert(stamp.contains(stamp[j - 1]));
            }
        }
        lemma_find_char_unique(line, ']', k as int);
        assert(line.take(k as int).take(1) =~= "["@);
        let rest = line.skip((k + 1) as int);
        assert(rest.take(" [notify] "@.len() as int) =~= " [notify] "@);
    }
}

/// A stamp in brackets, the tag, and a report.
pub open spec fn entry_of(stamp: Seq<char>, report: Seq<char>) -> Seq<char> {
    "["@ + stamp + "] [notify] "@ + report
}

/// The delta of the journal misses nothing: every line past the offset that is
/// a notify entry stands in it, as often and in the order in which it stands in
/// the journal, and nothing else does.
pub proof fn the_journal_delta_misses_nothing(bytes: Seq<u8>, offset: u64)
    requires
        offset <= bytes.len(),
    ensures
        journal_text(Some(bytes), offset) == joined(
            lines_of(spelled(bytes.skip(offset as int))).filter(|line: Seq<char>| notifies(line)),
            "\n"@,
        ),
        journal_end(Some(bytes)) == bytes.len() as u64,
{
    lemma_notify_lines(lines_of(spelled(bytes.skip(offset as int))));
}

proof fn lemma_notify_lines(lines: Seq<Seq<char>>)
    ensures
        notify_lines(lines) == lines.filter(|line: Seq<char>| notifies(line)),
    decreases lines.len(),
{
    reveal(Seq::filter);
    if lines.len() > 0 {
        lemma_notify_lines(lines.drop_last());
    } else {
        assert(notify_lines(lines) =~= lines.filter(|line: Seq<char>| notifies(line)));
    }
}

/// The error log is read file by file, in order: a file that is older than the
/// cursor is left out, the cursor's own is read from the offset on, and a newer
/// one, or any where there is no cursor, is read whole.
pub proof fn the_error_delta_misses_nothing(
    a: Seq<(Seq<char>, Seq<u8>)>,
    b: Seq<(Seq<char>, Seq<u8>)>,
    name: Seq<char>,
    bytes: Seq<u8>,
    mark: Seq<char>,
    offset: u64,
)
    ensures
        errors_text(a + b, Some(mark), offset) == errors_text(a, Some(mark), offset) + errors_text(
            b,
            Some(mark),
            offset,
        ),
        errors_text(a + b, None, offset) == errors_text(a, None, offset) + errors_text(
            b,
            None,
            offset,
        ),
        text_lt(name, mark) ==> errors_text(seq![(name, bytes)], Some(mark), offset) == Seq::<
            char,
        >::empty(),
        name == mark && offset <= bytes.len() ==> errors_text(
            seq![(name, bytes)],
            Some(mark),
            offset,
        ) == spelled(bytes.skip(offset as int)),
        text_lt(mark, name) ==> errors_text(seq![(name, bytes)], Some(mark), offset) == spelled(
            bytes,
        ),
        errors_text(seq![(name, bytes)], None, offset) == spelled(bytes),
    decreases b.len(),
{
    let one = seq![(name, bytes)];
    let none = Seq::<(Seq<char>, Seq<u8>)>::empty();
    assert(one.drop_last() =~= none);
    assert(errors_text(none, Some(mark), offset) == Seq::<char>::empty());
    assert(errors_text(none, None, offset) == Seq::<char>::empty());
    assert(bytes.skip(0) =~= bytes);
    assert(Seq::<char>::empty() + spelled(bytes) =~= spelled(bytes));
    assert(Seq::<char>::empty() + spelled(bytes.skip(offset as int)) =~= spelled(
        bytes.skip(offset as int),
    ));
    lemma_lt_irreflexive(name);
    if text_lt(mark, name) {
        lemma_lt_asymmetric(mark, name);
    }
    if b.len() == 0 {
        assert(a + b =~= a);
        assert(errors_text(a, Some(mark), offset) + Seq::<char>::empty() =~= errors_text(
            a,
            Some(mark),
            offset,
        ));
        assert(errors_text(a, None, offset) + Seq::<char>::empty() =~= errors_text(
            a,
            None,
            offset,
        ));
    } else {
        the_error_delta_misses_nothing(a, b.drop_last(), name, bytes, mark, offset);
        assert((a + b).drop_last() =~= a + b.drop_last());
        assert(errors_text(a + b, Some(mark), offset) =~= errors_text(a, Some(mark), offset)
            + errors_text(b, Some(mark), offset));
        assert(errors_text(a + b, None, offset) =~= errors_text(a, None, offset) + errors_text(
            b,
            None,
            offset,
        ));
    }
}

/// After reading, the cursor stands at the end of the newest file that was
/// read, and at the end of the journal; where no file was, it stays.
pub proof fn the_cursor_moves_to_the_end(sources: Sources, c: CursorView)
    requires
        in_name_order(file_views(sources.errors@)),
    ensures
        ({
            let files = file_views(sources.errors@);
            let next = sources.read_to(c);
            &&& next.journal == match sources.journal_view() {
                Some(bytes) => bytes.len() as u64,
                None => 0,
            }
            &&& files.len() > 0 && !is_older(files.last().0, c.errors_file) ==> next.errors_file
                == Some(files.last().0) && next.errors_offset == files.last().1.len() as u64
            &&& files.len() == 0 ==> next.errors_file == c.errors_file && next.errors_offset
                == c.errors_offset
            &&& files.len() > 0 ==> sources.end().errors_file == Some(files.last().0)
                && sources.end().errors_offset == files.last().1.len() as u64
        }),
{
}

proof fn lemma_proposal_lines(titles: Seq<Seq<char>>, i: int)
    requires
        0 <= i < titles.len(),
    ensures
        occurs(proposal_lines(titles), "- "@ + titles[i] + "\n"@),
    decreases titles.len(),
{
    let none = Seq::<char>::empty();
    let rest = proposal_lines(titles.drop_last());
    let last = "- "@ + titles.last() + "\n"@;
    assert(proposal_lines(titles) =~= rest + last + none);
    assert(proposal_lines(titles) =~= none + rest + last);
    if i == titles.len() - 1 {
        lemma_occurs_within(rest, last, none);
    } else {
        lemma_proposal_lines(titles.drop_last(), i);
        lemma_occurs_in_part(none, rest, last, "- "@ + titles[i] + "\n"@);
    }
}

/// The prompt shows what was collected: the reports and the errors under their
/// headings, each whole where it is within 32 KiB and otherwise cut as capping
/// does, then every open issue, and last what is asked of the agent.
pub proof fn a_prompt_shows_what_was_collected(
    repo: Seq<char>,
    notify: Seq<char>,
    errors: Seq<char>,
    proposals: Seq<Seq<char>>,
)
    ensures
        notify.len() > 0 ==> occurs(
            prompt_text(repo, notify, errors, proposals),
            "\nProblem reports from your journal:\n"@ + capped(notify, 32_768) + "\n"@,
        ),
        errors.len() > 0 ==> occurs(
            prompt_text(repo, notify, errors, proposals),
            "\nError events (WARN/ERROR):\n"@ + capped(errors, 32_768) + "\n"@,
        ),
        forall|i: int|
            0 <= i < proposals.len() ==> occurs(
                prompt_text(repo, notify, errors, proposals),
                "- "@ + #[trigger] proposals[i] + "\n"@,
            ),
        has_suffix(prompt_text(repo, notify, errors, proposals), contract_text(repo)),
        occurs(contract_text(repo), "explore the checkout of "@ + repo + " before"@),
        occurs(contract_text(repo), "file ONE issue on "@ + repo + " with"@),
{
    let p = prompt_text(repo, notify, errors, proposals);
    let head =
        "Self-analysis: review your own operational record since the last run and decide whether it evidences a defect in kitaebot worth filing.\n"@;
    let a = section("\nProblem reports from your journal:\n"@, notify);
    let b = section("\nError events (WARN/ERROR):\n"@, errors);
    let c = proposals_section(proposals);
    let d = contract_text(repo);
    lemma_occurs_within(head, a, b + c + d);
    assert(p =~= head + a + (b + c + d));
    lemma_occurs_within(head + a, b, c + d);
    assert(p =~= head + a + b + (c + d));
    assert(p.skip(p.len() - d.len()) =~= d);
    assert forall|i: int| 0 <= i < proposals.len() implies occurs(
        p,
        "- "@ + #[trigger] proposals[i] + "\n"@,
    ) by {
        lemma_proposal_lines(proposals, i);
        let lines = proposal_lines(proposals);
        let before = head + a + b
            + "\nOpen issues on this repo — if your symptom matches one (yours or human-filed), do not file; cite it instead:\n"@;
        assert(p =~= before + lines + d);
        lemma_occurs_in_part(before, lines, d, "- "@ + proposals[i] + "\n"@);
    }
    lemma_contract(repo);
}

proof fn lemma_contract(repo: Seq<char>)
    ensures
        occurs(contract_text(repo), "explore the checkout of "@ + repo + " before"@),
        occurs(contract_text(repo), "file ONE issue on "@ + repo + " with"@),
{
    let t = contract_text(repo);
    let x =
        "\nInvestigate the most significant symptom. Ground it in the code first: explore the checkout of "@;
    let y = " before concluding. Then either file ONE issue on "@;
    reveal_strlit(
        "\nInvestigate the most significant symptom. Ground it in the code first: explore the checkout of ",
    );
    reveal_strlit(" before concluding. Then either file ONE issue on ");
    reveal_strlit(
        " with github_issue_create — evidence quoted, your analysis, the suspected code location — or reply briefly that nothing is actionable. Transient one-off failures that self-corrected are not actionable. Do not fix anything: proposals are triaged by a human, and an issue you file only becomes work when a human assigns it.",
    );
    reveal_strlit("explore the checkout of ");
    reveal_strlit(" before");
    reveal_strlit("file ONE issue on ");
    reveal_strlit(" with");
    let p = "explore the checkout of "@ + repo + " before"@;
    let at = x.len() - "explore the checkout of "@.len();
    assert(t.subrange(at, at + p.len()) =~= p);
    assert(stands_at(t, p, at));
    let q = "file ONE issue on "@ + repo + " with"@;
    let to = x.len() + repo.len() + y.len() - "file ONE issue on "@.len();
    assert(t.subrange(to, to + q.len()) =~= q);
    assert(stands_at(t, q, to));
}

} // verus!
