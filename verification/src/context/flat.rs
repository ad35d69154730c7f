//! The flat engine: one plain list of messages per session, which compaction
//! replaces by a summary.

use vstd::prelude::*;

use super::ephemeral::{cap_message, capped_message};
use super::lcm::engine::{read_active_session, remembered};
use super::lcm::summarize::messages_tokens;
use super::names::{desanitize_name, desanitized, sanitize_name, sanitized, shown_names_differ};
use super::{budget, percent_of, AssembledContext, CompactionEvent, ContextStats, SessionInfo};
use crate::config::ContextConfig;
use crate::session::{prompted, session_tokens, Session};
use crate::table::Table;
use crate::text::order::{lemma_lt_irreflexive, lemma_lt_total, lemma_lt_transitive, lt, text_lt};
use crate::text::{byte_len, has_suffix, same, utf8_len};
use crate::types::{
    estimate_tokens_from_chars, lemma_messages_chars_member, lemma_messages_chars_prefix,
    message_views, messages_chars, Message, MessageView,
};

verus! {

/// Asks for a summary that replaces a session.
pub const FLAT_SUMMARIZE_PROMPT: &'static str = "Produce a concise summary of the conversation below. Preserve all important facts, decisions, tool results, and open questions. Omit pleasantries and filler. The summary will replace the original messages, so nothing important should be lost.\n\nOutput requirements:\n- Plain text only. No preamble, headings, or markdown formatting.\n- Include a \"Files:\" line tracking file operations (created, modified, deleted, renamed). Each entry: the path plus a short clause on why it matters, e.g. \"src/exec.rs (modified: added retry wrapper)\".\n- If no file operations appear, include exactly: \"Files: none\".";

// ── Saved sessions ──────────────────────────────────────────────────

/// A session on disk: its stored name, and its messages where they could be
/// read.
pub struct SavedSession {
    pub stem: String,
    pub session: Option<Session>,
}

/// The view of a [`SavedSession`].
pub struct SavedView {
    pub stem: Seq<char>,
    pub messages: Option<Seq<MessageView>>,
}

impl View for SavedSession {
    type V = SavedView;

    open spec fn view(&self) -> SavedView {
        SavedView {
            stem: self.stem@,
            messages: match self.session {
                Some(s) => Some(s@),
                None => None,
            },
        }
    }
}

/// The views of saved sessions.
pub open spec fn saved_views(saved: Seq<SavedSession>) -> Seq<SavedView> {
    saved.map_values(|s: SavedSession| s@)
}

/// Whether the characters of every saved session can be counted.
pub open spec fn saved_fit(saved: Seq<SavedView>) -> bool {
    forall|i: int|
        0 <= i < saved.len() ==> ((#[trigger] saved[i]).messages matches Some(m) ==> messages_chars(m)
            <= usize::MAX)
}

/// The name of the file that a session is stored in.
pub open spec fn file_of(name: Seq<char>) -> Seq<char> {
    sanitized(name) + ".json"@
}

/// The name of the file that a session is stored in.
pub fn session_file(name: &str) -> (r: String)
    ensures
        r@ == file_of(name@),
{
    let mut out = sanitize_name(name);
    out.append(".json");
    out
}

// ── Listings ────────────────────────────────────────────────────────

/// What is listed of a session.
pub struct InfoView {
    pub name: Seq<char>,
    pub message_count: nat,
    pub tokens: nat,
}

impl View for SessionInfo {
    type V = InfoView;

    open spec fn view(&self) -> InfoView {
        InfoView {
            name: self.name@,
            message_count: self.message_count as nat,
            tokens: self.estimated_tokens as nat,
        }
    }
}

/// The views of listed sessions.
pub open spec fn info_views(infos: Seq<SessionInfo>) -> Seq<InfoView> {
    infos.map_values(|i: SessionInfo| i@)
}

/// What is listed of a session with messages.
pub open spec fn info_of(name: Seq<char>, messages: Seq<MessageView>) -> InfoView {
    InfoView { name, message_count: messages.len(), tokens: messages_chars(messages) / 4 }
}

/// What is listed of the saved sessions, by the names that are shown. The
/// active one is in memory; one that cannot be read is left out.
pub open spec fn saved_infos(
    saved: Seq<SavedView>,
    active: Seq<char>,
    current: Seq<MessageView>,
) -> Seq<InfoView>
    decreases saved.len(),
{
    if saved.len() == 0 {
        Seq::empty()
    } else {
        let rest = saved_infos(saved.drop_last(), active, current);
        let name = desanitized(saved.last().stem);
        if saved.last().stem == active {
            rest.push(info_of(name, current))
        } else {
            match saved.last().messages {
                Some(messages) => rest.push(info_of(name, messages)),
                None => rest,
            }
        }
    }
}

/// Whether a session is saved under a stored name.
pub open spec fn has_stem(saved: Seq<SavedView>, stem: Seq<char>) -> bool {
    exists|i: int| 0 <= i < saved.len() && (#[trigger] saved[i]).stem == stem
}

proof fn lemma_has_stem(saved: Seq<SavedView>, stem: Seq<char>)
    requires
        saved.len() > 0,
    ensures
        has_stem(saved, stem) == (has_stem(saved.drop_last(), stem) || saved.last().stem == stem),
{
    let some = saved.drop_last();
    if has_stem(saved, stem) {
        let k = choose|k: int| 0 <= k < saved.len() && (#[trigger] saved[k]).stem == stem;
        if k < some.len() {
            assert(some[k].stem == stem);
        }
    }
    if has_stem(some, stem) {
        let k = choose|k: int| 0 <= k < some.len() && (#[trigger] some[k]).stem == stem;
        assert(saved[k].stem == stem);
    }
    if saved.last().stem == stem {
        assert(saved[saved.len() - 1].stem == stem);
    }
}

/// Whether a session of a name is listed.
pub open spec fn is_named(infos: Seq<InfoView>, name: Seq<char>) -> bool {
    exists|i: int| 0 <= i < infos.len() && (#[trigger] infos[i]).name == name
}

/// A list with one more entry, in the order of names: behind those of the
/// same name.
pub open spec fn inserted(infos: Seq<InfoView>, info: InfoView) -> Seq<InfoView>
    decreases infos.len(),
{
    if infos.len() > 0 && text_lt(info.name, infos.last().name) {
        inserted(infos.drop_last(), info).push(infos.last())
    } else {
        infos.push(info)
    }
}

/// A list in the order of names.
pub open spec fn by_name(infos: Seq<InfoView>) -> Seq<InfoView>
    decreases infos.len(),
{
    if infos.len() == 0 {
        Seq::empty()
    } else {
        inserted(by_name(infos.drop_last()), infos.last())
    }
}

/// Whether a list is in the order of names.
pub open spec fn is_sorted(infos: Seq<InfoView>) -> bool {
    forall|i: int, j: int|
        0 <= i < j < infos.len() ==> !text_lt(
            (#[trigger] infos[j]).name,
            (#[trigger] infos[i]).name,
        )
}

/// The listing: saved sessions, and the active one where it was never saved.
pub open spec fn listing(saved: Seq<SavedView>, active: Seq<char>, current: Seq<MessageView>) -> Seq<
    InfoView,
> {
    let infos = saved_infos(saved, active, current);
    by_name(
        if has_stem(saved, active) {
            infos
        } else {
            infos.push(info_of(desanitized(active), current))
        },
    )
}

proof fn lemma_inserted_at(infos: Seq<InfoView>, info: InfoView, k: int)
    requires
        0 <= k <= infos.len(),
        forall|i: int| k <= i < infos.len() ==> text_lt(info.name, (#[trigger] infos[i]).name),
        k > 0 ==> !text_lt(info.name, infos[k - 1].name),
    ensures
        inserted(infos, info) == infos.insert(k, info),
    decreases infos.len(),
{
    if k == infos.len() {
        assert(infos.push(info) =~= infos.insert(k, info));
    } else {
        let rest = infos.drop_last();
        assert(text_lt(info.name, infos[infos.len() - 1].name));
        lemma_inserted_at(rest, info, k);
        assert(rest.insert(k, info).push(infos.last()) =~= infos.insert(k, info));
    }
}

proof fn lemma_inserted_is_sorted(infos: Seq<InfoView>, info: InfoView)
    requires
        is_sorted(infos),
    ensures
        is_sorted(inserted(infos, info)),
        inserted(infos, info).len() == infos.len() + 1,
        forall|i: int|
            0 <= i < inserted(infos, info).len() ==> {
                let x = #[trigger] inserted(infos, info)[i];
                x == info || infos.contains(x)
            },
    decreases infos.len(),
{
    let out = inserted(infos, info);
    if infos.len() > 0 && text_lt(info.name, infos.last().name) {
        let rest = infos.drop_last();
        let before = inserted(rest, info);
        lemma_inserted_is_sorted(rest, info);
        assert forall|i: int| 0 <= i < out.len() implies {
            let x = #[trigger] out[i];
            x == info || infos.contains(x)
        } by {
            if i < before.len() {
                assert(out[i] == before[i]);
                if before[i] != info {
                    let k = choose|k: int| 0 <= k < rest.len() && rest[k] == before[i];
                    assert(infos[k] == out[i]);
                }
            } else {
                assert(infos[infos.len() - 1] == out[i]);
            }
        }
        assert forall|i: int, j: int| 0 <= i < j < out.len() implies !text_lt(
            (#[trigger] out[j]).name,
            (#[trigger] out[i]).name,
        ) by {
            assert(out[i] == before[i]);
            if j < before.len() {
                assert(out[j] == before[j]);
            } else if before[i] == info {
                if text_lt(infos.last().name, info.name) {
                    lemma_lt_transitive(info.name, infos.last().name, info.name);
                    lemma_lt_irreflexive(info.name);
                }
            } else {
                let k = choose|k: int| 0 <= k < rest.len() && rest[k] == before[i];
                assert(infos[k] == before[i]);
                assert(!text_lt(infos[infos.len() - 1].name, infos[k].name));
            }
        }
    } else {
        assert forall|i: int| 0 <= i < out.len() implies {
            let x = #[trigger] out[i];
            x == info || infos.contains(x)
        } by {
            if i < infos.len() {
                assert(infos[i] == out[i]);
            }
        }
        assert forall|i: int, j: int| 0 <= i < j < out.len() implies !text_lt(
            (#[trigger] out[j]).name,
            (#[trigger] out[i]).name,
        ) by {
            assert(out[i] == infos[i]);
            if j < infos.len() {
                assert(out[j] == infos[j]);
            } else if text_lt(info.name, infos[i].name) {
                let last = infos[infos.len() - 1];
                if i < infos.len() - 1 {
                    assert(!text_lt(last.name, infos[i].name));
                    lemma_lt_total(infos[i].name, last.name);
                    if infos[i].name != last.name {
                        lemma_lt_transitive(info.name, infos[i].name, last.name);
                    }
                }
            }
        }
    }
}

/// The listing is in the order of names, and no entry is lost or added by
/// sorting.
pub proof fn listing_is_sorted(infos: Seq<InfoView>)
    ensures
        is_sorted(by_name(infos)),
        by_name(infos).len() == infos.len(),
    decreases infos.len(),
{
    if infos.len() > 0 {
        listing_is_sorted(infos.drop_last());
        lemma_inserted_is_sorted(by_name(infos.drop_last()), infos.last());
    }
}

/// Whether no two entries of a list have the same name.
pub open spec fn names_differ(infos: Seq<InfoView>) -> bool {
    forall|i: int, j: int|
        0 <= i < j < infos.len() ==> (#[trigger] infos[i]).name != (#[trigger] infos[j]).name
}

/// Sorting an entry in keeps the others, and keeps names apart.
proof fn lemma_inserted_names(infos: Seq<InfoView>, info: InfoView)
    requires
        names_differ(infos),
        !is_named(infos, info.name),
    ensures
        names_differ(inserted(infos, info)),
        forall|name: Seq<char>|
            #[trigger] is_named(inserted(infos, info), name) <==> is_named(infos, name) || name
                == info.name,
    decreases infos.len(),
{
    let out = inserted(infos, info);
    if infos.len() > 0 && text_lt(info.name, infos.last().name) {
        let rest = infos.drop_last();
        let before = inserted(rest, info);
        let last = infos.last();
        assert forall|i: int, j: int| 0 <= i < j < rest.len() implies (#[trigger] rest[i]).name != (
        #[trigger] rest[j]).name by {
            assert(rest[i] == infos[i] && rest[j] == infos[j]);
        }
        lemma_named_push(rest, last);
        assert(rest.push(last) =~= infos);
        lemma_inserted_names(rest, info);
        lemma_named_push(before, last);
        assert(last.name != info.name) by {
            assert(infos[infos.len() - 1].name == last.name);
        }
        assert(!is_named(rest, last.name)) by {
            if is_named(rest, last.name) {
                let k = choose|k: int| 0 <= k < rest.len() && (#[trigger] rest[k]).name == last.name;
                assert(infos[k].name == infos[infos.len() - 1].name);
            }
        }
        assert(!is_named(before, last.name));
        lemma_names_differ_push(before, last);
    } else {
        lemma_named_push(infos, info);
        lemma_names_differ_push(infos, info);
    }
}

proof fn lemma_named_push(infos: Seq<InfoView>, info: InfoView)
    ensures
        forall|name: Seq<char>|
            #[trigger] is_named(infos.push(info), name) <==> is_named(infos, name) || name
                == info.name,
{
    let out = infos.push(info);
    assert forall|name: Seq<char>|
        #[trigger] is_named(out, name) <==> is_named(infos, name) || name == info.name by {
        if is_named(out, name) {
            let k = choose|k: int| 0 <= k < out.len() && (#[trigger] out[k]).name == name;
            if k < infos.len() {
                assert(infos[k].name == name);
            }
        }
        if is_named(infos, name) {
            let k = choose|k: int| 0 <= k < infos.len() && (#[trigger] infos[k]).name == name;
            assert(out[k].name == name);
        }
        if name == info.name {
            assert(out[infos.len() as int].name == name);
        }
    }
}

proof fn lemma_names_differ_push(infos: Seq<InfoView>, info: InfoView)
    requires
        names_differ(infos),
        !is_named(infos, info.name),
    ensures
        names_differ(infos.push(info)),
{
    let out = infos.push(info);
    assert forall|i: int, j: int| 0 <= i < j < out.len() implies (#[trigger] out[i]).name != (
    #[trigger] out[j]).name by {
        assert(out[i] == infos[i]);
        if j < infos.len() {
            assert(out[j] == infos[j]);
        }
    }
}

proof fn lemma_sorted_names(infos: Seq<InfoView>)
    requires
        names_differ(infos),
    ensures
        names_differ(by_name(infos)),
        forall|name: Seq<char>|
            #[trigger] is_named(by_name(infos), name) <==> is_named(infos, name),
    decreases infos.len(),
{
    if infos.len() > 0 {
        let rest = infos.drop_last();
        let last = infos.last();
        assert forall|i: int, j: int| 0 <= i < j < rest.len() implies (#[trigger] rest[i]).name != (
        #[trigger] rest[j]).name by {
            assert(rest[i] == infos[i] && rest[j] == infos[j]);
        }
        lemma_sorted_names(rest);
        assert(!is_named(rest, last.name)) by {
            if is_named(rest, last.name) {
                let k = choose|k: int| 0 <= k < rest.len() && (#[trigger] rest[k]).name == last.name;
                assert(infos[k].name == infos[infos.len() - 1].name);
            }
        }
        lemma_inserted_names(by_name(rest), last);
        lemma_named_push(rest, last);
        assert(rest.push(last) =~= infos);
    }
}

/// Whether sessions are saved under names that files can have, each once.
pub open spec fn stems_differ(saved: Seq<SavedView>) -> bool {
    &&& forall|i: int| 0 <= i < saved.len() ==> !(#[trigger] saved[i]).stem.contains('/')
    &&& forall|i: int, j: int|
        0 <= i < j < saved.len() ==> (#[trigger] saved[i]).stem != (#[trigger] saved[j]).stem
}

proof fn lemma_saved_names(saved: Seq<SavedView>, active: Seq<char>, current: Seq<MessageView>)
    requires
        stems_differ(saved),
    ensures
        ({
            let infos = saved_infos(saved, active, current);
            &&& names_differ(infos)
            &&& has_stem(saved, active) ==> is_named(infos, desanitized(active))
            &&& forall|stem: Seq<char>|
                !stem.contains('/') && #[trigger] is_named(infos, desanitized(stem)) ==> has_stem(
                    saved,
                    stem,
                )
        }),
    decreases saved.len(),
{
    let infos = saved_infos(saved, active, current);
    if saved.len() > 0 {
        let some = saved.drop_last();
        let last = saved.last();
        assert(saved[saved.len() - 1] == last);
        assert forall|i: int| 0 <= i < some.len() implies !(#[trigger] some[i]).stem.contains('/') by {
            assert(some[i] == saved[i]);
        }
        assert forall|i: int, j: int| 0 <= i < j < some.len() implies (#[trigger] some[i]).stem != (
        #[trigger] some[j]).stem by {
            assert(some[i] == saved[i] && some[j] == saved[j]);
        }
        let rest = saved_infos(some, active, current);
        lemma_saved_names(some, active, current);
        lemma_has_stem(saved, active);
        let name = desanitized(last.stem);
        assert(!is_named(rest, name)) by {
            if is_named(rest, name) {
                assert(has_stem(some, last.stem));
                let k = choose|k: int| 0 <= k < some.len() && (#[trigger] some[k]).stem == last.stem;
                assert(saved[k].stem == saved[saved.len() - 1].stem);
            }
        }
        if infos != rest {
            let info = infos.last();
            assert(infos == rest.push(info));
            assert(info.name == name);
            lemma_named_push(rest, info);
            lemma_names_differ_push(rest, info);
        }
        assert forall|stem: Seq<char>|
            !stem.contains('/') && #[trigger] is_named(infos, desanitized(stem)) implies has_stem(
            saved,
            stem,
        ) by {
            lemma_has_stem(saved, stem);
            if !is_named(rest, desanitized(stem)) {
                shown_names_differ(stem, last.stem);
            }
        }
    }
}

/// Every session is listed once: no name comes twice, and the active session
/// is among those listed, by the name that is shown.
pub proof fn sessions_are_listed_once(
    saved: Seq<SavedView>,
    active: Seq<char>,
    current: Seq<MessageView>,
)
    requires
        stems_differ(saved),
        !active.contains('/'),
    ensures
        names_differ(listing(saved, active, current)),
        is_named(listing(saved, active, current), desanitized(active)),
{
    let infos = saved_infos(saved, active, current);
    lemma_saved_names(saved, active, current);
    if has_stem(saved, active) {
        lemma_sorted_names(infos);
    } else {
        let info = info_of(desanitized(active), current);
        assert(!is_named(infos, desanitized(active)));
        lemma_named_push(infos, info);
        lemma_names_differ_push(infos, info);
        lemma_sorted_names(infos.push(info));
    }
}

/// A list in the order of names.
fn sort_infos(infos: Vec<SessionInfo>) -> (out: Vec<SessionInfo>)
    ensures
        info_views(out@) == by_name(info_views(infos@)),
{
    let ghost all = info_views(infos@);
    let n: usize = infos.len();
    let mut out: Vec<SessionInfo> = Vec::new();
    let mut i: usize = 0;
    assert(all.take(0) =~= Seq::empty());
    assert(info_views(out@) =~= Seq::empty());
    while i < n
        invariant
            i <= n,
            n == infos@.len(),
            all == info_views(infos@),
            info_views(out@) == by_name(all.take(i as int)),
        decreases n - i,
    {
        let ghost before = out@;
        let ghost views = info_views(out@);
        let info = SessionInfo {
            name: infos[i].name.clone(),
            message_count: infos[i].message_count,
            estimated_tokens: infos[i].estimated_tokens,
        };
        assert(all.take(i + 1).drop_last() =~= all.take(i as int));
        assert(all.take(i + 1).last() == info@);
        let mut k: usize = out.len();
        while k > 0 && lt(info.name.as_str(), out[k - 1].name.as_str())
            invariant
                k <= out@.len(),
                out@ == before,
                views == info_views(before),
                forall|j: int| k <= j < views.len() ==> text_lt(info@.name, (#[trigger] views[j]).name),
            decreases k,
        {
            assert(views[k - 1] == out@[k - 1]@);
            k -= 1;
        }
        proof {
            if k > 0 {
                assert(views[k - 1] == out@[k - 1]@);
            }
            lemma_inserted_at(views, info@, k as int);
        }
        let ghost item = info@;
        out.insert(k, info);
        assert(info_views(out@) =~= views.insert(k as int, item));
        i += 1;
    }
    assert(all.take(n as int) =~= all);
    out
}

// ── The engine ──────────────────────────────────────────────────────

/// The flat engine: the active session, and what the provider reported of it.
pub struct FlatSession {
    session: Session,
    active_name: String,
    ctx: ContextConfig,
    observed_tokens: Option<usize>,
}

/// The view of a [`FlatSession`].
pub struct FlatView {
    pub messages: Seq<MessageView>,
    pub active: Seq<char>,
    pub ctx: ContextConfig,
    pub observed: Option<usize>,
}

impl View for FlatSession {
    type V = FlatView;

    closed spec fn view(&self) -> FlatView {
        FlatView {
            messages: self.session@,
            active: self.active_name@,
            ctx: self.ctx,
            observed: self.observed_tokens,
        }
    }
}

impl FlatView {
    /// Whether the characters of the session can be counted.
    pub open spec fn fits(self) -> bool {
        &&& messages_chars(self.messages) <= usize::MAX
        &&& self.ctx.max_tokens * self.ctx.budget_percent <= usize::MAX
    }

    /// Estimated tokens of the messages.
    pub open spec fn estimate(self) -> nat {
        messages_chars(self.messages) / 4
    }

    /// The tokens of the context: the estimate, or what the provider reported,
    /// whichever is more.
    pub open spec fn tokens(self) -> nat {
        match self.observed {
            Some(n) if n > self.estimate() => n as nat,
            _ => self.estimate(),
        }
    }

    /// The level above which the session is compacted.
    pub open spec fn limit(self) -> nat {
        percent_of(self.ctx.max_tokens, self.ctx.budget_percent)
    }

    /// Whether the session is compacted.
    pub open spec fn is_over(self) -> bool {
        self.tokens() > self.limit() && self.messages.len() >= 2
    }

    /// The engine after a compaction.
    pub open spec fn compacted(self, summary: Seq<char>) -> FlatView {
        FlatView {
            messages: seq![MessageView::System { content: summary }],
            observed: None,
            ..self
        }
    }
}

impl FlatSession {
    /// The engine with the session that was active last, or else `general`.
    /// `load` holds its messages.
    pub fn new(ctx: ContextConfig, active: Option<&str>, load: Session) -> (r: Self)
        ensures
            r@.messages == load@,
            r@.active == match remembered(
                match active {
                    Some(t) => Some(t@),
                    None => None,
                },
            ) {
                Some(name) => name,
                None => "general"@,
            },
            r@.ctx == ctx,
            r@.observed is None,
    {
        let active_name = match read_active_session(active) {
            Some(name) => name,
            None => "general".to_owned(),
        };
        FlatSession { session: load, active_name, ctx, observed_tokens: None }
    }

    /// The active session.
    pub fn session(&self) -> (s: &Session)
        ensures
            s@ == self@.messages,
    {
        &self.session
    }

    /// The best token count there is.
    fn current_tokens(&self) -> (n: usize)
        requires
            self@.fits(),
        ensures
            n == self@.tokens(),
    {
        let estimate: usize = session_tokens(&self.session, 0);
        match self.observed_tokens {
            Some(n) if n > estimate => n,
            _ => estimate,
        }
    }

    /// Adds a message. Oversized tool output is cut, since it cannot be stored
    /// outside.
    pub fn push_message(&mut self, msg: Message)
        ensures
            final(self)@ == (FlatView {
                messages: old(self)@.messages.push(
                    capped_message(msg@, old(self)@.ctx.tool_output_tokens as nat),
                ),
                ..old(self)@
            }),
    {
        self.session.add_message(cap_message(msg, self.ctx.tool_output_tokens as usize));
    }

    /// Adds a message as it is.
    pub fn add_message(&mut self, msg: Message)
        ensures
            final(self)@ == (FlatView { messages: old(self)@.messages.push(msg@), ..old(self)@ }),
    {
        self.session.add_message(msg);
    }

    /// Builds the messages of a request.
    pub fn assemble(&self, system_prompt: &str) -> (r: AssembledContext)
        ensures
            message_views(r.messages@) == prompted(system_prompt@, self@.messages),
    {
        self.session.assemble(system_prompt)
    }

    /// Notes the prompt size that the provider reported.
    pub fn observe_tokens(&mut self, prompt_tokens: usize)
        ensures
            final(self)@ == (FlatView { observed: Some(prompt_tokens), ..old(self)@ }),
    {
        self.observed_tokens = Some(prompt_tokens);
    }

    /// Whether the session is compacted: it is over its budget, and there is
    /// more than one message to sum up. The messages then go to the
    /// summarizer, and what comes back to [`FlatSession::compact`].
    pub fn compact_if_needed(&self) -> (r: bool)
        requires
            self@.fits(),
        ensures
            r == self@.is_over(),
    {
        self.current_tokens() > budget(&self.ctx) && self.session.len() >= 2
    }

    /// Replaces the messages by their summary. The reported size is forgotten:
    /// a stale mark would trigger compaction again and again.
    pub fn compact(&mut self, summary: String) -> (r: CompactionEvent)
        requires
            old(self)@.fits(),
        ensures
            final(self)@ == old(self)@.compacted(summary@),
            r.before == old(self)@.tokens(),
            r.after == final(self)@.estimate(),
    {
        let before: usize = self.current_tokens();
        let size: usize = byte_len(summary.as_str());
        self.session.compact(Message::System { content: summary });
        self.observed_tokens = None;
        let ghost m = MessageView::System { content: summary@ };
        proof {
            assert(seq![m].drop_last() =~= Seq::empty());
            assert(messages_chars(Seq::<MessageView>::empty()) == 0);
            assert(messages_chars(seq![m]) == m.chars());
            assert(m.chars() == size);
        }
        CompactionEvent { before, after: session_tokens(&self.session, 0) }
    }

    /// Compacts whatever the size; nothing happens with fewer than two
    /// messages.
    pub fn force_compact(&mut self, summary: String) -> (r: CompactionEvent)
        requires
            old(self)@.fits(),
        ensures
            old(self)@.messages.len() < 2 ==> final(self)@ == old(self)@ && r == (CompactionEvent {
                before: 0,
                after: 0,
            }),
            old(self)@.messages.len() >= 2 ==> final(self)@ == old(self)@.compacted(summary@)
                && r.before == old(self)@.tokens() && r.after == final(self)@.estimate(),
    {
        if self.session.len() < 2 {
            return CompactionEvent { before: 0, after: 0 };
        }
        self.compact(summary)
    }

    /// Drops all messages.
    pub fn clear(&mut self)
        ensures
            final(self)@ == (FlatView { messages: Seq::empty(), observed: None, ..old(self)@ }),
    {
        self.session.clear();
        self.observed_tokens = None;
    }

    /// How full the session is.
    pub fn stats(&self) -> (r: ContextStats)
        requires
            self@.fits(),
        ensures
            r.token_estimate == self@.tokens(),
            r.budget == self@.limit(),
            r.message_count == self@.messages.len(),
    {
        ContextStats {
            token_estimate: self.current_tokens(),
            budget: budget(&self.ctx),
            message_count: self.session.len(),
        }
    }

    /// The stored name of the active session.
    pub fn active_session(&self) -> (r: &str)
        ensures
            r@ == self@.active,
    {
        self.active_name.as_str()
    }

    /// The stored name of the session to switch to; `None` where it is the
    /// active one.
    pub fn switch_target(&self, name: &str) -> (r: Option<String>)
        ensures
            match r {
                Some(stored) => stored@ == sanitized(name@) && stored@ != self@.active,
                None => sanitized(name@) == self@.active,
            },
    {
        let stored = sanitize_name(name);
        if same(stored.as_str(), self.active_name.as_str()) {
            None
        } else {
            Some(stored)
        }
    }

    /// Makes a session the active one. `load` holds its messages; those of the
    /// session that was active come back, to be saved.
    pub fn switch_session(&mut self, name: &str, load: Session) -> (r: Option<Session>)
        ensures
            sanitized(name@) == old(self)@.active ==> r is None && final(self)@ == old(self)@,
            sanitized(name@) != old(self)@.active ==> (r matches Some(s) && s@ == old(self)@.messages)
                && final(self)@ == (FlatView {
                messages: load@,
                active: sanitized(name@),
                observed: None,
                ..old(self)@
            }),
    {
        match self.switch_target(name) {
            None => None,
            Some(stored) => {
                let left = self.session.copy();
                self.session = load;
                self.observed_tokens = None;
                self.active_name = stored;
                Some(left)
            },
        }
    }

    /// Every session with its size, each once, by the names that are shown and
    /// in their order. The stored names tell which is the active one.
    pub fn list_sessions(&self, saved: &Vec<SavedSession>) -> (out: Vec<SessionInfo>)
        requires
            self@.fits(),
            saved_fit(saved_views(saved@)),
        ensures
            info_views(out@) == listing(saved_views(saved@), self@.active, self@.messages),
    {
        let ghost all = saved_views(saved@);
        let n: usize = saved.len();
        let mut infos: Vec<SessionInfo> = Vec::new();
        let mut found: bool = false;
        let mut i: usize = 0;
        assert(all.take(0) =~= Seq::empty());
        assert(info_views(infos@) =~= Seq::empty());
        while i < n
            invariant
                i <= n,
                n == saved@.len(),
                all == saved_views(saved@),
                self@.fits(),
                saved_fit(all),
                info_views(infos@) == saved_infos(
                    all.take(i as int),
                    self@.active,
                    self@.messages,
                ),
                found == has_stem(all.take(i as int), self@.active),
            decreases n - i,
        {
            let ghost before = infos@;
            assert(all[i as int] == saved@[i as int]@);
            assert(all.take(i + 1).drop_last() =~= all.take(i as int));
            assert(all.take(i + 1).last() == saved@[i as int]@);
            proof {
                lemma_has_stem(all.take(i + 1), self@.active);
            }
            let name = desanitize_name(saved[i].stem.as_str());
            if same(saved[i].stem.as_str(), self.active_name.as_str()) {
                infos.push(
                    SessionInfo {
                        name,
                        message_count: self.session.len(),
                        estimated_tokens: session_tokens(&self.session, 0),
                    },
                );
                found = true;
                assert(info_views(infos@) =~= info_views(before).push(infos@.last()@));
            } else if let Some(session) = &saved[i].session {
                infos.push(
                    SessionInfo {
                        name,
                        message_count: session.len(),
                        estimated_tokens: session_tokens(session, 0),
                    },
                );
                assert(info_views(infos@) =~= info_views(before).push(infos@.last()@));
            }
            i += 1;
        }
        assert(all.take(n as int) =~= all);
        if !found {
            let ghost before = infos@;
            infos.push(
                SessionInfo {
                    name: desanitize_name(self.active_name.as_str()),
                    message_count: self.session.len(),
                    estimated_tokens: session_tokens(&self.session, 0),
                },
            );
            assert(info_views(infos@) =~= info_views(before).push(
                info_of(desanitized(self@.active), self@.messages),
            ));
        }
        sort_infos(infos)
    }

    /// The messages of a session: those in memory for the active one, else
    /// those that were saved, none where they cannot be read.
    pub fn session_messages<'a>(&'a self, name: &str, saved: &'a Vec<SavedSession>) -> (r: Option<
        &'a Session,
    >)
        ensures
            match r {
                Some(s) => messages_for(self@, saved_views(saved@), name@) == s@,
                None => messages_for(self@, saved_views(saved@), name@) == Seq::<
                    MessageView,
                >::empty(),
            },
    {
        let stem = sanitize_name(name);
        if same(name, self.active_name.as_str()) || same(
            stem.as_str(),
            self.active_name.as_str(),
        ) {
            return Some(&self.session);
        }
        let ghost all = saved_views(saved@);
        let mut i: usize = saved.len();
        assert(all.take(i as int) =~= all);
        while i > 0
            invariant
                i <= saved@.len(),
                all == saved_views(saved@),
                stem@ == sanitized(name@),
                !is_active(self@, name@),
                saved_under(all, stem@) == saved_under(all.take(i as int), stem@),
            decreases i,
        {
            i -= 1;
            assert(all.take(i + 1).drop_last() =~= all.take(i as int));
            assert(all.take(i + 1).last() == saved@[i as int]@);
            if same(saved[i].stem.as_str(), stem.as_str()) {
                return match &saved[i].session {
                    Some(s) => Some(s),
                    None => None,
                };
            }
        }
        None
    }

    /// How many messages each session has, of those that have some.
    pub fn latest_positions(&self, saved: &Vec<SavedSession>) -> (out: Table<u64>)
        requires
            self@.fits(),
            saved_fit(saved_views(saved@)),
        ensures
            out.wf(),
            out@ == positions_in(
                self@,
                saved_views(saved@),
                listing(saved_views(saved@), self@.active, self@.messages),
            ),
    {
        let infos = self.list_sessions(saved);
        let ghost all = info_views(infos@);
        let ghost sv = saved_views(saved@);
        let n: usize = infos.len();
        let mut out: Table<u64> = Table::new();
        let mut i: usize = 0;
        assert(all.take(0) =~= Seq::empty());
        while i < n
            invariant
                i <= n,
                n == infos@.len(),
                all == info_views(infos@),
                sv == saved_views(saved@),
                out.wf(),
                out@ == positions_in(self@, sv, all.take(i as int)),
            decreases n - i,
        {
            assert(all.take(i + 1).drop_last() =~= all.take(i as int));
            assert(all.take(i + 1).last() == infos@[i as int]@);
            let len: usize = match self.session_messages(infos[i].name.as_str(), saved) {
                Some(s) => s.len(),
                None => 0,
            };
            if len > 0 {
                out.insert(infos[i].name.as_str(), len as u64);
            }
            i += 1;
        }
        assert(all.take(n as int) =~= all);
        out
    }

    /// The tokens that are not yet distilled, of each session that has some.
    /// Places are counts of messages, which start over when a session is
    /// compacted, so this can be too little.
    pub fn pending_distill_tokens(&self, saved: &Vec<SavedSession>, since: &Table<u64>) -> (out:
        Table<u64>)
        requires
            self@.fits(),
            saved_fit(saved_views(saved@)),
            since.wf(),
        ensures
            out.wf(),
            out@ == pending_in(
                self@,
                saved_views(saved@),
                listing(saved_views(saved@), self@.active, self@.messages),
                since@,
            ),
    {
        let infos = self.list_sessions(saved);
        let ghost all = info_views(infos@);
        let ghost sv = saved_views(saved@);
        let n: usize = infos.len();
        let mut out: Table<u64> = Table::new();
        let mut i: usize = 0;
        assert(all.take(0) =~= Seq::empty());
        while i < n
            invariant
                i <= n,
                n == infos@.len(),
                all == info_views(infos@),
                sv == saved_views(saved@),
                self@.fits(),
                saved_fit(sv),
                since.wf(),
                out.wf(),
                out@ == pending_in(self@, sv, all.take(i as int), since@),
            decreases n - i,
        {
            assert(all.take(i + 1).drop_last() =~= all.take(i as int));
            assert(all.take(i + 1).last() == infos@[i as int]@);
            let mark: u64 = match since.get(infos[i].name.as_str()) {
                Some(m) => *m,
                None => 0,
            };
            proof {
                lemma_messages_for_fit(self@, sv, infos@[i as int].name@);
            }
            let tokens: usize = match self.session_messages(infos[i].name.as_str(), saved) {
                Some(s) => tokens_after(s.messages(), mark),
                None => {
                    proof {
                        lemma_nothing_after(Seq::<MessageView>::empty(), mark);
                    }
                    0
                },
            };
            if tokens > 0 {
                out.insert(infos[i].name.as_str(), tokens as u64);
            }
            i += 1;
        }
        assert(all.take(n as int) =~= all);
        out
    }

    /// The messages of a session from place `after` on, cut to a token budget.
    /// At least one where any is pending.
    pub fn transcript_since(
        &self,
        saved: &Vec<SavedSession>,
        session: &str,
        after: u64,
        max_tokens: u64,
    ) -> (out: Vec<Message>)
        requires
            self@.fits(),
            saved_fit(saved_views(saved@)),
        ensures
            message_views(out@) == flat_transcript(
                messages_for(self@, saved_views(saved@), session@),
                after,
                max_tokens as nat,
            ),
    {
        proof {
            lemma_messages_for_fit(self@, saved_views(saved@), session@);
        }
        match self.session_messages(session, saved) {
            Some(s) => take_since(s.messages(), after, max_tokens),
            None => {
                let none: Vec<Message> = Vec::new();
                proof {
                    assert(message_views(none@) =~= Seq::empty());
                    assert(rest_after(Seq::<MessageView>::empty(), after) =~= Seq::empty());
                    assert(flat_transcript(Seq::empty(), after, max_tokens as nat) =~= Seq::empty());
                }
                none
            },
        }
    }

    /// The messages of every session, each once. The active one is in memory;
    /// the stored names are compared, so that one with a slash is not counted
    /// twice.
    pub fn report_sessions(&self, saved: &Vec<SavedSession>) -> (out: Vec<Session>)
        ensures
            session_views(out@) == reported(self@, saved_views(saved@)),
    {
        let ghost all = saved_views(saved@);
        let n: usize = saved.len();
        let mut out: Vec<Session> = Vec::new();
        let mut found: bool = false;
        let mut i: usize = 0;
        assert(all.take(0) =~= Seq::empty());
        assert(session_views(out@) =~= Seq::empty());
        while i < n
            invariant
                i <= n,
                n == saved@.len(),
                all == saved_views(saved@),
                session_views(out@) == report_of(self@, all.take(i as int)),
                found == has_stem(all.take(i as int), self@.active),
            decreases n - i,
        {
            let ghost before = out@;
            let ghost some = all.take(i as int);
            let ghost more = all.take(i + 1);
            assert(more.drop_last() =~= some);
            assert(more.last() == saved@[i as int]@);
            let is_active = same(saved[i].stem.as_str(), self.active_name.as_str());
            proof {
                lemma_has_stem(more, self@.active);
            }
            if is_active {
                let copy = self.session.copy();
                out.push(copy);
                found = true;
                assert(session_views(out@) =~= session_views(before).push(copy@));
            } else if let Some(session) = &saved[i].session {
                let copy = session.copy();
                out.push(copy);
                assert(session_views(out@) =~= session_views(before).push(copy@));
            }
            i += 1;
        }
        assert(all.take(n as int) =~= all);
        if !found {
            let ghost before = out@;
            let copy = self.session.copy();
            out.push(copy);
            assert(session_views(out@) =~= session_views(before).push(copy@));
        }
        out
    }
}

/// The messages saved under a stored name; none where they cannot be read.
pub open spec fn saved_under(saved: Seq<SavedView>, stem: Seq<char>) -> Seq<MessageView>
    decreases saved.len(),
{
    if saved.len() == 0 {
        Seq::empty()
    } else if saved.last().stem == stem {
        match saved.last().messages {
            Some(m) => m,
            None => Seq::empty(),
        }
    } else {
        saved_under(saved.drop_last(), stem)
    }
}

/// Whether a name, shown or stored, is that of the active session.
pub open spec fn is_active(v: FlatView, name: Seq<char>) -> bool {
    name == v.active || sanitized(name) == v.active
}

/// The messages of a session.
pub open spec fn messages_for(v: FlatView, saved: Seq<SavedView>, name: Seq<char>) -> Seq<MessageView> {
    if is_active(v, name) {
        v.messages
    } else {
        saved_under(saved, sanitized(name))
    }
}

proof fn lemma_saved_under_fit(saved: Seq<SavedView>, stem: Seq<char>)
    requires
        saved_fit(saved),
    ensures
        messages_chars(saved_under(saved, stem)) <= usize::MAX,
    decreases saved.len(),
{
    if saved.len() == 0 || saved.last().stem == stem {
        assert(messages_chars(Seq::<MessageView>::empty()) == 0);
        if saved.len() > 0 {
            assert(saved[saved.len() - 1] == saved.last());
        }
    } else {
        let rest = saved.drop_last();
        assert forall|i: int| 0 <= i < rest.len() implies ((#[trigger] rest[i]).messages matches Some(m)
            ==> messages_chars(m) <= usize::MAX) by {
            assert(rest[i] == saved[i]);
        }
        lemma_saved_under_fit(rest, stem);
    }
}

proof fn lemma_messages_for_fit(v: FlatView, saved: Seq<SavedView>, name: Seq<char>)
    requires
        v.fits(),
        saved_fit(saved),
    ensures
        messages_chars(messages_for(v, saved, name)) <= usize::MAX,
{
    lemma_saved_under_fit(saved, sanitized(name));
}

/// How many messages each session has, of those that have some.
pub open spec fn positions_in(v: FlatView, saved: Seq<SavedView>, infos: Seq<InfoView>) -> Map<
    Seq<char>,
    u64,
>
    decreases infos.len(),
{
    if infos.len() == 0 {
        Map::empty()
    } else {
        let rest = positions_in(v, saved, infos.drop_last());
        let name = infos.last().name;
        let n = messages_for(v, saved, name).len();
        if n > 0 {
            rest.insert(name, n as u64)
        } else {
            rest
        }
    }
}

/// The messages from place `after` on.
pub open spec fn rest_after(messages: Seq<MessageView>, after: u64) -> Seq<MessageView> {
    if after <= messages.len() {
        messages.skip(after as int)
    } else {
        Seq::empty()
    }
}

/// The tokens that are not yet distilled, of each session that has some.
pub open spec fn pending_in(
    v: FlatView,
    saved: Seq<SavedView>,
    infos: Seq<InfoView>,
    since: Map<Seq<char>, u64>,
) -> Map<Seq<char>, u64>
    decreases infos.len(),
{
    if infos.len() == 0 {
        Map::empty()
    } else {
        let rest = pending_in(v, saved, infos.drop_last(), since);
        let name = infos.last().name;
        let mark = if since.contains_key(name) {
            since[name]
        } else {
            0
        };
        let n = messages_chars(rest_after(messages_for(v, saved, name), mark)) / 4;
        if n > 0 {
            rest.insert(name, n as u64)
        } else {
            rest
        }
    }
}

proof fn lemma_nothing_after(messages: Seq<MessageView>, after: u64)
    requires
        messages.len() == 0,
    ensures
        messages_chars(rest_after(messages, after)) == 0,
{
    assert(rest_after(messages, after) =~= Seq::empty());
    assert(messages_chars(Seq::<MessageView>::empty()) == 0);
}

/// The characters of the last messages are no more than those of all.
proof fn lemma_chars_after(messages: Seq<MessageView>, k: int)
    requires
        0 <= k <= messages.len(),
    ensures
        messages_chars(messages.skip(k)) <= messages_chars(messages),
    decreases messages.len(),
{
    if k == messages.len() {
        assert(messages.skip(k) =~= Seq::empty());
        assert(messages_chars(Seq::<MessageView>::empty()) == 0);
    } else {
        let rest = messages.drop_last();
        lemma_chars_after(rest, k);
        assert(messages.skip(k).drop_last() =~= rest.skip(k));
    }
}

/// The tokens of the messages from place `after` on.
fn tokens_after(messages: &Vec<Message>, after: u64) -> (n: usize)
    requires
        messages_chars(message_views(messages@)) <= usize::MAX,
    ensures
        n == messages_chars(rest_after(message_views(messages@), after)) / 4,
{
    let ghost all = message_views(messages@);
    let len: usize = messages.len();
    if after > len as u64 {
        proof {
            assert(messages_chars(Seq::<MessageView>::empty()) == 0);
        }
        return 0;
    }
    let a: usize = after as usize;
    let ghost tail = all.skip(a as int);
    let mut chars: usize = 0;
    let mut i: usize = a;
    proof {
        lemma_chars_after(all, a as int);
        assert(tail.take(0) =~= Seq::empty());
        assert(messages_chars(Seq::<MessageView>::empty()) == 0);
    }
    while i < len
        invariant
            a <= i <= len,
            len == messages@.len(),
            all == message_views(messages@),
            tail == all.skip(a as int),
            messages_chars(tail) <= usize::MAX,
            chars == messages_chars(tail.take(i - a)),
        decreases len - i,
    {
        proof {
            let k = i - a;
            assert(tail.take(k + 1).drop_last() =~= tail.take(k));
            assert(tail.take(k + 1).last() == messages@[i as int]@);
            lemma_messages_chars_prefix(tail, k + 1);
        }
        chars += messages[i].char_count();
        i += 1;
    }
    assert(tail.take(len - a) =~= tail);
    estimate_tokens_from_chars(chars)
}

/// The tokens of the first `n` messages.
pub open spec fn tokens_of_first(messages: Seq<MessageView>, n: nat) -> nat
    decreases n,
{
    if n == 0 {
        0
    } else {
        tokens_of_first(messages, (n - 1) as nat) + messages[n - 1].chars() / 4
    }
}

/// How many of the first `n` messages are kept: as many as fit the budget, and
/// the first one in any case.
pub open spec fn kept_of(messages: Seq<MessageView>, max_tokens: nat, n: nat) -> nat
    decreases n,
{
    if n == 0 {
        0
    } else {
        let k = kept_of(messages, max_tokens, (n - 1) as nat);
        if k == n - 1 && (n == 1 || tokens_of_first(messages, n) <= max_tokens) {
            n
        } else {
            k
        }
    }
}

/// The messages from place `after` on, cut to a token budget.
pub open spec fn flat_transcript(messages: Seq<MessageView>, after: u64, max_tokens: nat) -> Seq<
    MessageView,
> {
    let rest = rest_after(messages, after);
    rest.take(kept_of(rest, max_tokens, rest.len()) as int)
}

proof fn lemma_kept_of(messages: Seq<MessageView>, max_tokens: nat, n: nat)
    requires
        n <= messages.len(),
    ensures
        ({
            let k = kept_of(messages, max_tokens, n);
            &&& k <= n
            &&& n > 0 ==> k > 0
            &&& k <= 1 || tokens_of_first(messages, k) <= max_tokens
        }),
    decreases n,
{
    if n > 0 {
        lemma_kept_of(messages, max_tokens, (n - 1) as nat);
    }
}

proof fn lemma_tokens_of_prefix(messages: Seq<MessageView>, n: nat, k: nat)
    requires
        n <= k <= messages.len(),
    ensures
        tokens_of_first(messages.take(k as int), n) == tokens_of_first(messages, n),
    decreases n,
{
    if n > 0 {
        lemma_tokens_of_prefix(messages, (n - 1) as nat, k);
    }
}

/// A reader that moves its mark on by as many messages as it was given misses
/// none and meets none again: it was given those that follow the mark, at
/// least one where there are any, and no more than the budget allows.
pub proof fn reading_on_misses_nothing(messages: Seq<MessageView>, after: u64, max_tokens: nat)
    requires
        after <= messages.len(),
    ensures
        ({
            let read = flat_transcript(messages, after, max_tokens);
            let next = after + read.len();
            &&& next <= messages.len()
            &&& after < messages.len() ==> after < next
            &&& read == messages.subrange(after as int, next)
            &&& read.len() <= 1 || tokens_of_first(read, read.len()) <= max_tokens
        }),
{
    let rest = rest_after(messages, after);
    let k = kept_of(rest, max_tokens, rest.len());
    lemma_kept_of(rest, max_tokens, rest.len());
    lemma_tokens_of_prefix(rest, k, k);
    assert(rest.take(k as int) =~= messages.subrange(after as int, after + k));
}

proof fn lemma_kept_is_final(messages: Seq<MessageView>, max_tokens: nat, i: nat, n: nat)
    requires
        i <= n,
        kept_of(messages, max_tokens, i) < i,
    ensures
        kept_of(messages, max_tokens, n) == kept_of(messages, max_tokens, i),
    decreases n - i,
{
    if i < n {
        lemma_kept_is_final(messages, max_tokens, i, (n - 1) as nat);
    }
}

/// The messages from place `after` on, cut to a token budget.
fn take_since(messages: &Vec<Message>, after: u64, max_tokens: u64) -> (out: Vec<Message>)
    requires
        messages_chars(message_views(messages@)) <= usize::MAX,
    ensures
        message_views(out@) == flat_transcript(message_views(messages@), after, max_tokens as nat),
{
    let ghost all = message_views(messages@);
    let ghost tail = rest_after(all, after);
    let len: usize = messages.len();
    let mut out: Vec<Message> = Vec::new();
    assert(message_views(out@) =~= Seq::empty());
    if after > len as u64 {
        assert(flat_transcript(all, after, max_tokens as nat) =~= Seq::empty());
        return out;
    }
    let a: usize = after as usize;
    let mut used: u64 = 0;
    let mut i: usize = a;
    assert(tail.take(0) =~= Seq::empty());
    while i < len
        invariant
            a <= i <= len,
            len == messages@.len(),
            all == message_views(messages@),
            tail == all.skip(a as int),
            messages_chars(all) <= usize::MAX,
            tail == rest_after(all, after),
            message_views(out@) == tail.take(i - a),
            kept_of(tail, max_tokens as nat, (i - a) as nat) == i - a,
            used == tokens_of_first(tail, (i - a) as nat),
            i == a ==> used == 0,
            i - a == 1 ==> used <= usize::MAX / 4,
            i - a > 1 ==> used <= max_tokens,
        decreases len - i,
    {
        let ghost k = (i - a) as nat;
        assert(tail[k as int] == messages@[i as int]@);
        proof {
            lemma_messages_chars_member(all, i as int);
        }
        let tokens: u64 = estimate_tokens_from_chars(messages[i].char_count()) as u64;
        if i > a && (used > max_tokens || tokens > max_tokens - used) {
            proof {
                assert(kept_of(tail, max_tokens as nat, k + 1) == k);
                lemma_kept_is_final(tail, max_tokens as nat, k + 1, tail.len());
            }
            return out;
        }
        let ghost before = out@;
        let copy = messages[i].clone();
        out.push(copy);
        used += tokens;
        proof {
            assert(message_views(out@) =~= message_views(before).push(copy@));
            assert(tail.take((k + 1) as int) =~= tail.take(k as int).push(tail[k as int]));
        }
        i += 1;
    }
    assert(tail.take(len - a) =~= tail);
    out
}

/// The views of sessions.
pub open spec fn session_views(sessions: Seq<Session>) -> Seq<Seq<MessageView>> {
    sessions.map_values(|s: Session| s@)
}

/// The messages of the saved sessions, with those in memory for the active
/// one.
pub open spec fn report_of(v: FlatView, saved: Seq<SavedView>) -> Seq<Seq<MessageView>>
    decreases saved.len(),
{
    if saved.len() == 0 {
        Seq::empty()
    } else {
        let rest = report_of(v, saved.drop_last());
        if saved.last().stem == v.active {
            rest.push(v.messages)
        } else {
            match saved.last().messages {
                Some(m) => rest.push(m),
                None => rest,
            }
        }
    }
}

/// The messages of every session.
pub open spec fn reported(v: FlatView, saved: Seq<SavedView>) -> Seq<Seq<MessageView>> {
    if has_stem(saved, v.active) {
        report_of(v, saved)
    } else {
        report_of(v, saved).push(v.messages)
    }
}

// ── What holds of the flat engine ───────────────────────────────────

proof fn lemma_inserted_has(infos: Seq<InfoView>, info: InfoView, x: InfoView)
    ensures
        inserted(infos, info).contains(x) <==> infos.contains(x) || x == info,
    decreases infos.len(),
{
    let out = inserted(infos, info);
    if infos.len() > 0 && text_lt(info.name, infos.last().name) {
        let rest = infos.drop_last();
        let before = inserted(rest, info);
        lemma_inserted_has(rest, info, x);
        assert(out[out.len() - 1] == infos.last());
        assert(infos[infos.len() - 1] == infos.last());
        if before.contains(x) {
            let k = choose|k: int| 0 <= k < before.len() && before[k] == x;
            assert(out[k] == x);
        }
        if rest.contains(x) {
            let k = choose|k: int| 0 <= k < rest.len() && rest[k] == x;
            assert(infos[k] == x);
        }
        if out.contains(x) {
            let k = choose|k: int| 0 <= k < out.len() && out[k] == x;
            if k < before.len() {
                assert(before[k] == x);
            }
        }
        if infos.contains(x) {
            let k = choose|k: int| 0 <= k < infos.len() && infos[k] == x;
            if k < rest.len() {
                assert(rest[k] == x);
            }
        }
    } else {
        assert(out[infos.len() as int] == info);
        if infos.contains(x) {
            let k = choose|k: int| 0 <= k < infos.len() && infos[k] == x;
            assert(out[k] == x);
        }
        if out.contains(x) {
            let k = choose|k: int| 0 <= k < out.len() && out[k] == x;
            if k < infos.len() {
                assert(infos[k] == x);
            }
        }
    }
}

/// Sorting a list loses no entry and adds none.
pub proof fn sorting_keeps_every_entry(infos: Seq<InfoView>, x: InfoView)
    ensures
        by_name(infos).contains(x) <==> infos.contains(x),
    decreases infos.len(),
{
    if infos.len() > 0 {
        let rest = infos.drop_last();
        sorting_keeps_every_entry(rest, x);
        lemma_inserted_has(by_name(rest), infos.last(), x);
        assert(infos[infos.len() - 1] == infos.last());
        if rest.contains(x) {
            let k = choose|k: int| 0 <= k < rest.len() && rest[k] == x;
            assert(infos[k] == x);
        }
        if infos.contains(x) {
            let k = choose|k: int| 0 <= k < infos.len() && infos[k] == x;
            if k < rest.len() {
                assert(rest[k] == x);
            }
        }
    }
}

/// Every session that can be read is listed with how many messages it has and
/// a quarter of their bytes as its size: the active one by what is in memory,
/// any other by what was saved.
pub proof fn every_session_is_listed(
    saved: Seq<SavedView>,
    active: Seq<char>,
    current: Seq<MessageView>,
    i: int,
)
    ensures
        listing(saved, active, current).contains(
            InfoView {
                name: desanitized(active),
                message_count: current.len(),
                tokens: messages_chars(current) / 4,
            },
        ),
        0 <= i < saved.len() && saved[i].stem != active ==> (saved[i].messages matches Some(m)
            ==> listing(saved, active, current).contains(
            InfoView {
                name: desanitized(saved[i].stem),
                message_count: m.len(),
                tokens: messages_chars(m) / 4,
            },
        )),
{
    let infos = saved_infos(saved, active, current);
    let all = if has_stem(saved, active) {
        infos
    } else {
        infos.push(info_of(desanitized(active), current))
    };
    let own = info_of(desanitized(active), current);
    sorting_keeps_every_entry(all, own);
    if has_stem(saved, active) {
        let k = choose|k: int| 0 <= k < saved.len() && (#[trigger] saved[k]).stem == active;
        lemma_saved_is_listed(saved, active, current, k);
    } else {
        assert(all[infos.len() as int] == own);
    }
    if 0 <= i < saved.len() && saved[i].stem != active {
        if let Some(m) = saved[i].messages {
            let x = info_of(desanitized(saved[i].stem), m);
            lemma_saved_is_listed(saved, active, current, i);
            let k = choose|k: int| 0 <= k < infos.len() && infos[k] == x;
            assert(all[k] == x);
            sorting_keeps_every_entry(all, x);
        }
    }
}

proof fn lemma_saved_is_listed(
    saved: Seq<SavedView>,
    active: Seq<char>,
    current: Seq<MessageView>,
    i: int,
)
    requires
        0 <= i < saved.len(),
    ensures
        saved[i].stem == active ==> saved_infos(saved, active, current).contains(
            info_of(desanitized(active), current),
        ),
        saved[i].stem != active ==> (saved[i].messages matches Some(m) ==> saved_infos(
            saved,
            active,
            current,
        ).contains(info_of(desanitized(saved[i].stem), m))),
    decreases saved.len(),
{
    let rest = saved.drop_last();
    let before = saved_infos(rest, active, current);
    let out = saved_infos(saved, active, current);
    if i < rest.len() {
        lemma_saved_is_listed(rest, active, current, i);
        assert(rest[i] == saved[i]);
        if saved[i].stem == active {
            let x = info_of(desanitized(active), current);
            let k = choose|k: int| 0 <= k < before.len() && before[k] == x;
            assert(out[k] == x);
        } else if let Some(m) = saved[i].messages {
            let x = info_of(desanitized(saved[i].stem), m);
            let k = choose|k: int| 0 <= k < before.len() && before[k] == x;
            assert(out[k] == x);
        }
    } else if saved[i].stem == active || saved[i].messages is Some {
        assert(out[before.len() as int] == out.last());
    }
}

/// A compaction leaves one message, which is the summary, and forgets the
/// reported size. Clearing and the settings are not its matter.
pub proof fn compaction_leaves_the_summary(v: FlatView, summary: Seq<char>)
    ensures
        v.compacted(summary).messages == seq![MessageView::System { content: summary }],
        v.compacted(summary).observed is None,
        v.compacted(summary).active == v.active,
        v.compacted(summary).ctx == v.ctx,
        v.compacted(summary).tokens() == utf8_len(summary) / 4,
{
    let after = v.compacted(summary).messages;
    assert(after.drop_last() =~= Seq::empty());
    assert(messages_chars(after.drop_last()) == 0);
}

/// The size of a session is the estimate or the reported size, whichever is
/// larger, and it is compacted exactly where that is over its share of the
/// window and there are two messages or more.
pub proof fn a_session_is_compacted_over_its_budget(v: FlatView)
    ensures
        v.tokens() >= messages_chars(v.messages) / 4,
        v.observed matches Some(n) ==> v.tokens() >= n,
        v.tokens() == messages_chars(v.messages) / 4 || v.observed == Some(v.tokens() as usize),
        v.is_over() <==> v.tokens() > v.ctx.max_tokens * v.ctx.budget_percent / 100
            && v.messages.len() >= 2,
{
}

/// The messages of a session are those in memory for the active one, by either
/// of its names, and otherwise those saved under its stored name.
pub proof fn messages_come_from_their_session(
    v: FlatView,
    saved: Seq<SavedView>,
    name: Seq<char>,
    i: int,
)
    requires
        stems_differ(saved),
    ensures
        messages_for(v, saved, v.active) == v.messages,
        sanitized(name) == v.active ==> messages_for(v, saved, name) == v.messages,
        0 <= i < saved.len() && saved[i].stem == sanitized(name) && name != v.active && sanitized(
            name,
        ) != v.active ==> messages_for(v, saved, name) == match saved[i].messages {
            Some(m) => m,
            None => Seq::<MessageView>::empty(),
        },
{
    if 0 <= i < saved.len() {
        lemma_saved_under(saved, i);
    }
}

proof fn lemma_saved_under(saved: Seq<SavedView>, i: int)
    requires
        stems_differ(saved),
        0 <= i < saved.len(),
    ensures
        saved_under(saved, saved[i].stem) == match saved[i].messages {
            Some(m) => m,
            None => Seq::<MessageView>::empty(),
        },
    decreases saved.len(),
{
    let rest = saved.drop_last();
    if i < rest.len() {
        assert(saved[i].stem != saved[saved.len() - 1].stem);
        assert(stems_differ(rest)) by {
            assert forall|k: int| 0 <= k < rest.len() implies !(#[trigger] rest[k]).stem.contains(
                '/',
            ) by {
                assert(rest[k] == saved[k]);
            }
            assert forall|a: int, b: int| 0 <= a < b < rest.len() implies (
            #[trigger] rest[a]).stem != (#[trigger] rest[b]).stem by {
                assert(rest[a] == saved[a] && rest[b] == saved[b]);
            }
        }
        lemma_saved_under(rest, i);
        assert(rest[i] == saved[i]);
    }
}

/// The tip of each session that is listed is how many messages it has; one
/// without messages has none.
pub proof fn every_listed_session_has_its_tip(
    v: FlatView,
    saved: Seq<SavedView>,
    infos: Seq<InfoView>,
    i: int,
)
    requires
        names_differ(infos),
        0 <= i < infos.len(),
    ensures
        ({
            let n = messages_for(v, saved, infos[i].name).len();
            &&& positions_in(v, saved, infos).contains_key(infos[i].name) <==> n > 0
            &&& n > 0 ==> positions_in(v, saved, infos)[infos[i].name] == n as u64
        }),
    decreases infos.len(),
{
    let rest = infos.drop_last();
    lemma_names_differ_rest(infos);
    if i < rest.len() {
        every_listed_session_has_its_tip(v, saved, rest, i);
        assert(rest[i] == infos[i]);
        assert(infos[i].name != infos[infos.len() - 1].name);
    } else {
        lemma_position_keys(v, saved, rest, infos.last().name);
        assert forall|k: int| 0 <= k < rest.len() implies (#[trigger] rest[k]).name
            != infos.last().name by {
            assert(rest[k] == infos[k]);
            assert(infos[k].name != infos[infos.len() - 1].name);
        }
    }
}

proof fn lemma_names_differ_rest(infos: Seq<InfoView>)
    requires
        names_differ(infos),
        infos.len() > 0,
    ensures
        names_differ(infos.drop_last()),
{
    let rest = infos.drop_last();
    assert forall|a: int, b: int| 0 <= a < b < rest.len() implies (#[trigger] rest[a]).name != (
    #[trigger] rest[b]).name by {
        assert(rest[a] == infos[a] && rest[b] == infos[b]);
    }
}

proof fn lemma_position_keys(
    v: FlatView,
    saved: Seq<SavedView>,
    infos: Seq<InfoView>,
    name: Seq<char>,
)
    ensures
        positions_in(v, saved, infos).contains_key(name) ==> exists|k: int|
            0 <= k < infos.len() && (#[trigger] infos[k]).name == name,
    decreases infos.len(),
{
    if infos.len() > 0 {
        let rest = infos.drop_last();
        lemma_position_keys(v, saved, rest, name);
        assert(infos[infos.len() - 1] == infos.last());
        if positions_in(v, saved, rest).contains_key(name) {
            let k = choose|k: int| 0 <= k < rest.len() && (#[trigger] rest[k]).name == name;
            assert(infos[k] == rest[k]);
        }
    }
}

/// What is pending of each session that is listed are the tokens of its
/// messages from its mark on, or of all where it has none; one with nothing
/// pending is left out.
pub proof fn every_listed_session_has_its_backlog(
    v: FlatView,
    saved: Seq<SavedView>,
    infos: Seq<InfoView>,
    since: Map<Seq<char>, u64>,
    i: int,
)
    requires
        names_differ(infos),
        0 <= i < infos.len(),
    ensures
        ({
            let name = infos[i].name;
            let all = messages_for(v, saved, name);
            let mark = if since.contains_key(name) {
                since[name] as int
            } else {
                0
            };
            let n = if mark <= all.len() {
                messages_chars(all.skip(mark)) / 4
            } else {
                0
            };
            &&& pending_in(v, saved, infos, since).contains_key(name) <==> n > 0
            &&& n > 0 ==> pending_in(v, saved, infos, since)[name] == n as u64
        }),
    decreases infos.len(),
{
    let rest = infos.drop_last();
    lemma_names_differ_rest(infos);
    assert(messages_chars(Seq::<MessageView>::empty()) == 0);
    if i < rest.len() {
        every_listed_session_has_its_backlog(v, saved, rest, since, i);
        assert(rest[i] == infos[i]);
        assert(infos[i].name != infos[infos.len() - 1].name);
    } else {
        lemma_pending_in_keys(v, saved, rest, since, infos.last().name);
        assert forall|k: int| 0 <= k < rest.len() implies (#[trigger] rest[k]).name
            != infos.last().name by {
            assert(rest[k] == infos[k]);
            assert(infos[k].name != infos[infos.len() - 1].name);
        }
    }
}

proof fn lemma_pending_in_keys(
    v: FlatView,
    saved: Seq<SavedView>,
    infos: Seq<InfoView>,
    since: Map<Seq<char>, u64>,
    name: Seq<char>,
)
    ensures
        pending_in(v, saved, infos, since).contains_key(name) ==> exists|k: int|
            0 <= k < infos.len() && (#[trigger] infos[k]).name == name,
    decreases infos.len(),
{
    if infos.len() > 0 {
        let rest = infos.drop_last();
        lemma_pending_in_keys(v, saved, rest, since, name);
        assert(infos[infos.len() - 1] == infos.last());
        if pending_in(v, saved, rest, since).contains_key(name) {
            let k = choose|k: int| 0 <= k < rest.len() && (#[trigger] rest[k]).name == name;
            assert(infos[k] == rest[k]);
        }
    }
}

/// A transcript takes as many messages as the budget allows: where some are
/// left, one more would not have fit. The budget counts each message.
pub proof fn a_transcript_is_filled(messages: Seq<MessageView>, after: u64, max_tokens: nat)
    requires
        after <= messages.len(),
    ensures
        ({
            let read = flat_transcript(messages, after, max_tokens);
            let next = after + read.len();
            next < messages.len() ==> messages_tokens(messages.subrange(after as int, next + 1))
                > max_tokens
        }),
{
    let rest = rest_after(messages, after);
    lemma_kept_is_filled(rest, max_tokens, rest.len());
    let k = kept_of(rest, max_tokens, rest.len());
    lemma_kept_of(rest, max_tokens, rest.len());
    if k < rest.len() {
        lemma_tokens_of_first(rest, k + 1);
        assert(rest.take((k + 1) as int) =~= messages.subrange(after as int, after + k + 1));
    }
}

proof fn lemma_kept_is_filled(messages: Seq<MessageView>, max_tokens: nat, n: nat)
    requires
        n <= messages.len(),
    ensures
        kept_of(messages, max_tokens, n) < n ==> tokens_of_first(
            messages,
            kept_of(messages, max_tokens, n) + 1,
        ) > max_tokens,
    decreases n,
{
    if n > 0 {
        lemma_kept_is_filled(messages, max_tokens, (n - 1) as nat);
        lemma_kept_of(messages, max_tokens, (n - 1) as nat);
    }
}

proof fn lemma_tokens_of_first(messages: Seq<MessageView>, n: nat)
    requires
        n <= messages.len(),
    ensures
        tokens_of_first(messages, n) == messages_tokens(messages.take(n as int)),
    decreases n,
{
    if n > 0 {
        lemma_tokens_of_first(messages, (n - 1) as nat);
        assert(messages.take(n as int).drop_last() =~= messages.take(n - 1));
    }
}

/// A report covers every session that can be read, once: the active one by what
/// is in memory, any other by what was saved.
pub proof fn every_session_is_reported(v: FlatView, saved: Seq<SavedView>)
    ensures
        report_of(v, saved) == saved.filter(
            |s: SavedView| s.stem == v.active || s.messages is Some,
        ).map_values(
            |s: SavedView|
                if s.stem == v.active {
                    v.messages
                } else {
                    s.messages->0
                },
        ),
        !has_stem(saved, v.active) ==> reported(v, saved) == report_of(v, saved).push(v.messages),
        has_stem(saved, v.active) ==> reported(v, saved) == report_of(v, saved),
    decreases saved.len(),
{
    reveal(Seq::filter);
    let picked = saved.filter(|s: SavedView| s.stem == v.active || s.messages is Some);
    if saved.len() > 0 {
        every_session_is_reported(v, saved.drop_last());
    }
    assert(report_of(v, saved) =~= picked.map_values(
        |s: SavedView|
            if s.stem == v.active {
                v.messages
            } else {
                s.messages->0
            },
    ));
}

/// A session is stored in a file of its own: the file is named by the stored
/// form of its name, and sessions share one only where they share that form.
pub proof fn a_session_has_its_own_file(a: Seq<char>, b: Seq<char>)
    ensures
        file_of(a).take(sanitized(a).len() as int) == sanitized(a),
        has_suffix(file_of(a), ".json"@),
        file_of(a).len() == sanitized(a).len() + 5,
        file_of(a) == file_of(b) <==> sanitized(a) == sanitized(b),
{
    reveal_strlit(".json");
    let n = sanitized(a).len() as int;
    assert(file_of(a).take(n) =~= sanitized(a));
    assert(file_of(a).skip(n) =~= ".json"@);
    if file_of(a) == file_of(b) {
        assert(file_of(b).take(n) =~= sanitized(b));
    }
}

} // verus!
