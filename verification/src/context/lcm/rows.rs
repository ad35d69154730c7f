//! Messages as rows: how a message is taken apart for the store and put
//! together again.

use vstd::prelude::*;

use crate::text::number::{push_i64, signed_decimal};
use crate::text::same;
use crate::types::{call_views, CallView, Message, MessageView, ToolCall, ToolFunction};

verus! {

/// One part of a stored message. Parts are kept in the order of their
/// ordinals.
pub enum Part {
    /// Text of the message.
    Text { content: String },
    /// The output of a tool, under the id of the call it answers.
    ToolOutput { content: String, call_id: String },
    /// A tool call that the message asks for. `refused` says what is wrong with
    /// a name that is not that of a tool; `None` where nothing is.
    ToolCall { id: String, name: String, input: String, refused: Option<String> },
}

/// A part by its views.
pub enum PartView {
    Text { content: Seq<char> },
    ToolOutput { content: Seq<char>, call_id: Seq<char> },
    ToolCall { id: Seq<char>, name: Seq<char>, input: Seq<char>, refused: Option<Seq<char>> },
}

/// Why a stored message cannot be put together.
pub enum RowError {
    /// The role is not known.
    UnknownRole(String),
    /// A tool result without the part that says which call it answers.
    NoCallId,
    /// A call whose name is not that of a tool. Names are checked before they
    /// are written, so the row is corrupt.
    BadToolName { message_id: i64, said: String },
}

/// Why a stored message cannot be put together, by views.
pub enum RowFault {
    UnknownRole(Seq<char>),
    NoCallId,
    BadToolName { message_id: i64, said: Seq<char> },
}

impl View for Part {
    type V = PartView;

    open spec fn view(&self) -> PartView {
        match *self {
            Part::Text { content } => PartView::Text { content: content@ },
            Part::ToolOutput { content, call_id } => PartView::ToolOutput {
                content: content@,
                call_id: call_id@,
            },
            Part::ToolCall { id, name, input, refused } => PartView::ToolCall {
                id: id@,
                name: name@,
                input: input@,
                refused: match refused {
                    Some(said) => Some(said@),
                    None => None,
                },
            },
        }
    }
}

impl View for RowError {
    type V = RowFault;

    open spec fn view(&self) -> RowFault {
        match *self {
            RowError::UnknownRole(role) => RowFault::UnknownRole(role@),
            RowError::NoCallId => RowFault::NoCallId,
            RowError::BadToolName { message_id, said } => RowFault::BadToolName {
                message_id,
                said: said@,
            },
        }
    }
}

impl Clone for Part {
    fn clone(&self) -> (r: Self)
        ensures
            r@ == self@,
    {
        match self {
            Part::Text { content } => Part::Text { content: content.clone() },
            Part::ToolOutput { content, call_id } => Part::ToolOutput {
                content: content.clone(),
                call_id: call_id.clone(),
            },
            Part::ToolCall { id, name, input, refused } => Part::ToolCall {
                id: id.clone(),
                name: name.clone(),
                input: input.clone(),
                refused: match refused {
                    Some(said) => Some(said.clone()),
                    None => None,
                },
            },
        }
    }
}

/// The views of a list of parts.
pub open spec fn part_views(parts: Seq<Part>) -> Seq<PartView> {
    parts.map_values(|p: Part| p@)
}

// ── Roles ───────────────────────────────────────────────────────────

/// The role under which a message is stored.
pub open spec fn role_of(m: MessageView) -> Seq<char> {
    match m {
        MessageView::User { .. } => "user"@,
        MessageView::Assistant { .. } => "assistant"@,
        MessageView::ToolCalls { .. } => "assistant"@,
        MessageView::Tool { .. } => "tool"@,
        MessageView::System { .. } => "system"@,
    }
}

/// The role under which `msg` is stored.
pub fn role_str(msg: &Message) -> (r: &'static str)
    ensures
        r@ == role_of(msg@),
{
    match msg {
        Message::User { .. } => "user",
        Message::Assistant { .. } => "assistant",
        Message::ToolCalls { .. } => "assistant",
        Message::Tool { .. } => "tool",
        Message::System { .. } => "system",
    }
}

/// The roles are four different texts.
pub proof fn lemma_roles_differ()
    ensures
        "user"@ != "assistant"@,
        "user"@ != "tool"@,
        "user"@ != "system"@,
        "assistant"@ != "tool"@,
        "assistant"@ != "system"@,
        "tool"@ != "system"@,
{
    reveal_strlit("user");
    reveal_strlit("assistant");
    reveal_strlit("tool");
    reveal_strlit("system");
    assert("user"@[0] == 'u');
    assert("assistant"@[0] == 'a');
    assert("tool"@[0] == 't');
    assert("system"@[0] == 's');
}

// ── Taking apart ────────────────────────────────────────────────────

/// The part that a tool call makes. The name was checked when the call was
/// made.
pub open spec fn call_part(c: CallView) -> PartView {
    PartView::ToolCall { id: c.id, name: c.name, input: c.arguments, refused: None }
}

/// The parts of a message, in the order of their ordinals from 0 on.
pub open spec fn parts_of(m: MessageView) -> Seq<PartView> {
    match m {
        MessageView::Tool { call_id, content } => seq![PartView::ToolOutput { content, call_id }],
        MessageView::ToolCalls { content, calls } => seq![PartView::Text { content }]
            + calls.map_values(|c: CallView| call_part(c)),
        _ => seq![PartView::Text { content: m.content() }],
    }
}

/// Takes a message apart. The part at position `i` has the ordinal `i`.
pub fn decompose(msg: &Message) -> (r: Vec<Part>)
    ensures
        part_views(r@) == parts_of(msg@),
{
    let mut out: Vec<Part> = Vec::new();
    match msg {
        Message::Tool { call_id, content } => {
            out.push(Part::ToolOutput { content: content.clone(), call_id: call_id.clone() });
            assert(part_views(out@) =~= parts_of(msg@));
        },
        Message::ToolCalls { content, calls } => {
            out.push(Part::Text { content: content.clone() });
            let mut i: usize = 0;
            let ghost want = parts_of(msg@);
            assert(part_views(out@) =~= want.take(1));
            while i < calls.len()
                invariant
                    i <= calls@.len(),
                    want == seq![PartView::Text { content: content@ }] + call_views(
                        calls@,
                    ).map_values(|c: CallView| call_part(c)),
                    part_views(out@) == want.take(i + 1),
                decreases calls@.len() - i,
            {
                let ghost before = out@;
                let part = Part::ToolCall {
                    id: calls[i].id.clone(),
                    name: calls[i].function.name.clone(),
                    input: calls[i].function.arguments.clone(),
                    refused: None,
                };
                out.push(part);
                proof {
                    assert(part@ == call_part(calls@[i as int]@));
                    assert(want[i + 1] == part@);
                    assert(part_views(out@) =~= part_views(before).push(part@));
                    assert(want.take(i + 2) =~= want.take(i + 1).push(part@));
                }
                i += 1;
            }
            assert(want.take(i + 1) =~= want);
        },
        _ => {
            out.push(Part::Text { content: msg.content().to_owned() });
            assert(part_views(out@) =~= parts_of(msg@));
        },
    }
    out
}

/// The id under which a part is stored.
pub open spec fn part_id_text(message_id: i64, ordinal: i64) -> Seq<char> {
    "part_"@ + signed_decimal(message_id as int) + "_"@ + signed_decimal(ordinal as int)
}

/// The id under which a part is stored: the same message takes the same ids,
/// so that storing it twice collides.
pub fn part_id(message_id: i64, ordinal: i64) -> (r: String)
    ensures
        r@ == part_id_text(message_id, ordinal),
{
    let mut out = String::new();
    out.append("part_");
    push_i64(&mut out, message_id);
    out.append("_");
    push_i64(&mut out, ordinal);
    assert(out@ =~= part_id_text(message_id, ordinal));
    out
}

// ── Putting together ────────────────────────────────────────────────

/// The tool calls among the parts, in order.
pub open spec fn calls_in(parts: Seq<PartView>) -> Seq<CallView>
    decreases parts.len(),
{
    if parts.len() == 0 {
        Seq::empty()
    } else {
        let rest = calls_in(parts.drop_last());
        match parts.last() {
            PartView::ToolCall { id, name, input, .. } => rest.push(
                CallView { id, name, arguments: input },
            ),
            _ => rest,
        }
    }
}

/// The call that the first tool output among the parts answers.
pub open spec fn call_answered(parts: Seq<PartView>) -> Option<Seq<char>>
    decreases parts.len(),
{
    if parts.len() == 0 {
        None
    } else {
        match parts[0] {
            PartView::ToolOutput { call_id, .. } => Some(call_id),
            _ => call_answered(parts.drop_first()),
        }
    }
}

/// What is wrong with the first call among the parts whose name is not that
/// of a tool.
pub open spec fn refused_name(parts: Seq<PartView>) -> Option<Seq<char>>
    decreases parts.len(),
{
    if parts.len() == 0 {
        None
    } else {
        match parts[0] {
            PartView::ToolCall { refused: Some(said), .. } => Some(said),
            _ => refused_name(parts.drop_first()),
        }
    }
}

/// The message that a row and its parts make.
pub open spec fn message_of(
    message_id: i64,
    role: Seq<char>,
    content: Seq<char>,
    parts: Seq<PartView>,
) -> Result<MessageView, RowFault> {
    if role == "user"@ {
        Ok(MessageView::User { content })
    } else if role == "system"@ {
        Ok(MessageView::System { content })
    } else if role == "tool"@ {
        match call_answered(parts) {
            Some(call_id) => Ok(MessageView::Tool { call_id, content }),
            None => Err(RowFault::NoCallId),
        }
    } else if role == "assistant"@ {
        match refused_name(parts) {
            Some(said) => Err(RowFault::BadToolName { message_id, said }),
            None => if calls_in(parts).len() == 0 {
                Ok(MessageView::Assistant { content })
            } else {
                Ok(MessageView::ToolCalls { content, calls: calls_in(parts) })
            },
        }
    } else {
        Err(RowFault::UnknownRole(role))
    }
}

/// The tool calls among the parts, in order.
fn collect_calls(parts: &Vec<Part>) -> (r: Vec<ToolCall>)
    ensures
        call_views(r@) == calls_in(part_views(parts@)),
{
    let mut out: Vec<ToolCall> = Vec::new();
    let mut i: usize = 0;
    let ghost all = part_views(parts@);
    assert(all.take(0) =~= Seq::empty());
    assert(call_views(out@) =~= Seq::empty());
    while i < parts.len()
        invariant
            i <= parts@.len(),
            all == part_views(parts@),
            call_views(out@) == calls_in(all.take(i as int)),
        decreases parts@.len() - i,
    {
        proof {
            assert(all.take(i + 1).drop_last() =~= all.take(i as int));
            assert(all.take(i + 1).last() == parts@[i as int]@);
        }
        match &parts[i] {
            Part::ToolCall { id, name, input, .. } => {
                let ghost before = out@;
                let call = ToolCall::new(
                    id.clone(),
                    ToolFunction { name: name.clone(), arguments: input.clone() },
                );
                out.push(call);
                assert(call_views(out@) =~= call_views(before).push(call@));
            },
            _ => {},
        }
        i += 1;
    }
    assert(all.take(i as int) =~= all);
    out
}

/// The call that the first tool output among the parts answers.
fn answered(parts: &Vec<Part>) -> (r: Option<String>)
    ensures
        match r {
            Some(id) => call_answered(part_views(parts@)) == Some(id@),
            None => call_answered(part_views(parts@)) is None,
        },
{
    let mut i: usize = 0;
    let ghost all = part_views(parts@);
    assert(all.skip(0) =~= all);
    while i < parts.len()
        invariant
            i <= parts@.len(),
            all == part_views(parts@),
            call_answered(all) == call_answered(all.skip(i as int)),
        decreases parts@.len() - i,
    {
        proof {
            assert(all.skip(i as int)[0] == parts@[i as int]@);
            assert(all.skip(i as int).drop_first() =~= all.skip(i + 1));
        }
        match &parts[i] {
            Part::ToolOutput { call_id, .. } => {
                return Some(call_id.clone());
            },
            _ => {},
        }
        i += 1;
    }
    None
}

/// What is wrong with the first call among the parts whose name is not that
/// of a tool.
fn find_refused(parts: &Vec<Part>) -> (r: Option<String>)
    ensures
        match r {
            Some(said) => refused_name(part_views(parts@)) == Some(said@),
            None => refused_name(part_views(parts@)) is None,
        },
{
    let mut i: usize = 0;
    let ghost all = part_views(parts@);
    assert(all.skip(0) =~= all);
    while i < parts.len()
        invariant
            i <= parts@.len(),
            all == part_views(parts@),
            refused_name(all) == refused_name(all.skip(i as int)),
        decreases parts@.len() - i,
    {
        proof {
            assert(all.skip(i as int)[0] == parts@[i as int]@);
            assert(all.skip(i as int).drop_first() =~= all.skip(i + 1));
        }
        if let Part::ToolCall { refused: Some(said), .. } = &parts[i] {
            return Some(said.clone());
        }
        i += 1;
    }
    None
}

/// Puts a message together from its row and its parts. An assistant message
/// with tool-call parts is one that asks for tools; one with a call whose name
/// is not that of a tool is refused rather than sent on.
pub fn reconstruct_message(message_id: i64, role: &str, content: &str, parts: &Vec<Part>) -> (r:
    Result<Message, RowError>)
    ensures
        match r {
            Ok(m) => message_of(message_id, role@, content@, part_views(parts@)) == Ok::<
                MessageView,
                RowFault,
            >(m@),
            Err(e) => message_of(message_id, role@, content@, part_views(parts@)) == Err::<
                MessageView,
                RowFault,
            >(e@),
        },
{
    let content = content.to_owned();
    if same(role, "user") {
        Ok(Message::User { content })
    } else if same(role, "system") {
        Ok(Message::System { content })
    } else if same(role, "tool") {
        match answered(parts) {
            Some(call_id) => Ok(Message::Tool { call_id, content }),
            None => Err(RowError::NoCallId),
        }
    } else if same(role, "assistant") {
        if let Some(said) = find_refused(parts) {
            return Err(RowError::BadToolName { message_id, said });
        }
        let calls = collect_calls(parts);
        assert(call_views(calls@).len() == calls@.len());
        if calls.len() == 0 {
            Ok(Message::Assistant { content })
        } else {
            Ok(Message::ToolCalls { content, calls })
        }
    } else {
        Err(RowError::UnknownRole(role.to_owned()))
    }
}

impl RowError {
    /// What is said of the error.
    pub fn message(&self) -> (r: String)
        ensures
            r@ == match self@ {
                RowFault::UnknownRole(role) => "unknown message role: "@ + role,
                RowFault::NoCallId => "tool result without a call id"@,
                RowFault::BadToolName { message_id, said } => "message "@ + signed_decimal(
                    message_id as int,
                ) + ": "@ + said,
            },
    {
        match self {
            RowError::UnknownRole(role) => {
                let mut out = String::new();
                out.append("unknown message role: ");
                out.append(role.as_str());
                assert(out@ =~= "unknown message role: "@ + role@);
                out
            },
            RowError::NoCallId => "tool result without a call id".to_owned(),
            RowError::BadToolName { message_id, said } => {
                let mut out = "message ".to_owned();
                push_i64(&mut out, *message_id);
                out.append(": ");
                out.append(said.as_str());
                assert(out@ =~= "message "@ + signed_decimal(*message_id as int) + ": "@ + said@);
                out
            },
        }
    }
}

// ── The store keeps messages ────────────────────────────────────────

proof fn lemma_calls_in_call_parts(content: Seq<char>, calls: Seq<CallView>)
    ensures
        calls_in(
            seq![PartView::Text { content }] + calls.map_values(|c: CallView| call_part(c)),
        ) == calls,
    decreases calls.len(),
{
    let parts = seq![PartView::Text { content }] + calls.map_values(|c: CallView| call_part(c));
    if calls.len() == 0 {
        assert(parts.drop_last() =~= Seq::empty());
        assert(calls_in(Seq::<PartView>::empty()) =~= Seq::empty());
        assert(calls_in(parts) =~= calls);
    } else {
        let rest = calls.drop_last();
        lemma_calls_in_call_parts(content, rest);
        assert(parts.drop_last() =~= seq![PartView::Text { content }] + rest.map_values(
            |c: CallView| call_part(c),
        ));
        assert(parts.last() == call_part(calls.last()));
        assert(calls_in(parts) =~= calls);
    }
}

/// No name is refused among parts in which none is.
proof fn lemma_none_refused(parts: Seq<PartView>)
    requires
        forall|i: int|
            0 <= i < parts.len() ==> !((#[trigger] parts[i]) matches PartView::ToolCall {
                refused: Some(_),
                ..
            }),
    ensures
        refused_name(parts) is None,
    decreases parts.len(),
{
    if parts.len() > 0 {
        let rest = parts.drop_first();
        assert forall|i: int| 0 <= i < rest.len() implies !((
        #[trigger] rest[i]) matches PartView::ToolCall { refused: Some(_), .. }) by {
            assert(rest[i] == parts[i + 1]);
        }
        lemma_none_refused(rest);
    }
}

/// A message that is stored and read back is the same message. The one
/// exception is a request for tools that names none: it reads back as a plain
/// assistant message.
pub proof fn stored_message_reads_back(id: i64, m: MessageView)
    requires
        m matches MessageView::ToolCalls { calls, .. } ==> calls.len() > 0,
    ensures
        message_of(id, role_of(m), m.content(), parts_of(m)) == Ok::<MessageView, RowFault>(m),
{
    lemma_roles_differ();
    lemma_none_refused(parts_of(m));
    match m {
        MessageView::ToolCalls { content, calls } => {
            lemma_calls_in_call_parts(content, calls);
        },
        MessageView::Assistant { content } => {
            assert(parts_of(m).drop_last() =~= Seq::empty());
            assert(calls_in(Seq::<PartView>::empty()) =~= Seq::empty());
            assert(calls_in(parts_of(m)) =~= Seq::empty());
        },
        MessageView::Tool { call_id, content } => {
            assert(parts_of(m)[0] == (PartView::ToolOutput { content, call_id }));
        },
        _ => {},
    }
}

/// A row reads back as its role says, with its whole text. A role that is not
/// one of four is a fault, and so is a tool result that answers no call.
pub proof fn a_row_reads_as_its_role(
    id: i64,
    role: Seq<char>,
    content: Seq<char>,
    parts: Seq<PartView>,
)
    ensures
        message_of(id, "user"@, content, parts) == Ok::<MessageView, RowFault>(
            MessageView::User { content },
        ),
        message_of(id, "system"@, content, parts) == Ok::<MessageView, RowFault>(
            MessageView::System { content },
        ),
        message_of(id, "tool"@, content, parts) matches Ok(m) ==> m is Tool && m.content()
            == content,
        message_of(id, "assistant"@, content, parts) matches Ok(m) ==> (m is Assistant
            || m is ToolCalls) && m.content() == content,
        role != "user"@ && role != "system"@ && role != "tool"@ && role != "assistant"@
            ==> message_of(id, role, content, parts) == Err::<MessageView, RowFault>(
            RowFault::UnknownRole(role),
        ),
{
    lemma_roles_differ();
}

/// The calls of a message are its call parts, in order, and nothing else.
pub proof fn calls_are_the_call_parts(a: Seq<PartView>, b: Seq<PartView>, p: PartView)
    ensures
        calls_in(seq![p]) == match p {
            PartView::ToolCall { id, name, input, .. } => seq![
                CallView { id, name, arguments: input },
            ],
            _ => Seq::<CallView>::empty(),
        },
        calls_in(a + b) == calls_in(a) + calls_in(b),
    decreases b.len(),
{
    assert(seq![p].drop_last() =~= Seq::empty());
    assert(calls_in(Seq::<PartView>::empty()) =~= Seq::empty());
    match p {
        PartView::ToolCall { id, name, input, .. } => {
            assert(calls_in(seq![p]) =~= seq![CallView { id, name, arguments: input }]);
        },
        _ => {},
    }
    if b.len() == 0 {
        assert(a + b =~= a);
        assert(calls_in(a) + calls_in(b) =~= calls_in(a));
    } else {
        calls_are_the_call_parts(a, b.drop_last(), p);
        assert((a + b).drop_last() =~= a + b.drop_last());
        assert(calls_in(a + b) =~= calls_in(a) + calls_in(b));
    }
}

/// A call is refused exactly where some stored name is, and for the first one.
pub proof fn the_first_refused_name_counts(parts: Seq<PartView>, i: int, said: Seq<char>)
    requires
        0 <= i < parts.len(),
        parts[i] matches PartView::ToolCall { refused: Some(text), .. } && text == said,
        forall|j: int|
            0 <= j < i ==> !((#[trigger] parts[j]) matches PartView::ToolCall {
                refused: Some(_),
                ..
            }),
    ensures
        refused_name(parts) == Some(said),
    decreases i,
{
    if i > 0 {
        let rest = parts.drop_first();
        assert(rest[i - 1] == parts[i]);
        assert(!(parts[0] matches PartView::ToolCall { refused: Some(_), .. }));
        assert forall|j: int| 0 <= j < i - 1 implies !((
        #[trigger] rest[j]) matches PartView::ToolCall { refused: Some(_), .. }) by {
            assert(rest[j] == parts[j + 1]);
        }
        the_first_refused_name_counts(rest, i - 1, said);
    }
}

} // verus!
