//! The duty scheduler: which duty runs when, and what a run does.
//!
//! A duty is a named unit of scheduled work. Schedules are on the wall clock
//! with the last run of each duty recorded, so that cadence survives restarts
//! and an overdue duty fires once. The daemon sends the messages and queries
//! the repositories; what it does next is decided here.

pub mod schedule;
pub mod self_analysis;
pub mod state;

use vstd::prelude::*;

use crate::text::number::{decimal, push_usize};
use crate::text::split::{join, joined, joined_text_holds_every_part};
use crate::text::{has_prefix, has_suffix, lemma_occurs_in_part, occurs, quote, quoted, same, views};
use schedule::Schedule;
use self_analysis::{format_prompt, prompt_text, Cursor, Delta, Probe, PROPOSAL_CAP};
use state::DutyState;

verus! {

/// A scheduled duty: performs its action when due.
pub struct Duty {
    pub name: String,
    pub action: Action,
    pub schedule: Schedule,
    pub gate: Option<Gate>,
}

/// What a due duty does.
pub enum Action {
    /// Send `input` to the agent; `session_hint` routes it onto the work
    /// session of a repository.
    Dispatch { input: String, session_hint: Option<String> },
    /// Mine the bot's own problem record and file at most one proposal.
    SelfAnalysis { repo: String, min_delta_tokens: usize },
    /// Warm the configured repositories whose remote head moved.
    Warm,
}

/// An operator's request to run one duty, or all of them, now.
pub struct Trigger {
    /// A single duty, or `None` for every duty.
    pub name: Option<String>,
}

/// A check that decides whether a due duty gets a turn at all.
pub enum Gate {
    /// Open only when the remote head of the repository moved past the cursor.
    NewCommits { repo: String },
}

/// What a new-commits probe decides, given cursor and remote head.
#[derive(Clone, Copy, Debug, PartialEq, Eq, Structural)]
pub enum NewCommits {
    /// No cursor yet: record the head, dispatch nothing.
    Prime,
    /// Head unchanged: nothing to review.
    Closed,
    /// Head moved: dispatch, and advance the cursor on success.
    Open,
}

/// Cap on the scheduler's sleep, in seconds.
pub const MAX_SLEEP_SECS: u64 = 600;

/// The view of an optional text.
pub open spec fn opt_str(s: Option<&str>) -> Option<Seq<char>> {
    match s {
        Some(t) => Some(t@),
        None => None,
    }
}

/// What a map files under a name.
pub open spec fn filed<V>(m: Map<Seq<char>, V>, name: Seq<char>) -> Option<V> {
    if m.contains_key(name) {
        Some(m[name])
    } else {
        None
    }
}

// ── The schedule ────────────────────────────────────────────────────

impl Duty {
    /// When the duty is next due.
    pub open spec fn due_at(self, runs: Map<Seq<char>, u64>, now: u64) -> int {
        self.schedule.next_due_at(filed(runs, self.name@), now)
    }

    /// Seconds until the duty is due; 0 where it is.
    pub open spec fn wait(self, runs: Map<Seq<char>, u64>, now: u64) -> int {
        if self.due_at(runs, now) <= now {
            0
        } else {
            self.due_at(runs, now) - now
        }
    }
}

/// Whether the due time of every duty fits in 64 bits.
pub open spec fn due_times_fit(duties: Seq<Duty>, runs: Map<Seq<char>, u64>, now: u64) -> bool {
    forall|i: int| 0 <= i < duties.len() ==> (#[trigger] duties[i]).due_at(runs, now) <= u64::MAX
}

/// The duties due at `now`, in the order in which they stand.
pub open spec fn due_duties(
    duties: Seq<Duty>,
    runs: Map<Seq<char>, u64>,
    now: u64,
) -> Seq<Duty>
    decreases duties.len(),
{
    if duties.len() == 0 {
        Seq::empty()
    } else {
        let rest = due_duties(duties.drop_last(), runs, now);
        if duties.last().due_at(runs, now) <= now {
            rest.push(duties.last())
        } else {
            rest
        }
    }
}

/// The shortest wait of all duties, at most the cap.
pub open spec fn shortest_wait(duties: Seq<Duty>, runs: Map<Seq<char>, u64>, now: u64) -> int
    decreases duties.len(),
{
    if duties.len() == 0 {
        MAX_SLEEP_SECS as int
    } else {
        let rest = shortest_wait(duties.drop_last(), runs, now);
        let wait = duties.last().wait(runs, now);
        if wait < rest {
            wait
        } else {
            rest
        }
    }
}

/// Seconds to sleep until the earliest due time, at least 1 and at most the
/// cap.
pub open spec fn sleep_secs(duties: Seq<Duty>, runs: Map<Seq<char>, u64>, now: u64) -> int {
    let wait = shortest_wait(duties, runs, now);
    if wait < 1 {
        1
    } else {
        wait
    }
}

/// The duties that references stand for.
pub open spec fn pointed(duties: Seq<&Duty>) -> Seq<Duty> {
    duties.map_values(|d: &Duty| *d)
}

/// Whether the due time of every duty fits in 64 bits.
pub fn are_due_times_fit(duties: &Vec<Duty>, state: &DutyState, now: u64) -> (r: bool)
    requires
        state.wf(),
    ensures
        r == due_times_fit(duties@, state.runs(), now),
{
    let mut i: usize = 0;
    while i < duties.len()
        invariant
            i <= duties@.len(),
            state.wf(),
            forall|j: int|
                0 <= j < i ==> (#[trigger] duties@[j]).due_at(state.runs(), now) <= u64::MAX,
        decreases duties@.len() - i,
    {
        let d = &duties[i];
        if !d.schedule.is_reachable(state.last_run(d.name.as_str()), now) {
            assert(duties@[i as int].due_at(state.runs(), now) > u64::MAX);
            return false;
        }
        i += 1;
    }
    true
}

/// Duties due at `now`, in declaration order.
pub fn due<'a>(duties: &'a Vec<Duty>, state: &DutyState, now: u64) -> (r: Vec<&'a Duty>)
    requires
        state.wf(),
        due_times_fit(duties@, state.runs(), now),
    ensures
        pointed(r@) == due_duties(duties@, state.runs(), now),
{
    let mut out: Vec<&'a Duty> = Vec::new();
    let mut i: usize = 0;
    assert(duties@.take(0) =~= Seq::empty());
    assert(pointed(out@) =~= Seq::empty());
    while i < duties.len()
        invariant
            i <= duties@.len(),
            state.wf(),
            due_times_fit(duties@, state.runs(), now),
            pointed(out@) == due_duties(duties@.take(i as int), state.runs(), now),
        decreases duties@.len() - i,
    {
        let d = &duties[i];
        proof {
            assert(duties@.take(i + 1).drop_last() =~= duties@.take(i as int));
            assert(duties@.take(i + 1).last() == duties@[i as int]);
            assert(duties@[i as int].due_at(state.runs(), now) <= u64::MAX);
        }
        if d.schedule.next_due(state.last_run(d.name.as_str()), now) <= now {
            let ghost before = out@;
            out.push(d);
            assert(pointed(out@) =~= pointed(before).push(*d));
        }
        i += 1;
    }
    assert(duties@.take(i as int) =~= duties@);
    out
}

/// Seconds until the earliest next due time, capped at [`MAX_SLEEP_SECS`].
pub fn next_wake(duties: &Vec<Duty>, state: &DutyState, now: u64) -> (r: u64)
    requires
        state.wf(),
        due_times_fit(duties@, state.runs(), now),
    ensures
        r == sleep_secs(duties@, state.runs(), now),
        1 <= r <= MAX_SLEEP_SECS,
{
    let mut least: u64 = MAX_SLEEP_SECS;
    let mut i: usize = 0;
    assert(duties@.take(0) =~= Seq::empty());
    while i < duties.len()
        invariant
            i <= duties@.len(),
            state.wf(),
            due_times_fit(duties@, state.runs(), now),
            least == shortest_wait(duties@.take(i as int), state.runs(), now),
            least <= MAX_SLEEP_SECS,
        decreases duties@.len() - i,
    {
        let d = &duties[i];
        proof {
            assert(duties@.take(i + 1).drop_last() =~= duties@.take(i as int));
            assert(duties@.take(i + 1).last() == duties@[i as int]);
            assert(duties@[i as int].due_at(state.runs(), now) <= u64::MAX);
        }
        let wait: u64 = d.schedule.next_due(state.last_run(d.name.as_str()), now).saturating_sub(
            now,
        );
        if wait < least {
            least = wait;
        }
        i += 1;
    }
    assert(duties@.take(i as int) =~= duties@);
    if least < 1 {
        1
    } else {
        least
    }
}

/// The scheduler neither busy-loops nor sleeps past a due time: it sleeps at
/// least a second, at most the cap, and no longer than any duty that is not
/// due yet has to wait.
pub proof fn sleep_is_bounded_by_every_duty(
    duties: Seq<Duty>,
    runs: Map<Seq<char>, u64>,
    now: u64,
    i: int,
)
    requires
        0 <= i < duties.len(),
    ensures
        1 <= sleep_secs(duties, runs, now) <= MAX_SLEEP_SECS,
        duties[i].wait(runs, now) >= 1 ==> sleep_secs(duties, runs, now) <= duties[i].wait(
            runs,
            now,
        ),
    decreases duties.len(),
{
    lemma_shortest_wait(duties, runs, now, i);
    lemma_shortest_wait_capped(duties, runs, now);
}

proof fn lemma_shortest_wait_capped(duties: Seq<Duty>, runs: Map<Seq<char>, u64>, now: u64)
    ensures
        0 <= shortest_wait(duties, runs, now) <= MAX_SLEEP_SECS,
    decreases duties.len(),
{
    if duties.len() > 0 {
        lemma_shortest_wait_capped(duties.drop_last(), runs, now);
    }
}

proof fn lemma_shortest_wait(duties: Seq<Duty>, runs: Map<Seq<char>, u64>, now: u64, i: int)
    requires
        0 <= i < duties.len(),
    ensures
        shortest_wait(duties, runs, now) <= duties[i].wait(runs, now),
    decreases duties.len(),
{
    if i < duties.len() - 1 {
        lemma_shortest_wait(duties.drop_last(), runs, now, i);
        assert(duties.drop_last()[i] == duties[i]);
    }
}

/// The names of the duties.
pub open spec fn duty_names(duties: Seq<Duty>) -> Seq<Seq<char>> {
    duties.map_values(|d: Duty| d.name@)
}

/// What is said of a name that no duty has.
pub open spec fn unknown_duty_text(quoted: Seq<char>, names: Seq<Seq<char>>) -> Seq<char> {
    "unknown duty "@ + quoted + "; known: "@ + joined(names, ", "@)
}

/// What is said of a name that no duty has, the name given in quotes.
pub fn unknown_duty(quoted: &str, duties: &Vec<Duty>) -> (r: String)
    ensures
        r@ == unknown_duty_text(quoted@, duty_names(duties@)),
{
    let mut names: Vec<String> = Vec::new();
    let mut i: usize = 0;
    while i < duties.len()
        invariant
            i <= duties@.len(),
            views(names@) == duty_names(duties@).take(i as int),
        decreases duties@.len() - i,
    {
        let ghost before = names@;
        let name = duties[i].name.clone();
        names.push(name);
        proof {
            crate::text::lemma_views_push(before, name);
            assert(duty_names(duties@).take(i + 1) =~= duty_names(duties@).take(i as int).push(
                name@,
            ));
        }
        i += 1;
    }
    assert(duty_names(duties@).take(i as int) =~= duty_names(duties@));
    let mut out = String::new();
    out.append("unknown duty ");
    out.append(quoted);
    out.append("; known: ");
    out.append(join(&names, ", ").as_str());
    assert(out@ =~= unknown_duty_text(quoted@, duty_names(duties@)));
    out
}

/// Whether the duty at `i` is the first of that name.
pub open spec fn first_named(duties: Seq<Duty>, name: Seq<char>, i: int) -> bool {
    &&& 0 <= i < duties.len()
    &&& duties[i].name@ == name
    &&& forall|j: int| 0 <= j < i ==> (#[trigger] duties[j]).name@ != name
}

/// The position of the first duty of that name.
fn find_named(duties: &Vec<Duty>, name: &str) -> (r: Option<usize>)
    ensures
        match r {
            Some(i) => first_named(duties@, name@, i as int),
            None => forall|i: int|
                0 <= i < duties@.len() ==> (#[trigger] duties@[i]).name@ != name@,
        },
{
    let mut i: usize = 0;
    while i < duties.len()
        invariant
            i <= duties@.len(),
            forall|j: int| 0 <= j < i ==> (#[trigger] duties@[j]).name@ != name@,
        decreases duties@.len() - i,
    {
        if same(duties[i].name.as_str(), name) {
            return Some(i);
        }
        i += 1;
    }
    None
}

/// The duties that a trigger names: all of them, or the first of that name.
pub fn resolve<'a>(duties: &'a Vec<Duty>, name: Option<&str>) -> (r: Result<
    Vec<&'a Duty>,
    String,
>)
    ensures
        match (name, r) {
            (None, Ok(all)) => pointed(all@) == duties@,
            (Some(n), Ok(one)) => exists|i: int| #[trigger]
                first_named(duties@, n@, i) && pointed(one@) == seq![duties@[i]],
            (Some(n), Err(e)) => (forall|i: int|
                0 <= i < duties@.len() ==> (#[trigger] duties@[i]).name@ != n@) && e@
                == unknown_duty_text(quoted(n@), duty_names(duties@)),
            (None, Err(_)) => false,
        },
{
    match name {
        None => {
            let mut out: Vec<&'a Duty> = Vec::new();
            let mut i: usize = 0;
            while i < duties.len()
                invariant
                    i <= duties@.len(),
                    pointed(out@) == duties@.take(i as int),
                decreases duties@.len() - i,
            {
                let ghost before = out@;
                out.push(&duties[i]);
                assert(pointed(out@) =~= pointed(before).push(duties@[i as int]));
                assert(duties@.take(i + 1) =~= duties@.take(i as int).push(duties@[i as int]));
                i += 1;
            }
            assert(duties@.take(i as int) =~= duties@);
            Ok(out)
        },
        Some(n) => {
            match find_named(duties, n) {
                Some(i) => {
                    let mut one: Vec<&'a Duty> = Vec::new();
                    one.push(&duties[i]);
                    assert(first_named(duties@, n@, i as int));
                    assert(pointed(one@) =~= seq![duties@[i as int]]);
                    Ok(one)
                },
                None => Err(unknown_duty(quote(n).as_str(), duties)),
            }
        },
    }
}

/// Every run, scheduled or triggered, advances the last run of its duty
/// whatever came of it, so that a failing duty is retried next period.
pub fn finish_run(duty: &Duty, now: u64, state: &mut DutyState)
    requires
        old(state).wf(),
    ensures
        final(state).wf(),
        final(state).runs() == old(state).runs().insert(duty.name@, now),
        final(state).marks() == old(state).marks(),
{
    state.record_run(duty.name.as_str(), now);
}

// ── The new-commits gate ────────────────────────────────────────────

/// What a new-commits gate decides.
pub open spec fn gate_decision(cursor: Option<Seq<char>>, head: Seq<char>) -> NewCommits {
    match cursor {
        None => NewCommits::Prime,
        Some(c) => if c == head {
            NewCommits::Closed
        } else {
            NewCommits::Open
        },
    }
}

/// What the new-commits gate decides, given cursor and remote head.
pub fn new_commits_decision(cursor: Option<&str>, head: &str) -> (r: NewCommits)
    ensures
        r == gate_decision(opt_str(cursor), head@),
{
    match cursor {
        None => NewCommits::Prime,
        Some(c) => {
            if same(c, head) {
                NewCommits::Closed
            } else {
                NewCommits::Open
            }
        },
    }
}

/// The input of a gated dispatch: the duty's own, with the range of commits.
pub open spec fn gated_input(input: Seq<char>, cursor: Seq<char>, head: Seq<char>) -> Seq<char> {
    input + "\n\n[new commits: "@ + cursor + ".."@ + head + "]"@
}

/// What a dispatch sends: the input, and the cursor to move to on success.
pub struct Dispatch {
    pub input: String,
    pub cursor: Option<String>,
}

/// What a dispatch duty sends to the agent, if anything. `head` is the remote
/// head that a gated duty asks for; `None` where it could not be had.
pub fn plan_dispatch(
    duty: &Duty,
    input: &str,
    head: Option<&str>,
    state: &mut DutyState,
) -> (r: Option<Dispatch>)
    requires
        old(state).wf(),
    ensures
        final(state).wf(),
        final(state).runs() == old(state).runs(),
        match (duty.gate, head) {
            (None, _) => {
                &&& r matches Some(d) && d.input@ == input@ && d.cursor is None
                &&& final(state).marks() == old(state).marks()
            },
            (Some(_), None) => r is None && final(state).marks() == old(state).marks(),
            (Some(_), Some(h)) => match filed(old(state).marks(), duty.name@) {
                None => r is None && final(state).marks() == old(state).marks().insert(
                    duty.name@,
                    h@,
                ),
                Some(c) if c == h@ => r is None && final(state).marks() == old(state).marks(),
                Some(c) => {
                    &&& r matches Some(d)
                    &&& d.input@ == gated_input(input@, c, h@)
                    &&& d.cursor matches Some(next)
                    &&& next@ == h@
                    &&& final(state).marks() == old(state).marks()
                },
            },
        },
{
    match &duty.gate {
        None => Some(Dispatch { input: input.to_owned(), cursor: None }),
        Some(Gate::NewCommits { .. }) => {
            let head = match head {
                Some(h) => h,
                None => {
                    return None;
                },
            };
            let cursor: Option<String> = match state.cursor(duty.name.as_str()) {
                Some(c) => Some(c.to_owned()),
                None => None,
            };
            match cursor {
                None => {
                    state.set_cursor(duty.name.as_str(), head);
                    None
                },
                Some(c) => match new_commits_decision(Some(c.as_str()), head) {
                    NewCommits::Open => {
                        let mut text = String::new();
                        text.append(input);
                        text.append("\n\n[new commits: ");
                        text.append(c.as_str());
                        text.append("..");
                        text.append(head);
                        text.append("]");
                        assert(text@ =~= gated_input(input@, c@, head@));
                        Some(Dispatch { input: text, cursor: Some(head.to_owned()) })
                    },
                    _ => None,
                },
            }
        },
    }
}

/// Takes the outcome of a dispatch: the cursor moves only where the turn
/// succeeded, so that a failed turn reviews the same range next period.
pub fn settle_dispatch(duty: &Duty, dispatch: &Dispatch, succeeded: bool, state: &mut DutyState)
    requires
        old(state).wf(),
    ensures
        final(state).wf(),
        final(state).runs() == old(state).runs(),
        final(state).marks() == match dispatch.cursor {
            Some(head) if succeeded => old(state).marks().insert(duty.name@, head@),
            _ => old(state).marks(),
        },
{
    if succeeded {
        match &dispatch.cursor {
            Some(head) => state.set_cursor(duty.name.as_str(), head.as_str()),
            None => {},
        }
    }
}

// ── Self-analysis runs ──────────────────────────────────────────────

/// How far a self-analysis run has come.
pub enum AnalysisPhase {
    /// Nothing has been asked for yet.
    Start,
    /// The sources are being probed.
    Probing,
    /// The open proposals are being counted.
    Counting { delta: Delta, next: Cursor },
    /// The agent is at work; on success the cursor moves to `next`.
    Sent { next: Cursor },
    /// The run is over.
    Done,
}

/// What the daemon reports to a self-analysis run.
pub enum AnalysisEvent {
    /// The run begins; whether there is a client to query proposals with.
    Begin { has_client: bool },
    /// The probe of the sources, or `None` where they could not be read.
    Probed(Option<Probe>),
    /// The open proposals, or `None` where the query failed.
    Proposals(Option<Vec<String>>),
    /// Whether the agent's turn succeeded.
    Replied { succeeded: bool },
}

/// What the daemon does for a self-analysis run.
pub enum AnalysisAction {
    /// Probe the sources from the duty's cursor.
    Probe,
    /// Query the open proposals on the repository.
    CountProposals,
    /// Send the prompt to the agent, on the repository's work session.
    Send { prompt: String },
    /// File this as the duty's cursor.
    MoveCursor(Cursor),
    /// Write this to the journal.
    Journal(String),
    /// Nothing more.
    Stop,
}

/// What the journal says where the cap on open proposals is reached.
pub open spec fn cap_text(open: nat, repo: Seq<char>) -> Seq<char> {
    "skipped: proposal cap reached ("@ + decimal(open) + " open on "@ + repo + ")"@
}

/// What a self-analysis run does next. An event that its phase does not
/// expect ends the run.
pub fn analysis_step(phase: AnalysisPhase, event: AnalysisEvent, repo: &str) -> (r: (
    AnalysisPhase,
    AnalysisAction,
))
    ensures
        match (phase, event) {
            (AnalysisPhase::Start, AnalysisEvent::Begin { has_client: true }) => {
                r.0 is Probing && r.1 is Probe
            },
            (AnalysisPhase::Probing, AnalysisEvent::Probed(Some(Probe::Prime(c)))) => {
                r.0 is Done && r.1 == AnalysisAction::MoveCursor(c)
            },
            (AnalysisPhase::Probing, AnalysisEvent::Probed(Some(Probe::Open { delta, next }))) => {
                r.0 == (AnalysisPhase::Counting { delta, next }) && r.1 is CountProposals
            },
            (AnalysisPhase::Counting { delta, next }, AnalysisEvent::Proposals(Some(open))) => {
                if open@.len() >= PROPOSAL_CAP {
                    &&& r.0 is Done
                    &&& r.1 matches AnalysisAction::Journal(line)
                    &&& line@ == cap_text(open@.len(), repo@)
                } else {
                    &&& r.0 == (AnalysisPhase::Sent { next })
                    &&& r.1 matches AnalysisAction::Send { prompt }
                    &&& prompt@ == prompt_text(
                        repo@,
                        delta.notify@,
                        delta.errors@,
                        views(open@),
                    )
                }
            },
            (AnalysisPhase::Sent { next }, AnalysisEvent::Replied { succeeded: true }) => {
                r.0 is Done && r.1 == AnalysisAction::MoveCursor(next)
            },
            _ => r.0 is Done && r.1 is Stop,
        },
{
    match (phase, event) {
        (AnalysisPhase::Start, AnalysisEvent::Begin { has_client: true }) => (
            AnalysisPhase::Probing,
            AnalysisAction::Probe,
        ),
        (AnalysisPhase::Probing, AnalysisEvent::Probed(Some(Probe::Prime(cursor)))) => (
            AnalysisPhase::Done,
            AnalysisAction::MoveCursor(cursor),
        ),
        (AnalysisPhase::Probing, AnalysisEvent::Probed(Some(Probe::Open { delta, next }))) => (
            AnalysisPhase::Counting { delta, next },
            AnalysisAction::CountProposals,
        ),
        (AnalysisPhase::Counting { delta, next }, AnalysisEvent::Proposals(Some(open))) => {
            if open.len() >= PROPOSAL_CAP {
                let mut line = String::new();
                line.append("skipped: proposal cap reached (");
                push_usize(&mut line, open.len());
                line.append(" open on ");
                line.append(repo);
                line.append(")");
                assert(line@ =~= cap_text(open@.len(), repo@));
                (AnalysisPhase::Done, AnalysisAction::Journal(line))
            } else {
                let prompt = format_prompt(repo, &delta, &open);
                (AnalysisPhase::Sent { next }, AnalysisAction::Send { prompt })
            }
        },
        (AnalysisPhase::Sent { next }, AnalysisEvent::Replied { succeeded: true }) => (
            AnalysisPhase::Done,
            AnalysisAction::MoveCursor(next),
        ),
        _ => (AnalysisPhase::Done, AnalysisAction::Stop),
    }
}

// ── Warm runs ───────────────────────────────────────────────────────

/// The cursor key of the warm gate for a repository.
pub open spec fn warm_key(nwo: Seq<char>) -> Seq<char> {
    "warm/"@ + nwo
}

/// The cursor key of the warm gate for a repository: `warm/<nwo>`.
pub fn warm_cursor_key(nwo: &str) -> (r: String)
    ensures
        r@ == warm_key(nwo@),
{
    let mut out = String::new();
    out.append("warm/");
    out.append(nwo);
    assert(out@ =~= warm_key(nwo@));
    out
}

/// Whether a repository is warmed: it has no cursor yet, or no checkout, or
/// its head moved.
pub open spec fn warm_is_due(
    cursor: Option<Seq<char>>,
    checkout_exists: bool,
    head: Seq<char>,
) -> bool {
    cursor is None || !checkout_exists || cursor != Some(head)
}

/// What the report says of one repository.
pub open spec fn warm_line(nwo: Seq<char>, status: Seq<char>) -> Seq<char> {
    nwo + ": "@ + status
}

/// A line of the report.
fn line_of(nwo: &str, status: &str) -> (r: String)
    ensures
        r@ == warm_line(nwo@, status@),
{
    let mut out = String::new();
    out.append(nwo);
    out.append(": ");
    out.append(status);
    assert(out@ =~= warm_line(nwo@, status@));
    out
}

/// What the warm gate decides for one repository: `None` to warm it, else
/// the line that says why it is skipped. `head` is the remote head, `None`
/// where it could not be had.
pub fn warm_gate(nwo: &str, head: Option<&str>, checkout_exists: bool, state: &DutyState) -> (r:
    Option<String>)
    requires
        state.wf(),
    ensures
        match head {
            None => r matches Some(line) && line@ == warm_line(
                nwo@,
                "skipped (ls-remote failed)"@,
            ),
            Some(h) => if warm_is_due(
                filed(state.marks(), warm_key(nwo@)),
                checkout_exists,
                h@,
            ) {
                r is None
            } else {
                r matches Some(line) && line@ == warm_line(nwo@, "skipped (no new commits)"@)
            },
        },
{
    let head = match head {
        Some(h) => h,
        None => {
            return Some(line_of(nwo, "skipped (ls-remote failed)"));
        },
    };
    let key = warm_cursor_key(nwo);
    let moved = match state.cursor(key.as_str()) {
        Some(c) => !same(c, head),
        None => true,
    };
    if moved || !checkout_exists {
        None
    } else {
        Some(line_of(nwo, "skipped (no new commits)"))
    }
}

/// Takes the outcome of warming a repository: the cursor moves only where
/// the status is `warm`. The result is the line of the report.
pub fn warm_settle(nwo: &str, head: &str, status: &str, state: &mut DutyState) -> (r: String)
    requires
        old(state).wf(),
    ensures
        final(state).wf(),
        final(state).runs() == old(state).runs(),
        final(state).marks() == if status@ == "warm"@ {
            old(state).marks().insert(warm_key(nwo@), head@)
        } else {
            old(state).marks()
        },
        r@ == warm_line(nwo@, status@),
{
    if same(status, "warm") {
        let key = warm_cursor_key(nwo);
        state.set_cursor(key.as_str(), head);
    }
    line_of(nwo, status)
}

/// The report of a warm run: one line per repository.
pub fn warm_summary(lines: &Vec<String>) -> (r: String)
    ensures
        r@ == if lines@.len() == 0 {
            "no warm commands configured"@
        } else {
            joined(views(lines@), "; "@)
        },
{
    if lines.len() == 0 {
        "no warm commands configured".to_owned()
    } else {
        join(lines, "; ")
    }
}

// ── What holds of the scheduler ─────────────────────────────────────

/// The duties that run are exactly those that are due, in the order in which
/// they stand.
pub proof fn exactly_the_due_duties_run(duties: Seq<Duty>, runs: Map<Seq<char>, u64>, now: u64)
    ensures
        due_duties(duties, runs, now) == duties.filter(|d: Duty| d.due_at(runs, now) <= now),
    decreases duties.len(),
{
    reveal(Seq::filter);
    if duties.len() > 0 {
        exactly_the_due_duties_run(duties.drop_last(), runs, now);
    } else {
        assert(due_duties(duties, runs, now) =~= duties.filter(
            |d: Duty| d.due_at(runs, now) <= now,
        ));
    }
}

/// When a duty is due rests on its own last run: one that never ran is due
/// now, one with an interval is due that long after it ran, and the runs of
/// others do not matter.
pub proof fn a_duty_is_due_by_its_own_runs(
    d: Duty,
    runs: Map<Seq<char>, u64>,
    other: Seq<char>,
    at: u64,
    now: u64,
)
    ensures
        !runs.contains_key(d.name@) ==> d.due_at(runs, now) == now,
        d.schedule matches Schedule::Every(period) ==> (runs.contains_key(d.name@) ==> d.due_at(
            runs,
            now,
        ) == runs[d.name@] + period),
        other != d.name@ ==> d.due_at(runs.insert(other, at), now) == d.due_at(runs, now),
{
}

/// The scheduler wakes for the duty that is due first: it sleeps for the cap,
/// for one second, or for exactly as long as some duty has to wait.
pub proof fn sleep_ends_with_a_wait(duties: Seq<Duty>, runs: Map<Seq<char>, u64>, now: u64)
    ensures
        ({
            let n = sleep_secs(duties, runs, now);
            ||| n == 600
            ||| n == 1
            ||| exists|i: int| 0 <= i < duties.len() && n == (#[trigger] duties[i]).wait(runs, now)
        }),
{
    lemma_some_wait(duties, runs, now);
}

proof fn lemma_some_wait(duties: Seq<Duty>, runs: Map<Seq<char>, u64>, now: u64)
    ensures
        shortest_wait(duties, runs, now) == MAX_SLEEP_SECS || exists|i: int|
            0 <= i < duties.len() && shortest_wait(duties, runs, now) == (#[trigger] duties[i]).wait(
                runs,
                now,
            ),
    decreases duties.len(),
{
    if duties.len() > 0 {
        let rest = duties.drop_last();
        lemma_some_wait(rest, runs, now);
        if shortest_wait(rest, runs, now) != MAX_SLEEP_SECS {
            let i = choose|i: int|
                0 <= i < rest.len() && shortest_wait(rest, runs, now) == (#[trigger] rest[i]).wait(
                    runs,
                    now,
                );
            assert(duties[i] == rest[i]);
        }
        assert(duties[duties.len() - 1] == duties.last());
    }
}

/// A gate opens exactly where the head moved past a cursor, and the first look
/// at a repository only records it.
pub proof fn a_gate_opens_on_new_commits(cursor: Option<Seq<char>>, head: Seq<char>)
    ensures
        gate_decision(cursor, head) == NewCommits::Open <==> (cursor matches Some(c) && c != head),
        gate_decision(cursor, head) == NewCommits::Closed <==> cursor == Some(head),
        gate_decision(cursor, head) == NewCommits::Prime <==> cursor is None,
{
}

/// What a gated duty sends is its own input, and the range of new commits.
pub proof fn a_gated_input_names_the_range(input: Seq<char>, cursor: Seq<char>, head: Seq<char>)
    ensures
        has_prefix(gated_input(input, cursor, head), input),
        has_suffix(
            gated_input(input, cursor, head),
            "\n\n[new commits: "@ + cursor + ".."@ + head + "]"@,
        ),
        gated_input(input, cursor, head).len() == input.len() + ("\n\n[new commits: "@ + cursor
            + ".."@ + head + "]"@).len(),
{
    let t = gated_input(input, cursor, head);
    let end = "\n\n[new commits: "@ + cursor + ".."@ + head + "]"@;
    assert(t.take(input.len() as int) =~= input);
    assert(t.skip(t.len() - end.len()) =~= end);
}

/// A repository is left alone exactly where its checkout is there and its head
/// is the one that was warmed last.
pub proof fn a_warm_repository_is_left_alone(
    cursor: Option<Seq<char>>,
    checkout_exists: bool,
    head: Seq<char>,
)
    ensures
        !warm_is_due(cursor, checkout_exists, head) <==> checkout_exists && cursor == Some(head),
{
}

/// Repositories have cursors of their own, apart from those of duties with a
/// plain name.
pub proof fn warm_cursors_are_kept_apart(a: Seq<char>, b: Seq<char>)
    ensures
        warm_key(a) == warm_key(b) ==> a == b,
        has_prefix(warm_key(a), "warm/"@),
        warm_key(a).len() == a.len() + 5,
{
    reveal_strlit("warm/");
    assert(warm_key(a).skip(5) =~= a);
    assert(warm_key(b).skip(5) =~= b);
    assert(warm_key(a).take(5) =~= "warm/"@);
}

/// A report names the repository and what came of it.
pub proof fn a_warm_line_says_what_came_of_it(nwo: Seq<char>, status: Seq<char>)
    ensures
        has_prefix(warm_line(nwo, status), nwo + ": "@),
        has_suffix(warm_line(nwo, status), ": "@ + status),
        warm_line(nwo, status).len() == nwo.len() + 2 + status.len(),
{
    reveal_strlit(": ");
    let t = warm_line(nwo, status);
    assert(t.take((nwo.len() + 2) as int) =~= nwo + ": "@);
    assert(t.skip(nwo.len() as int) =~= ": "@ + status);
}

/// Where a name is unknown, the answer names it and every duty there is.
pub proof fn unknown_duties_are_answered_with_the_known(
    quoted: Seq<char>,
    duties: Seq<Duty>,
    i: int,
)
    requires
        0 <= i < duties.len(),
    ensures
        has_prefix(unknown_duty_text(quoted, duty_names(duties)), "unknown duty "@ + quoted),
        occurs(unknown_duty_text(quoted, duty_names(duties)), duties[i].name@),
{
    let names = duty_names(duties);
    let t = unknown_duty_text(quoted, names);
    let head = "unknown duty "@ + quoted;
    assert(t.take(head.len() as int) =~= head);
    joined_text_holds_every_part(names, ", "@, i);
    let list = joined(names, ", "@);
    let name = duties[i].name@;
    assert(names[i] == name);
    let before = "unknown duty "@ + quoted + "; known: "@;
    let none = Seq::<char>::empty();
    assert(t =~= before + list + none);
    lemma_occurs_in_part(before, list, none, name);
}

} // verus!
