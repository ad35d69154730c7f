//! Schedule arithmetic on Unix epoch seconds (UTC).
//!
//! `Daily` is an offset into the UTC day; no calendar is involved.

use vstd::prelude::*;

use crate::text::number::{decimal, is_digit, parse, parsed, written_numbers_read_back};
use crate::text::{from_chars, quote, quoted, to_chars};

verus! {

/// Seconds in a day.
pub const DAY: u64 = 86_400;

/// When a duty recurs.
#[derive(Clone, Copy, Debug, PartialEq, Eq, Structural)]
pub enum Schedule {
    /// Every N seconds after the last run.
    Every(u64),
    /// Daily at N seconds after UTC midnight.
    Daily(u32),
}

impl Schedule {
    /// When the duty is next due. With no recorded run it is due now.
    pub open spec fn next_due_at(self, last_run: Option<u64>, now: u64) -> int {
        match last_run {
            None => now as int,
            Some(last) => match self {
                Schedule::Every(period) => last + period,
                Schedule::Daily(time_of_day) => {
                    let today = last - last % 86_400 + time_of_day;
                    if today > last {
                        today
                    } else {
                        today + 86_400
                    }
                },
            },
        }
    }

    /// Whether the epoch at which the duty is next due fits in 64 bits.
    pub fn is_reachable(self, last_run: Option<u64>, now: u64) -> (r: bool)
        ensures
            r == (self.next_due_at(last_run, now) <= u64::MAX),
    {
        match last_run {
            None => true,
            Some(last) => match self {
                Schedule::Every(period) => last.checked_add(period).is_some(),
                Schedule::Daily(time_of_day) => {
                    let midnight: u64 = last - last % DAY;
                    match midnight.checked_add(time_of_day as u64) {
                        None => false,
                        Some(today) => today > last || today.checked_add(DAY).is_some(),
                    }
                },
            },
        }
    }

    /// The epoch at which the duty is next due.
    ///
    /// With no recorded run the duty is due now, and callers record the run
    /// at the time it ran, so that a duty overdue by many periods fires once.
    pub fn next_due(self, last_run: Option<u64>, now: u64) -> (due: u64)
        requires
            self.next_due_at(last_run, now) <= u64::MAX,
        ensures
            due == self.next_due_at(last_run, now),
    {
        match last_run {
            None => now,
            Some(last) => match self {
                Schedule::Every(period) => last + period,
                Schedule::Daily(time_of_day) => {
                    let midnight: u64 = last - last % DAY;
                    let today: u64 = midnight + time_of_day as u64;
                    if today > last {
                        today
                    } else {
                        today + DAY
                    }
                },
            },
        }
    }
}

/// Whether `t` has the time of day `time_of_day`.
pub open spec fn has_time(t: int, time_of_day: u32) -> bool {
    t % 86_400 == time_of_day
}

/// A daily duty is due at the first instant after its last run that has its
/// time of day.
pub proof fn daily_is_the_next_occurrence(time_of_day: u32, last: u64, now: u64)
    requires
        time_of_day < 86_400,
    ensures
        ({
            let due = Schedule::Daily(time_of_day).next_due_at(Some(last), now);
            &&& last < due <= last + 86_400
            &&& has_time(due, time_of_day)
            &&& forall|t: int| last < t < due ==> !has_time(t, time_of_day)
        }),
{
    let due = Schedule::Daily(time_of_day).next_due_at(Some(last), now);
    let day = 86_400int;
    let midnight = last - last % 86_400;
    assert(midnight % day == 0);
    assert(due % day == time_of_day);
    assert forall|t: int| last < t < due implies !has_time(t, time_of_day) by {
        if has_time(t, time_of_day) {
            assert((due - t) % day == 0) by (nonlinear_arith)
                requires
                    due % day == time_of_day,
                    t % day == time_of_day,
                    day == 86_400,
            ;
            assert(0 < due - t < day);
        }
    }
}

/// Once a run is recorded at `now`, the duty is not due again at `now`: an
/// arbitrarily overdue duty fires once, not once per missed period.
pub proof fn overdue_fires_once(schedule: Schedule, now: u64)
    requires
        match schedule {
            Schedule::Every(period) => period > 0,
            Schedule::Daily(time_of_day) => time_of_day < 86_400,
        },
    ensures
        schedule.next_due_at(Some(now), now) > now,
{
}

/// With a recorded run, the due time does not depend on the clock: a restart
/// keeps the cadence.
pub proof fn restart_keeps_phase(schedule: Schedule, last: u64, before: u64, after: u64)
    ensures
        schedule.next_due_at(Some(last), before) == schedule.next_due_at(Some(last), after),
{
}

/// A clock that went back past the last run makes nothing due.
pub proof fn clock_backward_is_not_due_at(schedule: Schedule, last: u64, now: u64)
    requires
        now < last,
        match schedule {
            Schedule::Every(_) => true,
            Schedule::Daily(time_of_day) => time_of_day < 86_400,
        },
    ensures
        schedule.next_due_at(Some(last), now) > now,
{
}

// ── Intervals ───────────────────────────────────────────────────────

/// Why a text is no interval.
#[derive(Clone, Copy, Debug, PartialEq, Eq, Structural)]
pub enum IntervalFault {
    /// What stands before the unit is no number.
    Number,
    /// The unit is none of `s`, `m`, `h` and `d`.
    Unit,
    /// The interval is zero.
    Zero,
}

/// Seconds that `n` of a unit make.
pub open spec fn unit_secs(n: nat, unit: char) -> Option<nat> {
    if unit == 's' {
        Some(n)
    } else if unit == 'm' {
        Some(n * 60)
    } else if unit == 'h' {
        Some(n * 3_600)
    } else if unit == 'd' {
        Some(n * 86_400)
    } else {
        None
    }
}

/// The interval that `s` spells: a number, then a unit.
pub open spec fn interval_of(s: Seq<char>) -> Result<nat, IntervalFault> {
    match parsed(s.take(s.len() - 1), u64::MAX as nat) {
        Some(n) if s.len() > 0 => match unit_secs(n, s.last()) {
            Some(secs) if secs > 0 => Ok(secs),
            Some(_) => Err(IntervalFault::Zero),
            None => Err(IntervalFault::Unit),
        },
        _ => Err(IntervalFault::Number),
    }
}

/// Whether `s` can be read as an interval at all: the seconds it spells, if
/// it spells any, fit in 64 bits.
pub open spec fn interval_readable(s: Seq<char>) -> bool {
    interval_of(s) matches Ok(secs) ==> secs <= u64::MAX
}

/// Whether `s` can be read as an interval at all.
pub fn is_interval_readable(s: &str) -> (r: bool)
    ensures
        r == interval_readable(s@),
{
    let v = to_chars(s);
    let n: usize = v.len();
    assert(s@.take(0) =~= Seq::empty());
    if n == 0 {
        return true;
    }
    let unit = v[n - 1];
    let digits = from_chars(&v, 0, n - 1);
    assert(digits@ =~= s@.take(n - 1));
    match parse(digits.as_str(), u64::MAX) {
        None => true,
        Some(k) => {
            if unit == 'm' {
                k <= u64::MAX / 60
            } else if unit == 'h' {
                k <= u64::MAX / 3_600
            } else if unit == 'd' {
                k <= u64::MAX / 86_400
            } else {
                true
            }
        },
    }
}

/// Reads an interval like `"90s"`, `"30m"`, `"1h"` or `"1d"`.
pub fn read_interval(s: &str) -> (r: Result<u64, IntervalFault>)
    requires
        interval_readable(s@),
    ensures
        match r {
            Ok(secs) => interval_of(s@) == Ok::<nat, IntervalFault>(secs as nat),
            Err(fault) => interval_of(s@) == Err::<nat, IntervalFault>(fault),
        },
{
    let v = to_chars(s);
    let n: usize = v.len();
    if n == 0 {
        return Err(IntervalFault::Number);
    }
    let digits = from_chars(&v, 0, n - 1);
    assert(digits@ =~= s@.take(n - 1));
    let count: u64 = match parse(digits.as_str(), u64::MAX) {
        Some(k) => k,
        None => {
            return Err(IntervalFault::Number);
        },
    };
    let unit = v[n - 1];
    let secs: u64 = if unit == 's' {
        count
    } else if unit == 'm' {
        count * 60
    } else if unit == 'h' {
        count * 3_600
    } else if unit == 'd' {
        count * 86_400
    } else {
        return Err(IntervalFault::Unit);
    };
    if secs == 0 {
        return Err(IntervalFault::Zero);
    }
    Ok(secs)
}

impl IntervalFault {
    /// What is said of the fault, the text that was read given in quotes.
    pub open spec fn text(self, quoted: Seq<char>) -> Seq<char> {
        match self {
            IntervalFault::Number => "invalid interval "@ + quoted
                + ": expected <number><s|m|h|d>"@,
            IntervalFault::Unit => "invalid interval unit in "@ + quoted + ": expected s|m|h|d"@,
            IntervalFault::Zero => "interval "@ + quoted + " must be positive"@,
        }
    }

    /// What is said of the fault, the text that was read given in quotes.
    pub fn message(self, quoted: &str) -> (r: String)
        ensures
            r@ == self.text(quoted@),
    {
        let mut out = String::new();
        match self {
            IntervalFault::Number => {
                out.append("invalid interval ");
                out.append(quoted);
                out.append(": expected <number><s|m|h|d>");
            },
            IntervalFault::Unit => {
                out.append("invalid interval unit in ");
                out.append(quoted);
                out.append(": expected s|m|h|d");
            },
            IntervalFault::Zero => {
                out.append("interval ");
                out.append(quoted);
                out.append(" must be positive");
            },
        }
        assert(out@ =~= self.text(quoted@));
        out
    }
}

/// Parses an interval like `"90s"`, `"30m"`, `"1h"` or `"1d"` into seconds.
pub fn parse_every(s: &str) -> (r: Result<u64, String>)
    requires
        interval_readable(s@),
    ensures
        match r {
            Ok(secs) => interval_of(s@) == Ok::<nat, IntervalFault>(secs as nat),
            Err(e) => interval_of(s@) matches Err(fault) && e@ == fault.text(quoted(s@)),
        },
{
    match read_interval(s) {
        Ok(secs) => Ok(secs),
        Err(fault) => Err(fault.message(quote(s).as_str())),
    }
}

// ── Times of day ────────────────────────────────────────────────────

/// The number that two decimal digits spell.
pub open spec fn two_digits(tens: char, ones: char) -> Option<nat> {
    if is_digit(tens) && is_digit(ones) {
        Some(((tens as nat - 48) * 10 + (ones as nat - 48)) as nat)
    } else {
        None
    }
}

/// The time of day that `s` spells as `HH:MM`, in seconds after midnight: two
/// digits on each side of the colon.
pub open spec fn time_of_day(s: Seq<char>) -> Option<nat> {
    if s.len() == 5 && s[2] == ':' {
        match (two_digits(s[0], s[1]), two_digits(s[3], s[4])) {
            (Some(hours), Some(minutes)) => if hours <= 23 && minutes <= 59 {
                Some(hours * 3_600 + minutes * 60)
            } else {
                None
            },
            _ => None,
        }
    } else {
        None
    }
}

/// A time of day lies within the day.
pub proof fn time_of_day_is_within_the_day(s: Seq<char>)
    ensures
        time_of_day(s) matches Some(secs) ==> secs < 86_400,
{
}

/// The number that two decimal digits spell.
fn read_digits(tens: char, ones: char) -> (r: Option<u32>)
    ensures
        match r {
            Some(n) => two_digits(tens, ones) == Some(n as nat),
            None => two_digits(tens, ones) is None,
        },
        r matches Some(n) ==> n <= 99,
{
    if '0' <= tens && tens <= '9' && '0' <= ones && ones <= '9' {
        Some((tens as u32 - 48) * 10 + (ones as u32 - 48))
    } else {
        None
    }
}

/// Reads a UTC time of day like `"06:00"`.
pub fn read_time(s: &str) -> (r: Option<u32>)
    ensures
        match r {
            Some(secs) => time_of_day(s@) == Some(secs as nat),
            None => time_of_day(s@) is None,
        },
{
    let v = to_chars(s);
    if v.len() != 5 || v[2] != ':' {
        return None;
    }
    match (read_digits(v[0], v[1]), read_digits(v[3], v[4])) {
        (Some(hours), Some(minutes)) => {
            if hours <= 23 && minutes <= 59 {
                Some(hours * 3_600 + minutes * 60)
            } else {
                None
            }
        },
        _ => None,
    }
}

/// What is said of a text that is no time of day, the text given in quotes.
pub open spec fn time_fault_text(quoted: Seq<char>) -> Seq<char> {
    "invalid time "@ + quoted + ": expected HH:MM (UTC)"@
}

/// What is said of a text that is no time of day, the text given in quotes.
pub fn time_fault(quoted: &str) -> (r: String)
    ensures
        r@ == time_fault_text(quoted@),
{
    let mut out = String::new();
    out.append("invalid time ");
    out.append(quoted);
    out.append(": expected HH:MM (UTC)");
    assert(out@ =~= time_fault_text(quoted@));
    out
}

/// Parses a UTC time of day like `"06:00"` into seconds after midnight.
pub fn parse_daily(s: &str) -> (r: Result<u32, String>)
    ensures
        match r {
            Ok(secs) => time_of_day(s@) == Some(secs as nat),
            Err(e) => time_of_day(s@) is None && e@ == time_fault_text(quoted(s@)),
        },
{
    match read_time(s) {
        Some(secs) => Ok(secs),
        None => Err(time_fault(quote(s).as_str())),
    }
}

// ── What schedules spell ────────────────────────────────────────────

/// An interval is its number of seconds, minutes, hours or days.
pub proof fn an_interval_is_its_number_of_units(n: nat)
    requires
        0 < n <= u64::MAX,
    ensures
        interval_of(decimal(n).push('s')) == Ok::<nat, IntervalFault>(n),
        interval_of(decimal(n).push('m')) == Ok::<nat, IntervalFault>(n * 60),
        interval_of(decimal(n).push('h')) == Ok::<nat, IntervalFault>(n * 60 * 60),
        interval_of(decimal(n).push('d')) == Ok::<nat, IntervalFault>(n * 60 * 60 * 24),
{
    let d = decimal(n);
    written_numbers_read_back(n, u64::MAX as nat, d);
    assert(d.push('s').take(d.len() as int) =~= d);
    assert(d.push('m').take(d.len() as int) =~= d);
    assert(d.push('h').take(d.len() as int) =~= d);
    assert(d.push('d').take(d.len() as int) =~= d);
}

/// A text is no interval where its number, its unit or its amount is wrong, and
/// the first of these is the fault.
pub proof fn faulty_intervals_are_told_apart(s: Seq<char>, n: nat, unit: char)
    requires
        n <= u64::MAX,
    ensures
        interval_of(Seq::empty()) == Err::<nat, IntervalFault>(IntervalFault::Number),
        s.len() > 0 && parsed(s.drop_last(), u64::MAX as nat) is None ==> interval_of(s) == Err::<
            nat,
            IntervalFault,
        >(IntervalFault::Number),
        unit != 's' && unit != 'm' && unit != 'h' && unit != 'd' ==> interval_of(
            decimal(n).push(unit),
        ) == Err::<nat, IntervalFault>(IntervalFault::Unit),
        unit == 's' || unit == 'm' || unit == 'h' || unit == 'd' ==> interval_of(
            decimal(0).push(unit),
        ) == Err::<nat, IntervalFault>(IntervalFault::Zero),
{
    let d = decimal(n);
    let z = decimal(0);
    written_numbers_read_back(n, u64::MAX as nat, d);
    written_numbers_read_back(0, u64::MAX as nat, z);
    assert(d.push(unit).take(d.len() as int) =~= d);
    assert(z.push(unit).take(z.len() as int) =~= z);
    if s.len() > 0 {
        assert(s.take(s.len() - 1) =~= s.drop_last());
    }
}

/// Whether a text is two digits, a colon and two digits.
pub open spec fn is_clock(s: Seq<char>, h1: nat, h2: nat, m1: nat, m2: nat) -> bool {
    &&& h1 < 10 && h2 < 10 && m1 < 10 && m2 < 10
    &&& s == seq![
        "0123456789"@[h1 as int],
        "0123456789"@[h2 as int],
        ':',
        "0123456789"@[m1 as int],
        "0123456789"@[m2 as int],
    ]
}

/// A time of day is read from exactly those texts that are two digits for the
/// hour and two for the minute, within the day.
pub proof fn a_time_is_hours_and_minutes(
    s: Seq<char>,
    h1: nat,
    h2: nat,
    m1: nat,
    m2: nat,
)
    ensures
        is_clock(s, h1, h2, m1, m2) && h1 * 10 + h2 < 24 && m1 < 6 ==> time_of_day(s) == Some(
            (h1 * 10 + h2) * 60 * 60 + (m1 * 10 + m2) * 60,
        ),
        is_clock(s, h1, h2, m1, m2) && (h1 * 10 + h2 >= 24 || m1 >= 6) ==> time_of_day(s) is None,
        time_of_day(s) is Some ==> exists|a: nat, b: nat, c: nat, d: nat| #[trigger]
            is_clock(s, a, b, c, d),
{
    reveal_strlit("0123456789");
    let t = "0123456789"@;
    if time_of_day(s) is Some {
        let a = (s[0] as nat - 48) as nat;
        let b = (s[1] as nat - 48) as nat;
        let c = (s[3] as nat - 48) as nat;
        let d = (s[4] as nat - 48) as nat;
        assert(t[a as int] == s[0] && t[b as int] == s[1]);
        assert(t[c as int] == s[3] && t[d as int] == s[4]);
        assert(s =~= seq![t[a as int], t[b as int], ':', t[c as int], t[d as int]]);
        assert(is_clock(s, a, b, c, d));
    }
}

/// A duty that never ran is due now, and one with an interval is due that long
/// after its last run.
pub proof fn intervals_count_from_the_last_run(period: u64, last: u64, now: u64, s: Schedule)
    ensures
        s.next_due_at(None, now) == now,
        Schedule::Every(period).next_due_at(Some(last), now) == last + period,
{
}

} // verus!
