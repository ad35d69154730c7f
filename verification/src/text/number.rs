//! Numbers written in text.

use vstd::prelude::*;

use super::{lemma_utf8_len_push, to_chars, utf8_len};

verus! {

/// The decimal digit of value `d`.
pub open spec fn digit_char(d: nat) -> char {
    (48 + d) as char
}

/// `n` in decimal.
pub open spec fn decimal(n: nat) -> Seq<char>
    decreases n,
{
    if n < 10 {
        seq![digit_char(n)]
    } else {
        decimal(n / 10).push(digit_char(n % 10))
    }
}

/// `n` in decimal, with a sign where it is negative.
pub open spec fn signed_decimal(n: int) -> Seq<char> {
    if n < 0 {
        seq!['-'] + decimal((-n) as nat)
    } else {
        decimal(n as nat)
    }
}

/// The digit of value `d`.
fn digit(d: u64) -> (c: char)
    requires
        d < 10,
    ensures
        c == digit_char(d as nat),
{
    (48u8 + d as u8) as char
}

/// Appends `n` in decimal.
pub fn push_decimal(out: &mut String, n: u64)
    ensures
        final(out)@ == old(out)@ + decimal(n as nat),
    decreases n,
{
    if n >= 10 {
        let ghost before = out@;
        push_decimal(out, n / 10);
        out.push(digit(n % 10));
        assert(out@ =~= before + decimal(n as nat));
    } else {
        let ghost before = out@;
        out.push(digit(n));
        assert(out@ =~= before + decimal(n as nat));
    }
}

/// Appends `n` in decimal.
pub fn push_usize(out: &mut String, n: usize)
    ensures
        final(out)@ == old(out)@ + decimal(n as nat),
{
    push_decimal(out, n as u64);
}

/// Appends `n` in decimal, with a sign where it is negative.
pub fn push_i64(out: &mut String, n: i64)
    ensures
        final(out)@ == old(out)@ + signed_decimal(n as int),
{
    if n < 0 {
        let ghost before = out@;
        out.push('-');
        let m: u64 = if n == i64::MIN {
            9223372036854775808
        } else {
            (-n) as u64
        };
        push_decimal(out, m);
        assert(out@ =~= before + signed_decimal(n as int));
    } else {
        push_decimal(out, n as u64);
    }
}

// ── Parsing ─────────────────────────────────────────────────────────

/// Whether `c` is one of `0` to `9`.
pub open spec fn is_digit(c: char) -> bool {
    '0' <= c <= '9'
}

pub open spec fn all_digits(s: Seq<char>) -> bool {
    forall|i: int| 0 <= i < s.len() ==> is_digit(#[trigger] s[i])
}

/// The value of a run of decimal digits.
pub open spec fn digits_value(s: Seq<char>) -> nat
    decreases s.len(),
{
    if s.len() == 0 {
        0
    } else {
        digits_value(s.drop_last()) * 10 + (s.last() as nat - 48) as nat
    }
}

/// The number that `s` spells: decimal digits, at least one, perhaps after
/// one `+`, of value at most `max`.
pub open spec fn parsed(s: Seq<char>, max: nat) -> Option<nat> {
    let body = if s.len() > 0 && s[0] == '+' {
        s.drop_first()
    } else {
        s
    };
    if body.len() > 0 && all_digits(body) && digits_value(body) <= max {
        Some(digits_value(body))
    } else {
        None
    }
}

/// A larger number takes no fewer bytes.
pub proof fn lemma_decimal_width(a: nat, b: nat)
    requires
        a <= b,
    ensures
        1 <= utf8_len(decimal(a)) <= utf8_len(decimal(b)),
    decreases b,
{
    lemma_last_digit(a);
    lemma_last_digit(b);
    if a >= 10 {
        lemma_decimal_width(a / 10, b / 10);
    }
}

proof fn lemma_last_digit(n: nat)
    ensures
        utf8_len(decimal(n)) == 1 + if n < 10 {
            0
        } else {
            utf8_len(decimal(n / 10))
        },
{
    if n < 10 {
        lemma_utf8_len_push(Seq::empty(), digit_char(n));
        assert(decimal(n) =~= Seq::empty().push(digit_char(n)));
        assert(utf8_len(Seq::empty()) == 0);
    } else {
        lemma_utf8_len_push(decimal(n / 10), digit_char(n % 10));
    }
}

spec fn ten_to(k: nat) -> nat
    decreases k,
{
    if k == 0 {
        1
    } else {
        10 * ten_to((k - 1) as nat)
    }
}

/// A number below 10 to the power `k` takes at most `k` bytes.
proof fn lemma_decimal_below(n: nat, k: nat)
    requires
        k >= 1,
        n < ten_to(k),
    ensures
        utf8_len(decimal(n)) <= k,
    decreases k,
{
    reveal_with_fuel(ten_to, 2);
    lemma_last_digit(n);
    if n >= 10 {
        assert(k >= 2);
        assert(n / 10 < ten_to((k - 1) as nat));
        lemma_decimal_below(n / 10, (k - 1) as nat);
    }
}

/// A number of 64 bits takes at most 20 bytes.
pub proof fn lemma_decimal_is_short(n: nat)
    requires
        n <= u64::MAX,
    ensures
        utf8_len(decimal(n)) <= 20,
{
    assert(ten_to(20) == 100_000_000_000_000_000_000) by {
        reveal_with_fuel(ten_to, 21);
    }
    lemma_decimal_below(n, 20);
}

/// The decimal form of a number is made of digits, and reads back as it.
pub proof fn lemma_decimal_reads_back(n: nat)
    ensures
        decimal(n).len() > 0,
        all_digits(decimal(n)),
        digits_value(decimal(n)) == n,
    decreases n,
{
    if n < 10 {
        let s = decimal(n);
        assert(s.drop_last() =~= Seq::empty());
        assert(digits_value(s.drop_last()) == 0);
    } else {
        lemma_decimal_reads_back(n / 10);
        let s = decimal(n);
        assert(s.drop_last() =~= decimal(n / 10));
        assert(s.last() == digit_char(n % 10));
        assert forall|i: int| 0 <= i < s.len() implies is_digit(#[trigger] s[i]) by {
            if i < s.len() - 1 {
                assert(s[i] == decimal(n / 10)[i]);
            }
        }
    }
}

proof fn lemma_digits_value_grows(s: Seq<char>, k: int)
    requires
        0 <= k <= s.len(),
    ensures
        digits_value(s.take(k)) <= digits_value(s),
    decreases s.len() - k,
{
    if k == s.len() {
        assert(s.take(k) =~= s);
    } else {
        lemma_digits_value_grows(s, k + 1);
        assert(s.take(k + 1).drop_last() =~= s.take(k));
    }
}

/// The number that `v[from..]` spells in digits, where it is at most `max`.
pub fn parse_digits(v: &Vec<char>, from: usize, max: u64) -> (r: Option<u64>)
    requires
        from <= v@.len(),
    ensures
        ({
            let body = v@.skip(from as int);
            if body.len() > 0 && all_digits(body) && digits_value(body) <= max {
                r == Some(digits_value(body) as u64)
            } else {
                r is None
            }
        }),
{
    let ghost body = v@.skip(from as int);
    if from == v.len() {
        return None;
    }
    let mut value: u64 = 0;
    let mut i: usize = from;
    while i < v.len()
        invariant
            from <= i <= v@.len(),
            body == v@.skip(from as int),
            value == digits_value(body.take(i - from)),
            value <= max,
            forall|j: int| 0 <= j < i - from ==> is_digit(#[trigger] body[j]),
        decreases v@.len() - i,
    {
        let c = v[i];
        assert(body[i - from] == c);
        assert(body.take(i - from + 1).drop_last() =~= body.take(i - from));
        proof {
            lemma_digits_value_grows(body, i - from + 1);
        }
        if !('0' <= c && c <= '9') {
            return None;
        }
        let d: u64 = c as u64 - 48;
        if value > (u64::MAX - d) / 10 {
            assert(value * 10 + d > u64::MAX);
            return None;
        }
        let next: u64 = value * 10 + d;
        if next > max {
            return None;
        }
        value = next;
        i += 1;
    }
    assert(body.take(i - from) =~= body);
    Some(value)
}

/// The number that `s` spells, where it is at most `max`.
pub fn parse(s: &str, max: u64) -> (r: Option<u64>)
    ensures
        match r {
            Some(n) => parsed(s@, max as nat) == Some(n as nat),
            None => parsed(s@, max as nat) is None,
        },
{
    let v = to_chars(s);
    assert(v@.skip(0) =~= s@);
    if v.len() > 0 && v[0] == '+' {
        assert(v@.skip(1) =~= s@.drop_first());
        parse_digits(&v, 1, max)
    } else {
        parse_digits(&v, 0, max)
    }
}

/// A number is written with the digits of its tenth part, and its last digit.
pub proof fn decimals_are_written_digit_by_digit(n: nat)
    ensures
        n < 10 ==> decimal(n) == seq!["0123456789"@[n as int]],
        n >= 10 ==> decimal(n) == decimal(n / 10).push("0123456789"@[(n % 10) as int]),
        n < 0x8000_0000_0000_0000 ==> signed_decimal(n as int) == decimal(n),
        0 < n < 0x8000_0000_0000_0000 ==> signed_decimal(-(n as int)) == seq!['-'] + decimal(n),
{
    reveal_strlit("0123456789");
    let d = (n % 10) as int;
    assert(digit_char((n % 10) as nat) == "0123456789"@[d]);
    if n < 10 {
        assert(n % 10 == n);
    }
}

/// A number reads back as it was written, where it is within the bound, also
/// behind a plus sign; anything that is not digits reads as none.
pub proof fn written_numbers_read_back(n: nat, max: nat, s: Seq<char>)
    ensures
        n <= max ==> parsed(decimal(n), max) == Some(n),
        n <= max ==> parsed(seq!['+'] + decimal(n), max) == Some(n),
        n > max ==> parsed(decimal(n), max) is None,
        parsed(s, max) is Some ==> s.len() > 0 && (is_digit(s[0]) || s[0] == '+') && forall|i: int|
            1 <= i < s.len() ==> is_digit(#[trigger] s[i]),
{
    lemma_decimal_reads_back(n);
    let d = decimal(n);
    assert(is_digit(d[0]));
    let p = seq!['+'] + d;
    assert(p.drop_first() =~= d);
    if parsed(s, max) is Some {
        if s[0] == '+' {
            let body = s.drop_first();
            assert forall|i: int| 1 <= i < s.len() implies is_digit(#[trigger] s[i]) by {
                assert(is_digit(body[i - 1]));
            }
        } else {
            assert(is_digit(s[0]));
        }
    }
}

} // verus!
