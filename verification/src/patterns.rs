//! Searching text with regular expressions.

use regex::Regex;
use vstd::prelude::*;

use crate::text::number::is_digit;
use crate::text::views;

verus! {

/// The matches of `pattern` in `text`, leftmost first and not overlapping;
/// `None` where the pattern is not one.
pub uninterp spec fn regex_found(pattern: Seq<char>, text: Seq<char>) -> Option<Seq<Seq<char>>>;

/// What the first group holds in each match of `pattern` in `text`; `None`
/// where the pattern is not one.
pub uninterp spec fn regex_groups(pattern: Seq<char>, text: Seq<char>) -> Option<Seq<Seq<char>>>;

/// Whether `pattern` matches somewhere in `text`; `None` where the pattern is
/// not one.
pub uninterp spec fn regex_is_match(pattern: Seq<char>, text: Seq<char>) -> Option<bool>;

/// The matches of `pattern` in `text`, by `regex::Regex::find_iter`. What
/// they are depends on the two texts alone and is left to `regex_found`.
#[verifier::external_body]
pub(crate) fn find_all(pattern: &str, text: &str) -> (r: Option<Vec<String>>)
    ensures
        match r {
            Some(found) => regex_found(pattern@, text@) == Some(views(found@)),
            None => regex_found(pattern@, text@) is None,
        },
{
    let re = Regex::new(pattern).ok()?;
    Some(re.find_iter(text).map(|m| m.as_str().to_owned()).collect())
}

/// What the first group holds in each match of `pattern` in `text`, by
/// `regex::Regex::captures_iter`; a group that takes no part holds nothing.
/// What they are is left to `regex_groups`.
#[verifier::external_body]
pub(crate) fn first_groups(pattern: &str, text: &str) -> (r: Option<Vec<String>>)
    ensures
        match r {
            Some(found) => regex_groups(pattern@, text@) == Some(views(found@)),
            None => regex_groups(pattern@, text@) is None,
        },
{
    let re = Regex::new(pattern).ok()?;
    Some(
        re.captures_iter(text).map(
            |c| c.get(1).map_or(String::new(), |m| m.as_str().to_owned()),
        ).collect(),
    )
}

/// The last line that `file_read` writes below what it shows.
pub const READ_TRAILER: &'static str = r"^\(\d+ lines shown, \d+ total, \d+ bytes\)$";

/// Whether `s` is a run of ASCII digits, at least one.
pub open spec fn is_number(s: Seq<char>) -> bool {
    s.len() > 0 && forall|i: int| 0 <= i < s.len() ==> is_digit(#[trigger] s[i])
}

/// The last line that `file_read` writes, for three numbers.
pub open spec fn read_trailer(shown: Seq<char>, total: Seq<char>, bytes: Seq<char>) -> Seq<char> {
    "("@ + shown + " lines shown, "@ + total + " total, "@ + bytes + " bytes)"@
}

/// Whether `s` is such a line with ASCII digits for the three numbers.
pub open spec fn is_plain_trailer(s: Seq<char>) -> bool {
    exists|shown: Seq<char>, total: Seq<char>, bytes: Seq<char>|
        is_number(shown) && is_number(total) && is_number(bytes) && s == #[trigger] read_trailer(
            shown,
            total,
            bytes,
        )
}

/// Whether `pattern` matches in `text`, by `regex::Regex::is_match`. In
/// general the answer is left to `regex_is_match`. Of [`READ_TRAILER`] it is
/// said that it matches a line of its shape written with ASCII digits, which
/// are among the decimal digits that `\d` stands for.
#[verifier::external_body]
pub(crate) fn is_match(pattern: &str, text: &str) -> (r: Option<bool>)
    ensures
        r == regex_is_match(pattern@, text@),
        pattern@ == READ_TRAILER@ && is_plain_trailer(text@) ==> r == Some(true),
{
    Regex::new(pattern).ok().map(|re| re.is_match(text))
}

/// Whether `pattern` is one and matches in `text`.
pub open spec fn matched(pattern: Seq<char>, text: Seq<char>) -> bool {
    regex_is_match(pattern, text) == Some(true)
}

/// Whether `pattern` is one and matches in `text`.
pub fn matches_in(pattern: &str, text: &str) -> (r: bool)
    ensures
        r == matched(pattern@, text@),
        pattern@ == READ_TRAILER@ && is_plain_trailer(text@) ==> r,
{
    match is_match(pattern, text) {
        Some(found) => found,
        None => false,
    }
}

/// The texts of an optional list, none where there is no list.
pub open spec fn or_none(found: Option<Seq<Seq<char>>>) -> Seq<Seq<char>> {
    match found {
        Some(list) => list,
        None => Seq::empty(),
    }
}

} // verus!
