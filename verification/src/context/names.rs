//! Session names: the form they are stored under, and the form they are shown
//! in.

use vstd::prelude::*;

use crate::text::split::{replace, replaced};
use crate::text::stands_at;

verus! {

/// The stored form of a session name.
pub open spec fn sanitized(name: Seq<char>) -> Seq<char> {
    replaced(replaced(replaced(name, "\0"@, ""@), ".."@, ""@), "/"@, "--"@)
}

/// The form in which a stored name is shown.
pub open spec fn desanitized(stem: Seq<char>) -> Seq<char> {
    replaced(stem, "--"@, "/"@)
}

/// The stored form of a session name, fit for a file name: `/` becomes `--`,
/// so that `owner/repo` is stored as `owner--repo`; null characters and `..`
/// are left out.
pub fn sanitize_name(name: &str) -> (r: String)
    ensures
        r@ == sanitized(name@),
{
    proof {
        reveal_strlit("\0");
        reveal_strlit("..");
        reveal_strlit("/");
    }
    let a = replace(name, "\0", "");
    let b = replace(a.as_str(), "..", "");
    replace(b.as_str(), "/", "--")
}

/// The name that a stored form stands for.
pub fn desanitize_name(stem: &str) -> (r: String)
    ensures
        r@ == desanitized(stem@),
{
    proof {
        reveal_strlit("--");
    }
    replace(stem, "--", "/")
}

/// The one form in which a stored name is shown to the operator. It is for
/// display only: a name that holds `--` itself is shown with `/`.
pub fn display_name(session: &str) -> (r: String)
    ensures
        r@ == desanitized(session@),
{
    desanitize_name(session)
}

/// Whether two neighbouring characters of `s` are `a` and `b`.
pub open spec fn has_pair(s: Seq<char>, a: char, b: char) -> bool {
    exists|i: int| 0 <= i < s.len() - 1 && #[trigger] s[i] == a && s[i + 1] == b
}

/// Replacing a single character by text that does not hold `c` leaves `c`
/// only where it was.
proof fn lemma_replaced_char(s: Seq<char>, p: char, to: Seq<char>, c: char)
    requires
        c == p || !s.contains(c),
        !to.contains(c),
    ensures
        !replaced(s, seq![p], to).contains(c),
    decreases s.len(),
{
    let pat = seq![p];
    if s.len() > 0 {
        let out = replaced(s, pat, to);
        if stands_at(s, pat, 0) {
            let rest = s.skip(1);
            assert forall|i: int| 0 <= i < rest.len() implies (c == p || #[trigger] rest[i] != c) by {
                assert(rest[i] == s[i + 1]);
            }
            lemma_replaced_char(rest, p, to, c);
            assert forall|i: int| 0 <= i < out.len() implies out[i] != c by {
                if i < to.len() {
                    assert(to.contains(to[i]));
                } else {
                    assert(replaced(rest, pat, to).contains(out[i]));
                }
            }
        } else {
            let rest = s.drop_first();
            assert forall|i: int| 0 <= i < rest.len() implies (c == p || #[trigger] rest[i] != c) by {
                assert(rest[i] == s[i + 1]);
            }
            lemma_replaced_char(rest, p, to, c);
            if s[0] == p {
                assert(s.subrange(0, 1) =~= pat);
            }
            assert(s.contains(s[0]));
            assert forall|i: int| 0 <= i < out.len() implies out[i] != c by {
                if i > 0 {
                    assert(replaced(rest, pat, to).contains(out[i]));
                }
            }
        }
    }
}

/// Leaving out pairs of dots leaves no pair, and adds no character.
proof fn lemma_without_dots(s: Seq<char>, c: char)
    ensures
        ({
            let out = replaced(s, seq!['.', '.'], Seq::<char>::empty());
            &&& !has_pair(out, '.', '.')
            &&& out.len() > 0 && s.len() > 0 && out[0] == '.' ==> s[0] == '.'
            &&& !s.contains(c) ==> !out.contains(c)
        }),
    decreases s.len(),
{
    let pat = seq!['.', '.'];
    let none = Seq::<char>::empty();
    let out = replaced(s, pat, none);
    if s.len() > 0 {
        if stands_at(s, pat, 0) {
            assert(s.subrange(0, 2)[0] == s[0]);
            let rest = s.skip(2);
            lemma_without_dots(rest, c);
            assert(out =~= replaced(rest, pat, none));
            if !s.contains(c) {
                assert forall|i: int| 0 <= i < rest.len() implies rest[i] != c by {
                    assert(rest[i] == s[i + 2]);
                }
            }
        } else {
            let rest = s.drop_first();
            lemma_without_dots(rest, c);
            let tail = replaced(rest, pat, none);
            assert(out =~= seq![s[0]] + tail);
            if has_pair(out, '.', '.') {
                let i = choose|i: int|
                    0 <= i < out.len() - 1 && #[trigger] out[i] == '.' && out[i + 1] == '.';
                if i == 0 {
                    assert(tail[0] == '.');
                    assert(rest.len() > 0) by {
                        if rest.len() == 0 {
                            assert(tail =~= rest);
                        }
                    }
                    assert(rest[0] == '.');
                    assert(s.subrange(0, 2) =~= pat);
                } else {
                    assert(tail[i - 1] == '.' && tail[i] == '.');
                }
            }
            if !s.contains(c) {
                assert forall|i: int| 0 <= i < rest.len() implies rest[i] != c by {
                    assert(rest[i] == s[i + 1]);
                }
                assert(s.contains(s[0]));
                assert forall|i: int| 0 <= i < out.len() implies out[i] != c by {
                    if i > 0 {
                        assert(tail.contains(out[i]));
                    }
                }
            }
        }
    }
}

/// Replacing slashes makes no pair of dots.
proof fn lemma_slashes_make_no_dots(s: Seq<char>)
    requires
        !has_pair(s, '.', '.'),
    ensures
        !has_pair(replaced(s, seq!['/'], seq!['-', '-']), '.', '.'),
        s.len() > 0 && replaced(s, seq!['/'], seq!['-', '-'])[0] == '.' ==> s[0] == '.',
    decreases s.len(),
{
    let pat = seq!['/'];
    let to = seq!['-', '-'];
    if s.len() > 0 {
        let out = replaced(s, pat, to);
        let rest = s.drop_first();
        assert(s.skip(1) =~= rest);
        assert(!has_pair(rest, '.', '.')) by {
            if has_pair(rest, '.', '.') {
                let i = choose|i: int|
                    0 <= i < rest.len() - 1 && #[trigger] rest[i] == '.' && rest[i + 1] == '.';
                assert(s[i + 1] == '.' && s[i + 2] == '.');
            }
        }
        lemma_slashes_make_no_dots(rest);
        let tail = replaced(rest, pat, to);
        if stands_at(s, pat, 0) {
            assert(out =~= to + tail);
            if has_pair(out, '.', '.') {
                let i = choose|i: int|
                    0 <= i < out.len() - 1 && #[trigger] out[i] == '.' && out[i + 1] == '.';
                assert(tail[i - 2] == '.' && tail[i - 1] == '.');
            }
        } else {
            assert(out =~= seq![s[0]] + tail);
            if has_pair(out, '.', '.') {
                let i = choose|i: int|
                    0 <= i < out.len() - 1 && #[trigger] out[i] == '.' && out[i + 1] == '.';
                if i == 0 {
                    if rest.len() == 0 {
                        assert(tail =~= rest);
                    }
                    assert(s[0] == '.' && s[1] == '.');
                } else {
                    assert(tail[i - 1] == '.' && tail[i] == '.');
                }
            }
        }
    }
}

/// The stored form of any name can stand as a file name: it has no slash, no
/// null character and no `..`, so it never leads out of its directory.
pub proof fn sanitized_name_stays_in_its_directory(name: Seq<char>)
    ensures
        !sanitized(name).contains('/'),
        !sanitized(name).contains('\0'),
        !has_pair(sanitized(name), '.', '.'),
{
    reveal_strlit("\0");
    reveal_strlit("..");
    reveal_strlit("/");
    reveal_strlit("--");
    reveal_strlit("");
    assert("\0"@ =~= seq!['\0']);
    assert(".."@ =~= seq!['.', '.']);
    assert("/"@ =~= seq!['/']);
    assert("--"@ =~= seq!['-', '-']);
    assert(""@ =~= Seq::<char>::empty());
    let a = replaced(name, seq!['\0'], Seq::empty());
    lemma_replaced_char(name, '\0', Seq::empty(), '\0');
    let b = replaced(a, seq!['.', '.'], Seq::empty());
    lemma_without_dots(a, '\0');
    lemma_replaced_char(b, '/', seq!['-', '-'], '/');
    lemma_replaced_char(b, '/', seq!['-', '-'], '\0');
    lemma_slashes_make_no_dots(b);
}

/// Where a pattern of one or two characters never stands, replacing it
/// changes nothing.
proof fn lemma_replaced_nothing(s: Seq<char>, pat: Seq<char>, to: Seq<char>)
    requires
        forall|i: int| !#[trigger] stands_at(s, pat, i),
    ensures
        replaced(s, pat, to) == s,
    decreases s.len(),
{
    if s.len() > 0 && pat.len() > 0 {
        assert(!stands_at(s, pat, 0));
        let rest = s.drop_first();
        assert forall|i: int| !#[trigger] stands_at(rest, pat, i) by {
            if stands_at(rest, pat, i) {
                assert(s.subrange(i + 1, i + 1 + pat.len()) =~= rest.subrange(i, i + pat.len()));
                assert(stands_at(s, pat, i + 1));
            }
        }
        lemma_replaced_nothing(rest, pat, to);
        assert(seq![s[0]] + rest =~= s);
    }
}

proof fn lemma_char_never_stands(s: Seq<char>, c: char, pat: Seq<char>)
    requires
        pat == seq![c],
        !s.contains(c),
    ensures
        forall|i: int| !#[trigger] stands_at(s, pat, i),
{
    assert forall|i: int| !#[trigger] stands_at(s, pat, i) by {
        if stands_at(s, pat, i) {
            assert(s.subrange(i, i + 1)[0] == s[i]);
            assert(s.contains(s[i]));
        }
    }
}

proof fn lemma_pair_never_stands(s: Seq<char>, a: char, b: char, pat: Seq<char>)
    requires
        pat == seq![a, b],
        !has_pair(s, a, b),
    ensures
        forall|i: int| !#[trigger] stands_at(s, pat, i),
{
    assert forall|i: int| !#[trigger] stands_at(s, pat, i) by {
        if stands_at(s, pat, i) {
            assert(s.subrange(i, i + 2)[0] == s[i]);
            assert(s.subrange(i, i + 2)[1] == s[i + 1]);
        }
    }
}

/// Sanitizing a stored form changes nothing.
pub proof fn sanitizing_twice_is_sanitizing_once(name: Seq<char>)
    ensures
        sanitized(sanitized(name)) == sanitized(name),
{
    let s = sanitized(name);
    sanitized_name_stays_in_its_directory(name);
    reveal_strlit("\0");
    reveal_strlit("..");
    reveal_strlit("/");
    assert("\0"@ =~= seq!['\0']);
    assert(".."@ =~= seq!['.', '.']);
    assert("/"@ =~= seq!['/']);
    lemma_char_never_stands(s, '\0', "\0"@);
    lemma_replaced_nothing(s, "\0"@, ""@);
    lemma_pair_never_stands(s, '.', '.', ".."@);
    lemma_replaced_nothing(s, ".."@, ""@);
    lemma_char_never_stands(s, '/', "/"@);
    lemma_replaced_nothing(s, "/"@, "--"@);
}

/// Replacing slashes and putting them back.
proof fn lemma_slashes_come_back(s: Seq<char>)
    requires
        !has_pair(s, '-', '-'),
        !has_pair(s, '-', '/'),
    ensures
        replaced(replaced(s, seq!['/'], seq!['-', '-']), seq!['-', '-'], seq!['/']) == s,
        s.len() == 0 <==> replaced(s, seq!['/'], seq!['-', '-']).len() == 0,
        s.len() > 0 && s[0] != '/' && s[0] != '-' ==> replaced(s, seq!['/'], seq!['-', '-'])[0]
            == s[0],
    decreases s.len(),
{
    let slash = seq!['/'];
    let dashes = seq!['-', '-'];
    let out = replaced(s, slash, dashes);
    if s.len() == 0 {
        assert(replaced(out, dashes, slash) =~= s);
    } else {
        let rest = s.drop_first();
        assert(s.skip(1) =~= rest);
        assert(!has_pair(rest, '-', '-')) by {
            if has_pair(rest, '-', '-') {
                let i = choose|i: int|
                    0 <= i < rest.len() - 1 && #[trigger] rest[i] == '-' && rest[i + 1] == '-';
                assert(s[i + 1] == '-' && s[i + 2] == '-');
            }
        }
        assert(!has_pair(rest, '-', '/')) by {
            if has_pair(rest, '-', '/') {
                let i = choose|i: int|
                    0 <= i < rest.len() - 1 && #[trigger] rest[i] == '-' && rest[i + 1] == '/';
                assert(s[i + 1] == '-' && s[i + 2] == '/');
            }
        }
        lemma_slashes_come_back(rest);
        let tail = replaced(rest, slash, dashes);
        if s[0] == '/' {
            assert(s.subrange(0, 1) =~= slash);
            assert(out == dashes + tail);
            assert(out.subrange(0, 2) =~= dashes);
            assert(out.skip(2) =~= tail);
            assert(slash + rest =~= s);
        } else {
            assert(!stands_at(s, slash, 0)) by {
                if stands_at(s, slash, 0) {
                    assert(s.subrange(0, 1)[0] == s[0]);
                }
            }
            assert(out == seq![s[0]] + tail);
            assert(out.drop_first() =~= tail);
            assert(!stands_at(out, dashes, 0)) by {
                if stands_at(out, dashes, 0) {
                    assert(out.subrange(0, 2)[0] == out[0]);
                    assert(out.subrange(0, 2)[1] == out[1]);
                    assert(s[0] == '-');
                    assert(tail[0] == '-');
                    assert(rest.len() > 0);
                    assert(s[1] == rest[0]);
                    assert(s[1] != '-' && s[1] != '/');
                    assert(tail[0] == rest[0]);
                }
            }
            assert(seq![s[0]] + rest =~= s);
        }
    }
}

/// A name comes back from its stored form. It has to be free of what is left
/// out, and of dashes that run together with those of a slash: no `--`, and
/// no dash right before a slash.
pub proof fn sanitized_name_comes_back(name: Seq<char>)
    requires
        !name.contains('\0'),
        !has_pair(name, '.', '.'),
        !has_pair(name, '-', '-'),
        !has_pair(name, '-', '/'),
    ensures
        desanitized(sanitized(name)) == name,
{
    reveal_strlit("\0");
    reveal_strlit("..");
    reveal_strlit("/");
    reveal_strlit("--");
    assert("\0"@ =~= seq!['\0']);
    assert(".."@ =~= seq!['.', '.']);
    assert("/"@ =~= seq!['/']);
    assert("--"@ =~= seq!['-', '-']);
    lemma_char_never_stands(name, '\0', "\0"@);
    lemma_replaced_nothing(name, "\0"@, ""@);
    lemma_pair_never_stands(name, '.', '.', ".."@);
    lemma_replaced_nothing(name, ".."@, ""@);
    lemma_slashes_come_back(name);
}

/// Showing a text without slashes and replacing the slashes again.
proof fn lemma_dashes_come_back(s: Seq<char>)
    requires
        !s.contains('/'),
    ensures
        replaced(replaced(s, seq!['-', '-'], seq!['/']), seq!['/'], seq!['-', '-']) == s,
    decreases s.len(),
{
    let slash = seq!['/'];
    let dashes = seq!['-', '-'];
    let out = replaced(s, dashes, slash);
    if s.len() == 0 {
        assert(replaced(out, slash, dashes) =~= s);
    } else if stands_at(s, dashes, 0) {
        let rest = s.skip(2);
        assert forall|i: int| 0 <= i < rest.len() implies rest[i] != '/' by {
            assert(s[i + 2] != '/');
        }
        lemma_dashes_come_back(rest);
        let tail = replaced(rest, dashes, slash);
        assert(out == slash + tail);
        assert(out.subrange(0, 1) =~= slash);
        assert(out.skip(1) =~= tail);
        assert(s.subrange(0, 2) == dashes);
        assert(s =~= s.subrange(0, 2) + rest);
    } else {
        let rest = s.drop_first();
        assert forall|i: int| 0 <= i < rest.len() implies rest[i] != '/' by {
            assert(s[i + 1] != '/');
        }
        lemma_dashes_come_back(rest);
        let tail = replaced(rest, dashes, slash);
        assert(out == seq![s[0]] + tail);
        assert(s[0] != '/');
        assert(!stands_at(out, slash, 0)) by {
            if stands_at(out, slash, 0) {
                assert(out.subrange(0, 1)[0] == out[0]);
            }
        }
        assert(out.drop_first() =~= tail);
        assert(seq![s[0]] + rest =~= s);
    }
}

/// Stored forms are told apart by the form they are shown in: no two of them
/// are shown alike.
pub proof fn shown_names_differ(a: Seq<char>, b: Seq<char>)
    requires
        !a.contains('/'),
        !b.contains('/'),
        desanitized(a) == desanitized(b),
    ensures
        a == b,
{
    reveal_strlit("--");
    reveal_strlit("/");
    assert("--"@ =~= seq!['-', '-']);
    assert("/"@ =~= seq!['/']);
    lemma_dashes_come_back(a);
    lemma_dashes_come_back(b);
}

/// Whether a character stands in a stored name for itself.
pub open spec fn stands_for_itself(c: char) -> bool {
    c != '.' && c != '/' && c != '-' && c != '\0'
}

/// Storing a name keeps every character that is no dot, slash, dash or null,
/// in order, and so does showing it.
pub proof fn storing_keeps_every_other_character(name: Seq<char>)
    ensures
        sanitized(name).filter(|c: char| stands_for_itself(c)) == name.filter(
            |c: char| stands_for_itself(c),
        ),
        desanitized(name).filter(|c: char| stands_for_itself(c)) == name.filter(
            |c: char| stands_for_itself(c),
        ),
{
    reveal_strlit("\0");
    reveal_strlit("");
    reveal_strlit("..");
    reveal_strlit("/");
    reveal_strlit("--");
    let a = replaced(name, "\0"@, ""@);
    let b = replaced(a, ".."@, ""@);
    lemma_replacing_keeps_others(name, "\0"@, ""@);
    lemma_replacing_keeps_others(a, ".."@, ""@);
    lemma_replacing_keeps_others(b, "/"@, "--"@);
    lemma_replacing_keeps_others(name, "--"@, "/"@);
}

proof fn lemma_replacing_keeps_others(s: Seq<char>, pat: Seq<char>, to: Seq<char>)
    requires
        forall|i: int| 0 <= i < pat.len() ==> !stands_for_itself(#[trigger] pat[i]),
        forall|i: int| 0 <= i < to.len() ==> !stands_for_itself(#[trigger] to[i]),
    ensures
        replaced(s, pat, to).filter(|c: char| stands_for_itself(c)) == s.filter(
            |c: char| stands_for_itself(c),
        ),
    decreases s.len(),
{
    let p = |c: char| stands_for_itself(c);
    if s.len() > 0 && pat.len() > 0 {
        if stands_at(s, pat, 0) {
            let rest = s.skip(pat.len() as int);
            lemma_replacing_keeps_others(rest, pat, to);
            lemma_filter_of_both(to, replaced(rest, pat, to));
            lemma_filter_of_both(pat, rest);
            assert(s.subrange(0, pat.len() as int) =~= s.take(pat.len() as int));
            assert(pat + rest =~= s);
            lemma_none_is_kept(pat);
            lemma_none_is_kept(to);
            assert(Seq::<char>::empty() + rest.filter(p) =~= rest.filter(p));
        } else {
            let rest = s.drop_first();
            lemma_replacing_keeps_others(rest, pat, to);
            lemma_filter_of_both(seq![s[0]], replaced(rest, pat, to));
            lemma_filter_of_both(seq![s[0]], rest);
            assert(seq![s[0]] + rest =~= s);
        }
    }
}

proof fn lemma_filter_of_both(a: Seq<char>, b: Seq<char>)
    ensures
        (a + b).filter(|c: char| stands_for_itself(c)) == a.filter(|c: char| stands_for_itself(c))
            + b.filter(|c: char| stands_for_itself(c)),
    decreases b.len(),
{
    reveal(Seq::filter);
    let p = |c: char| stands_for_itself(c);
    if b.len() > 0 {
        lemma_filter_of_both(a, b.drop_last());
        assert((a + b).drop_last() =~= a + b.drop_last());
        assert((a + b).filter(p) =~= a.filter(p) + b.filter(p));
    } else {
        assert(a + b =~= a);
        assert(a.filter(p) + b.filter(p) =~= a.filter(p));
    }
}

proof fn lemma_none_is_kept(s: Seq<char>)
    requires
        forall|i: int| 0 <= i < s.len() ==> !stands_for_itself(#[trigger] s[i]),
    ensures
        s.filter(|c: char| stands_for_itself(c)) == Seq::<char>::empty(),
    decreases s.len(),
{
    reveal(Seq::filter);
    if s.len() > 0 {
        assert(s.last() == s[s.len() - 1]);
        lemma_none_is_kept(s.drop_last());
    }
}

/// The session of a repository is stored with two dashes for the slash.
pub proof fn a_repository_is_stored_with_dashes(owner: Seq<char>, repo: Seq<char>)
    requires
        forall|i: int| 0 <= i < owner.len() ==> stands_for_itself(#[trigger] owner[i]),
        forall|i: int| 0 <= i < repo.len() ==> stands_for_itself(#[trigger] repo[i]),
    ensures
        sanitized(owner + seq!['/'] + repo) == owner + seq!['-', '-'] + repo,
        desanitized(owner + seq!['-', '-'] + repo) == owner + seq!['/'] + repo,
{
    reveal_strlit("\0");
    reveal_strlit("");
    reveal_strlit("..");
    reveal_strlit("/");
    reveal_strlit("--");
    let name = owner + seq!['/'] + repo;
    assert("\0"@ =~= seq!['\0']);
    assert("/"@ =~= seq!['/']);
    assert(".."@ =~= seq!['.', '.']);
    assert("--"@ =~= seq!['-', '-']);
    assert forall|i: int| 0 <= i < name.len() implies #[trigger] name[i] == '/'
        || stands_for_itself(name[i]) by {
        if i < owner.len() {
            assert(name[i] == owner[i]);
        } else if i > owner.len() {
            assert(name[i] == repo[i - owner.len() - 1]);
        }
    }
    assert(!name.contains('\0'));
    assert(!has_pair(name, '.', '.'));
    assert(!has_pair(name, '-', '-'));
    assert(!has_pair(name, '-', '/'));
    sanitized_name_comes_back(name);
    lemma_char_never_stands(name, '\0', "\0"@);
    lemma_replaced_nothing(name, "\0"@, ""@);
    lemma_pair_never_stands(name, '.', '.', ".."@);
    lemma_replaced_nothing(name, ".."@, ""@);
    lemma_slash_in_the_middle(owner, repo);
}

proof fn lemma_slash_in_the_middle(owner: Seq<char>, repo: Seq<char>)
    requires
        forall|i: int| 0 <= i < owner.len() ==> stands_for_itself(#[trigger] owner[i]),
        forall|i: int| 0 <= i < repo.len() ==> stands_for_itself(#[trigger] repo[i]),
    ensures
        replaced(owner + seq!['/'] + repo, seq!['/'], seq!['-', '-']) == owner + seq!['-', '-']
            + repo,
    decreases owner.len(),
{
    let name = owner + seq!['/'] + repo;
    if owner.len() > 0 {
        let rest = owner.drop_first();
        assert forall|i: int| 0 <= i < rest.len() implies stands_for_itself(#[trigger] rest[i]) by {
            assert(rest[i] == owner[i + 1]);
        }
        lemma_slash_in_the_middle(rest, repo);
        assert(name.drop_first() =~= rest + seq!['/'] + repo);
        assert(name[0] == owner[0]);
        assert(!stands_at(name, seq!['/'], 0)) by {
            assert(name.subrange(0, 1)[0] == owner[0]);
        }
        assert(seq![owner[0]] + (rest + seq!['-', '-'] + repo) =~= owner + seq!['-', '-'] + repo);
    } else {
        assert(name.subrange(0, 1) =~= seq!['/']);
        assert(name.skip(1) =~= repo);
        assert(!repo.contains('/'));
        lemma_char_never_stands(repo, '/', seq!['/']);
        lemma_replaced_nothing(repo, seq!['/'], seq!['-', '-']);
        assert(seq!['-', '-'] + repo =~= owner + seq!['-', '-'] + repo);
    }
}

} // verus!
