//! The document linter: walks a draft's level-2-heading chapters, checks
//! whitespace hygiene line by line, checks every rendered entry's link shape
//! and every title's bracket and backtick balance, and reports the error
//! count of the first chapter that has any.

use vstd::prelude::*;
use vstd::string::*;
use crate::text::{is_space, white};
use crate::entry::{
    first_char_idx,
    lemma_first_char_idx,
    find_char_from,
    starts_with,
    str_starts_with,
    str_eq,
};
use crate::num::{is_u32_numeral, parse_u32};

verus! {

/// Whether a title is malformed: an unescaped `<`, `>`, `[`, `]` or `_`
/// outside a backtick span, a trailing unescaped backslash, or an unmatched
/// backtick, scanning from position `i` with the given span and escape
/// state.
pub open spec fn title_bad_from(s: Seq<char>, i: int, in_code: bool, escape: bool) -> bool
    decreases s.len() - i,
{
    if i < 0 || i >= s.len() {
        escape || in_code
    } else {
        let c = s[i];
        if c == '`' {
            title_bad_from(s, i + 1, !in_code, escape)
        } else if !in_code {
            if !escape && (c == '<' || c == '>' || c == '[' || c == ']' || c == '_') {
                true
            } else {
                title_bad_from(s, i + 1, in_code, c == '\\')
            }
        } else {
            title_bad_from(s, i + 1, in_code, escape)
        }
    }
}

/// The error count of one title: one where [`title_bad_from`] holds of the
/// whole title, none otherwise.
pub open spec fn spec_check_title(s: Seq<char>) -> int {
    if title_bad_from(s, 0, false, false) {
        1int
    } else {
        0int
    }
}

/// Counts the style errors of one rendered title.
pub fn check_title(title: &str) -> (r: usize)
    ensures
        r as int == spec_check_title(title@),
        r <= 1,
{
    let n = title.unicode_len();
    let mut i: usize = 0;
    let mut in_code = false;
    let mut escape = false;
    while i < n
        invariant
            i <= n,
            n == title@.len(),
            title_bad_from(title@, 0, false, false) == title_bad_from(
                title@,
                i as int,
                in_code,
                escape,
            ),
        decreases n - i,
    {
        let c = title.get_char(i);
        if c == '`' {
            in_code = !in_code;
        } else if !in_code {
            if !escape && (c == '<' || c == '>' || c == '[' || c == ']' || c == '_') {
                return 1;
            }
            escape = c == '\\';
        }
        i += 1;
    }
    if escape || in_code {
        1
    } else {
        0
    }
}

/// Whether `c` may stand in a repository name: ASCII alphanumerics, `_`,
/// `-` and `.`.
pub open spec fn is_repo_char(c: char) -> bool {
    c == '_' || c == '-' || c == '.' || ('0' <= c && c <= '9') || ('a' <= c && c <= 'z') || ('A'
        <= c && c <= 'Z')
}

/// Whether every character of `s` may stand in a repository name.
pub open spec fn all_repo_chars(s: Seq<char>) -> bool {
    forall|i: int| 0 <= i < s.len() ==> is_repo_char(#[trigger] s[i])
}

/// The error count of one entry link: a link into the known organization
/// must have the path shape `repo/pull/number`, with the repository name of
/// word characters and the number a 32-bit numeral; links elsewhere pass.
pub open spec fn spec_check_link(link: Seq<char>) -> int {
    if starts_with(link, "https://github.com/rust-lang/"@) {
        let rest = link.skip(29);
        let i1 = first_char_idx(rest, '/');
        let repo = rest.take(i1);
        let tail_ok = if i1 == rest.len() {
            false
        } else {
            let rest2 = rest.skip(i1 + 1);
            let i2 = first_char_idx(rest2, '/');
            rest2.take(i2) == "pull"@ && i2 < rest2.len() && is_u32_numeral(rest2.skip(i2 + 1))
        };
        if all_repo_chars(repo) && tail_ok {
            0int
        } else {
            1int
        }
    } else {
        0int
    }
}

/// Checks that every character of `s` may stand in a repository name.
fn check_repo_chars(s: &str) -> (r: bool)
    ensures
        r == all_repo_chars(s@),
{
    let n = s.unicode_len();
    let mut i: usize = 0;
    while i < n
        invariant
            i <= n,
            n == s@.len(),
            forall|k: int| 0 <= k < i ==> is_repo_char(#[trigger] s@[k]),
        decreases n - i,
    {
        let c = s.get_char(i);
        if !(c == '_' || c == '-' || c == '.' || ('0' <= c && c <= '9') || ('a' <= c && c <= 'z')
            || ('A' <= c && c <= 'Z')) {
            assert(!is_repo_char(s@[i as int]));
            return false;
        }
        i += 1;
    }
    true
}

/// Counts the shape errors of one entry link.
pub fn check_link(link: &str) -> (r: usize)
    ensures
        r as int == spec_check_link(link@),
        r <= 1,
{
    proof {
        reveal_strlit("https://github.com/rust-lang/");
        reveal_strlit("pull");
    }
    if !str_starts_with(link, "https://github.com/rust-lang/") {
        return 0;
    }
    let n = link.unicode_len();
    let ghost rest = link@.skip(29);
    let i1 = find_char_from(link, 29, '/');
    if i1 == n {
        proof {
            assert(first_char_idx(rest, '/') == rest.len());
        }
        return 1;
    }
    let repo = link.substring_char(29, i1);
    proof {
        assert(repo@ =~= rest.take(first_char_idx(rest, '/')));
    }
    let repo_ok = check_repo_chars(repo);
    let ghost rest2 = link@.skip(i1 + 1);
    proof {
        assert(first_char_idx(rest, '/') < rest.len());
        assert(rest.skip(first_char_idx(rest, '/') + 1) =~= rest2);
    }
    let i2 = find_char_from(link, i1 + 1, '/');
    let pull = link.substring_char(i1 + 1, i2);
    proof {
        assert(pull@ =~= rest2.take(first_char_idx(rest2, '/')));
    }
    if !str_eq(pull, "pull") {
        return 1;
    }
    if i2 == n {
        proof {
            assert(first_char_idx(rest2, '/') == rest2.len());
        }
        return 1;
    }
    let number = link.substring_char(i2 + 1, n);
    proof {
        assert(first_char_idx(rest2, '/') < rest2.len());
        assert(number@ =~= rest2.skip(first_char_idx(rest2, '/') + 1));
    }
    let num_ok = match parse_u32(number) {
        Some(_) => true,
        None => false,
    };
    if repo_ok && num_ok {
        0
    } else {
        1
    }
}

/// How many whitespace characters `l` ends with.
pub open spec fn trailing_ws_count(l: Seq<char>) -> int
    decreases l.len(),
{
    if l.len() > 0 && is_space(l.last()) {
        1 + trailing_ws_count(l.drop_last())
    } else {
        0
    }
}

/// A boundary with only whitespace at its right pins `trailing_ws_count`.
proof fn lemma_trailing_ws_at(l: Seq<char>, j: int)
    requires
        0 <= j <= l.len(),
        forall|k: int| j <= k < l.len() ==> is_space(#[trigger] l[k]),
        j > 0 ==> !is_space(l[j - 1]),
    ensures
        trailing_ws_count(l) == l.len() - j,
    decreases l.len() - j,
{
    if j < l.len() {
        let t = l.drop_last();
        assert(forall|k: int| j <= k < t.len() ==> t[k] == l[k]);
        assert(j > 0 ==> t[j - 1] == l[j - 1]);
        lemma_trailing_ws_at(t, j);
    }
}

/// Whether a line ends in an irregular run of whitespace: any count other
/// than exactly zero or exactly two.
pub open spec fn bad_ws_line(l: Seq<char>) -> bool {
    trailing_ws_count(l) != 0 && trailing_ws_count(l) != 2
}

/// The pieces of `s` between `\n` characters, kept in order, empties and
/// all.
pub open spec fn split_lines(s: Seq<char>) -> Seq<Seq<char>>
    decreases s.len(),
    via split_lines_decreases
{
    let i = first_char_idx(s, '\n');
    if i == s.len() {
        seq![s]
    } else {
        seq![s.take(i)] + split_lines(s.skip(i + 1))
    }
}

#[via_fn]
proof fn split_lines_decreases(s: Seq<char>) {
    lemma_first_char_idx(s, '\n');
}

/// How many lines of a sequence break the whitespace rule.
pub open spec fn count_bad_ws(lines: Seq<Seq<char>>) -> int
    decreases lines.len(),
{
    if lines.len() == 0 {
        0
    } else {
        count_bad_ws(lines.drop_last()) + (if bad_ws_line(lines.last()) {
            1int
        } else {
            0int
        })
    }
}

/// The error counts of line prefixes never exceed the line count.
proof fn lemma_count_bad_ws_le(lines: Seq<Seq<char>>)
    ensures
        0 <= count_bad_ws(lines) <= lines.len(),
    decreases lines.len(),
{
    if lines.len() > 0 {
        lemma_count_bad_ws_le(lines.drop_last());
    }
}

/// The whitespace error count of one chapter: how many of its lines end in
/// an irregular whitespace run.
pub open spec fn spec_check_markdown(chapter: Seq<char>) -> int {
    count_bad_ws(split_lines(chapter))
}

/// Counts the trailing whitespace characters of one line.
pub fn trailing_ws(line: &str) -> (r: usize)
    ensures
        r as int == trailing_ws_count(line@),
        r <= line@.len(),
{
    let n = line.unicode_len();
    let mut e = n;
    while e > 0 && white(line.get_char(e - 1))
        invariant
            e <= n,
            n == line@.len(),
            forall|k: int| e <= k < n ==> is_space(#[trigger] line@[k]),
        decreases e,
    {
        e -= 1;
    }
    proof {
        lemma_trailing_ws_at(line@, e as int);
    }
    n - e
}

/// A split yields at least one piece and at most one more than the
/// character count.
proof fn lemma_split_lines_len(s: Seq<char>)
    ensures
        1 <= split_lines(s).len() <= s.len() + 1,
    decreases s.len(),
{
    lemma_first_char_idx(s, '\n');
    let i = first_char_idx(s, '\n');
    if i < s.len() {
        lemma_split_lines_len(s.skip(i + 1));
    }
}

/// Counts the lines of one chapter that end in irregular whitespace: any
/// trailing run other than exactly zero or exactly two whitespace
/// characters. The chapter must leave the count representable.
pub fn check_markdown(chapter: &str) -> (r: usize)
    requires
        chapter@.len() < usize::MAX,
    ensures
        r as int == spec_check_markdown(chapter@),
        r as int <= chapter@.len() + 1,
{
    let n = chapter.unicode_len();
    let mut err: usize = 0;
    let mut pos: usize = 0;
    let mut done = false;
    proof {
        assert(chapter@.skip(0) =~= chapter@);
        lemma_split_lines_len(chapter@);
        lemma_count_bad_ws_le(split_lines(chapter@));
    }
    while !done
        invariant
            pos <= n,
            n == chapter@.len(),
            n < usize::MAX,
            split_lines(chapter@).len() <= n + 1,
            !done ==> spec_check_markdown(chapter@) == err + count_bad_ws(
                split_lines(chapter@.skip(pos as int)),
            ),
            !done ==> err + split_lines(chapter@.skip(pos as int)).len() <= split_lines(
                chapter@,
            ).len(),
            done ==> err as int == spec_check_markdown(chapter@),
            err as int <= n + 1,
        decreases n - pos + (if done {
            0int
        } else {
            1int
        }),
    {
        let ghost restv = chapter@.skip(pos as int);
        proof {
            lemma_split_lines_len(restv);
        }
        let nl = find_char_from(chapter, pos, '\n');
        let line = chapter.substring_char(pos, nl);
        proof {
            assert(count_bad_ws(Seq::<Seq<char>>::empty()) == 0);
            if nl < n {
                assert(first_char_idx(restv, '\n') < restv.len());
                assert(line@ =~= restv.take(first_char_idx(restv, '\n')));
                assert(restv.skip(first_char_idx(restv, '\n') + 1) =~= chapter@.skip(nl + 1));
                assert(split_lines(restv) == seq![line@] + split_lines(chapter@.skip(nl + 1)));
                lemma_count_bad_ws_prepend(line@, split_lines(chapter@.skip(nl + 1)));
                lemma_split_lines_len(chapter@.skip(nl + 1));
            } else {
                assert(first_char_idx(restv, '\n') == restv.len());
                assert(line@ =~= restv);
                assert(split_lines(restv) == seq![restv]);
                assert(seq![restv] =~= seq![restv] + Seq::<Seq<char>>::empty());
                lemma_count_bad_ws_prepend(restv, Seq::<Seq<char>>::empty());
            }
        }
        let t = trailing_ws(line);
        if t != 0 && t != 2 {
            err += 1;
        }
        if nl == n {
            done = true;
        } else {
            pos = nl + 1;
        }
    }
    err
}

/// Dropping the first line off a line sequence drops its contribution.
proof fn lemma_count_bad_ws_prepend(l: Seq<char>, rest: Seq<Seq<char>>)
    ensures
        count_bad_ws(seq![l] + rest) == (if bad_ws_line(l) {
            1int
        } else {
            0int
        }) + count_bad_ws(rest),
    decreases rest.len(),
{
    let whole = seq![l] + rest;
    assert(count_bad_ws(Seq::<Seq<char>>::empty()) == 0);
    if rest.len() == 0 {
        assert(whole.len() == 1);
        assert(whole.drop_last() =~= Seq::<Seq<char>>::empty());
        assert(whole.last() == l);
        assert(count_bad_ws(whole) == count_bad_ws(whole.drop_last()) + (if bad_ws_line(
            whole.last(),
        ) {
            1int
        } else {
            0int
        }));
        assert(count_bad_ws(whole.drop_last()) == 0);
    } else {
        assert(whole.drop_last() =~= seq![l] + rest.drop_last());
        assert(whole.last() == rest.last());
        lemma_count_bad_ws_prepend(l, rest.drop_last());
        assert(count_bad_ws(whole) == count_bad_ws(whole.drop_last()) + (if bad_ws_line(
            whole.last(),
        ) {
            1int
        } else {
            0int
        }));
        assert(count_bad_ws(rest) == count_bad_ws(rest.drop_last()) + (if bad_ws_line(rest.last()) {
            1int
        } else {
            0int
        }));
    }
}

/// The position of the first adjacent pair `a b` in `s`, or `-1` where the
/// pair occurs nowhere.
pub open spec fn first_pair_idx(s: Seq<char>, a: char, b: char) -> int
    decreases s.len(),
{
    if s.len() < 2 {
        -1
    } else if s[0] == a && s[1] == b {
        0
    } else if first_pair_idx(s.drop_first(), a, b) < 0 {
        -1
    } else {
        1 + first_pair_idx(s.drop_first(), a, b)
    }
}

/// A pair match with nothing but non-matches at its left pins
/// `first_pair_idx` down.
proof fn lemma_first_pair_idx_at(s: Seq<char>, a: char, b: char, i: int)
    requires
        -1 <= i,
        i >= 0 ==> i + 1 < s.len() && s[i] == a && s[i + 1] == b,
        forall|k: int|
            0 <= k && k + 1 < s.len() && (i < 0 || k < i) ==> !(#[trigger] s[k] == a && s[k + 1]
                == b),
    ensures
        first_pair_idx(s, a, b) == i,
    decreases s.len(),
{
    if s.len() < 2 {
    } else if s[0] == a && s[1] == b {
        assert(i == 0);
    } else {
        assert(i != 0);
        let t = s.drop_first();
        assert(forall|k: int| 0 <= k < t.len() ==> t[k] == s[k + 1]);
        if i < 0 {
            lemma_first_pair_idx_at(t, a, b, -1);
        } else {
            lemma_first_pair_idx_at(t, a, b, i - 1);
        }
    }
}

/// Finds the first occurrence of the adjacent pair `a b` in `s`.
pub fn find_first_pair(s: &str, a: char, b: char) -> (r: Option<usize>)
    ensures
        match r {
            Some(i) => i as int == first_pair_idx(s@, a, b) && i + 1 < s@.len(),
            None => first_pair_idx(s@, a, b) == -1,
        },
{
    let n = s.unicode_len();
    if n < 2 {
        proof {
            lemma_first_pair_idx_at(s@, a, b, -1);
        }
        return None;
    }
    let mut i: usize = 0;
    while i < n - 1
        invariant
            i <= n - 1,
            n == s@.len(),
            n >= 2,
            forall|k: int| 0 <= k < i ==> !(#[trigger] s@[k] == a && s@[k + 1] == b),
        decreases n - i,
    {
        if s.get_char(i) == a && s.get_char(i + 1) == b {
            proof {
                lemma_first_pair_idx_at(s@, a, b, i as int);
            }
            return Some(i);
        }
        i += 1;
    }
    proof {
        lemma_first_pair_idx_at(s@, a, b, -1);
    }
    None
}

/// Whether `s` ends with `p`.
pub open spec fn ends_with(s: Seq<char>, p: Seq<char>) -> bool {
    s.len() >= p.len() && s.skip(s.len() - p.len()) == p
}

/// Executable check for [`ends_with`].
pub fn str_ends_with(s: &str, p: &str) -> (r: bool)
    ensures
        r == ends_with(s@, p@),
{
    let n = s.unicode_len();
    let m = p.unicode_len();
    if n < m {
        return false;
    }
    let tail = s.substring_char(n - m, n);
    proof {
        assert(tail@ =~= s@.skip(n - m));
    }
    str_eq(tail, p)
}

/// How many whitespace characters `s` starts with.
pub open spec fn leading_ws_count(s: Seq<char>) -> int
    decreases s.len(),
{
    if s.len() > 0 && is_space(s[0]) {
        1 + leading_ws_count(s.drop_first())
    } else {
        0
    }
}

/// A boundary with only whitespace at its left pins `leading_ws_count`.
proof fn lemma_leading_ws_at(s: Seq<char>, j: int)
    requires
        0 <= j <= s.len(),
        forall|k: int| 0 <= k < j ==> is_space(#[trigger] s[k]),
        j < s.len() ==> !is_space(s[j]),
    ensures
        leading_ws_count(s) == j,
    decreases j,
{
    if j > 0 {
        let t = s.drop_first();
        assert(forall|k: int| 0 <= k < j - 1 ==> t[k] == s[k + 1]);
        lemma_leading_ws_at(t, j - 1);
    }
}

/// `s` with leading and trailing whitespace removed.
pub open spec fn trim_ws(s: Seq<char>) -> Seq<char> {
    let t = s.skip(leading_ws_count(s));
    t.take(t.len() - trailing_ws_count(t))
}

/// Removes leading and trailing whitespace.
pub fn trim_ws_str(s: &str) -> (r: &str)
    ensures
        r@ == trim_ws(s@),
{
    let n = s.unicode_len();
    let mut a: usize = 0;
    while a < n && white(s.get_char(a))
        invariant
            a <= n,
            n == s@.len(),
            forall|k: int| 0 <= k < a ==> is_space(#[trigger] s@[k]),
        decreases n - a,
    {
        a += 1;
    }
    proof {
        lemma_leading_ws_at(s@, a as int);
    }
    let mut e = n;
    while e > a && white(s.get_char(e - 1))
        invariant
            a <= e <= n,
            n == s@.len(),
            forall|k: int| e <= k < n ==> is_space(#[trigger] s@[k]),
        decreases e,
    {
        e -= 1;
    }
    let r = s.substring_char(a, e);
    proof {
        let t = s@.skip(a as int);
        assert(forall|k: int| 0 <= k < t.len() ==> t[k] == s@[k + a]);
        lemma_trailing_ws_at(t, e - a);
        assert(r@ =~= t.take(e - a));
    }
    r
}

/// The error count of one rendered entry line: one for a wrong shape, else
/// the title and link errors.
pub open spec fn spec_entry_line_err(l: Seq<char>) -> int {
    if !starts_with(l, seq!['*', ' ', '[']) {
        1int
    } else {
        let p = l.skip(3);
        if !(p.len() > 0 && p.last() == ')') {
            1int
        } else {
            let q = p.drop_last();
            let i = first_pair_idx(q, ']', '(');
            if i < 0 {
                1int
            } else {
                spec_check_title(q.take(i)) + spec_check_link(q.skip(i + 2))
            }
        }
    }
}

/// Counts the errors of one rendered entry line.
pub fn entry_line_errors(line: &str) -> (r: usize)
    ensures
        r as int == spec_entry_line_err(line@),
        r <= 2,
{
    proof {
        reveal_strlit("* [");
        assert("* ["@ =~= seq!['*', ' ', '[']);
    }
    if !str_starts_with(line, "* [") {
        return 1;
    }
    let n = line.unicode_len();
    let ghost p = line@.skip(3);
    if n == 3 || line.get_char(n - 1) != ')' {
        return 1;
    }
    let q = line.substring_char(3, n - 1);
    proof {
        assert(q@ =~= p.drop_last());
    }
    match find_first_pair(q, ']', '(') {
        None => 1,
        Some(i) => {
            let qn = q.unicode_len();
            let title = q.substring_char(0, i);
            let link = q.substring_char(i + 2, qn);
            proof {
                assert(title@ =~= q@.take(i as int));
                assert(link@ =~= q@.skip(i + 2));
            }
            check_title(title) + check_link(link)
        },
    }
}

/// Strips one trailing carriage return, as reading a text line does.
pub open spec fn strip_cr(l: Seq<char>) -> Seq<char> {
    if l.len() > 0 && l.last() == '\r' {
        l.drop_last()
    } else {
        l
    }
}

/// The text lines of `s`: split on `\n`, without a trailing empty piece,
/// each line stripped of one trailing carriage return.
pub open spec fn text_lines(s: Seq<char>) -> Seq<Seq<char>>
    decreases s.len(),
    via text_lines_decreases
{
    if s.len() == 0 {
        Seq::empty()
    } else {
        let i = first_char_idx(s, '\n');
        if i == s.len() {
            seq![strip_cr(s)]
        } else {
            seq![strip_cr(s.take(i))] + text_lines(s.skip(i + 1))
        }
    }
}

#[via_fn]
proof fn text_lines_decreases(s: Seq<char>) {
    lemma_first_char_idx(s, '\n');
}

/// There are at most one more text line than characters.
proof fn lemma_text_lines_len(s: Seq<char>)
    ensures
        text_lines(s).len() <= s.len() + 1,
    decreases s.len(),
{
    if s.len() > 0 {
        lemma_first_char_idx(s, '\n');
        let i = first_char_idx(s, '\n');
        if i < s.len() {
            lemma_text_lines_len(s.skip(i + 1));
        }
    }
}

/// The summed entry errors of a line sequence.
pub open spec fn prs_errs(lines: Seq<Seq<char>>) -> int
    decreases lines.len(),
{
    if lines.len() == 0 {
        0
    } else {
        spec_entry_line_err(lines.first()) + prs_errs(lines.drop_first())
    }
}

/// Entry errors lie between zero and two per line.
proof fn lemma_prs_errs_le(lines: Seq<Seq<char>>)
    ensures
        0 <= prs_errs(lines) <= 2 * lines.len(),
    decreases lines.len(),
{
    if lines.len() > 0 {
        lemma_prs_errs_le(lines.drop_first());
    }
}

/// Counts the entry errors of the rendered entry block, line by line.
pub fn prs_errors(prs: &str) -> (r: usize)
    requires
        prs@.len() <= 100000000,
    ensures
        r as int == prs_errs(text_lines(prs@)),
        r as int <= 2 * prs@.len() + 2,
{
    let n = prs.unicode_len();
    let ghost total = prs_errs(text_lines(prs@));
    proof {
        lemma_prs_errs_le(text_lines(prs@));
        lemma_text_lines_len(prs@);
        assert(prs@.skip(0) =~= prs@);
    }
    let mut err: usize = 0;
    let mut pos: usize = 0;
    while pos < n
        invariant
            pos <= n,
            n == prs@.len(),
            n <= 100000000,
            total == prs_errs(text_lines(prs@)),
            0 <= total <= 2 * n + 2,
            err + prs_errs(text_lines(prs@.skip(pos as int))) == total,
            prs_errs(text_lines(prs@.skip(pos as int))) >= 0,
            err <= total,
        decreases n - pos,
    {
        let ghost restv = prs@.skip(pos as int);
        let i = find_char_from(prs, pos, '\n');
        let mut lend = i;
        if i > pos && prs.get_char(i - 1) == '\r' {
            lend = i - 1;
        }
        let line = prs.substring_char(pos, lend);
        proof {
            assert(restv.len() > 0);
            let fi = first_char_idx(restv, '\n');
            assert(fi == i - pos);
            if i < n {
                assert(restv.take(fi) =~= prs@.subrange(pos as int, i as int));
                assert(line@ =~= strip_cr(restv.take(fi)));
                assert(restv.skip(fi + 1) =~= prs@.skip(i + 1));
                assert(text_lines(restv) == seq![strip_cr(restv.take(fi))] + text_lines(
                    prs@.skip(i + 1),
                ));
                assert(text_lines(restv).first() == line@);
                assert(text_lines(restv).drop_first() =~= text_lines(prs@.skip(i + 1)));
                lemma_prs_errs_le(text_lines(prs@.skip(i + 1)));
            } else {
                assert(line@ =~= strip_cr(restv));
                assert(text_lines(restv) == seq![strip_cr(restv)]);
                assert(text_lines(restv).first() == line@);
                assert(text_lines(restv).drop_first() =~= Seq::<Seq<char>>::empty());
                assert(prs_errs(Seq::<Seq<char>>::empty()) == 0);
                assert(prs_errs(text_lines(restv)) == spec_entry_line_err(line@));
                assert(prs@.skip(n as int) =~= Seq::<char>::empty());
            }
        }
        let e = entry_line_errors(line);
        err += e;
        if i == n {
            proof {
                assert(text_lines(prs@.skip(n as int)) =~= Seq::<Seq<char>>::empty());
            }
            return err;
        }
        pos = i + 1;
    }
    err
}

/// The structural error count of the updates chapter body: the count
/// paragraph must end in the fixed merged-last-week phrase, the link
/// definition must point at the expected search query, and every rendered
/// entry line must have the exact entry shape. A missing paragraph counts as
/// one error and ends the check.
pub open spec fn spec_updates_err(text: Seq<char>) -> int {
    let i1 = first_pair_idx(text, '\n', '\n');
    if i1 < 0 {
        1int
    } else {
        let num = text.take(i1);
        let rest = text.skip(i1 + 2);
        let num_err: int = if ends_with(
            num,
            " pull requests were [merged in the last week][merged]"@,
        ) {
            0int
        } else {
            1int
        };
        let i2 = first_pair_idx(rest, '\n', '\n');
        if i2 < 0 {
            num_err + 1
        } else {
            let link = rest.take(i2);
            let prs = rest.skip(i2 + 2);
            let link_err: int = if starts_with(
                link,
                "[merged]: https://github.com/search?q=is%3Apr+org%3Arust-lang+is%3Amerged+merged%3A"@,
            ) {
                0int
            } else {
                1int
            };
            num_err + link_err + prs_errs(text_lines(prs))
        }
    }
}

/// Counts the structural errors of the updates chapter body.
pub fn updates_errors(text: &str) -> (r: usize)
    requires
        text@.len() <= 100000000,
    ensures
        r as int == spec_updates_err(text@),
        r as int <= 2 * text@.len() + 4,
{
    let n = text.unicode_len();
    match find_first_pair(text, '\n', '\n') {
        None => 1,
        Some(i1) => {
            let num = text.substring_char(0, i1);
            let rest = text.substring_char(i1 + 2, n);
            proof {
                assert(num@ =~= text@.take(i1 as int));
                assert(rest@ =~= text@.skip(i1 + 2));
            }
            let num_err: usize = if str_ends_with(
                num,
                " pull requests were [merged in the last week][merged]",
            ) {
                0
            } else {
                1
            };
            let rn = rest.unicode_len();
            match find_first_pair(rest, '\n', '\n') {
                None => num_err + 1,
                Some(i2) => {
                    let link = rest.substring_char(0, i2);
                    let prs = rest.substring_char(i2 + 2, rn);
                    proof {
                        assert(link@ =~= rest@.take(i2 as int));
                        assert(prs@ =~= rest@.skip(i2 + 2));
                    }
                    let link_err: usize = if str_starts_with(
                        link,
                        "[merged]: https://github.com/search?q=is%3Apr+org%3Arust-lang+is%3Amerged+merged%3A",
                    ) {
                        0
                    } else {
                        1
                    };
                    let pe = prs_errors(prs);
                    num_err + link_err + pe
                },
            }
        },
    }
}

/// The position of the first `\n##` chapter marker in `s`, or `-1` where
/// there is none.
pub open spec fn first_marker_idx(s: Seq<char>) -> int
    decreases s.len(),
{
    if s.len() < 3 {
        -1
    } else if s[0] == '\n' && s[1] == '#' && s[2] == '#' {
        0
    } else if first_marker_idx(s.drop_first()) < 0 {
        -1
    } else {
        1 + first_marker_idx(s.drop_first())
    }
}

/// Basic bounds of [`first_marker_idx`].
proof fn lemma_first_marker_idx(s: Seq<char>)
    ensures
        -1 <= first_marker_idx(s),
        first_marker_idx(s) >= 0 ==> first_marker_idx(s) + 2 < s.len(),
    decreases s.len(),
{
    if s.len() >= 3 && !(s[0] == '\n' && s[1] == '#' && s[2] == '#') {
        lemma_first_marker_idx(s.drop_first());
    }
}

/// A marker with nothing but non-markers at its left pins
/// `first_marker_idx` down.
proof fn lemma_first_marker_idx_at(s: Seq<char>, i: int)
    requires
        -1 <= i,
        i >= 0 ==> i + 2 < s.len() && s[i] == '\n' && s[i + 1] == '#' && s[i + 2] == '#',
        forall|k: int|
            0 <= k && k + 2 < s.len() && (i < 0 || k < i) ==> !(#[trigger] s[k] == '\n' && s[k + 1]
                == '#' && s[k + 2] == '#'),
    ensures
        first_marker_idx(s) == i,
    decreases s.len(),
{
    if s.len() < 3 {
    } else if s[0] == '\n' && s[1] == '#' && s[2] == '#' {
        assert(i == 0);
    } else {
        assert(i != 0);
        let t = s.drop_first();
        assert(forall|k: int| 0 <= k < t.len() ==> t[k] == s[k + 1]);
        if i < 0 {
            lemma_first_marker_idx_at(t, -1);
        } else {
            lemma_first_marker_idx_at(t, i - 1);
        }
    }
}

/// Finds the first `\n##` chapter marker at or after `from`.
pub fn find_marker_from(s: &str, from: usize) -> (r: Option<usize>)
    requires
        from <= s@.len(),
    ensures
        match r {
            Some(m) => from <= m && m + 2 < s@.len() && m - from == first_marker_idx(
                s@.skip(from as int),
            ),
            None => first_marker_idx(s@.skip(from as int)) == -1,
        },
{
    let n = s.unicode_len();
    let ghost t = s@.skip(from as int);
    proof {
        assert(forall|k: int| 0 <= k < t.len() ==> t[k] == s@[k + from]);
    }
    if n - from < 3 {
        proof {
            lemma_first_marker_idx_at(t, -1);
        }
        return None;
    }
    let mut m = from;
    while m < n - 2
        invariant
            from <= m <= n - 2,
            n == s@.len(),
            n - from >= 3,
            t == s@.skip(from as int),
            forall|k: int| 0 <= k < t.len() ==> t[k] == s@[k + from],
            forall|k: int|
                from <= k < m ==> !(#[trigger] s@[k] == '\n' && s@[k + 1] == '#' && s@[k + 2]
                    == '#'),
        decreases n - m,
    {
        if s.get_char(m) == '\n' && s.get_char(m + 1) == '#' && s.get_char(m + 2) == '#' {
            proof {
                lemma_first_marker_idx_at(t, m - from);
            }
            return Some(m);
        }
        m += 1;
    }
    proof {
        lemma_first_marker_idx_at(t, -1);
    }
    None
}

/// The chapters of a document: the pieces between `\n##` markers.
pub open spec fn split_chapters(s: Seq<char>) -> Seq<Seq<char>>
    decreases s.len(),
    via split_chapters_decreases
{
    let i = first_marker_idx(s);
    if i < 0 {
        seq![s]
    } else {
        seq![s.take(i)] + split_chapters(s.skip(i + 3))
    }
}

#[via_fn]
proof fn split_chapters_decreases(s: Seq<char>) {
    lemma_first_marker_idx(s);
}

/// The error count of one chapter: tracked chapters get the whitespace
/// check, the updates chapter also its structural checks, all others pass.
pub open spec fn spec_chapter_err(ch: Seq<char>) -> int {
    let i = first_char_idx(ch, '\n');
    let title_raw = ch.take(i);
    let text = if i == ch.len() {
        Seq::<char>::empty()
    } else {
        ch.skip(i + 1)
    };
    let t = trim_ws(title_raw);
    if t == "Crate of the Week"@ || t == "Quote of the Week"@ {
        spec_check_markdown(ch)
    } else if t == "Updates from the Rust Project"@ {
        spec_check_markdown(ch) + spec_updates_err(text)
    } else {
        0int
    }
}

/// Counts the errors of one chapter.
pub fn chapter_errors(chapter: &str) -> (r: usize)
    requires
        chapter@.len() <= 100000000,
    ensures
        r as int == spec_chapter_err(chapter@),
        r as int <= 3 * chapter@.len() + 5,
{
    let n = chapter.unicode_len();
    let nl = find_char_from(chapter, 0, '\n');
    let title_raw = chapter.substring_char(0, nl);
    proof {
        assert(chapter@.skip(0) =~= chapter@);
        assert(title_raw@ =~= chapter@.take(first_char_idx(chapter@, '\n')));
    }
    let t = trim_ws_str(title_raw);
    if str_eq(t, "Crate of the Week") || str_eq(t, "Quote of the Week") {
        check_markdown(chapter)
    } else if str_eq(t, "Updates from the Rust Project") {
        let e1 = check_markdown(chapter);
        let text: &str = if nl < n {
            chapter.substring_char(nl + 1, n)
        } else {
            ""
        };
        proof {
            reveal_strlit("");
            assert(""@ =~= Seq::<char>::empty());
            if nl < n {
                assert(text@ =~= chapter@.skip(first_char_idx(chapter@, '\n') + 1));
            }
        }
        let e2 = updates_errors(text);
        e1 + e2
    } else {
        0
    }
}

/// The first nonzero chapter error count, or zero: once a chapter has
/// errors, later chapters are not reached.
pub open spec fn spec_lint_first(chs: Seq<Seq<char>>) -> int
    decreases chs.len(),
{
    if chs.len() == 0 {
        0int
    } else if spec_chapter_err(chs.first()) > 0 {
        spec_chapter_err(chs.first())
    } else {
        spec_lint_first(chs.drop_first())
    }
}

/// What `lint` returns: the error count of the first chapter with errors,
/// or zero for a clean document.
pub open spec fn spec_lint(doc: Seq<char>) -> int {
    spec_lint_first(split_chapters(doc))
}

/// Lints a whole draft document: walks its chapters in order, counts each
/// tracked chapter's errors, and reports the count of the first chapter that
/// has any; a clean document reports zero. The length bound keeps the count
/// representable.
pub fn lint(document: &str) -> (r: usize)
    requires
        document@.len() <= 100000000,
    ensures
        r as int == spec_lint(document@),
{
    let n = document.unicode_len();
    let mut pos: usize = 0;
    let mut done = false;
    let mut result: usize = 0;
    proof {
        assert(document@.skip(0) =~= document@);
    }
    while !done
        invariant
            pos <= n,
            n == document@.len(),
            n <= 100000000,
            !done ==> spec_lint(document@) == spec_lint_first(
                split_chapters(document@.skip(pos as int)),
            ),
            done ==> result as int == spec_lint(document@),
        decreases n - pos + (if done {
            0int
        } else {
            1int
        }),
    {
        let ghost restv = document@.skip(pos as int);
        match find_marker_from(document, pos) {
            Some(m) => {
                let chapter = document.substring_char(pos, m);
                proof {
                    assert(first_marker_idx(restv) == m - pos);
                    assert(chapter@ =~= restv.take(m - pos));
                    assert(restv.skip(m - pos + 3) =~= document@.skip(m + 3));
                    assert(split_chapters(restv) == seq![chapter@] + split_chapters(
                        document@.skip(m + 3),
                    ));
                    assert(split_chapters(restv).first() == chapter@);
                    assert(split_chapters(restv).drop_first() =~= split_chapters(
                        document@.skip(m + 3),
                    ));
                }
                let e = chapter_errors(chapter);
                if e > 0 {
                    proof {
                        assert(spec_lint_first(split_chapters(restv)) == spec_chapter_err(
                            chapter@,
                        ));
                    }
                    result = e;
                    done = true;
                } else {
                    pos = m + 3;
                }
            },
            None => {
                let chapter = document.substring_char(pos, n);
                proof {
                    assert(first_marker_idx(restv) == -1);
                    assert(chapter@ =~= restv);
                    assert(split_chapters(restv) == seq![restv]);
                    assert(split_chapters(restv).first() == chapter@);
                    assert(split_chapters(restv).drop_first() =~= Seq::<Seq<char>>::empty());
                }
                proof {
                    let chs = split_chapters(restv);
                    assert(chs.len() == 1);
                    assert(chs.first() == chapter@);
                    assert(chs.drop_first() =~= Seq::<Seq<char>>::empty());
                    assert(spec_lint_first(Seq::<Seq<char>>::empty()) == 0);
                    assert(spec_lint_first(chs.drop_first()) == 0);
                    assert(spec_lint_first(chs) == (if spec_chapter_err(chs.first()) > 0 {
                        spec_chapter_err(chs.first())
                    } else {
                        spec_lint_first(chs.drop_first())
                    }));
                }
                let e = chapter_errors(chapter);
                result = e;
                done = true;
            },
        }
    }
    result
}

/// The position of the first occurrence of `sub` in `s`, or `-1` where it
/// occurs nowhere.
pub open spec fn first_match_idx(s: Seq<char>, sub: Seq<char>) -> int
    decreases s.len(),
{
    if s.len() < sub.len() {
        -1
    } else if s.take(sub.len() as int) == sub {
        0
    } else if s.len() == 0 {
        -1
    } else if first_match_idx(s.drop_first(), sub) < 0 {
        -1
    } else {
        1 + first_match_idx(s.drop_first(), sub)
    }
}

/// A match with nothing but non-matches at its left pins `first_match_idx`
/// down.
proof fn lemma_first_match_idx_at(s: Seq<char>, sub: Seq<char>, i: int)
    requires
        -1 <= i,
        sub.len() >= 1,
        i >= 0 ==> i + sub.len() <= s.len() && s.subrange(i, i + sub.len()) == sub,
        forall|k: int|
            0 <= k && k + sub.len() <= s.len() && (i < 0 || k < i) ==> #[trigger] s.subrange(
                k,
                k + sub.len(),
            ) != sub,
    ensures
        first_match_idx(s, sub) == i,
    decreases s.len(),
{
    if s.len() < sub.len() {
    } else if s.take(sub.len() as int) == sub {
        let m = sub.len() as int;
        let z: int = 0;
        assert(s.subrange(z, z + m) =~= s.take(m));
        assert(i == 0);
    } else {
        assert(s.subrange(0, sub.len() as int) =~= s.take(sub.len() as int));
        assert(i != 0);
        let t = s.drop_first();
        assert forall|k: int|
            0 <= k && k + sub.len() <= t.len() && (i - 1 < 0 || k < i - 1) implies #[trigger] t.subrange(
            k,
            k + sub.len(),
        ) != sub by {
            assert(t.subrange(k, k + sub.len()) =~= s.subrange(k + 1, k + 1 + sub.len()));
        }
        if i < 0 {
            lemma_first_match_idx_at(t, sub, -1);
        } else {
            assert(t.subrange(i - 1, i - 1 + sub.len()) =~= s.subrange(i, i + sub.len()));
            lemma_first_match_idx_at(t, sub, i - 1);
        }
    }
}

/// Finds the first occurrence of `sub` in `s`.
pub fn find_sub_str(s: &str, sub: &str) -> (r: Option<usize>)
    requires
        sub@.len() >= 1,
    ensures
        match r {
            Some(i) => i as int == first_match_idx(s@, sub@) && i + sub@.len() <= s@.len(),
            None => first_match_idx(s@, sub@) == -1,
        },
{
    let n = s.unicode_len();
    let m = sub.unicode_len();
    if n < m {
        proof {
            lemma_first_match_idx_at(s@, sub@, -1);
        }
        return None;
    }
    let mut i: usize = 0;
    while n - i >= m
        invariant
            i <= n,
            1 <= m <= n,
            n == s@.len(),
            m == sub@.len(),
            forall|k: int| 0 <= k < i ==> #[trigger] s@.subrange(k, k + m) != sub@,
        decreases n - i,
    {
        let mut k: usize = 0;
        let mut hit = true;
        while k < m && hit
            invariant
                hit ==> s@.subrange(i as int, i + k) =~= sub@.subrange(0, k as int),
                !hit ==> s@.subrange(i as int, i + m) != sub@,
                i + m <= n,
                k <= m,
                n == s@.len(),
                m == sub@.len(),
            decreases (if hit {
                m - k + 1
            } else {
                0
            }),
        {
            if s.get_char(i + k) != sub.get_char(k) {
                assert(s@.subrange(i as int, i + m)[k as int] == s@[i + k]);
                assert(s@.subrange(i as int, i + m)[k as int] != sub@[k as int]);
                hit = false;
            } else {
                k += 1;
                assert(s@.subrange(i as int, i + k) =~= sub@.subrange(0, k as int));
            }
        }
        if hit {
            proof {
                assert(s@.subrange(i as int, i + m) =~= sub@.subrange(0, m as int));
                assert(sub@.subrange(0, m as int) =~= sub@);
                lemma_first_match_idx_at(s@, sub@, i as int);
            }
            return Some(i);
        }
        i += 1;
    }
    proof {
        lemma_first_match_idx_at(s@, sub@, -1);
    }
    None
}

/// What `get_number` yields: the text between the first `Number: ` marker
/// and the next marker or end, cut at its first line break; a draft without
/// the marker yields nothing.
pub open spec fn spec_get_number(s: Seq<char>) -> Option<Seq<char>> {
    let marker = "Number: "@;
    let i = first_match_idx(s, marker);
    if i < 0 {
        None
    } else {
        let seg = s.skip(i + 8);
        let j = first_match_idx(seg, marker);
        let seg2 = if j < 0 {
            seg
        } else {
            seg.take(j)
        };
        Some(seg2.take(first_char_idx(seg2, '\n')))
    }
}

/// Reads the issue number out of a draft: the text after the first
/// `Number: ` marker, up to the end of its line; a draft without the marker
/// is a shape error.
pub fn get_number<'a>(contents: &'a str) -> (r: Result<
    &'a str,
    crate::config::TwirError,
>)
    ensures
        match r {
            Ok(t) => spec_get_number(contents@) == Some(t@),
            Err(e) => spec_get_number(contents@) is None && e is CacheFormatError,
        },
{
    proof {
        reveal_strlit("Number: ");
        assert("Number: "@.len() == 8);
    }
    let n = contents.unicode_len();
    match find_sub_str(contents, "Number: ") {
        None => Err(
            crate::config::TwirError::CacheFormatError {
                detail: String::from_str("Number not found in draft"),
            },
        ),
        Some(i) => {
            let seg = contents.substring_char(i + 8, n);
            proof {
                assert(seg@ =~= contents@.skip(i + 8));
            }
            let sn = seg.unicode_len();
            let seg2: &'a str = match find_sub_str(seg, "Number: ") {
                None => seg,
                Some(j) => {
                    let cut = seg.substring_char(0, j);
                    proof {
                        assert(cut@ =~= seg@.take(j as int));
                    }
                    cut
                },
            };
            let nl = find_char_from(seg2, 0, '\n');
            let out = seg2.substring_char(0, nl);
            proof {
                assert(seg2@.skip(0) =~= seg2@);
                assert(out@ =~= seg2@.take(first_char_idx(seg2@, '\n')));
            }
            Ok(out)
        },
    }
}

} // verus!
