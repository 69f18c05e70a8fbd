//! Entry lines: the `* [title](link)` codec shared by the filter/sorter and
//! the linter, the dedup key of a line, and the sort key
//! `(repo rank, repo name, title)`.

use vstd::prelude::*;
use vstd::string::*;
use crate::text::{Rel, str_cmp, push_str_chars, chars_to_string};

verus! {

/// The largest `i` such that `s[i] == a` and `s[i + 1] == b`, or `-1` if the
/// pair occurs nowhere.
pub open spec fn last_pair_idx(s: Seq<char>, a: char, b: char) -> int
    decreases s.len(),
{
    if s.len() < 2 {
        -1
    } else if s[s.len() - 2] == a && s[s.len() - 1] == b {
        s.len() - 2
    } else {
        last_pair_idx(s.drop_last(), a, b)
    }
}

/// Basic bounds and meaning of [`last_pair_idx`].
pub proof fn lemma_last_pair_idx(s: Seq<char>, a: char, b: char)
    ensures
        -1 <= last_pair_idx(s, a, b) < s.len(),
        last_pair_idx(s, a, b) >= 0 ==> last_pair_idx(s, a, b) + 1 < s.len() && s[last_pair_idx(
            s,
            a,
            b,
        )] == a && s[last_pair_idx(s, a, b) + 1] == b,
    decreases s.len(),
{
    if s.len() >= 2 && !(s[s.len() - 2] == a && s[s.len() - 1] == b) {
        let t = s.drop_last();
        lemma_last_pair_idx(t, a, b);
        let r = last_pair_idx(t, a, b);
        if r >= 0 {
            assert(s[r] == t[r]);
            assert(s[r + 1] == t[r + 1]);
        }
    }
}

/// A pair match with nothing but non-matches at its right is the last one.
proof fn lemma_last_pair_idx_at(s: Seq<char>, a: char, b: char, i: int)
    requires
        -1 <= i < s.len(),
        i >= 0 ==> i + 1 < s.len() && s[i] == a && s[i + 1] == b,
        forall|k: int| i < k && k + 1 < s.len() ==> !(#[trigger] s[k] == a && s[k + 1] == b),
    ensures
        last_pair_idx(s, a, b) == i,
    decreases s.len(),
{
    if s.len() < 2 {
    } else if s[s.len() - 2] == a && s[s.len() - 1] == b {
        if i < s.len() - 2 {
            assert(!(s[s.len() - 2] == a && s[s.len() - 2 + 1] == b));
            assert(false);
        }
        assert(i == s.len() - 2);
    } else {
        assert(i != s.len() - 2);
        let t = s.drop_last();
        assert(forall|k: int| 0 <= k < t.len() ==> t[k] == s[k]);
        assert(forall|k: int|
            i < k && k + 1 < t.len() ==> !(#[trigger] t[k] == a && t[k + 1] == b));
        lemma_last_pair_idx_at(t, a, b, i);
    }
}

/// Finds the last occurrence of the adjacent pair `a b` in `s`.
pub fn find_last_pair(s: &str, a: char, b: char) -> (r: Option<usize>)
    ensures
        match r {
            Some(i) => i == last_pair_idx(s@, a, b),
            None => last_pair_idx(s@, a, b) == -1,
        },
{
    let n = s.unicode_len();
    if n < 2 {
        proof {
            lemma_last_pair_idx_at(s@, a, b, -1);
        }
        return None;
    }
    let mut i = n - 1;
    while i >= 1
        invariant
            0 <= i <= n - 1,
            n == s@.len(),
            n >= 2,
            forall|k: int|
                i - 1 < k && k + 1 < s@.len() ==> !(#[trigger] s@[k] == a && s@[k + 1] == b),
        decreases i,
    {
        if s.get_char(i - 1) == a && s.get_char(i) == b {
            proof {
                lemma_last_pair_idx_at(s@, a, b, i - 1);
            }
            return Some(i - 1);
        }
        i -= 1;
    }
    proof {
        lemma_last_pair_idx_at(s@, a, b, -1);
    }
    None
}

/// The position of the first `c` in `s`, or `s.len()` if there is none.
pub open spec fn first_char_idx(s: Seq<char>, c: char) -> int
    decreases s.len(),
{
    if s.len() == 0 {
        0
    } else if s[0] == c {
        0
    } else {
        1 + first_char_idx(s.drop_first(), c)
    }
}

/// Basic bounds and meaning of [`first_char_idx`].
pub proof fn lemma_first_char_idx(s: Seq<char>, c: char)
    ensures
        0 <= first_char_idx(s, c) <= s.len(),
        first_char_idx(s, c) < s.len() ==> s[first_char_idx(s, c)] == c,
        forall|k: int| 0 <= k < first_char_idx(s, c) ==> s[k] != c,
    decreases s.len(),
{
    if s.len() > 0 && s[0] != c {
        let t = s.drop_first();
        lemma_first_char_idx(t, c);
        assert(forall|k: int| 1 <= k < first_char_idx(s, c) ==> s[k] == t[k - 1]);
    }
}

/// A position with only non-matches at its left pins `first_char_idx` down.
proof fn lemma_first_char_idx_at(s: Seq<char>, c: char, j: int)
    requires
        0 <= j <= s.len(),
        forall|k: int| 0 <= k < j ==> s[k] != c,
        j < s.len() ==> s[j] == c,
    ensures
        first_char_idx(s, c) == j,
    decreases j,
{
    if j > 0 {
        let t = s.drop_first();
        assert(forall|k: int| 0 <= k < j - 1 ==> t[k] == s[k + 1]);
        lemma_first_char_idx_at(t, c, j - 1);
    }
}

/// Finds the first `c` in `s` at or after position `from`; returns the
/// position relative to the whole string, or the length if there is none.
pub fn find_char_from(s: &str, from: usize, c: char) -> (p: usize)
    requires
        from <= s@.len(),
    ensures
        from <= p <= s@.len(),
        p - from == first_char_idx(s@.skip(from as int), c),
        p < s@.len() ==> s@[p as int] == c,
{
    let n = s.unicode_len();
    let mut p = from;
    while p < n
        invariant
            from <= p <= n,
            n == s@.len(),
            forall|k: int| from <= k < p ==> s@[k] != c,
        decreases n - p,
    {
        if s.get_char(p) == c {
            proof {
                let t = s@.skip(from as int);
                assert(forall|k: int| 0 <= k < p - from ==> t[k] == s@[k + from]);
                assert(t[p - from] == s@[p as int]);
                lemma_first_char_idx_at(t, c, p - from);
            }
            return p;
        }
        p += 1;
    }
    proof {
        let t = s@.skip(from as int);
        assert(forall|k: int| 0 <= k < t.len() ==> t[k] == s@[k + from]);
        lemma_first_char_idx_at(t, c, t.len() as int);
    }
    p
}

/// The title part of an entry line: what stands before the last `](`, or the
/// whole line where no `](` occurs.
pub open spec fn title_of(line: Seq<char>) -> Seq<char> {
    let i = last_pair_idx(line, ']', '(');
    if i < 0 {
        line
    } else {
        line.take(i)
    }
}

/// The link part of an entry line: what stands after the last `](`, or empty
/// where no `](` occurs.
pub open spec fn href_of(line: Seq<char>) -> Seq<char> {
    let i = last_pair_idx(line, ']', '(');
    if i < 0 {
        Seq::empty()
    } else {
        line.skip(i + 2)
    }
}

/// The dedup key of a line from the previous run: its link part, or the
/// whole line where no `](` occurs.
pub open spec fn spec_dedup_key(line: Seq<char>) -> Seq<char> {
    if last_pair_idx(line, ']', '(') < 0 {
        line
    } else {
        href_of(line)
    }
}

/// Extracts the dedup key of one cache line.
pub fn dedup_key(line: &str) -> (r: String)
    ensures
        r@ == spec_dedup_key(line@),
{
    proof {
        lemma_last_pair_idx(line@, ']', '(');
    }
    let n = line.unicode_len();
    match find_last_pair(line, ']', '(') {
        Some(i) => {
            let r = line.substring_char(i + 2, n);
            assert(r@ =~= line@.skip(i + 2));
            String::from_str(r)
        },
        None => String::from_str(line),
    }
}

/// The `k`-th `/`-separated segment of `s` (counting from zero), or empty
/// where there are not that many separators.
pub open spec fn nth_segment(s: Seq<char>, k: int) -> Seq<char>
    decreases k,
{
    if k <= 0 {
        s.take(first_char_idx(s, '/'))
    } else if first_char_idx(s, '/') == s.len() {
        Seq::empty()
    } else {
        nth_segment(s.skip(first_char_idx(s, '/') + 1), k - 1)
    }
}

/// The repository segment of a link: the third `/`-separated segment after
/// the first ten characters (which a `https://` link spends on the scheme and
/// the start of the host), or empty for a shorter link.
pub open spec fn repo_of_href(href: Seq<char>) -> Seq<char> {
    if href.len() < 10 {
        Seq::empty()
    } else {
        nth_segment(href.skip(10), 2)
    }
}

/// The position of `x` in `order`, or `-1` where it does not occur.
pub open spec fn rank_of(order: Seq<Seq<char>>, x: Seq<char>) -> int
    decreases order.len(),
{
    if order.len() == 0 {
        -1
    } else if order[0] == x {
        0
    } else if rank_of(order.drop_first(), x) < 0 {
        -1
    } else {
        1 + rank_of(order.drop_first(), x)
    }
}

/// A position with only mismatches at its left pins `rank_of` down.
proof fn lemma_rank_of_at(order: Seq<Seq<char>>, x: Seq<char>, i: int)
    requires
        0 <= i < order.len(),
        order[i] == x,
        forall|k: int| 0 <= k < i ==> order[k] != x,
    ensures
        rank_of(order, x) == i,
    decreases i,
{
    if i > 0 {
        let t = order.drop_first();
        assert(forall|k: int| 0 <= k < i - 1 ==> t[k] == order[k + 1]);
        lemma_rank_of_at(t, x, i - 1);
    }
}

/// Where `x` occurs nowhere, `rank_of` reports so.
proof fn lemma_rank_of_none(order: Seq<Seq<char>>, x: Seq<char>)
    requires
        forall|k: int| 0 <= k < order.len() ==> order[k] != x,
    ensures
        rank_of(order, x) == -1,
    decreases order.len(),
{
    if order.len() > 0 {
        let t = order.drop_first();
        assert(forall|k: int| 0 <= k < t.len() ==> t[k] == order[k + 1]);
        lemma_rank_of_none(t, x);
    }
}

/// The position of `repo` in the configured order, or `usize::MAX` where it
/// is absent, so that unknown repositories sort last.
pub fn rank_in_order(order: &Vec<String>, repo: &str) -> (r: usize)
    ensures
        ({
            let rk = rank_of(order@.map_values(|o: String| o@), repo@);
            r as int == if rk < 0 {
                usize::MAX as int
            } else {
                rk
            }
        }),
{
    let ghost ov = order@.map_values(|o: String| o@);
    let mut j: usize = 0;
    while j < order.len()
        invariant
            j <= order@.len(),
            ov == order@.map_values(|o: String| o@),
            forall|k: int| 0 <= k < j ==> ov[k] != repo@,
        decreases order@.len() - j,
    {
        let eq = match str_cmp(order[j].as_str(), repo) {
            Rel::Eq => true,
            _ => false,
        };
        if eq {
            proof {
                assert(ov[j as int] == repo@);
                lemma_rank_of_at(ov, repo@, j as int);
            }
            return j;
        }
        j += 1;
    }
    proof {
        lemma_rank_of_none(ov, repo@);
    }
    usize::MAX
}

/// The sort key of an entry line: configured repository rank (repositories
/// absent from the order, and lines without a parseable link, rank last),
/// repository name, title.
pub open spec fn entry_key(line: Seq<char>, order: Seq<Seq<char>>) -> (int, Seq<char>, Seq<char>) {
    if last_pair_idx(line, ']', '(') < 0 {
        (usize::MAX as int, Seq::<char>::empty(), line)
    } else {
        let repo = repo_of_href(href_of(line));
        let rk = rank_of(order, repo);
        (
            if rk < 0 {
                usize::MAX as int
            } else {
                rk
            },
            repo,
            title_of(line),
        )
    }
}

/// Computes the sort key of one entry line: the rank of its repository in
/// `order`, the repository segment of its link, and its title.
pub fn repo_title<'l>(line: &'l str, order: &Vec<String>) -> (r: (usize, &'l str, &'l str))
    ensures
        ({
            let k = entry_key(line@, order@.map_values(|o: String| o@));
            r.0 as int == k.0 && r.1@ == k.1 && r.2@ == k.2
        }),
{
    let n = line.unicode_len();
    proof {
        lemma_last_pair_idx(line@, ']', '(');
    }
    match find_last_pair(line, ']', '(') {
        None => {
            proof {
                reveal_strlit("");
                assert(""@ =~= Seq::<char>::empty());
            }
            (usize::MAX, "", line)
        },
        Some(i) => {
            let title = line.substring_char(0, i);
            let href = line.substring_char(i + 2, n);
            proof {
                assert(title@ =~= line@.take(i as int));
                assert(href@ =~= line@.skip(i + 2));
            }
            let hn = n - (i + 2);
            proof {
                assert(hn == href@.len());
                reveal_strlit("");
                assert(""@ =~= Seq::<char>::empty());
            }
            let repo: &'l str = if hn < 10 {
                ""
            } else {
                let ghost t0 = href@.skip(10);
                let s1 = find_char_from(href, 10, '/');
                if s1 == hn {
                    proof {
                        assert(first_char_idx(t0, '/') == t0.len());
                    }
                    ""
                } else {
                    let ghost t1 = href@.skip(s1 + 1);
                    proof {
                        assert(first_char_idx(t0, '/') < t0.len());
                        assert(t0.skip(first_char_idx(t0, '/') + 1) =~= t1);
                        assert(nth_segment(t0, 2) == nth_segment(t1, 1));
                    }
                    let s2 = find_char_from(href, s1 + 1, '/');
                    if s2 == hn {
                        proof {
                            assert(first_char_idx(t1, '/') == t1.len());
                        }
                        ""
                    } else {
                        let ghost t2 = href@.skip(s2 + 1);
                        proof {
                            assert(first_char_idx(t1, '/') < t1.len());
                            assert(t1.skip(first_char_idx(t1, '/') + 1) =~= t2);
                            assert(nth_segment(t1, 1) == nth_segment(t2, 0));
                        }
                        let s3 = find_char_from(href, s2 + 1, '/');
                        let seg = href.substring_char(s2 + 1, s3);
                        proof {
                            assert(seg@ =~= t2.take(first_char_idx(t2, '/')));
                        }
                        seg
                    }
                }
            };
            proof {
                assert(repo@ == repo_of_href(href_of(line@)));
            }
            let rank = rank_in_order(order, repo);
            (rank, repo, title)
        },
    }
}

/// Whether `c` is a space or a dot, the characters trimmed off titles.
pub open spec fn is_sp_dot(c: char) -> bool {
    c == ' ' || c == '.'
}

/// How many space-or-dot characters `s` starts with.
pub open spec fn trim_start_count(s: Seq<char>) -> int
    decreases s.len(),
{
    if s.len() > 0 && is_sp_dot(s[0]) {
        1 + trim_start_count(s.drop_first())
    } else {
        0
    }
}

/// How many space-or-dot characters `s` ends with.
pub open spec fn trim_end_count(s: Seq<char>) -> int
    decreases s.len(),
{
    if s.len() > 0 && is_sp_dot(s.last()) {
        1 + trim_end_count(s.drop_last())
    } else {
        0
    }
}

/// `s` with leading and trailing spaces and dots removed.
pub open spec fn trim_sp_dot(s: Seq<char>) -> Seq<char> {
    let t = s.skip(trim_start_count(s));
    t.take(t.len() - trim_end_count(t))
}

/// A boundary with only spaces and dots at its left pins `trim_start_count`.
proof fn lemma_trim_start_at(s: Seq<char>, j: int)
    requires
        0 <= j <= s.len(),
        forall|k: int| 0 <= k < j ==> is_sp_dot(#[trigger] s[k]),
        j < s.len() ==> !is_sp_dot(s[j]),
    ensures
        trim_start_count(s) == j,
    decreases j,
{
    if j > 0 {
        let t = s.drop_first();
        assert(forall|k: int| 0 <= k < j - 1 ==> t[k] == s[k + 1]);
        assert(j - 1 < t.len() ==> t[j - 1] == s[j]);
        lemma_trim_start_at(t, j - 1);
    }
}

/// A boundary with only spaces and dots at its right pins `trim_end_count`.
proof fn lemma_trim_end_at(s: Seq<char>, j: int)
    requires
        0 <= j <= s.len(),
        forall|k: int| j <= k < s.len() ==> is_sp_dot(#[trigger] s[k]),
        j > 0 ==> !is_sp_dot(s[j - 1]),
    ensures
        trim_end_count(s) == s.len() - j,
    decreases s.len() - j,
{
    if j < s.len() {
        let t = s.drop_last();
        assert(forall|k: int| j <= k < t.len() ==> t[k] == s[k]);
        assert(j > 0 ==> t[j - 1] == s[j - 1]);
        lemma_trim_end_at(t, j);
    }
}

/// Removes leading and trailing spaces and dots.
pub fn trim_sp_dot_str(s: &str) -> (r: &str)
    ensures
        r@ == trim_sp_dot(s@),
{
    let n = s.unicode_len();
    let mut a: usize = 0;
    while a < n && (s.get_char(a) == ' ' || s.get_char(a) == '.')
        invariant
            a <= n,
            n == s@.len(),
            forall|k: int| 0 <= k < a ==> is_sp_dot(#[trigger] s@[k]),
        decreases n - a,
    {
        a += 1;
    }
    proof {
        lemma_trim_start_at(s@, a as int);
    }
    let mut e = n;
    while e > a && (s.get_char(e - 1) == ' ' || s.get_char(e - 1) == '.')
        invariant
            a <= e <= n,
            n == s@.len(),
            forall|k: int| e <= k < n ==> is_sp_dot(#[trigger] s@[k]),
        decreases e,
    {
        e -= 1;
    }
    let r = s.substring_char(a, e);
    proof {
        let t = s@.skip(a as int);
        assert(forall|k: int| 0 <= k < t.len() ==> t[k] == s@[k + a]);
        lemma_trim_end_at(t, e - a);
        assert(r@ =~= t.take(e - a));
    }
    r
}

/// Whether `s` begins with `p`.
pub open spec fn starts_with(s: Seq<char>, p: Seq<char>) -> bool {
    s.len() >= p.len() && s.take(p.len() as int) == p
}

/// Executable check for [`starts_with`].
pub fn str_starts_with(s: &str, p: &str) -> (r: bool)
    ensures
        r == starts_with(s@, p@),
{
    let n = s.unicode_len();
    let m = p.unicode_len();
    if n < m {
        return false;
    }
    let head = s.substring_char(0, m);
    proof {
        assert(head@ =~= s@.take(m as int));
    }
    match str_cmp(head, p) {
        Rel::Eq => true,
        _ => false,
    }
}

/// The rendered short name of a known organization repository, escaped for
/// the document, or `None` for a repository outside the table.
pub open spec fn repo_alias(k: Seq<char>) -> Option<Seq<char>> {
    if k == "rust-clippy"@ {
        Some("clippy"@)
    } else if k == "rustfmt"@ {
        Some("rustfmt"@)
    } else if k == "cargo"@ {
        Some("cargo"@)
    } else if k == "rustc_codegen_gcc"@ {
        Some("codegen\\_gcc"@)
    } else if k == "futures-rs"@ {
        Some("futures"@)
    } else if k == "rustup"@ {
        Some("rustup"@)
    } else if k == "libc"@ {
        Some("libc"@)
    } else if k == "docs.rs"@ {
        Some("docs.rs"@)
    } else if k == "hashbrown"@ {
        Some("hashbrown"@)
    } else if k == "miri"@ {
        Some("miri"@)
    } else if k == "rust-analyzer"@ {
        Some("rust-analyzer"@)
    } else if k == "rust-bindgen"@ {
        Some("bindgen"@)
    } else {
        None
    }
}

/// Compares two strings for equality of their characters.
pub fn str_eq(a: &str, b: &str) -> (r: bool)
    ensures
        r == (a@ == b@),
{
    match str_cmp(a, b) {
        Rel::Eq => true,
        _ => false,
    }
}

/// Looks one repository up in the alias table.
pub fn alias_of(k: &str) -> (r: Option<&'static str>)
    ensures
        match r {
            Some(a) => repo_alias(k@) == Some(a@),
            None => repo_alias(k@) is None,
        },
{
    if str_eq(k, "rust-clippy") {
        Some("clippy")
    } else if str_eq(k, "rustfmt") {
        Some("rustfmt")
    } else if str_eq(k, "cargo") {
        Some("cargo")
    } else if str_eq(k, "rustc_codegen_gcc") {
        Some("codegen\\_gcc")
    } else if str_eq(k, "futures-rs") {
        Some("futures")
    } else if str_eq(k, "rustup") {
        Some("rustup")
    } else if str_eq(k, "libc") {
        Some("libc")
    } else if str_eq(k, "docs.rs") {
        Some("docs.rs")
    } else if str_eq(k, "hashbrown") {
        Some("hashbrown")
    } else if str_eq(k, "miri") {
        Some("miri")
    } else if str_eq(k, "rust-analyzer") {
        Some("rust-analyzer")
    } else if str_eq(k, "rust-bindgen") {
        Some("bindgen")
    } else {
        None
    }
}

/// The rendered cache line for one merged change: `* [title](url)`, with the
/// title trimmed of stray spaces and dots at either end, and prefixed with
/// the repository's short name where the link lies in the known organization
/// and the raw title does not already start with that name.
pub open spec fn spec_render_entry_line(title: Seq<char>, url: Seq<char>, path: Seq<char>) -> Seq<
    char,
> {
    let trimmed = trim_sp_dot(title);
    let rest = path.skip(11);
    let key = rest.take(first_char_idx(rest, '/'));
    if starts_with(path, "/rust-lang/"@) && first_char_idx(rest, '/') < rest.len() && repo_alias(
        key,
    ) is Some && !starts_with(title, repo_alias(key).unwrap()) {
        "* ["@ + repo_alias(key).unwrap() + ": "@ + trimmed + "]("@ + url + ")"@
    } else {
        "* ["@ + trimmed + "]("@ + url + ")"@
    }
}

/// Renders the cache line for one merged change, from its raw title, its
/// link, and the link's path.
pub fn render_entry_line(title: &str, url: &str, path: &str) -> (r: String)
    ensures
        r@ == spec_render_entry_line(title@, url@, path@),
{
    proof {
        reveal_strlit("* [");
        reveal_strlit(": ");
        reveal_strlit("](");
        reveal_strlit(")");
        reveal_strlit("/rust-lang/");
        assert("* ["@ =~= seq!['*', ' ', '[']);
        assert(": "@ =~= seq![':', ' ']);
        assert("]("@ =~= seq![']', '(']);
        assert(")"@ =~= seq![')']);
        assert("/rust-lang/"@.len() == 11);
    }
    let trimmed = trim_sp_dot_str(title);
    let pn = path.unicode_len();
    let ghost rest = path@.skip(11);
    let mut alias_used: Option<&'static str> = None;
    if str_starts_with(path, "/rust-lang/") {
        let slash = find_char_from(path, 11, '/');
        if slash < pn {
            let key = path.substring_char(11, slash);
            proof {
                assert(key@ =~= rest.take(first_char_idx(rest, '/')));
            }
            match alias_of(key) {
                Some(a) => {
                    if !str_starts_with(title, a) {
                        alias_used = Some(a);
                    }
                },
                None => {},
            }
        }
    }
    let mut out: Vec<char> = Vec::new();
    out.push('*');
    out.push(' ');
    out.push('[');
    match alias_used {
        Some(a) => {
            push_str_chars(&mut out, a);
            out.push(':');
            out.push(' ');
        },
        None => {},
    }
    push_str_chars(&mut out, trimmed);
    out.push(']');
    out.push('(');
    push_str_chars(&mut out, url);
    out.push(')');
    proof {
        assert(out@ =~= spec_render_entry_line(title@, url@, path@));
    }
    chars_to_string(&out)
}

} // verus!
