//! Character-level text utilities: whitespace classification, conversions
//! between `&str` and `Vec<char>`, case folding, and substring search.

use vstd::prelude::*;
use vstd::string::*;

verus! {

/// The Unicode `White_Space` characters; token splitting goes by this set.
pub open spec fn is_space(c: char) -> bool {
    ||| c == ' '
    ||| c == '\u{9}'
    ||| c == '\u{a}'
    ||| c == '\u{b}'
    ||| c == '\u{c}'
    ||| c == '\u{d}'
    ||| c == '\u{85}'
    ||| c == '\u{a0}'
    ||| c == '\u{1680}'
    ||| ('\u{2000}' <= c && c <= '\u{200a}')
    ||| c == '\u{2028}'
    ||| c == '\u{2029}'
    ||| c == '\u{202f}'
    ||| c == '\u{205f}'
    ||| c == '\u{3000}'
}

/// Executable check for [`is_space`].
pub fn white(c: char) -> (r: bool)
    ensures
        r == is_space(c),
{
    c == ' ' || c == '\u{9}' || c == '\u{a}' || c == '\u{b}' || c == '\u{c}' || c == '\u{d}'
        || c == '\u{85}' || c == '\u{a0}' || c == '\u{1680}' || ('\u{2000}' <= c && c
        <= '\u{200a}') || c == '\u{2028}' || c == '\u{2029}' || c == '\u{202f}' || c == '\u{205f}'
        || c == '\u{3000}'
}

/// Collects the characters of a string slice into a vector.
pub fn str_to_chars(s: &str) -> (v: Vec<char>)
    ensures
        v@ == s@,
{
    let n = s.unicode_len();
    let mut v: Vec<char> = Vec::new();
    let mut i: usize = 0;
    while i < n
        invariant
            i <= n,
            n == s@.len(),
            v@ == s@.subrange(0, i as int),
        decreases n - i,
    {
        v.push(s.get_char(i));
        i += 1;
        assert(v@ =~= s@.subrange(0, i as int));
    }
    assert(v@ =~= s@);
    v
}

/// Relies on `String: FromIterator<char>`: the collected string holds exactly
/// the characters of the vector, in order.
#[verifier::external_body]
pub fn chars_to_string(v: &Vec<char>) -> (s: String)
    ensures
        s@ == v@,
{
    v.iter().collect()
}

/// Appends the characters of `s` to `out`.
pub fn push_str_chars(out: &mut Vec<char>, s: &str)
    ensures
        final(out)@ == old(out)@ + s@,
{
    let n = s.unicode_len();
    let mut i: usize = 0;
    while i < n
        invariant
            i <= n,
            n == s@.len(),
            out@ == old(out)@ + s@.subrange(0, i as int),
        decreases n - i,
    {
        out.push(s.get_char(i));
        i += 1;
        assert(out@ =~= old(out)@ + s@.subrange(0, i as int));
    }
    assert(out@ =~= old(out)@ + s@);
}

/// Appends the characters of `v` to `out`.
pub fn push_chars(out: &mut Vec<char>, v: &Vec<char>)
    ensures
        final(out)@ == old(out)@ + v@,
{
    let n = v.len();
    let mut i: usize = 0;
    while i < n
        invariant
            i <= n,
            n == v@.len(),
            out@ == old(out)@ + v@.subrange(0, i as int),
        decreases n - i,
    {
        out.push(v[i]);
        i += 1;
        assert(out@ =~= old(out)@ + v@.subrange(0, i as int));
    }
    assert(out@ =~= old(out)@ + v@);
}

/// Whether `c` counts as uppercase beyond the ASCII range; stands for what
/// `char::is_uppercase` returns there.
pub uninterp spec fn unicode_uppercase(c: char) -> bool;

/// Whether `c` counts as lowercase beyond the ASCII range; stands for what
/// `char::is_lowercase` returns there.
pub uninterp spec fn unicode_lowercase(c: char) -> bool;

/// The lowercase mapping of a character beyond the ASCII range; stands for
/// what `char::to_lowercase` yields there.
pub uninterp spec fn unicode_lower(c: char) -> Seq<char>;

/// Whether `c` is an uppercase letter: exact on ASCII, the Unicode
/// `Uppercase` property beyond it.
pub open spec fn uppercase_char(c: char) -> bool {
    if c <= '\u{7f}' {
        'A' <= c && c <= 'Z'
    } else {
        unicode_uppercase(c)
    }
}

/// Whether `c` is a lowercase letter: exact on ASCII, the Unicode
/// `Lowercase` property beyond it.
pub open spec fn lowercase_char(c: char) -> bool {
    if c <= '\u{7f}' {
        'a' <= c && c <= 'z'
    } else {
        unicode_lowercase(c)
    }
}

/// The ASCII lowercase counterpart of an ASCII uppercase letter.
pub open spec fn ascii_lower(c: char) -> char {
    ((c as u32) + 32) as char
}

/// The lowercase mapping of one character: exact on ASCII, the Unicode
/// mapping beyond it.
pub open spec fn lower_chars_of(c: char) -> Seq<char> {
    if c <= '\u{7f}' {
        if 'A' <= c && c <= 'Z' {
            seq![ascii_lower(c)]
        } else {
            seq![c]
        }
    } else {
        unicode_lower(c)
    }
}

/// Relies on `char::is_uppercase`: on ASCII it holds exactly of `'A'..='Z'`,
/// beyond ASCII it is the Unicode `Uppercase` property, named
/// [`unicode_uppercase`].
#[verifier::external_body]
pub fn char_is_uppercase(c: char) -> (r: bool)
    ensures
        r == uppercase_char(c),
        c > '\u{7f}' ==> r == unicode_uppercase(c),
{
    c.is_uppercase()
}

/// Relies on `char::is_lowercase`: on ASCII it holds exactly of `'a'..='z'`,
/// beyond ASCII it is the Unicode `Lowercase` property, named
/// [`unicode_lowercase`].
#[verifier::external_body]
pub fn char_is_lowercase(c: char) -> (r: bool)
    ensures
        r == lowercase_char(c),
        c > '\u{7f}' ==> r == unicode_lowercase(c),
{
    c.is_lowercase()
}

/// Relies on `char::to_lowercase`: it yields one or more characters; an ASCII
/// uppercase letter maps to its ASCII lowercase counterpart, any other ASCII
/// character has no lowercase mapping and yields itself; beyond ASCII the
/// mapping is named [`unicode_lower`].
#[verifier::external_body]
pub fn char_lower(c: char) -> (v: Vec<char>)
    ensures
        v@ == lower_chars_of(c),
        c > '\u{7f}' ==> v@ == unicode_lower(c) && v@.len() >= 1,
{
    c.to_lowercase().collect()
}

/// What `str::to_lowercase` returns: a function of the characters alone.
pub uninterp spec fn lower_of(s: Seq<char>) -> Seq<char>;

/// Relies on `str::to_lowercase`: the result depends on the characters alone.
#[verifier::external_body]
pub fn lower_str(s: &str) -> (r: String)
    ensures
        r@ == lower_of(s@),
{
    s.to_lowercase()
}

/// An occurrence of `c` at position `i` of `s` that no backslash escapes.
pub open spec fn unescaped_at(s: Seq<char>, c: char, i: int) -> bool {
    0 <= i < s.len() && s[i] == c && (i == 0 || s[i - 1] != '\\')
}

/// Whether `s` holds an occurrence of `c` that no backslash escapes.
pub open spec fn has_unescaped_char(s: Seq<char>, c: char) -> bool {
    exists|i: int| unescaped_at(s, c, i)
}

/// Executable scan for an unescaped occurrence of `c`.
pub fn str_has_unescaped(s: &str, c: char) -> (r: bool)
    ensures
        r == has_unescaped_char(s@, c),
{
    let n = s.unicode_len();
    let mut i: usize = 0;
    while i < n
        invariant
            i <= n,
            n == s@.len(),
            forall|j: int| 0 <= j < i ==> !unescaped_at(s@, c, j),
        decreases n - i,
    {
        if s.get_char(i) == c && (i == 0 || s.get_char(i - 1) != '\\') {
            assert(unescaped_at(s@, c, i as int));
            return true;
        }
        i += 1;
    }
    false
}

/// Whether `s` holds the character `c` anywhere.
pub open spec fn contains_char(s: Seq<char>, c: char) -> bool {
    exists|i: int| 0 <= i < s.len() && s[i] == c
}

/// Executable scan for an occurrence of `c`.
pub fn str_contains_char(s: &str, c: char) -> (r: bool)
    ensures
        r == contains_char(s@, c),
{
    let n = s.unicode_len();
    let mut i: usize = 0;
    while i < n
        invariant
            i <= n,
            n == s@.len(),
            forall|j: int| 0 <= j < i ==> s@[j] != c,
        decreases n - i,
    {
        if s.get_char(i) == c {
            return true;
        }
        i += 1;
    }
    false
}

/// Whether the two-character sequence `a b` occurs in `s`.
pub open spec fn contains_pair(s: Seq<char>, a: char, b: char) -> bool {
    exists|i: int| 0 <= i && i + 1 < s.len() && #[trigger] s[i] == a && s[i + 1] == b
}

/// Executable scan for the two-character sequence `a b`.
pub fn str_contains_pair(s: &str, a: char, b: char) -> (r: bool)
    ensures
        r == contains_pair(s@, a, b),
{
    let n = s.unicode_len();
    if n < 2 {
        return false;
    }
    let mut i: usize = 0;
    while i + 1 < n
        invariant
            i + 1 <= n,
            n == s@.len(),
            forall|j: int| 0 <= j < i ==> !(#[trigger] s@[j] == a && s@[j + 1] == b),
        decreases n - i,
    {
        if s.get_char(i) == a && s.get_char(i + 1) == b {
            return true;
        }
        i += 1;
    }
    false
}

/// Whether the sequence `sub` occurs in `s` starting at position `i`.
pub open spec fn matches_at(s: Seq<char>, sub: Seq<char>, i: int) -> bool {
    0 <= i && i + sub.len() <= s.len() && s.subrange(i, i + sub.len()) == sub
}

/// Whether the sequence `sub` occurs anywhere in `s`.
pub open spec fn contains_seq(s: Seq<char>, sub: Seq<char>) -> bool {
    exists|i: int| matches_at(s, sub, i)
}

/// Executable scan for an occurrence of `sub` in `s`.
pub fn chars_contain(s: &Vec<char>, sub: &Vec<char>) -> (r: bool)
    ensures
        r == contains_seq(s@, sub@),
{
    let n = s.len();
    let m = sub.len();
    if m > n {
        assert(forall|i: int| !matches_at(s@, sub@, i));
        return false;
    }
    if m == 0 {
        assert(s@.subrange(0, 0) =~= sub@);
        assert(matches_at(s@, sub@, 0));
        return true;
    }
    let mut i: usize = 0;
    while n - i >= m
        invariant
            1 <= m <= n,
            n == s@.len(),
            m == sub@.len(),
            i <= n,
            forall|j: int| 0 <= j < i ==> !matches_at(s@, sub@, j),
        decreases n - i,
    {
        let mut k: usize = 0;
        let mut hit = true;
        while k < m && hit
            invariant
                hit ==> s@.subrange(i as int, i + k) =~= sub@.subrange(0, k as int),
                !hit ==> s@.subrange(i as int, i + m) != sub@,
                i + m <= n,
                k <= m,
                n == s@.len(),
                m == sub@.len(),
            decreases (if hit {
                m - k + 1
            } else {
                0
            }),
        {
            if s[i + k] != sub[k] {
                assert(s@.subrange(i as int, i + m)[k as int] == s@[i + k]);
                assert(s@.subrange(i as int, i + m)[k as int] != sub@[k as int]);
                hit = false;
            } else {
                k += 1;
                assert(s@.subrange(i as int, i + k) =~= sub@.subrange(0, k as int));
            }
        }
        if hit {
            assert(s@.subrange(i as int, i + m) =~= sub@.subrange(0, m as int));
            assert(sub@.subrange(0, m as int) =~= sub@);
            assert(matches_at(s@, sub@, i as int));
            return true;
        }
        assert(!matches_at(s@, sub@, i as int));
        i += 1;
    }
    assert(forall|j: int| matches_at(s@, sub@, j) ==> 0 <= j && j + m <= n);
    false
}

/// The outcome of a three-way comparison.
pub enum Rel {
    Lt,
    Eq,
    Gt,
}

/// Strict lexicographic order on character sequences, by code point.
pub open spec fn lex_lt(a: Seq<char>, b: Seq<char>) -> bool
    decreases a.len(),
{
    if a.len() == 0 {
        b.len() > 0
    } else if b.len() == 0 {
        false
    } else if a.first() != b.first() {
        a.first() < b.first()
    } else {
        lex_lt(a.drop_first(), b.drop_first())
    }
}

/// Two sequences with equal prefixes up to their first difference compare by
/// that difference.
proof fn lemma_lex_lt_from_diff(a: Seq<char>, b: Seq<char>, i: int)
    requires
        0 <= i < a.len(),
        i < b.len(),
        a.subrange(0, i) == b.subrange(0, i),
        a[i] < b[i],
    ensures
        lex_lt(a, b),
    decreases i,
{
    if i == 0 {
    } else {
        assert(a.first() == a.subrange(0, i)[0]);
        assert(a.first() == b.first());
        assert(a.drop_first().subrange(0, i - 1) =~= a.subrange(0, i).subrange(1, i));
        assert(b.drop_first().subrange(0, i - 1) =~= b.subrange(0, i).subrange(1, i));
        lemma_lex_lt_from_diff(a.drop_first(), b.drop_first(), i - 1);
    }
}

/// A strict prefix is lexicographically smaller.
proof fn lemma_lex_lt_prefix(a: Seq<char>, b: Seq<char>)
    requires
        a.len() < b.len(),
        a == b.subrange(0, a.len() as int),
    ensures
        lex_lt(a, b),
    decreases a.len(),
{
    if a.len() > 0 {
        assert(a.first() == b.subrange(0, a.len() as int)[0]);
        assert(a.drop_first() =~= b.drop_first().subrange(0, a.len() - 1));
        lemma_lex_lt_prefix(a.drop_first(), b.drop_first());
    }
}

/// `lex_lt` is irreflexive.
pub proof fn lemma_lex_irrefl(a: Seq<char>)
    ensures
        !lex_lt(a, a),
    decreases a.len(),
{
    if a.len() > 0 {
        lemma_lex_irrefl(a.drop_first());
    }
}

/// `lex_lt` is asymmetric.
pub proof fn lemma_lex_asym(a: Seq<char>, b: Seq<char>)
    requires
        lex_lt(a, b),
    ensures
        !lex_lt(b, a),
    decreases a.len(),
{
    if a.len() > 0 && b.len() > 0 && a.first() == b.first() {
        lemma_lex_asym(a.drop_first(), b.drop_first());
    }
}

/// Three-way lexicographic comparison of two strings, by code point.
pub fn str_cmp(a: &str, b: &str) -> (r: Rel)
    ensures
        r is Lt <==> lex_lt(a@, b@),
        r is Eq <==> a@ == b@,
        r is Gt <==> lex_lt(b@, a@),
{
    let an = a.unicode_len();
    let bn = b.unicode_len();
    let mut i: usize = 0;
    while i < an && i < bn
        invariant
            i <= an,
            i <= bn,
            an == a@.len(),
            bn == b@.len(),
            forall|k: int| 0 <= k < i ==> a@[k] == b@[k],
        decreases an - i,
    {
        let ca = a.get_char(i);
        let cb = b.get_char(i);
        proof {
            assert(a@.subrange(0, i as int) =~= b@.subrange(0, i as int));
        }
        if ca < cb {
            proof {
                lemma_lex_lt_from_diff(a@, b@, i as int);
                lemma_lex_asym(a@, b@);
                assert(a@[i as int] != b@[i as int]);
            }
            return Rel::Lt;
        }
        if cb < ca {
            proof {
                lemma_lex_lt_from_diff(b@, a@, i as int);
                lemma_lex_asym(b@, a@);
                assert(a@[i as int] != b@[i as int]);
            }
            return Rel::Gt;
        }
        i += 1;
    }
    proof {
        assert(a@.subrange(0, i as int) =~= b@.subrange(0, i as int));
    }
    if an == bn {
        proof {
            assert(a@ =~= b@);
            lemma_lex_irrefl(a@);
        }
        Rel::Eq
    } else if an < bn {
        proof {
            assert(a@ =~= b@.subrange(0, an as int));
            lemma_lex_lt_prefix(a@, b@);
            lemma_lex_asym(a@, b@);
        }
        Rel::Lt
    } else {
        proof {
            assert(b@ =~= a@.subrange(0, bn as int));
            lemma_lex_lt_prefix(b@, a@);
            lemma_lex_asym(b@, a@);
        }
        Rel::Gt
    }
}

/// `lex_lt` is transitive.
pub proof fn lemma_lex_trans(a: Seq<char>, b: Seq<char>, c: Seq<char>)
    requires
        lex_lt(a, b),
        lex_lt(b, c),
    ensures
        lex_lt(a, c),
    decreases a.len(),
{
    if a.len() > 0 && b.len() > 0 && c.len() > 0 && a.first() == b.first() && b.first()
        == c.first() {
        lemma_lex_trans(a.drop_first(), b.drop_first(), c.drop_first());
    }
}

} // verus!
