//! The word classifier: given one whitespace-delimited token and a running
//! "inside code span" flag, decides whether the token is code, strips and
//! remembers trailing colon and backtick markers, and reports span entry and
//! exit.

use vstd::prelude::*;
use vstd::string::*;
use vstd::hash_set::StringHashSet;
use crate::text::{
    has_unescaped_char,
    contains_char,
    contains_pair,
    str_has_unescaped,
    str_contains_char,
    str_contains_pair,
};

verus! {

/// A set of exact-match words, used as a membership predicate.
pub struct WordSet {
    set: StringHashSet,
}

impl View for WordSet {
    type V = Set<Seq<char>>;

    closed spec fn view(&self) -> Set<Seq<char>> {
        self.set@
    }
}

/// The set of the views of a sequence of words.
pub open spec fn word_set_of(ws: Seq<String>) -> Set<Seq<char>> {
    Set::new(|t: Seq<char>| exists|i: int| 0 <= i < ws.len() && ws[i]@ == t)
}

impl WordSet {
    /// An empty set.
    pub fn new() -> (s: Self)
        ensures
            s@ == Set::<Seq<char>>::empty(),
    {
        WordSet { set: StringHashSet::new() }
    }

    /// Adds one word.
    pub fn insert(&mut self, w: String)
        ensures
            final(self)@ == old(self)@.insert(w@),
    {
        self.set.insert(w);
    }

    /// Whether `w` is a member.
    pub fn contains(&self, w: &str) -> (r: bool)
        ensures
            r == self@.contains(w@),
    {
        self.set.contains(w)
    }

    /// Builds the set holding exactly the given words.
    pub fn from_words(ws: &Vec<String>) -> (s: Self)
        ensures
            s@ == word_set_of(ws@),
    {
        let mut s = WordSet::new();
        let mut i: usize = 0;
        while i < ws.len()
            invariant
                i <= ws@.len(),
                s@ == word_set_of(ws@.subrange(0, i as int)),
            decreases ws@.len() - i,
        {
            s.insert(ws[i].clone());
            i += 1;
            proof {
                let prev = ws@.subrange(0, (i as int) - 1);
                let cur = ws@.subrange(0, i as int);
                assert forall|t: Seq<char>| #[trigger] word_set_of(cur).contains(t) implies s@
                    .contains(t) by {
                    let j = choose|j: int| 0 <= j < cur.len() && cur[j]@ == t;
                    if j < i - 1 {
                        assert(prev[j]@ == t);
                        assert(word_set_of(prev).contains(t));
                    }
                }
                assert forall|t: Seq<char>| s@.contains(t) implies #[trigger] word_set_of(
                    cur,
                ).contains(t) by {
                    if t == ws@[(i as int) - 1]@ {
                        assert(cur[(i as int) - 1]@ == t);
                    } else {
                        assert(word_set_of(prev).contains(t));
                        let j = choose|j: int| 0 <= j < prev.len() && prev[j]@ == t;
                        assert(cur[j]@ == t);
                    }
                }
                assert(s@ =~= word_set_of(cur));
            }
        }
        proof {
            assert(ws@.subrange(0, ws@.len() as int) =~= ws@);
        }
        s
    }
}

/// One title token during formatting: the marker-stripped text, whether it is
/// code, and whether a trailing colon was stripped.
pub struct SpecWord {
    pub text: Seq<char>,
    pub is_code: bool,
    pub colon: bool,
}

/// Drops a final `c` from `t`, reporting whether one was there.
pub open spec fn strip_suffix_char(t: Seq<char>, c: char) -> (Seq<char>, bool) {
    if t.len() > 0 && t.last() == c {
        (t.drop_last(), true)
    } else {
        (t, false)
    }
}

/// Drops a leading `c` from `t`, reporting whether one was there.
pub open spec fn strip_prefix_char(t: Seq<char>, c: char) -> (Seq<char>, bool) {
    if t.len() > 0 && t.first() == c {
        (t.drop_first(), true)
    } else {
        (t, false)
    }
}

/// What one token classifies to: the word, whether the token opens a code
/// span, and whether it closes one.
///
/// A trailing colon is stripped first, then a closing backtick, then a colon
/// that the backtick had hidden, then an opening backtick. The remaining text
/// is code if the token opens a span, the running flag is set, or the text
/// holds an unescaped underscore or `<`, a `::` path separator, a `#[`
/// attribute opener, has the shape of a call `f(...)` without itself being
/// parenthesized, or is a configured code word.
pub open spec fn classify(tok: Seq<char>, in_code: bool, words: Set<Seq<char>>) -> (
    SpecWord,
    bool,
    bool,
) {
    let (t1, colon1) = strip_suffix_char(tok, ':');
    let (t2, out_code) = strip_suffix_char(t1, '`');
    let (t3, colon2) = strip_suffix_char(t2, ':');
    let (t4, into_code) = strip_prefix_char(t3, '`');
    let is_code = into_code || in_code || has_unescaped_char(t4, '_') || has_unescaped_char(
        t4,
        '<',
    ) || contains_pair(t4, ':', ':') || contains_pair(t4, '#', '[') || (contains_char(t4, '(')
        && t4.len() > 0 && t4.last() == ')' && !(t4[0] == '(')) || words.contains(t4);
    (SpecWord { text: t4, is_code, colon: colon1 || colon2 }, into_code, out_code)
}

/// One title token, carrying a slice of the token it was made from.
pub struct Word<'t> {
    pub text: &'t str,
    pub is_code: bool,
    pub colon: bool,
}

impl<'t> View for Word<'t> {
    type V = SpecWord;

    open spec fn view(&self) -> SpecWord {
        SpecWord { text: self.text@, is_code: self.is_code, colon: self.colon }
    }
}

impl<'t> Word<'t> {
    /// Classifies one token, as [`classify`] describes; also returns whether
    /// the token opens a code span and whether it closes one.
    pub fn new(s: &'t str, in_code: bool, code_words: &WordSet) -> (r: (Word<'t>, bool, bool))
        ensures
            r.0@ == classify(s@, in_code, code_words@).0,
            r.1 == classify(s@, in_code, code_words@).1,
            r.2 == classify(s@, in_code, code_words@).2,
    {
        let mut text = s;
        let mut n = s.unicode_len();
        let mut colon = false;
        if n > 0 && text.get_char(n - 1) == ':' {
            text = text.substring_char(0, n - 1);
            n = n - 1;
            colon = true;
            assert(text@ =~= strip_suffix_char(s@, ':').0);
        }
        let ghost t1 = strip_suffix_char(s@, ':').0;
        let mut out_code = false;
        if n > 0 && text.get_char(n - 1) == '`' {
            text = text.substring_char(0, n - 1);
            n = n - 1;
            out_code = true;
            assert(text@ =~= strip_suffix_char(t1, '`').0);
        }
        let ghost t2 = strip_suffix_char(t1, '`').0;
        if n > 0 && text.get_char(n - 1) == ':' {
            text = text.substring_char(0, n - 1);
            n = n - 1;
            colon = true;
            assert(text@ =~= strip_suffix_char(t2, ':').0);
        }
        let ghost t3 = strip_suffix_char(t2, ':').0;
        let mut into_code = false;
        if n > 0 && text.get_char(0) == '`' {
            text = text.substring_char(1, n);
            n = n - 1;
            into_code = true;
            assert(text@ =~= strip_prefix_char(t3, '`').0);
        }
        let ghost t4 = strip_prefix_char(t3, '`').0;
        assert(text@ == t4);
        let is_code = into_code || in_code || str_has_unescaped(text, '_') || str_has_unescaped(
            text,
            '<',
        ) || str_contains_pair(text, ':', ':') || str_contains_pair(text, '#', '[') || (
        str_contains_char(text, '(') && n > 0 && text.get_char(n - 1) == ')' && !(text.get_char(0)
            == '(')) || code_words.contains(text);
        (Word { text, is_code, colon }, into_code, out_code)
    }
}

/// Whether `haystack` holds an occurrence of the single-character `needle`
/// that no backslash escapes. An occurrence counts unless the character just
/// before it is a backslash; a backslash suppresses only the occurrence it
/// touches.
pub fn has_unescaped(haystack: &str, needle: &str) -> (r: bool)
    requires
        needle@.len() == 1,
        needle@[0] != '\\',
    ensures
        r == has_unescaped_char(haystack@, needle@[0]),
{
    let c = needle.get_char(0);
    str_has_unescaped(haystack, c)
}

} // verus!
