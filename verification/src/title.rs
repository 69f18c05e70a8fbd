//! The title formatter: drives the word classifier across a title, merges
//! adjacent code tokens into a single backtick span, applies the one-time
//! leading-word decapitalization, and re-joins the words with single spaces.

use vstd::prelude::*;
use vstd::string::*;
use crate::text::{
    is_space,
    white,
    uppercase_char,
    lowercase_char,
    lower_chars_of,
    char_is_uppercase,
    char_is_lowercase,
    char_lower,
    push_str_chars,
    push_chars,
    chars_to_string,
};
use crate::word::{Word, WordSet, SpecWord, classify};

verus! {

/// The longest whitespace-free prefix of `s`.
pub open spec fn token_prefix(s: Seq<char>) -> Seq<char>
    decreases s.len(),
{
    if s.len() == 0 || is_space(s[0]) {
        Seq::empty()
    } else {
        seq![s[0]] + token_prefix(s.drop_first())
    }
}

/// The whitespace-delimited tokens of `s`, in order, without empties.
pub open spec fn tokenize(s: Seq<char>) -> Seq<Seq<char>>
    decreases s.len(),
    via tokenize_decreases
{
    if s.len() == 0 {
        Seq::empty()
    } else if is_space(s[0]) {
        tokenize(s.drop_first())
    } else {
        seq![token_prefix(s)] + tokenize(s.skip(token_prefix(s).len() as int))
    }
}

#[via_fn]
proof fn tokenize_decreases(s: Seq<char>) {
    if s.len() > 0 && !is_space(s[0]) {
        lemma_token_prefix_len(s);
    }
}

/// `token_prefix` is never longer than the string, and not empty where the
/// string starts with a non-space.
pub proof fn lemma_token_prefix_len(s: Seq<char>)
    ensures
        token_prefix(s).len() <= s.len(),
        s.len() > 0 && !is_space(s[0]) ==> token_prefix(s).len() >= 1,
    decreases s.len(),
{
    if s.len() > 0 && !is_space(s[0]) {
        lemma_token_prefix_len(s.drop_first());
    }
}

/// `token_prefix` reaches exactly to the first whitespace character.
pub proof fn lemma_token_prefix(s: Seq<char>, j: int)
    requires
        0 <= j <= s.len(),
        forall|k: int| 0 <= k < j ==> !is_space(s[k]),
        j == s.len() || is_space(s[j]),
    ensures
        token_prefix(s) == s.subrange(0, j),
    decreases j,
{
    if j == 0 {
        assert(token_prefix(s) =~= s.subrange(0, 0));
    } else {
        assert(!is_space(s[0]));
        lemma_token_prefix(s.drop_first(), j - 1);
        assert(s.drop_first().subrange(0, j - 1) =~= s.subrange(1, j));
        assert(seq![s[0]] + s.subrange(1, j) =~= s.subrange(0, j));
    }
}

/// Dropping leading whitespace leaves the tokens unchanged.
pub proof fn lemma_tokenize_skip_space(s: Seq<char>, i: int)
    requires
        0 <= i <= s.len(),
        forall|k: int| 0 <= k < i ==> is_space(s[k]),
    ensures
        tokenize(s) == tokenize(s.skip(i)),
    decreases i,
{
    if i > 0 {
        assert(tokenize(s) == tokenize(s.drop_first()));
        assert(s.drop_first() =~= s.skip(1));
        lemma_tokenize_skip_space(s.skip(1), i - 1);
        assert(s.skip(1).skip(i - 1) =~= s.skip(i));
    } else {
        assert(s.skip(0) =~= s);
    }
}

/// Splits a string into its whitespace-delimited tokens.
pub fn split_tokens<'a>(title: &'a str) -> (toks: Vec<&'a str>)
    ensures
        toks@.map_values(|t: &str| t@) == tokenize(title@),
{
    let n = title.unicode_len();
    let mut toks: Vec<&'a str> = Vec::new();
    let mut i: usize = 0;
    proof {
        assert(title@.skip(0) =~= title@);
        assert(toks@.map_values(|t: &str| t@) + tokenize(title@) =~= tokenize(title@));
    }
    while i < n
        invariant
            i <= n,
            n == title@.len(),
            toks@.map_values(|t: &str| t@) + tokenize(title@.skip(i as int)) == tokenize(title@),
        decreases n - i,
    {
        if white(title.get_char(i)) {
            proof {
                let rest = title@.skip(i as int);
                assert(rest[0] == title@[i as int]);
                assert(tokenize(rest) == tokenize(rest.drop_first()));
                assert(rest.drop_first() =~= title@.skip(i as int + 1));
            }
            i += 1;
        } else {
            let mut j = i + 1;
            while j < n && !white(title.get_char(j))
                invariant
                    i < j <= n,
                    n == title@.len(),
                    forall|k: int| i <= k < j ==> !is_space(title@[k]),
                decreases n - j,
            {
                j += 1;
            }
            let tok = title.substring_char(i, j);
            proof {
                let rest = title@.skip(i as int);
                assert(forall|k: int| 0 <= k < j - i ==> rest[k] == title@[k + i]);
                assert(j - i == rest.len() || is_space(rest[j - i]));
                lemma_token_prefix(rest, j - i);
                assert(rest.subrange(0, j - i) =~= title@.subrange(i as int, j as int));
                assert(token_prefix(rest) == tok@);
                assert(!is_space(rest[0]));
                assert(tokenize(rest) == seq![token_prefix(rest)] + tokenize(
                    rest.skip(tok@.len() as int),
                ));
                assert(rest.skip(tok@.len() as int) =~= title@.skip(j as int));
                assert((toks@ + seq![tok]).map_values(|t: &str| t@) =~= toks@.map_values(
                    |t: &str| t@,
                ) + seq![tok@]);
                assert((toks@.map_values(|t: &str| t@) + seq![tok@]) + tokenize(
                    title@.skip(j as int),
                ) =~= toks@.map_values(|t: &str| t@) + (seq![tok@] + tokenize(
                    title@.skip(j as int),
                )));
            }
            toks.push(tok);
            i = j;
        }
    }
    proof {
        assert(title@.skip(n as int) =~= Seq::<char>::empty());
        assert(toks@.map_values(|t: &str| t@) + Seq::<Seq<char>>::empty() =~= toks@.map_values(
            |t: &str| t@,
        ));
    }
    toks
}

/// The words of a token sequence, classified in order while threading the
/// "inside code span" flag.
pub open spec fn classify_all(toks: Seq<Seq<char>>, in_code: bool, words: Set<Seq<char>>) -> Seq<
    SpecWord,
>
    decreases toks.len(),
{
    if toks.len() == 0 {
        Seq::empty()
    } else {
        let r = classify(toks.first(), in_code, words);
        seq![r.0] + classify_all(toks.drop_first(), (in_code || r.1) && !r.2, words)
    }
}

/// `classify_all` yields one word per token.
pub proof fn lemma_classify_all_len(toks: Seq<Seq<char>>, in_code: bool, words: Set<Seq<char>>)
    ensures
        classify_all(toks, in_code, words).len() == toks.len(),
    decreases toks.len(),
{
    if toks.len() > 0 {
        let r = classify(toks.first(), in_code, words);
        lemma_classify_all_len(toks.drop_first(), (in_code || r.1) && !r.2, words);
    }
}

/// Whether the leading-word decapitalization applies: the word starts with an
/// uppercase letter and holds at least one lowercase letter.
pub open spec fn eligible(t: Seq<char>) -> bool {
    t.len() > 0 && uppercase_char(t[0]) && exists|i: int|
        0 <= i < t.len() && lowercase_char(#[trigger] t[i])
}

/// The word with its first character replaced by that character's lowercase
/// mapping.
pub open spec fn decap(t: Seq<char>) -> Seq<char> {
    lower_chars_of(t[0]) + t.drop_first()
}

/// Whether the word at `i` opens a backtick span.
pub open spec fn opens_run(ws: Seq<SpecWord>, i: int) -> bool {
    ws[i].is_code && (i == 0 || !ws[i - 1].is_code)
}

/// Whether the word at `i` closes a backtick span.
pub open spec fn closes_run(ws: Seq<SpecWord>, i: int) -> bool {
    ws[i].is_code && (i == ws.len() - 1 || !ws[i + 1].is_code)
}

/// What the word at `i` emits: an opening backtick where a span starts, the
/// text (decapitalized for the first eligible word), a closing backtick where
/// the span ends, the remembered colon, and a separating space.
pub open spec fn word_out(ws: Seq<SpecWord>, i: int, first: bool) -> Seq<char> {
    let w = ws[i];
    let body = if opens_run(ws, i) {
        seq!['`'] + w.text
    } else if first && eligible(w.text) {
        decap(w.text)
    } else {
        w.text
    };
    let closed = if closes_run(ws, i) {
        body + seq!['`']
    } else {
        body
    };
    let coloned = if w.colon {
        closed + seq![':']
    } else {
        closed
    };
    if i + 1 < ws.len() {
        coloned + seq![' ']
    } else {
        coloned
    }
}

/// How the first-word marker advances: a span start consumes it for good,
/// otherwise it survives exactly the words that end in a colon.
pub open spec fn next_first(ws: Seq<SpecWord>, i: int, first: bool) -> bool {
    if opens_run(ws, i) {
        false
    } else {
        first && ws[i].colon
    }
}

/// The rendering of the words from position `i` on.
pub open spec fn render_from(ws: Seq<SpecWord>, i: int, first: bool) -> Seq<char>
    decreases ws.len() - i,
{
    if i < 0 || i >= ws.len() {
        Seq::empty()
    } else {
        word_out(ws, i, first) + render_from(ws, i + 1, next_first(ws, i, first))
    }
}

/// The rendering of a whole word sequence.
pub open spec fn render_words(ws: Seq<SpecWord>) -> Seq<char> {
    render_from(ws, 0, true)
}

/// What `format_title` returns: the title's tokens classified in order and
/// re-rendered with merged backtick spans and the one-time leading-word
/// decapitalization.
pub open spec fn spec_format_title(title: Seq<char>, words: Set<Seq<char>>) -> Seq<char> {
    render_words(classify_all(tokenize(title), false, words))
}

/// Executable check for [`eligible`].
fn eligible_word(t: &str) -> (r: bool)
    ensures
        r == eligible(t@),
{
    let n = t.unicode_len();
    if n == 0 {
        return false;
    }
    let up = char_is_uppercase(t.get_char(0));
    if !up {
        return false;
    }
    assert(uppercase_char(t@[0]));
    let mut i: usize = 0;
    while i < n
        invariant
            i <= n,
            n == t@.len(),
            n > 0,
            uppercase_char(t@[0]),
            forall|k: int| 0 <= k < i ==> !lowercase_char(#[trigger] t@[k]),
        decreases n - i,
    {
        if char_is_lowercase(t.get_char(i)) {
            proof {
                assert(lowercase_char(t@[i as int]));
                assert(exists|k: int| 0 <= k < t@.len() && lowercase_char(#[trigger] t@[k]));
            }
            return true;
        }
        i += 1;
    }
    false
}

/// Formats a raw title: splits it on whitespace, classifies every token,
/// wraps runs of code words in one backtick span each, lowercases the first
/// letter of an uppercase-initial mixed-case leading word, re-attaches
/// stripped colons, and joins the words with single spaces.
#[verifier::rlimit(80)]
pub fn format_title(code_words: &WordSet, title: &str) -> (r: String)
    ensures
        r@ == spec_format_title(title@, code_words@),
{
    let toks = split_tokens(title);
    let ghost tv = toks@.map_values(|t: &str| t@);
    let ghost all = classify_all(tv, false, code_words@);
    proof {
        lemma_classify_all_len(tv, false, code_words@);
    }
    let mut words: Vec<Word> = Vec::new();
    let mut in_code = false;
    let mut w: usize = 0;
    proof {
        assert(tv.skip(0) =~= tv);
        assert(all.skip(0) =~= all);
    }
    while w < toks.len()
        invariant
            w <= toks@.len(),
            words@.len() == w,
            tv == toks@.map_values(|t: &str| t@),
            all == classify_all(tv, false, code_words@),
            all.len() == tv.len(),
            tv.len() == toks@.len(),
            forall|k: int| 0 <= k < w ==> words@[k]@ == all[k],
            classify_all(tv.skip(w as int), in_code, code_words@) == all.skip(w as int),
        decreases toks@.len() - w,
    {
        let (word, into_code, out_code) = Word::new(toks[w], in_code, code_words);
        proof {
            let rest = tv.skip(w as int);
            assert(rest.len() > 0);
            assert(rest.first() == tv[w as int]);
            assert(tv[w as int] == toks@[w as int]@);
            let r = classify(rest.first(), in_code, code_words@);
            assert(classify_all(rest, in_code, code_words@) == seq![r.0] + classify_all(
                rest.drop_first(),
                (in_code || r.1) && !r.2,
                code_words@,
            ));
            assert(all.skip(w as int)[0] == all[w as int]);
            assert(word@ == all[w as int]);
            assert(rest.drop_first() =~= tv.skip(w as int + 1));
            assert(all.skip(w as int).drop_first() =~= all.skip(w as int + 1));
        }
        in_code = (in_code || into_code) && !out_code;
        words.push(word);
        w += 1;
    }
    let n = words.len();
    proof {
        assert(n == all.len());
    }
    let mut out: Vec<char> = Vec::new();
    let mut first = true;
    let mut w: usize = 0;
    while w < n
        invariant
            w <= n,
            n == all.len(),
            n == words@.len(),
            forall|k: int| 0 <= k < n ==> words@[k]@ == all[k],
            out@ + render_from(all, w as int, first) == render_words(all),
        decreases n - w,
    {
        let ghost out0 = out@;
        let ghost first0 = first;
        let opens = words[w].is_code && (w == 0 || !words[w - 1].is_code);
        let closes = words[w].is_code && (w == n - 1 || !words[w + 1].is_code);
        proof {
            assert(words@[w as int]@ == all[w as int]);
            assert(opens == opens_run(all, w as int));
            assert(closes == closes_run(all, w as int));
        }
        let new_first = if opens {
            false
        } else {
            first && words[w].colon
        };
        if opens {
            out.push('`');
            push_str_chars(&mut out, words[w].text);
        } else if first && eligible_word(words[w].text) {
            let t = words[w].text;
            let c = t.get_char(0);
            let low = char_lower(c);
            push_chars(&mut out, &low);
            let rest = t.substring_char(1, t.unicode_len());
            push_str_chars(&mut out, rest);
            proof {
                assert(rest@ =~= t@.drop_first());
                assert(out@ =~= out0 + decap(all[w as int].text));
            }
        } else {
            push_str_chars(&mut out, words[w].text);
        }
        if closes {
            out.push('`');
        }
        if words[w].colon {
            out.push(':');
        }
        if w < n - 1 {
            out.push(' ');
        }
        proof {
            assert(out@ =~= out0 + word_out(all, w as int, first0));
            assert(render_from(all, w as int, first0) == word_out(all, w as int, first0)
                + render_from(all, w as int + 1, next_first(all, w as int, first0)));
            assert(new_first == next_first(all, w as int, first0));
            assert((out0 + word_out(all, w as int, first0)) + render_from(
                all,
                w as int + 1,
                new_first,
            ) =~= out0 + (word_out(all, w as int, first0) + render_from(
                all,
                w as int + 1,
                new_first,
            )));
        }
        first = new_first;
        w += 1;
    }
    proof {
        assert(out@ =~= render_words(all));
    }
    chars_to_string(&out)
}

/// How many times `c` occurs in `s`.
pub open spec fn count_char_in(s: Seq<char>, c: char) -> int
    decreases s.len(),
{
    if s.len() == 0 {
        0int
    } else {
        count_char_in(s.drop_last(), c) + (if s.last() == c {
            1int
        } else {
            0int
        })
    }
}

/// Counting distributes over concatenation.
proof fn lemma_count_concat(a: Seq<char>, b: Seq<char>, c: char)
    ensures
        count_char_in(a + b, c) == count_char_in(a, c) + count_char_in(b, c),
    decreases b.len(),
{
    if b.len() == 0 {
        assert(a + b =~= a);
    } else {
        assert((a + b).drop_last() =~= a + b.drop_last());
        assert((a + b).last() == b.last());
        lemma_count_concat(a, b.drop_last(), c);
    }
}

/// A sequence without `c` counts zero of it.
proof fn lemma_count_none(s: Seq<char>, c: char)
    requires
        !crate::text::contains_char(s, c),
    ensures
        count_char_in(s, c) == 0,
    decreases s.len(),
{
    if s.len() > 0 {
        assert(forall|k: int| 0 <= k < s.len() - 1 ==> s.drop_last()[k] == s[k]);
        assert(!crate::text::contains_char(s.drop_last(), c));
        lemma_count_none(s.drop_last(), c);
        assert(s.last() != c);
    }
}

/// Classified words whose text holds no stray backtick and begins, where
/// nonempty, within the ASCII range.
pub open spec fn tick_free(ws: Seq<SpecWord>) -> bool {
    forall|i: int|
        0 <= i < ws.len() ==> !crate::text::contains_char((#[trigger] ws[i]).text, '`') && (
        ws[i].text.len() > 0 ==> ws[i].text[0] <= '\u{7f}')
}

/// The rendering from position `i` on carries an odd backtick count exactly
/// where it stands inside an already-opened code span.
proof fn lemma_render_parity(ws: Seq<SpecWord>, i: int, first: bool)
    requires
        tick_free(ws),
        0 <= i <= ws.len(),
    ensures
        count_char_in(render_from(ws, i, first), '`') % 2 == (if i > 0 && i < ws.len() && ws[i
            - 1].is_code && ws[i].is_code {
            1int
        } else {
            0int
        }),
    decreases ws.len() - i,
{
    if i == ws.len() {
    } else {
        let w = ws[i];
        let nf = next_first(ws, i, first);
        lemma_render_parity(ws, i + 1, nf);
        let body = if opens_run(ws, i) {
            seq!['`'] + w.text
        } else if first && eligible(w.text) {
            decap(w.text)
        } else {
            w.text
        };
        let closed = if closes_run(ws, i) {
            body + seq!['`']
        } else {
            body
        };
        let coloned = if w.colon {
            closed + seq![':']
        } else {
            closed
        };
        assert(count_char_in(Seq::<char>::empty(), '`') == 0);
        assert(count_char_in(seq!['`'], '`') == 1) by {
            assert(seq!['`'].drop_last() =~= Seq::<char>::empty());
        }
        assert(count_char_in(seq![':'], '`') == 0) by {
            assert(seq![':'].drop_last() =~= Seq::<char>::empty());
        }
        assert(count_char_in(seq![' '], '`') == 0) by {
            assert(seq![' '].drop_last() =~= Seq::<char>::empty());
        }
        lemma_count_none(w.text, '`');
        if opens_run(ws, i) {
            lemma_count_concat(seq!['`'], w.text, '`');
            assert(count_char_in(body, '`') == 1);
        } else if first && eligible(w.text) {
            let c = w.text[0];
            assert(c <= '\u{7f}');
            assert(uppercase_char(c));
            assert('A' <= c && c <= 'Z');
            let low = lower_chars_of(c);
            assert(low =~= seq![crate::text::ascii_lower(c)]);
            let lc = crate::text::ascii_lower(c);
            assert(('a' as u32) <= (lc as u32) <= ('z' as u32));
            assert(lc != '`');
            assert(count_char_in(low, '`') == 0) by {
                assert(low.drop_last() =~= Seq::<char>::empty());
            }
            assert(forall|k: int|
                0 <= k < w.text.drop_first().len() ==> w.text.drop_first()[k] == w.text[k + 1]);
            assert(!crate::text::contains_char(w.text.drop_first(), '`'));
            lemma_count_none(w.text.drop_first(), '`');
            lemma_count_concat(low, w.text.drop_first(), '`');
            assert(count_char_in(body, '`') == 0);
        } else {
            assert(count_char_in(body, '`') == 0);
        }
        if closes_run(ws, i) {
            lemma_count_concat(body, seq!['`'], '`');
        }
        if w.colon {
            lemma_count_concat(closed, seq![':'], '`');
        }
        assert(count_char_in(coloned, '`') == count_char_in(body, '`') + (if closes_run(ws, i) {
            1int
        } else {
            0int
        }));
        if i + 1 < ws.len() {
            lemma_count_concat(coloned, seq![' '], '`');
        }
        assert(count_char_in(word_out(ws, i, first), '`') == (if opens_run(ws, i) {
            1int
        } else {
            0int
        }) + (if closes_run(ws, i) {
            1int
        } else {
            0int
        }));
        lemma_count_concat(word_out(ws, i, first), render_from(ws, i + 1, nf), '`');
        assert(render_from(ws, i, first) == word_out(ws, i, first) + render_from(ws, i + 1, nf));
    }
}

/// Code-span balance: a formatted title holds an even number of backtick
/// characters, provided its classified words carry no backtick inside their
/// stripped text and each begins, where nonempty, within the ASCII range.
/// The backticks of such an output are exactly the span markers the
/// formatter itself emits, one opening and one closing per code run.
pub proof fn lemma_format_title_balanced(title: Seq<char>, words: Set<Seq<char>>)
    requires
        tick_free(classify_all(tokenize(title), false, words)),
    ensures
        count_char_in(spec_format_title(title, words), '`') % 2 == 0,
{
    lemma_render_parity(classify_all(tokenize(title), false, words), 0, true);
}

} // verus!
