//! Idempotence of the title formatter: running it on its own output leaves
//! the text unchanged. Code spans already bounded by backticks classify the
//! same way again, and the decapitalization rule no longer fires on a word
//! it has already lowercased.

use vstd::prelude::*;
use crate::text::{
    is_space,
    contains_char,
    contains_pair,
    has_unescaped_char,
    unescaped_at,
    uppercase_char,
    lowercase_char,
    lower_chars_of,
    ascii_lower,
};
use crate::word::{SpecWord, classify, strip_suffix_char, strip_prefix_char};
use crate::title::{
    tokenize,
    token_prefix,
    lemma_token_prefix,
    lemma_tokenize_skip_space,
    classify_all,
    eligible,
    decap,
    opens_run,
    closes_run,
    word_out,
    next_first,
    render_from,
    render_words,
    spec_format_title,
};

verus! {

/// A text without whitespace characters.
pub open spec fn space_free(t: Seq<char>) -> bool {
    forall|k: int| 0 <= k < t.len() ==> !is_space(#[trigger] t[k])
}

/// Whether the reparse of a rendering stands inside a backtick span just
/// before the word at `i`: the span opened at an earlier word and has not
/// closed, which is exactly when `i` continues a code run.
pub open spec fn span_open(ws: Seq<SpecWord>, i: int) -> bool {
    0 < i < ws.len() && ws[i - 1].is_code && ws[i].is_code
}

/// The text the word at `i` emits: its own text, decapitalized for the
/// first eligible word outside a span start.
pub open spec fn emitted_text(ws: Seq<SpecWord>, i: int, first: bool) -> Seq<char> {
    if opens_run(ws, i) {
        ws[i].text
    } else if first && eligible(ws[i].text) {
        decap(ws[i].text)
    } else {
        ws[i].text
    }
}

/// The word the reparse of a rendering recovers at `i`.
pub open spec fn emitted_word(ws: Seq<SpecWord>, i: int, first: bool) -> SpecWord {
    SpecWord { text: emitted_text(ws, i, first), is_code: ws[i].is_code, colon: ws[i].colon }
}

/// The words the reparse recovers from position `i` on.
pub open spec fn emitted_words(ws: Seq<SpecWord>, i: int, first: bool) -> Seq<SpecWord>
    decreases ws.len() - i,
{
    if i < 0 || i >= ws.len() {
        Seq::empty()
    } else {
        seq![emitted_word(ws, i, first)] + emitted_words(ws, i + 1, next_first(ws, i, first))
    }
}

/// The rendered token of the word at `i`: its output without the word
/// separator.
pub open spec fn word_tok(ws: Seq<SpecWord>, i: int, first: bool) -> Seq<char> {
    let w = ws[i];
    let body = if opens_run(ws, i) {
        seq!['`'] + w.text
    } else if first && eligible(w.text) {
        decap(w.text)
    } else {
        w.text
    };
    let closed = if closes_run(ws, i) {
        body + seq!['`']
    } else {
        body
    };
    if w.colon {
        closed + seq![':']
    } else {
        closed
    }
}

/// The first-word marker as it stands before the word at `j`.
pub open spec fn first_at(ws: Seq<SpecWord>, j: int) -> bool
    decreases j,
{
    if j <= 0 {
        true
    } else {
        next_first(ws, j - 1, first_at(ws, j - 1))
    }
}

/// A word whose rendering survives a reparse unchanged: nonempty
/// marker-stripped text without backticks or whitespace, not ending in a
/// colon, capitalized only within ASCII, and whose decapitalized form is
/// not itself a configured code word.
pub open spec fn stable_word(w: SpecWord, words: Set<Seq<char>>) -> bool {
    &&& w.text.len() > 0
    &&& space_free(w.text)
    &&& !contains_char(w.text, '`')
    &&& w.text.last() != ':'
    &&& (uppercase_char(w.text[0]) ==> 'A' <= w.text[0] && w.text[0] <= 'Z')
    &&& (!w.is_code && eligible(w.text) ==> !words.contains(decap(w.text)))
}

/// All words of a classified title are stable.
pub open spec fn stable_words(ws: Seq<SpecWord>, words: Set<Seq<char>>) -> bool {
    forall|j: int| 0 <= j < ws.len() ==> stable_word(#[trigger] ws[j], words)
}

/// A word the classifier left outside code carries none of the code
/// triggers.
pub open spec fn untriggered_word(w: SpecWord, words: Set<Seq<char>>) -> bool {
    !w.is_code ==> {
        &&& !has_unescaped_char(w.text, '_')
        &&& !has_unescaped_char(w.text, '<')
        &&& !contains_pair(w.text, ':', ':')
        &&& !contains_pair(w.text, '#', '[')
        &&& !(contains_char(w.text, '(') && w.text.len() > 0 && w.text.last() == ')' && !(w.text[0]
            == '('))
        &&& !words.contains(w.text)
    }
}

/// All words of a classified sequence are untriggered.
pub open spec fn untriggered(ws: Seq<SpecWord>, words: Set<Seq<char>>) -> bool {
    forall|j: int| 0 <= j < ws.len() ==> untriggered_word(#[trigger] ws[j], words)
}

/// Classification never leaves a trigger on a word it kept outside code.
pub proof fn lemma_classify_all_untriggered(
    toks: Seq<Seq<char>>,
    in_code: bool,
    words: Set<Seq<char>>,
)
    ensures
        untriggered(classify_all(toks, in_code, words), words),
    decreases toks.len(),
{
    if toks.len() > 0 {
        let r = classify(toks.first(), in_code, words);
        lemma_classify_all_untriggered(toks.drop_first(), (in_code || r.1) && !r.2, words);
        let ws = classify_all(toks, in_code, words);
        let rest = classify_all(toks.drop_first(), (in_code || r.1) && !r.2, words);
        assert(ws == seq![r.0] + rest);
        assert(untriggered_word(r.0, words));
        assert forall|j: int| 0 <= j < ws.len() implies untriggered_word(#[trigger] ws[j], words) by {
            if j > 0 {
                assert(ws[j] == rest[j - 1]);
            }
        }
    }
}

/// An eligible stable word has at least two characters: an ASCII capital
/// cannot itself be the required lowercase letter.
proof fn lemma_eligible_len(w: SpecWord, words: Set<Seq<char>>)
    requires
        stable_word(w, words),
        eligible(w.text),
    ensures
        w.text.len() >= 2,
        decap(w.text).len() == w.text.len(),
        decap(w.text)[0] == ascii_lower(w.text[0]),
        'a' <= decap(w.text)[0] && decap(w.text)[0] <= 'z',
        forall|k: int| 1 <= k < w.text.len() ==> #[trigger] decap(w.text)[k] == w.text[k],
        decap(w.text).last() == w.text.last(),
        !eligible(decap(w.text)),
{
    let c = w.text[0];
    assert('A' <= c && c <= 'Z');
    if w.text.len() == 1 {
        let k = choose|k: int| 0 <= k < w.text.len() && lowercase_char(w.text[k]);
        assert(k == 0);
        assert(!lowercase_char(c));
        assert(false);
    }
    assert(lower_chars_of(c) =~= seq![ascii_lower(c)]);
    let lc = ascii_lower(c);
    assert(('a' as u32) <= (lc as u32) && (lc as u32) <= ('z' as u32));
    assert('a' <= lc && lc <= 'z');
    assert(decap(w.text) =~= seq![lc] + w.text.drop_first());
    assert(forall|k: int| 1 <= k < w.text.len() ==> #[trigger] decap(w.text)[k] == w.text[k]);
    assert(!uppercase_char(lc));
}

/// The emitted text of a stable word keeps its key properties: nonempty,
/// whitespace- and backtick-free, not ending in a colon, and, for a word
/// outside code, free of every trigger.
proof fn lemma_emitted_text_props(ws: Seq<SpecWord>, i: int, first: bool, words: Set<Seq<char>>)
    requires
        stable_words(ws, words),
        untriggered(ws, words),
        0 <= i < ws.len(),
    ensures
        ({
            let e = emitted_text(ws, i, first);
            &&& e.len() > 0
            &&& space_free(e)
            &&& !contains_char(e, '`')
            &&& e.last() != ':'
            &&& e[0] != '`'
            &&& (!ws[i].is_code ==> !has_unescaped_char(e, '_') && !has_unescaped_char(e, '<')
                && !contains_pair(e, ':', ':') && !contains_pair(e, '#', '[') && !(contains_char(
                e,
                '(',
            ) && e.len() > 0 && e.last() == ')' && !(e[0] == '(')) && !words.contains(e))
        }),
{
    let w = ws[i];
    let t = w.text;
    let e = emitted_text(ws, i, first);
    assert(stable_word(w, words));
    assert(untriggered_word(w, words));
    assert(t[0] != '`');
    if !opens_run(ws, i) && first && eligible(t) {
        lemma_eligible_len(w, words);
        let lc = decap(t)[0];
        assert(e == decap(t));
        assert(e.len() == t.len());
        assert(!is_space(lc));
        assert(lc != '`');
        assert(lc != ':');
        assert(lc != '_');
        assert(lc != '<');
        assert(lc != '#');
        assert(lc != '(');
        assert(lc != ')');
        assert(lc != '\\');
        assert(t[0] != '\\');
        assert(space_free(e)) by {
            assert(forall|k: int| 1 <= k < e.len() ==> e[k] == t[k]);
        }
        assert(!contains_char(e, '`')) by {
            if contains_char(e, '`') {
                let k = choose|k: int| 0 <= k < e.len() && e[k] == '`';
                assert(k >= 1);
                assert(t[k] == '`');
                assert(contains_char(t, '`'));
            }
        }
        assert(e.last() == t.last());
        if !w.is_code {
            assert(!has_unescaped_char(e, '_')) by {
                if has_unescaped_char(e, '_') {
                    let k = choose|k: int| unescaped_at(e, '_', k);
                    assert(k >= 1);
                    assert(e[k] == t[k]);
                    if k >= 2 {
                        assert(e[k - 1] == t[k - 1]);
                    }
                    assert(unescaped_at(t, '_', k));
                }
            }
            assert(!has_unescaped_char(e, '<')) by {
                if has_unescaped_char(e, '<') {
                    let k = choose|k: int| unescaped_at(e, '<', k);
                    assert(k >= 1);
                    assert(e[k] == t[k]);
                    if k >= 2 {
                        assert(e[k - 1] == t[k - 1]);
                    }
                    assert(unescaped_at(t, '<', k));
                }
            }
            assert(!contains_pair(e, ':', ':')) by {
                if contains_pair(e, ':', ':') {
                    let k = choose|k: int|
                        0 <= k && k + 1 < e.len() && #[trigger] e[k] == ':' && e[k + 1] == ':';
                    assert(k >= 1);
                    assert(e[k] == t[k] && e[k + 1] == t[k + 1]);
                    assert(contains_pair(t, ':', ':'));
                }
            }
            assert(!contains_pair(e, '#', '[')) by {
                if contains_pair(e, '#', '[') {
                    let k = choose|k: int|
                        0 <= k && k + 1 < e.len() && #[trigger] e[k] == '#' && e[k + 1] == '[';
                    assert(k >= 1);
                    assert(e[k] == t[k] && e[k + 1] == t[k + 1]);
                    assert(contains_pair(t, '#', '['));
                }
            }
            assert(!contains_char(e, '(') || !(e.last() == ')')) by {
                if contains_char(e, '(') {
                    let k = choose|k: int| 0 <= k < e.len() && e[k] == '(';
                    assert(k >= 1);
                    assert(t[k] == '(');
                    assert(contains_char(t, '('));
                    assert(t.last() != ')' || t[0] == '(');
                    assert(t[0] != '(');
                }
            }
            assert(!words.contains(e));
        }
    } else {
        assert(e == t);
    }
}

/// What classifying one rendered token recovers: the emitted word, with the
/// span markers reporting exactly the run boundaries.
proof fn lemma_classify_token(ws: Seq<SpecWord>, i: int, first: bool, words: Set<Seq<char>>)
    requires
        stable_words(ws, words),
        untriggered(ws, words),
        0 <= i < ws.len(),
    ensures
        classify(word_tok(ws, i, first), span_open(ws, i), words).0 == emitted_word(
            ws,
            i,
            first,
        ),
        classify(word_tok(ws, i, first), span_open(ws, i), words).1 == opens_run(ws, i),
        classify(word_tok(ws, i, first), span_open(ws, i), words).2 == closes_run(ws, i),
{
    let w = ws[i];
    let e = emitted_text(ws, i, first);
    lemma_emitted_text_props(ws, i, first, words);
    let body = if opens_run(ws, i) {
        seq!['`'] + e
    } else {
        e
    };
    let closed = if closes_run(ws, i) {
        body + seq!['`']
    } else {
        body
    };
    let tok = word_tok(ws, i, first);
    assert(tok == if w.colon {
        closed + seq![':']
    } else {
        closed
    });
    assert(body.last() == e.last());
    assert(body.len() > 0);
    // first strip: the remembered colon
    let s1 = strip_suffix_char(tok, ':');
    if w.colon {
        assert(tok.last() == ':');
        assert(tok.drop_last() =~= closed);
        assert(s1 == (closed, true));
    } else {
        assert(tok == closed);
        assert(closed.last() != ':');
        assert(s1 == (closed, false));
    }
    // second strip: the closing backtick
    let s2 = strip_suffix_char(closed, '`');
    if closes_run(ws, i) {
        assert(closed.last() == '`');
        assert(closed.drop_last() =~= body);
        assert(s2 == (body, true));
    } else {
        assert(closed == body);
        assert(body.last() != '`');
        assert(s2 == (body, false));
    }
    // third strip: a colon the backtick had hidden; the text never ends in one
    let s3 = strip_suffix_char(body, ':');
    assert(body.last() != ':');
    assert(s3 == (body, false));
    // fourth strip: the opening backtick
    let s4 = strip_prefix_char(body, '`');
    if opens_run(ws, i) {
        assert(body[0] == '`');
        assert(body.drop_first() =~= e);
        assert(s4 == (e, true));
    } else {
        assert(body == e);
        assert(e[0] != '`');
        assert(s4 == (e, false));
    }
    // the recovered code flag
    if w.is_code {
        if opens_run(ws, i) {
        } else {
            assert(i > 0 && ws[i - 1].is_code);
            assert(span_open(ws, i));
        }
    } else {
        assert(!opens_run(ws, i));
        assert(!span_open(ws, i));
        assert(!closes_run(ws, i));
    }
    assert(classify(tok, span_open(ws, i), words).0 =~= emitted_word(ws, i, first)) by {
        assert(classify(tok, span_open(ws, i), words).0.text == e);
        assert(classify(tok, span_open(ws, i), words).0.colon == w.colon);
        assert(classify(tok, span_open(ws, i), words).0.is_code == w.is_code);
    }
}

/// Tokenizing a rendering from `i` on and classifying it under the span
/// state there recovers exactly the emitted words.
#[verifier::rlimit(100)]
#[verifier::spinoff_prover]
proof fn lemma_reparse_from(ws: Seq<SpecWord>, i: int, first: bool, words: Set<Seq<char>>)
    requires
        stable_words(ws, words),
        untriggered(ws, words),
        0 <= i <= ws.len(),
    ensures
        classify_all(tokenize(render_from(ws, i, first)), span_open(ws, i), words)
            == emitted_words(ws, i, first),
    decreases ws.len() - i,
{
    if i == ws.len() {
        assert(render_from(ws, i, first) == Seq::<char>::empty());
        assert(tokenize(Seq::<char>::empty()) == Seq::<Seq<char>>::empty());
        assert(classify_all(Seq::<Seq<char>>::empty(), span_open(ws, i), words) == Seq::<
            SpecWord,
        >::empty());
        assert(emitted_words(ws, i, first) == Seq::<SpecWord>::empty());
    } else {
        let nf = next_first(ws, i, first);
        lemma_reparse_from(ws, i + 1, nf, words);
        lemma_classify_token(ws, i, first, words);
        lemma_emitted_text_props(ws, i, first, words);
        let tok = word_tok(ws, i, first);
        let e = emitted_text(ws, i, first);
        assert(tok.len() > 0);
        assert(space_free(tok)) by {
            assert(!is_space('`') && !is_space(':'));
            assert(forall|k: int| 0 <= k < e.len() ==> !is_space(#[trigger] e[k]));
            assert(forall|k: int| 0 <= k < tok.len() ==> !is_space(#[trigger] tok[k])) by {
                let body = if opens_run(ws, i) {
                    seq!['`'] + e
                } else {
                    e
                };
                let closed = if closes_run(ws, i) {
                    body + seq!['`']
                } else {
                    body
                };
                assert(forall|k: int| 0 <= k < body.len() ==> !is_space(#[trigger] body[k]));
                assert(forall|k: int| 0 <= k < closed.len() ==> !is_space(#[trigger] closed[k]));
            }
        }
        let s = render_from(ws, i, first);
        let so = span_open(ws, i);
        let r = classify(tok, so, words);
        let next_in = (so || r.1) && !r.2;
        assert(next_in == span_open(ws, i + 1)) by {
            if ws[i].is_code {
                assert(r.1 == opens_run(ws, i));
                assert(r.2 == closes_run(ws, i));
                assert(so || opens_run(ws, i));
            }
        }
        if i + 1 < ws.len() {
            let rest = render_from(ws, i + 1, nf);
            assert(word_out(ws, i, first) =~= tok + seq![' ']);
            assert(s == word_out(ws, i, first) + rest);
            assert(s =~= tok + (seq![' '] + rest));
            assert(forall|k: int| 0 <= k < tok.len() ==> s[k] == tok[k]);
            assert(s[tok.len() as int] == ' ');
            lemma_token_prefix(s, tok.len() as int);
            assert(token_prefix(s) =~= tok);
            assert(!is_space(s[0]));
            assert(tokenize(s) == seq![token_prefix(s)] + tokenize(
                s.skip(token_prefix(s).len() as int),
            ));
            let tail = s.skip(tok.len() as int);
            assert(tail =~= seq![' '] + rest);
            assert(tail.len() > 0 && is_space(tail[0]));
            lemma_tokenize_skip_space(tail, 1);
            assert(tail.skip(1) =~= rest);
            assert(tokenize(s) == seq![tok] + tokenize(rest));
            let toks = seq![tok] + tokenize(rest);
            assert(toks.first() == tok);
            assert(toks.drop_first() =~= tokenize(rest));
            assert(classify_all(toks, so, words) == seq![r.0] + classify_all(
                tokenize(rest),
                next_in,
                words,
            ));
            assert(emitted_words(ws, i, first) == seq![emitted_word(ws, i, first)]
                + emitted_words(ws, i + 1, nf));
        } else {
            assert(s == word_out(ws, i, first));
            assert(s == tok);
            assert(!is_space(s[0]));
            lemma_token_prefix(s, s.len() as int);
            assert(token_prefix(s) =~= tok);
            assert(tokenize(s) == seq![token_prefix(s)] + tokenize(
                s.skip(token_prefix(s).len() as int),
            ));
            assert(s.skip(tok.len() as int) =~= Seq::<char>::empty());
            assert(tokenize(Seq::<char>::empty()) == Seq::<Seq<char>>::empty());
            let toks = seq![tok] + Seq::<Seq<char>>::empty();
            assert(toks =~= seq![tok]);
            assert(toks.first() == tok);
            assert(toks.drop_first() =~= Seq::<Seq<char>>::empty());
            assert(classify_all(toks, so, words) == seq![r.0] + classify_all(
                Seq::<Seq<char>>::empty(),
                next_in,
                words,
            ));
            assert(emitted_words(ws, i + 1, nf) == Seq::<SpecWord>::empty());
            assert(emitted_words(ws, i, first) == seq![emitted_word(ws, i, first)]
                + emitted_words(ws, i + 1, nf));
        }
    }
}

/// The reparse recovers one word per word.
proof fn lemma_emitted_words_len(ws: Seq<SpecWord>, i: int, first: bool)
    requires
        0 <= i <= ws.len(),
    ensures
        emitted_words(ws, i, first).len() == ws.len() - i,
    decreases ws.len() - i,
{
    if i < ws.len() {
        lemma_emitted_words_len(ws, i + 1, next_first(ws, i, first));
    }
}

/// The reparsed word at `j` carries the first-word marker as it stood at
/// `j`.
proof fn lemma_emitted_index(ws: Seq<SpecWord>, i: int, j: int)
    requires
        0 <= i <= j < ws.len(),
    ensures
        emitted_words(ws, i, first_at(ws, i))[j - i] == emitted_word(ws, j, first_at(ws, j)),
    decreases j - i,
{
    lemma_emitted_words_len(ws, i, first_at(ws, i));
    if i == j {
    } else {
        assert(next_first(ws, i, first_at(ws, i)) == first_at(ws, i + 1));
        lemma_emitted_index(ws, i + 1, j);
        lemma_emitted_words_len(ws, i + 1, first_at(ws, i + 1));
        assert(emitted_words(ws, i, first_at(ws, i))[j - i] == emitted_words(
            ws,
            i + 1,
            first_at(ws, i + 1),
        )[j - i - 1]);
    }
}

/// Rendering the reparsed words gives back the first rendering: the flags
/// agree everywhere, and the one decapitalized word is no longer eligible
/// and so passes through unchanged.
proof fn lemma_render_emitted(
    ws: Seq<SpecWord>,
    ws2: Seq<SpecWord>,
    i: int,
    words: Set<Seq<char>>,
)
    requires
        stable_words(ws, words),
        ws2.len() == ws.len(),
        forall|j: int|
            0 <= j < ws.len() ==> (#[trigger] ws2[j]).is_code == ws[j].is_code && ws2[j].colon
                == ws[j].colon && ws2[j].text == emitted_text(ws, j, first_at(ws, j)),
        0 <= i <= ws.len(),
    ensures
        render_from(ws2, i, first_at(ws, i)) == render_from(ws, i, first_at(ws, i)),
    decreases ws.len() - i,
{
    if i < ws.len() {
        let f = first_at(ws, i);
        assert(opens_run(ws2, i) == opens_run(ws, i));
        assert(closes_run(ws2, i) == closes_run(ws, i));
        assert(next_first(ws2, i, f) == next_first(ws, i, f));
        assert(next_first(ws, i, f) == first_at(ws, i + 1));
        lemma_render_emitted(ws, ws2, i + 1, words);
        assert(word_out(ws2, i, f) =~= word_out(ws, i, f)) by {
            if !opens_run(ws, i) && f && eligible(ws[i].text) {
                lemma_eligible_len(ws[i], words);
                assert(ws2[i].text == decap(ws[i].text));
                assert(!eligible(ws2[i].text));
            } else {
                assert(ws2[i].text == ws[i].text);
            }
        }
    }
}

/// Idempotence of title formatting: formatting a formatted title leaves it
/// unchanged, provided every classified word of the input title is
/// [`stable_word`]: its marker-stripped text is nonempty, free of
/// whitespace and stray backticks, does not end in a colon, is capitalized
/// only within ASCII, and its decapitalized form is not itself a configured
/// code word.
pub proof fn lemma_format_title_idempotent(title: Seq<char>, words: Set<Seq<char>>)
    requires
        stable_words(classify_all(tokenize(title), false, words), words),
    ensures
        spec_format_title(spec_format_title(title, words), words) == spec_format_title(
            title,
            words,
        ),
{
    let ws = classify_all(tokenize(title), false, words);
    lemma_classify_all_untriggered(tokenize(title), false, words);
    let out = render_words(ws);
    assert(span_open(ws, 0) == false);
    lemma_reparse_from(ws, 0, true, words);
    let ws2 = classify_all(tokenize(out), false, words);
    assert(ws2 == emitted_words(ws, 0, true));
    lemma_emitted_words_len(ws, 0, true);
    assert(first_at(ws, 0) == true);
    assert forall|j: int| 0 <= j < ws.len() implies (#[trigger] ws2[j]).is_code == ws[j].is_code
        && ws2[j].colon == ws[j].colon && ws2[j].text == emitted_text(ws, j, first_at(ws, j)) by {
        lemma_emitted_index(ws, 0, j);
        assert(ws2[j] == emitted_word(ws, j, first_at(ws, j)));
    }
    lemma_render_emitted(ws, ws2, 0, words);
    assert(render_from(ws2, 0, true) == render_from(ws, 0, true));
}

} // verus!
