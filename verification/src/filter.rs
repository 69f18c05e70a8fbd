//! The record filter/sorter: drops entries announced in a previous run,
//! drops entries matching an ignore word, re-renders the surviving titles,
//! and orders the result by (configured repository rank, repository name,
//! title) with a stable insertion order.

use vstd::prelude::*;
use vstd::string::*;
use crate::text::{Rel, str_cmp, lex_lt, contains_seq, chars_contain, str_to_chars, lower_of,
    lower_str, push_str_chars, chars_to_string};
use crate::word::WordSet;
use crate::title::{spec_format_title, format_title};
use crate::entry::{last_pair_idx, lemma_last_pair_idx, find_last_pair, title_of, href_of,
    entry_key, repo_title, starts_with, str_starts_with};

verus! {

/// Whether any ignore word occurs in the (already lowercased) line.
pub open spec fn spec_ignored(lower: Seq<char>, ignore: Seq<Seq<char>>) -> bool {
    exists|i: int| 0 <= i < ignore.len() && contains_seq(lower, #[trigger] ignore[i])
}

/// Executable check for [`spec_ignored`].
pub fn line_ignored(lower: &str, ignore: &Vec<String>) -> (r: bool)
    ensures
        r == spec_ignored(lower@, ignore@.map_values(|s: String| s@)),
{
    let ghost iv = ignore@.map_values(|s: String| s@);
    let lc = str_to_chars(lower);
    let mut i: usize = 0;
    while i < ignore.len()
        invariant
            i <= ignore@.len(),
            iv == ignore@.map_values(|s: String| s@),
            lc@ == lower@,
            forall|k: int| 0 <= k < i ==> !contains_seq(lower@, #[trigger] iv[k]),
        decreases ignore@.len() - i,
    {
        let kw = str_to_chars(ignore[i].as_str());
        if chars_contain(&lc, &kw) {
            assert(contains_seq(lower@, iv[i as int]));
            return true;
        }
        i += 1;
    }
    false
}

/// Whether a raw line survives the filter: its link was not announced in the
/// previous run, and no ignore word occurs in its lowercase form.
pub open spec fn spec_keep(line: Seq<char>, prev: Set<Seq<char>>, ignore: Seq<Seq<char>>) -> bool {
    !prev.contains(href_of(line)) && !spec_ignored(lower_of(line), ignore)
}

/// The title with a leading `* [` marker removed.
pub open spec fn strip_entry_prefix(t: Seq<char>) -> Seq<char> {
    if starts_with(t, seq!['*', ' ', '[']) {
        t.skip(3)
    } else {
        t
    }
}

/// The output line for a surviving raw line: its title re-rendered through
/// the title formatter, its link kept as it stood.
pub open spec fn spec_format_line(line: Seq<char>, words: Set<Seq<char>>) -> Seq<char> {
    seq!['*', ' ', '['] + spec_format_title(strip_entry_prefix(title_of(line)), words) + seq![
        ']',
        '(',
    ] + href_of(line)
}

/// The surviving lines, re-rendered, in their arrival order.
pub open spec fn spec_filtered(
    lines: Seq<Seq<char>>,
    prev: Set<Seq<char>>,
    ignore: Seq<Seq<char>>,
    words: Set<Seq<char>>,
) -> Seq<Seq<char>>
    decreases lines.len(),
{
    if lines.len() == 0 {
        Seq::empty()
    } else {
        spec_filtered(lines.drop_last(), prev, ignore, words) + (if spec_keep(
            lines.last(),
            prev,
            ignore,
        ) {
            seq![spec_format_line(lines.last(), words)]
        } else {
            Seq::empty()
        })
    }
}

/// Strict order on sort keys: by rank, then repository, then title.
pub open spec fn key_lt(a: (int, Seq<char>, Seq<char>), b: (int, Seq<char>, Seq<char>)) -> bool {
    a.0 < b.0 || (a.0 == b.0 && (lex_lt(a.1, b.1) || (a.1 == b.1 && lex_lt(a.2, b.2))))
}

/// Places `x` behind every line whose key does not exceed its own: the
/// insertion step of a stable sort.
pub open spec fn insert_line(sorted: Seq<Seq<char>>, x: Seq<char>, order: Seq<Seq<char>>) -> Seq<
    Seq<char>,
>
    decreases sorted.len(),
{
    if sorted.len() == 0 {
        seq![x]
    } else if key_lt(entry_key(x, order), entry_key(sorted[0], order)) {
        seq![x] + sorted
    } else {
        seq![sorted[0]] + insert_line(sorted.drop_first(), x, order)
    }
}

/// The lines in stable sort order by [`entry_key`]: each line inserted, in
/// arrival order, behind the lines it does not strictly precede.
pub open spec fn spec_sort(lines: Seq<Seq<char>>, order: Seq<Seq<char>>) -> Seq<Seq<char>>
    decreases lines.len(),
{
    if lines.len() == 0 {
        Seq::empty()
    } else {
        insert_line(spec_sort(lines.drop_last(), order), lines.last(), order)
    }
}

/// What `filter_and_sort` returns: the surviving lines, re-rendered, in
/// stable sort order.
pub open spec fn spec_filter_and_sort(
    lines: Seq<Seq<char>>,
    prev: Set<Seq<char>>,
    ignore: Seq<Seq<char>>,
    words: Set<Seq<char>>,
    order: Seq<Seq<char>>,
) -> Seq<Seq<char>> {
    spec_sort(spec_filtered(lines, prev, ignore, words), order)
}

/// An insertion point whose left side never exceeds `x` and whose right
/// neighbour does pins `insert_line` down.
proof fn lemma_insert_at(s: Seq<Seq<char>>, x: Seq<char>, order: Seq<Seq<char>>, p: int)
    requires
        0 <= p <= s.len(),
        forall|k: int| 0 <= k < p ==> !key_lt(entry_key(x, order), entry_key(#[trigger] s[k], order)),
        p < s.len() ==> key_lt(entry_key(x, order), entry_key(s[p], order)),
    ensures
        insert_line(s, x, order) == s.take(p) + seq![x] + s.skip(p),
    decreases s.len(),
{
    if s.len() == 0 {
        assert(insert_line(s, x, order) =~= s.take(p) + seq![x] + s.skip(p));
    } else if key_lt(entry_key(x, order), entry_key(s[0], order)) {
        assert(p == 0);
        assert(insert_line(s, x, order) =~= s.take(0) + seq![x] + s.skip(0));
    } else {
        assert(p >= 1);
        let t = s.drop_first();
        assert(forall|k: int| 0 <= k < p - 1 ==> t[k] == s[k + 1]);
        assert(p - 1 < t.len() ==> t[p - 1] == s[p]);
        lemma_insert_at(t, x, order, p - 1);
        assert(seq![s[0]] + (t.take(p - 1) + seq![x] + t.skip(p - 1)) =~= s.take(p) + seq![x]
            + s.skip(p));
    }
}

/// Whether `a` sorts strictly before `b`.
pub fn entry_lt(a: &str, b: &str, order: &Vec<String>) -> (r: bool)
    ensures
        r == key_lt(
            entry_key(a@, order@.map_values(|o: String| o@)),
            entry_key(b@, order@.map_values(|o: String| o@)),
        ),
{
    let (ra, pa, ta) = repo_title(a, order);
    let (rb, pb, tb) = repo_title(b, order);
    if ra < rb {
        true
    } else if ra > rb {
        false
    } else {
        match str_cmp(pa, pb) {
            Rel::Lt => true,
            Rel::Gt => false,
            Rel::Eq => match str_cmp(ta, tb) {
                Rel::Lt => true,
                _ => false,
            },
        }
    }
}

/// Filters the raw cache lines against the previous run's links and the
/// ignore words, re-renders each surviving title, and returns the lines in
/// stable `(repo rank, repo name, title)` order.
#[verifier::rlimit(80)]
pub fn filter_and_sort(
    raw: &Vec<String>,
    previous: &WordSet,
    ignore: &Vec<String>,
    code_words: &WordSet,
    order: &Vec<String>,
) -> (r: Vec<String>)
    ensures
        r@.map_values(|s: String| s@) == spec_filter_and_sort(
            raw@.map_values(|s: String| s@),
            previous@,
            ignore@.map_values(|s: String| s@),
            code_words@,
            order@.map_values(|o: String| o@),
        ),
{
    let ghost rv = raw@.map_values(|s: String| s@);
    let ghost iv = ignore@.map_values(|s: String| s@);
    let ghost ov = order@.map_values(|o: String| o@);
    let mut out: Vec<String> = Vec::new();
    let mut i: usize = 0;
    proof {
        assert(rv.take(0) =~= Seq::<Seq<char>>::empty());
        assert(out@.map_values(|s: String| s@) =~= spec_sort(
            spec_filtered(rv.take(0), previous@, iv, code_words@),
            ov,
        ));
    }
    while i < raw.len()
        invariant
            i <= raw@.len(),
            rv == raw@.map_values(|s: String| s@),
            iv == ignore@.map_values(|s: String| s@),
            ov == order@.map_values(|o: String| o@),
            out@.map_values(|s: String| s@) == spec_sort(
                spec_filtered(rv.take(i as int), previous@, iv, code_words@),
                ov,
            ),
        decreases raw@.len() - i,
    {
        let line = raw[i].as_str();
        let ghost lv = line@;
        proof {
            assert(rv.take(i + 1).drop_last() =~= rv.take(i as int));
            assert(rv.take(i + 1).last() == lv);
            lemma_last_pair_idx(lv, ']', '(');
            reveal_strlit("");
            assert(""@ =~= Seq::<char>::empty());
            reveal_strlit("* [");
            assert("* ["@ =~= seq!['*', ' ', '[']);
        }
        let n = line.unicode_len();
        let idx = find_last_pair(line, ']', '(');
        let href: &str = match idx {
            Some(p) => line.substring_char(p + 2, n),
            None => "",
        };
        proof {
            assert(href@ =~= href_of(lv));
        }
        let ghost kept = spec_keep(lv, previous@, iv);
        let mut dropped = false;
        if previous.contains(href) {
            dropped = true;
        } else {
            let lower = lower_str(line);
            if line_ignored(lower.as_str(), ignore) {
                dropped = true;
            }
        }
        proof {
            assert(dropped == !kept);
        }
        if !dropped {
            let title: &str = match idx {
                Some(p) => line.substring_char(0, p),
                None => line,
            };
            proof {
                assert(title@ =~= title_of(lv));
            }
            let bare: &str = if str_starts_with(title, "* [") {
                let t2 = title.substring_char(3, title.unicode_len());
                proof {
                    assert(t2@ =~= strip_entry_prefix(title_of(lv)));
                }
                t2
            } else {
                title
            };
            let formatted = format_title(code_words, bare);
            let mut chars: Vec<char> = Vec::new();
            chars.push('*');
            chars.push(' ');
            chars.push('[');
            push_str_chars(&mut chars, formatted.as_str());
            chars.push(']');
            chars.push('(');
            push_str_chars(&mut chars, href);
            let rendered = chars_to_string(&chars);
            proof {
                assert(rendered@ =~= spec_format_line(lv, code_words@));
            }
            let ghost sorted0 = out@.map_values(|s: String| s@);
            let mut p: usize = 0;
            let mut stop = false;
            while p < out.len() && !stop
                invariant
                    p <= out@.len(),
                    ov == order@.map_values(|o: String| o@),
                    sorted0 == out@.map_values(|s: String| s@),
                    rendered@ == spec_format_line(lv, code_words@),
                    stop ==> p < out@.len() && key_lt(
                        entry_key(rendered@, ov),
                        entry_key(sorted0[p as int], ov),
                    ),
                    forall|k: int|
                        0 <= k < p ==> !key_lt(
                            entry_key(rendered@, ov),
                            entry_key(#[trigger] sorted0[k], ov),
                        ),
                decreases (if stop {
                    0
                } else {
                    out@.len() - p + 1
                }),
            {
                if entry_lt(rendered.as_str(), out[p].as_str(), order) {
                    stop = true;
                } else {
                    p += 1;
                }
            }
            proof {
                lemma_insert_at(sorted0, rendered@, ov, p as int);
            }
            out.insert(p, rendered);
            proof {
                let f0 = spec_filtered(rv.take(i as int), previous@, iv, code_words@);
                let f1 = spec_filtered(rv.take(i + 1), previous@, iv, code_words@);
                assert(f1 =~= f0 + seq![spec_format_line(lv, code_words@)]);
                assert(f1.drop_last() =~= f0);
                assert(spec_sort(f1, ov) == insert_line(spec_sort(f0, ov), rendered@, ov));
                assert(out@.map_values(|s: String| s@) =~= sorted0.take(p as int) + seq![rendered@]
                    + sorted0.skip(p as int));
            }
        }
        if dropped {
            proof {
                let f0 = spec_filtered(rv.take(i as int), previous@, iv, code_words@);
                let f1 = spec_filtered(rv.take(i + 1), previous@, iv, code_words@);
                assert(f1 =~= f0);
            }
        }
        i += 1;
    }
    proof {
        assert(rv.take(raw@.len() as int) =~= rv);
    }
    out
}

/// Whether a line sequence stands in sort order: no later line has a
/// strictly smaller key than an earlier one.
pub open spec fn sorted_lines(s: Seq<Seq<char>>, order: Seq<Seq<char>>) -> bool {
    forall|i: int, j: int|
        0 <= i < j < s.len() ==> !key_lt(
            entry_key(#[trigger] s[j], order),
            entry_key(#[trigger] s[i], order),
        )
}

/// `key_lt` never orders a key below itself.
proof fn lemma_key_irrefl(a: (int, Seq<char>, Seq<char>))
    ensures
        !key_lt(a, a),
{
    crate::text::lemma_lex_irrefl(a.1);
    crate::text::lemma_lex_irrefl(a.2);
}

/// `key_lt` is transitive.
proof fn lemma_key_trans(
    a: (int, Seq<char>, Seq<char>),
    b: (int, Seq<char>, Seq<char>),
    c: (int, Seq<char>, Seq<char>),
)
    requires
        key_lt(a, b),
        key_lt(b, c),
    ensures
        key_lt(a, c),
{
    crate::text::lemma_lex_irrefl(a.1);
    crate::text::lemma_lex_irrefl(b.1);
    crate::text::lemma_lex_irrefl(c.1);
    if a.0 == b.0 && b.0 == c.0 {
        if lex_lt(a.1, b.1) && lex_lt(b.1, c.1) {
            crate::text::lemma_lex_trans(a.1, b.1, c.1);
        } else if a.1 == b.1 && a.1 == c.1 {
            if lex_lt(a.2, b.2) && lex_lt(b.2, c.2) {
                crate::text::lemma_lex_trans(a.2, b.2, c.2);
            }
        }
    }
}

/// Every line of an insertion is the inserted line or one of the old ones.
proof fn lemma_insert_elems(s: Seq<Seq<char>>, x: Seq<char>, order: Seq<Seq<char>>)
    ensures
        insert_line(s, x, order).len() == s.len() + 1,
        forall|k: int|
            0 <= k < insert_line(s, x, order).len() ==> #[trigger] insert_line(s, x, order)[k]
                == x || exists|m: int| 0 <= m < s.len() && insert_line(s, x, order)[k] == s[m],
    decreases s.len(),
{
    let out = insert_line(s, x, order);
    if s.len() == 0 {
    } else if key_lt(entry_key(x, order), entry_key(s[0], order)) {
        assert forall|k: int| 0 <= k < out.len() implies #[trigger] out[k] == x || exists|m: int|
            0 <= m < s.len() && out[k] == s[m] by {
            if k > 0 {
                assert(out[k] == s[k - 1]);
            }
        }
    } else {
        let t = s.drop_first();
        lemma_insert_elems(t, x, order);
        let sub = insert_line(t, x, order);
        assert(out == seq![s[0]] + sub);
        assert forall|k: int| 0 <= k < out.len() implies #[trigger] out[k] == x || exists|m: int|
            0 <= m < s.len() && out[k] == s[m] by {
            if k == 0 {
                assert(out[0] == s[0]);
            } else {
                assert(out[k] == sub[k - 1]);
                if sub[k - 1] != x {
                    let m = choose|m: int| 0 <= m < t.len() && sub[k - 1] == t[m];
                    assert(out[k] == s[m + 1]);
                }
            }
        }
    }
}

/// Inserting into a sorted sequence keeps it sorted.
proof fn lemma_insert_sorted(s: Seq<Seq<char>>, x: Seq<char>, order: Seq<Seq<char>>)
    requires
        sorted_lines(s, order),
    ensures
        sorted_lines(insert_line(s, x, order), order),
    decreases s.len(),
{
    let out = insert_line(s, x, order);
    let kx = entry_key(x, order);
    if s.len() == 0 {
        assert(sorted_lines(out, order));
    } else if key_lt(kx, entry_key(s[0], order)) {
        assert forall|i: int, j: int| 0 <= i < j < out.len() implies !key_lt(
            entry_key(#[trigger] out[j], order),
            entry_key(#[trigger] out[i], order),
        ) by {
            if i == 0 {
                assert(out[j] == s[j - 1]);
                if key_lt(entry_key(s[j - 1], order), kx) {
                    lemma_key_trans(entry_key(s[j - 1], order), kx, entry_key(s[0], order));
                    if j - 1 > 0 {
                        assert(!key_lt(entry_key(s[j - 1], order), entry_key(s[0], order)));
                    } else {
                        lemma_key_irrefl(entry_key(s[0], order));
                    }
                    assert(false);
                }
            } else {
                assert(out[i] == s[i - 1] && out[j] == s[j - 1]);
            }
        }
    } else {
        let t = s.drop_first();
        assert(forall|k: int| 0 <= k < t.len() ==> t[k] == s[k + 1]);
        assert(sorted_lines(t, order));
        lemma_insert_sorted(t, x, order);
        lemma_insert_elems(t, x, order);
        let sub = insert_line(t, x, order);
        assert(out == seq![s[0]] + sub);
        assert forall|i: int, j: int| 0 <= i < j < out.len() implies !key_lt(
            entry_key(#[trigger] out[j], order),
            entry_key(#[trigger] out[i], order),
        ) by {
            if i == 0 {
                assert(out[j] == sub[j - 1]);
                if sub[j - 1] == x {
                    assert(!key_lt(kx, entry_key(s[0], order)));
                    if key_lt(entry_key(x, order), entry_key(s[0], order)) {
                        assert(false);
                    }
                } else {
                    let m = choose|m: int| 0 <= m < t.len() && sub[j - 1] == t[m];
                    assert(t[m] == s[m + 1]);
                    assert(!key_lt(entry_key(s[m + 1], order), entry_key(s[0], order)));
                }
            } else {
                assert(out[i] == sub[i - 1] && out[j] == sub[j - 1]);
            }
        }
    }
}

/// Sort order: the filtered lines come out so that no later line has a
/// strictly smaller `(repo rank, repo name, title)` key than an earlier
/// one; ties keep their arrival order by construction of `spec_sort`.
pub proof fn lemma_sort_sorted(lines: Seq<Seq<char>>, order: Seq<Seq<char>>)
    ensures
        sorted_lines(spec_sort(lines, order), order),
    decreases lines.len(),
{
    if lines.len() == 0 {
        assert(sorted_lines(spec_sort(lines, order), order));
    } else {
        lemma_sort_sorted(lines.drop_last(), order);
        lemma_insert_sorted(spec_sort(lines.drop_last(), order), lines.last(), order);
    }
}

} // verus!
