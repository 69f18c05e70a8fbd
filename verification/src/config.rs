//! Configuration: a flat key-value mapping parsed from `key=value` lines,
//! the comma-space-separated lists read from it, and the crate's error
//! kinds.

use vstd::prelude::*;
use vstd::string::*;
use crate::entry::first_char_idx;
use crate::lint::{split_lines, trailing_ws_count, first_pair_idx, find_first_pair, trailing_ws};
use crate::entry::str_eq;

verus! {

/// The closed set of failures this system distinguishes.
#[derive(Debug)]
pub enum TwirError {
    /// A required configuration key is absent; carries the key.
    ConfigKeyMissing { key: String },
    /// A cache or draft text does not have the expected shape.
    CacheFormatError { detail: String },
    /// A linted document has style violations; carries the count.
    LintViolation { count: usize },
    /// The remote collaborator or the file system failed; carries a detail.
    CollaboratorError { detail: String },
}

/// A line's key-value pair: the line with trailing whitespace removed,
/// split at its first `=`; lines without `=` carry nothing.
pub open spec fn line_pair(l: Seq<char>) -> Option<(Seq<char>, Seq<char>)> {
    let t = l.take(l.len() - trailing_ws_count(l));
    let i = first_char_idx(t, '=');
    if i == t.len() {
        None
    } else {
        Some((t.take(i), t.skip(i + 1)))
    }
}

/// The pairs of a line sequence, in order, lines without `=` skipped.
pub open spec fn lines_pairs(lines: Seq<Seq<char>>) -> Seq<(Seq<char>, Seq<char>)>
    decreases lines.len(),
{
    if lines.len() == 0 {
        Seq::empty()
    } else {
        (match line_pair(lines.first()) {
            Some(p) => seq![p],
            None => Seq::empty(),
        }) + lines_pairs(lines.drop_first())
    }
}

/// What parsing a configuration text yields.
pub open spec fn spec_parse_config(s: Seq<char>) -> Seq<(Seq<char>, Seq<char>)> {
    lines_pairs(split_lines(s))
}

/// The value of the last pair with the given key, as a repeated key
/// overwrites an earlier one.
pub open spec fn lookup(pairs: Seq<(Seq<char>, Seq<char>)>, key: Seq<char>) -> Option<Seq<char>>
    decreases pairs.len(),
{
    if pairs.len() == 0 {
        None
    } else if pairs.last().0 == key {
        Some(pairs.last().1)
    } else {
        lookup(pairs.drop_last(), key)
    }
}

/// The pieces of a value between `, ` separators.
pub open spec fn split_list(v: Seq<char>) -> Seq<Seq<char>>
    decreases v.len(),
    via split_list_decreases
{
    let i = first_pair_idx(v, ',', ' ');
    if i < 0 {
        seq![v]
    } else {
        seq![v.take(i)] + split_list(v.skip(i + 2))
    }
}

#[via_fn]
proof fn split_list_decreases(v: Seq<char>) {
    lemma_first_pair_bounds(v, ',', ' ');
}

/// Basic bounds of [`first_pair_idx`].
proof fn lemma_first_pair_bounds(s: Seq<char>, a: char, b: char)
    ensures
        -1 <= first_pair_idx(s, a, b),
        first_pair_idx(s, a, b) >= 0 ==> first_pair_idx(s, a, b) + 1 < s.len(),
    decreases s.len(),
{
    if s.len() >= 2 && !(s[0] == a && s[1] == b) {
        lemma_first_pair_bounds(s.drop_first(), a, b);
    }
}

/// The flat configuration mapping: `key=value` pairs in file order.
pub struct Config {
    pairs: Vec<(String, String)>,
}

impl View for Config {
    type V = Seq<(Seq<char>, Seq<char>)>;

    closed spec fn view(&self) -> Seq<(Seq<char>, Seq<char>)> {
        self.pairs@.map_values(|p: (String, String)| (p.0@, p.1@))
    }
}

impl Config {
    /// Parses a configuration text: one `key=value` pair per line, trailing
    /// whitespace trimmed, lines without `=` skipped, later keys
    /// overwriting earlier ones at lookup.
    pub fn parse(text: &str) -> (c: Config)
        ensures
            c@ == spec_parse_config(text@),
    {
        let n = text.unicode_len();
        let mut pairs: Vec<(String, String)> = Vec::new();
        let mut pos: usize = 0;
        let mut done = false;
        proof {
            assert(text@.skip(0) =~= text@);
            assert(pairs@.map_values(|p: (String, String)| (p.0@, p.1@)) + lines_pairs(
                split_lines(text@),
            ) =~= lines_pairs(split_lines(text@)));
        }
        while !done
            invariant
                pos <= n,
                n == text@.len(),
                !done ==> pairs@.map_values(|p: (String, String)| (p.0@, p.1@)) + lines_pairs(
                    split_lines(text@.skip(pos as int)),
                ) == spec_parse_config(text@),
                done ==> pairs@.map_values(|p: (String, String)| (p.0@, p.1@))
                    == spec_parse_config(text@),
            decreases n - pos + (if done {
                0int
            } else {
                1int
            }),
        {
            let ghost restv = text@.skip(pos as int);
            let ghost lines = split_lines(restv);
            let nl = crate::entry::find_char_from(text, pos, '\n');
            let line = text.substring_char(pos, nl);
            proof {
                let fi = first_char_idx(restv, '\n');
                assert(fi == nl - pos);
                if nl < n {
                    assert(line@ =~= restv.take(fi));
                    assert(restv.skip(fi + 1) =~= text@.skip(nl + 1));
                    assert(lines == seq![line@] + split_lines(text@.skip(nl + 1)));
                    assert(lines.first() == line@);
                    assert(lines.drop_first() =~= split_lines(text@.skip(nl + 1)));
                } else {
                    assert(line@ =~= restv);
                    assert(lines == seq![restv]);
                    assert(lines.first() == line@);
                    assert(lines.drop_first() =~= Seq::<Seq<char>>::empty());
                    assert(lines_pairs(Seq::<Seq<char>>::empty()) =~= Seq::<
                        (Seq<char>, Seq<char>),
                    >::empty());
                }
            }
            let tw = trailing_ws(line);
            let ln = nl - pos;
            proof {
                assert(line@.len() == ln);
            }
            let trimmed = line.substring_char(0, ln - tw);
            proof {
                assert(trimmed@ =~= line@.take(line@.len() - trailing_ws_count(line@)));
            }
            let tn = ln - tw;
            let eq_pos = crate::entry::find_char_from(trimmed, 0, '=');
            proof {
                assert(trimmed@.skip(0) =~= trimmed@);
            }
            if eq_pos < tn {
                let k = trimmed.substring_char(0, eq_pos);
                let v = trimmed.substring_char(eq_pos + 1, tn);
                proof {
                    assert(k@ =~= trimmed@.take(first_char_idx(trimmed@, '=')));
                    assert(v@ =~= trimmed@.skip(first_char_idx(trimmed@, '=') + 1));
                    assert(line_pair(line@) == Some((k@, v@)));
                }
                let ghost before = pairs@;
                pairs.push((String::from_str(k), String::from_str(v)));
                proof {
                    assert(pairs@.map_values(|p: (String, String)| (p.0@, p.1@)) =~= before
                        .map_values(|p: (String, String)| (p.0@, p.1@)) + seq![(k@, v@)]);
                }
            } else {
                proof {
                    assert(first_char_idx(trimmed@, '=') == trimmed@.len());
                    assert(line_pair(line@) is None);
                }
            }
            proof {
                assert(lines_pairs(lines) == (match line_pair(line@) {
                    Some(p) => seq![p],
                    None => Seq::<(Seq<char>, Seq<char>)>::empty(),
                }) + lines_pairs(lines.drop_first()));
            }
            if nl == n {
                done = true;
            } else {
                pos = nl + 1;
            }
        }
        Config { pairs }
    }

    /// Looks a key up: the value of the last line that set it.
    pub fn get(&self, key: &str) -> (r: Option<&String>)
        ensures
            match r {
                Some(v) => lookup(self@, key@) == Some(v@),
                None => lookup(self@, key@) is None,
            },
    {
        let n = self.pairs.len();
        let mut j = n;
        while j > 0
            invariant
                j <= n,
                n == self.pairs@.len(),
                forall|k: int| j <= k < n ==> (#[trigger] self.pairs@[k]).0@ != key@,
            decreases j,
        {
            j -= 1;
            if str_eq(self.pairs[j].0.as_str(), key) {
                proof {
                    lemma_lookup_at(self@, key@, j as int);
                }
                return Some(&self.pairs[j].1);
            }
        }
        proof {
            lemma_lookup_none(self@, key@);
        }
        None
    }
}

/// A match with only mismatches at its right pins `lookup` down.
proof fn lemma_lookup_at(pairs: Seq<(Seq<char>, Seq<char>)>, key: Seq<char>, j: int)
    requires
        0 <= j < pairs.len(),
        pairs[j].0 == key,
        forall|k: int| j < k < pairs.len() ==> (#[trigger] pairs[k]).0 != key,
    ensures
        lookup(pairs, key) == Some(pairs[j].1),
    decreases pairs.len(),
{
    if j < pairs.len() - 1 {
        let t = pairs.drop_last();
        assert(forall|k: int| 0 <= k < t.len() ==> t[k] == pairs[k]);
        lemma_lookup_at(t, key, j);
    }
}

/// With no matching key, `lookup` reports so.
proof fn lemma_lookup_none(pairs: Seq<(Seq<char>, Seq<char>)>, key: Seq<char>)
    requires
        forall|k: int| 0 <= k < pairs.len() ==> (#[trigger] pairs[k]).0 != key,
    ensures
        lookup(pairs, key) is None,
    decreases pairs.len(),
{
    if pairs.len() > 0 {
        let t = pairs.drop_last();
        assert(forall|k: int| 0 <= k < t.len() ==> t[k] == pairs[k]);
        lemma_lookup_none(t, key);
    }
}

/// What `get_list` yields: the configured value split on `, `, or the
/// missing-key error naming the key.
pub open spec fn spec_get_list(pairs: Seq<(Seq<char>, Seq<char>)>, key: Seq<char>) -> Option<
    Seq<Seq<char>>,
> {
    match lookup(pairs, key) {
        Some(v) => Some(split_list(v)),
        None => None,
    }
}

/// Reads the comma-space-separated list under `key`; a missing key is a
/// configuration error naming it.
pub fn get_list(config: &Config, key: &str) -> (r: Result<Vec<String>, TwirError>)
    ensures
        match r {
            Ok(v) => spec_get_list(config@, key@) == Some(
                v@.map_values(|s: String| s@),
            ),
            Err(e) => spec_get_list(config@, key@) is None && (e matches
                TwirError::ConfigKeyMissing { key: k } && k@ == key@),
        },
{
    let v = match config.get(key) {
        Some(v) => v.as_str(),
        None => {
            return Err(TwirError::ConfigKeyMissing { key: String::from_str(key) });
        },
    };
    let ghost whole = v@;
    let mut parts: Vec<String> = Vec::new();
    let mut rest: &str = v;
    proof {
        assert(parts@.map_values(|s: String| s@) + split_list(whole) =~= split_list(whole));
    }
    loop
        invariant
            lookup(config@, key@) == Some(whole),
            parts@.map_values(|s: String| s@) + split_list(rest@) == split_list(whole),
        decreases rest@.len(),
    {
        proof {
            lemma_first_pair_bounds(rest@, ',', ' ');
        }
        match find_first_pair(rest, ',', ' ') {
            None => {
                let ghost before = parts@;
                parts.push(String::from_str(rest));
                proof {
                    assert(split_list(rest@) == seq![rest@]);
                    assert(parts@.map_values(|s: String| s@) =~= before.map_values(
                        |s: String| s@,
                    ) + seq![rest@]);
                    assert(before.map_values(|s: String| s@) + seq![rest@] + Seq::<
                        Seq<char>,
                    >::empty() =~= before.map_values(|s: String| s@) + seq![rest@]);
                }
                return Ok(parts);
            },
            Some(i) => {
                let rn = rest.unicode_len();
                let piece = rest.substring_char(0, i);
                let next = rest.substring_char(i + 2, rn);
                proof {
                    assert(piece@ =~= rest@.take(i as int));
                    assert(next@ =~= rest@.skip(i + 2));
                    assert(split_list(rest@) == seq![piece@] + split_list(next@));
                }
                let ghost before = parts@;
                parts.push(String::from_str(piece));
                proof {
                    assert(parts@.map_values(|s: String| s@) =~= before.map_values(
                        |s: String| s@,
                    ) + seq![piece@]);
                    assert(before.map_values(|s: String| s@) + seq![piece@] + split_list(next@)
                        =~= before.map_values(|s: String| s@) + (seq![piece@] + split_list(
                        next@,
                    )));
                }
                rest = next;
            },
        }
    }
}

} // verus!
