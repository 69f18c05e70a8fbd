//! Week-window arithmetic: calendar dates as plain year-month-day values,
//! the `YYYY-MM-DD` numeral format, and the advance of a `start..end` week
//! specification by seven days.

use vstd::prelude::*;
use vstd::string::*;
use crate::num::{is_digit, digit_val, all_digits, digits_val};
use crate::lint::{first_pair_idx, find_first_pair, trim_ws, trim_ws_str};
use crate::text::chars_to_string;

verus! {

/// Whether `y` is a leap year of the Gregorian calendar.
pub open spec fn is_leap_year(y: int) -> bool {
    (y % 4 == 0 && y % 100 != 0) || y % 400 == 0
}

/// The day count of one month.
pub open spec fn days_in_month(y: int, m: int) -> int {
    if m == 2 {
        if is_leap_year(y) {
            29int
        } else {
            28int
        }
    } else if m == 4 || m == 6 || m == 9 || m == 11 {
        30int
    } else {
        31int
    }
}

/// A well-formed four-digit-year calendar date.
pub open spec fn valid_date(y: int, m: int, d: int) -> bool {
    0 <= y <= 9999 && 1 <= m <= 12 && 1 <= d <= days_in_month(y, m)
}

/// The calendar day after `(y, m, d)`.
pub open spec fn next_day(t: (int, int, int)) -> (int, int, int) {
    if t.2 < days_in_month(t.0, t.1) {
        (t.0, t.1, t.2 + 1)
    } else if t.1 < 12 {
        (t.0, t.1 + 1, 1int)
    } else {
        (t.0 + 1, 1int, 1int)
    }
}

/// The calendar day `k` days after `t`.
pub open spec fn add_days(t: (int, int, int), k: nat) -> (int, int, int)
    decreases k,
{
    if k == 0 {
        t
    } else {
        add_days(next_day(t), (k - 1) as nat)
    }
}

/// A calendar date, held as plain year, month and day numbers.
pub struct Date {
    pub year: u16,
    pub month: u8,
    pub day: u8,
}

impl View for Date {
    type V = (int, int, int);

    open spec fn view(&self) -> (int, int, int) {
        (self.year as int, self.month as int, self.day as int)
    }
}

impl Date {
    /// The day after this one; the year may step past the four-digit range,
    /// which the caller tests.
    pub fn next(&self) -> (r: Date)
        requires
            1 <= self@.1 <= 12,
            1 <= self@.2 <= days_in_month(self@.0, self@.1),
            self@.0 <= 20000,
        ensures
            r@ == next_day(self@),
    {
        let dim: u8 = if self.month == 2 {
            let y = self.year;
            if (y % 4 == 0 && y % 100 != 0) || y % 400 == 0 {
                29
            } else {
                28
            }
        } else if self.month == 4 || self.month == 6 || self.month == 9 || self.month == 11 {
            30
        } else {
            31
        };
        if self.day < dim {
            Date { year: self.year, month: self.month, day: self.day + 1 }
        } else if self.month < 12 {
            Date { year: self.year, month: self.month + 1, day: 1 }
        } else {
            Date { year: self.year + 1, month: 1, day: 1 }
        }
    }
}

/// The digit character of one decimal digit value.
pub open spec fn digit_char(d: int) -> char {
    ((48 + d) as u8) as char
}

/// The ten-character `YYYY-MM-DD` rendering of a date.
pub open spec fn spec_format_date(y: int, m: int, d: int) -> Seq<char> {
    seq![
        digit_char(y / 1000),
        digit_char((y / 100) % 10),
        digit_char((y / 10) % 10),
        digit_char(y % 10),
        '-',
        digit_char(m / 10),
        digit_char(m % 10),
        '-',
        digit_char(d / 10),
        digit_char(d % 10),
    ]
}

/// Renders a date as `YYYY-MM-DD`, zero-padded.
pub fn format_date(date: &Date) -> (r: String)
    requires
        valid_date(date@.0, date@.1, date@.2),
    ensures
        r@ == spec_format_date(date@.0, date@.1, date@.2),
{
    let y = date.year;
    let m = date.month;
    let d = date.day;
    let mut out: Vec<char> = Vec::new();
    out.push((48 + (y / 1000) as u8) as char);
    out.push((48 + ((y / 100) % 10) as u8) as char);
    out.push((48 + ((y / 10) % 10) as u8) as char);
    out.push((48 + (y % 10) as u8) as char);
    out.push('-');
    out.push((48 + (m / 10)) as char);
    out.push((48 + (m % 10)) as char);
    out.push('-');
    out.push((48 + (d / 10)) as char);
    out.push((48 + (d % 10)) as char);
    proof {
        assert(out@ =~= spec_format_date(date@.0, date@.1, date@.2));
    }
    chars_to_string(&out)
}

/// What parsing `YYYY-MM-DD` yields: the three numbers, provided the shape
/// is exact and the date well formed.
pub open spec fn spec_parse_date(s: Seq<char>) -> Option<(int, int, int)> {
    if s.len() == 10 && all_digits(s.take(4)) && s[4] == '-' && all_digits(s.subrange(5, 7))
        && s[7] == '-' && all_digits(s.subrange(8, 10)) {
        let y = digits_val(s.take(4));
        let m = digits_val(s.subrange(5, 7));
        let d = digits_val(s.subrange(8, 10));
        if valid_date(y, m, d) {
            Some((y, m, d))
        } else {
            None
        }
    } else {
        None
    }
}

/// Two digits read most significant first.
proof fn lemma_digits2(q: Seq<char>)
    requires
        q.len() == 2,
    ensures
        digits_val(q) == digit_val(q[0]) * 10 + digit_val(q[1]),
{
    assert(digits_val(Seq::<char>::empty()) == 0);
    assert(q.drop_last() =~= q.subrange(0, 1));
    assert(digits_val(q) == digits_val(q.subrange(0, 1)) * 10 + digit_val(q[1]));
    assert(q.subrange(0, 1).drop_last() =~= Seq::<char>::empty());
    assert(q.subrange(0, 1).last() == q[0]);
    assert(digits_val(q.subrange(0, 1)) == digit_val(q[0]));
}

/// Four digits read most significant first.
proof fn lemma_digits4(q: Seq<char>)
    requires
        q.len() == 4,
    ensures
        digits_val(q) == digit_val(q[0]) * 1000 + digit_val(q[1]) * 100 + digit_val(q[2]) * 10
            + digit_val(q[3]),
{
    assert(q.drop_last() =~= q.subrange(0, 3));
    assert(digits_val(q) == digits_val(q.subrange(0, 3)) * 10 + digit_val(q[3]));
    assert(q.subrange(0, 3).drop_last() =~= q.subrange(0, 2));
    assert(q.subrange(0, 3).last() == q[2]);
    assert(digits_val(q.subrange(0, 3)) == digits_val(q.subrange(0, 2)) * 10 + digit_val(q[2]));
    lemma_digits2(q.subrange(0, 2));
    assert(q.subrange(0, 2)[0] == q[0]);
    assert(q.subrange(0, 2)[1] == q[1]);
}

/// Parses a `YYYY-MM-DD` date, rejecting any other shape and any day
/// outside its month.
pub fn parse_date(s: &str) -> (r: Option<Date>)
    ensures
        match r {
            Some(d) => spec_parse_date(s@) == Some(d@) && valid_date(d@.0, d@.1, d@.2),
            None => spec_parse_date(s@) is None,
        },
{
    let n = s.unicode_len();
    if n != 10 {
        return None;
    }
    let mut i: usize = 0;
    while i < 10
        invariant
            i <= 10,
            n == s@.len(),
            n == 10,
            forall|k: int|
                0 <= k < i && k != 4 && k != 7 ==> is_digit(#[trigger] s@[k]),
            forall|k: int| 0 <= k < i && (k == 4 || k == 7) ==> s@[k] == '-',
        decreases 10 - i,
    {
        let c = s.get_char(i);
        if i == 4 || i == 7 {
            if c != '-' {
                proof {
                    if i == 4 {
                        assert(!(s@[4] == '-'));
                    } else {
                        assert(!(s@[7] == '-'));
                    }
                }
                return None;
            }
        } else {
            if c < '0' || c > '9' {
                proof {
                    if i < 4 {
                        assert(!is_digit(s@.take(4)[i as int]));
                    } else if i < 7 {
                        assert(!is_digit(s@.subrange(5, 7)[i - 5]));
                    } else {
                        assert(!is_digit(s@.subrange(8, 10)[i - 8]));
                    }
                }
                return None;
            }
        }
        i += 1;
    }
    proof {
        assert(all_digits(s@.take(4)));
        assert(all_digits(s@.subrange(5, 7)));
        assert(all_digits(s@.subrange(8, 10)));
        lemma_digits4(s@.take(4));
        lemma_digits2(s@.subrange(5, 7));
        lemma_digits2(s@.subrange(8, 10));
    }
    let y: u16 = (s.get_char(0) as u16 - 48) * 1000 + (s.get_char(1) as u16 - 48) * 100 + (
    s.get_char(2) as u16 - 48) * 10 + (s.get_char(3) as u16 - 48);
    let m: u8 = (s.get_char(5) as u8 - 48) * 10 + (s.get_char(6) as u8 - 48);
    let d: u8 = (s.get_char(8) as u8 - 48) * 10 + (s.get_char(9) as u8 - 48);
    proof {
        assert(y as int == digits_val(s@.take(4)));
        assert(m as int == digits_val(s@.subrange(5, 7)));
        assert(d as int == digits_val(s@.subrange(8, 10)));
    }
    if m < 1 || m > 12 {
        return None;
    }
    let date = Date { year: y, month: m, day: d };
    let dim: u8 = if m == 2 {
        if (y % 4 == 0 && y % 100 != 0) || y % 400 == 0 {
            29
        } else {
            28
        }
    } else if m == 4 || m == 6 || m == 9 || m == 11 {
        30
    } else {
        31
    };
    if d < 1 || d > dim {
        return None;
    }
    Some(date)
}

/// What advancing a week specification yields: the text after the first
/// `..`, parsed as a date, becomes the new start, and the day seven days on
/// becomes the new end; a malformed specification, or one whose advance
/// leaves the four-digit year range, yields nothing.
pub open spec fn spec_week_next(s: Seq<char>) -> Option<Seq<char>> {
    let t = trim_ws(s);
    let i = first_pair_idx(t, '.', '.');
    if i < 0 {
        None
    } else {
        match spec_parse_date(t.skip(i + 2)) {
            None => None,
            Some(d) => {
                let e = add_days(d, 7);
                if e.0 > 9999 {
                    None
                } else {
                    Some(
                        spec_format_date(d.0, d.1, d.2) + seq!['.', '.'] + spec_format_date(
                            e.0,
                            e.1,
                            e.2,
                        ),
                    )
                }
            },
        }
    }
}

/// Seven single days stay well formed, with the year at most one higher.
proof fn lemma_add_days_valid(t: (int, int, int), k: nat)
    requires
        valid_date(t.0, t.1, t.2),
        k <= 28,
    ensures
        ({
            let e = add_days(t, k);
            1 <= e.1 <= 12 && 1 <= e.2 <= days_in_month(e.0, e.1) && t.0 <= e.0 <= t.0 + k
        }),
    decreases k,
{
    if k > 0 {
        let nxt = next_day(t);
        if nxt.0 <= 9999 {
            assert(valid_date(nxt.0, nxt.1, nxt.2));
            lemma_add_days_valid(nxt, (k - 1) as nat);
        } else {
            assert(nxt == (t.0 + 1, 1int, 1int));
            lemma_add_days_k_from(nxt, (k - 1) as nat);
        }
    }
}

/// From the first day of a year, further days stay in that year for a
/// month's worth of steps.
proof fn lemma_add_days_k_from(t: (int, int, int), k: nat)
    requires
        t.1 == 1 && t.2 == 1,
        k <= 27,
    ensures
        ({
            let e = add_days(t, k);
            e.0 == t.0 && 1 <= e.1 <= 12 && 1 <= e.2 <= days_in_month(e.0, e.1)
        }),
    decreases k,
{
    lemma_add_days_jan(t, k, 1 + k as int);
    let e = add_days(t, k);
}

/// Stepping through January advances only the day.
proof fn lemma_add_days_jan(t: (int, int, int), k: nat, d: int)
    requires
        t.1 == 1,
        1 <= t.2,
        t.2 + k <= 31,
        d == t.2 + k,
    ensures
        add_days(t, k) == (t.0, 1int, d),
    decreases k,
{
    if k > 0 {
        assert(days_in_month(t.0, 1) == 31);
        assert(next_day(t) == (t.0, 1int, t.2 + 1));
        lemma_add_days_jan((t.0, 1int, t.2 + 1), (k - 1) as nat, d);
    }
}

/// Advances a `start..end` week specification: the old end becomes the new
/// start and the day seven days on the new end, both rendered
/// `YYYY-MM-DD`.
pub fn week_next(current: &str) -> (r: Option<String>)
    ensures
        match r {
            Some(w) => spec_week_next(current@) == Some(w@),
            None => spec_week_next(current@) is None,
        },
{
    let t = trim_ws_str(current);
    let i = match find_first_pair(t, '.', '.') {
        None => {
            return None;
        },
        Some(i) => i,
    };
    let tn = t.unicode_len();
    let until = t.substring_char(i + 2, tn);
    proof {
        assert(until@ =~= trim_ws(current@).skip(i + 2));
    }
    let start = match parse_date(until) {
        None => {
            return None;
        },
        Some(d) => d,
    };
    let mut cur = Date { year: start.year, month: start.month, day: start.day };
    let mut k: usize = 0;
    proof {
        lemma_add_days_valid(start@, 7);
    }
    while k < 7
        invariant
            k <= 7,
            cur@ == add_days(start@, k as nat),
            valid_date(start@.0, start@.1, start@.2),
            1 <= cur@.1 <= 12,
            1 <= cur@.2 <= days_in_month(cur@.0, cur@.1),
            start@.0 <= cur@.0 <= start@.0 + k,
        decreases 7 - k,
    {
        proof {
            lemma_add_days_valid(start@, (k + 1) as nat);
            assert(add_days(start@, (k + 1) as nat) == add_days(next_day(start@), k as nat));
            lemma_add_days_shift(start@, k as nat);
        }
        cur = cur.next();
        k += 1;
    }
    if cur.year > 9999 {
        return None;
    }
    let a = format_date(&start);
    let b = format_date(&cur);
    let mut out: Vec<char> = Vec::new();
    crate::text::push_str_chars(&mut out, a.as_str());
    out.push('.');
    out.push('.');
    crate::text::push_str_chars(&mut out, b.as_str());
    proof {
        assert(out@ =~= spec_format_date(start@.0, start@.1, start@.2) + seq!['.', '.']
            + spec_format_date(cur@.0, cur@.1, cur@.2));
    }
    Some(chars_to_string(&out))
}

/// Adding a day to the front or to the back of a run comes to the same.
proof fn lemma_add_days_shift(t: (int, int, int), k: nat)
    ensures
        add_days(next_day(t), k) == next_day(add_days(t, k)),
    decreases k,
{
    if k > 0 {
        lemma_add_days_shift(next_day(t), (k - 1) as nat);
    }
}

} // verus!
