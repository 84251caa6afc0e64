//! Strict syntax of the date values embedded metadata carries: `YYYY`,
//! `YYYY-MM`, `YYYY-MM-DD`, the last optionally followed by `T` and an ISO
//! time of day with an optional `Z` or `±hh:mm` offset.
use vstd::prelude::*;

use crate::playlists::{first_pos, lemma_first_pos_is};
use crate::text::{chars_of, trim_chars, trimmed};

verus! {

/// The pieces of `s` between occurrences of `c`, as `str::split` yields them.
pub open spec fn split_char(s: Seq<char>, c: char) -> Seq<Seq<char>>
    decreases s.len(),
{
    if s.len() == 0 {
        seq![seq![]]
    } else {
        let p = split_char(s.drop_last(), c);
        if s.last() == c {
            p.push(seq![])
        } else {
            p.update(p.len() - 1, p.last().push(s.last()))
        }
    }
}

/// Index of the first `c` in `s`, or -1.
pub open spec fn is_char(c: char) -> spec_fn(char) -> bool {
    |x: char| x == c
}

pub open spec fn is_sign() -> spec_fn(char) -> bool {
    |x: char| x == '+' || x == '-'
}

pub open spec fn char_pos(s: Seq<char>, c: char) -> int {
    first_pos(s, is_char(c))
}

/// Index of the first sign (`+` or `-`) after the first character, or -1.
pub open spec fn sign_pos(s: Seq<char>) -> int {
    if s.len() == 0 {
        -1
    } else {
        let p = first_pos(s.drop_first(), is_sign());
        if p >= 0 {
            p + 1
        } else {
            -1
        }
    }
}

pub open spec fn is_digit(c: char) -> bool {
    '0' <= c && c <= '9'
}

pub open spec fn all_digits(s: Seq<char>) -> bool {
    forall|i: int| 0 <= i < s.len() ==> is_digit(#[trigger] s[i])
}

pub open spec fn digit_value(c: char) -> int {
    (c as u32) - ('0' as u32)
}

/// Two ASCII digits whose value lies in `min..=max`.
pub open spec fn two_digits_in(s: Seq<char>, min: int, max: int) -> bool {
    s.len() == 2 && all_digits(s) && min <= digit_value(s[0]) * 10 + digit_value(s[1]) <= max
}

pub open spec fn two_digit_value(s: Seq<char>) -> int {
    digit_value(s[0]) * 10 + digit_value(s[1])
}

/// `±hh:mm` after the sign.
pub open spec fn valid_offset(rest: Seq<char>) -> bool {
    rest.len() == 5 && rest[2] == ':' && two_digits_in(rest.take(2), 0, 23) && two_digits_in(rest.skip(3), 0, 59)
}

/// Seconds, optionally with a non-empty decimal fraction.
pub open spec fn valid_seconds(s: Seq<char>) -> bool {
    let d = char_pos(s, '.');
    if d >= 0 {
        two_digits_in(s.take(d), 0, 59) && s.len() > d + 1 && all_digits(s.skip(d + 1))
    } else {
        two_digits_in(s, 0, 59)
    }
}

/// `hh`, `hh:mm` or `hh:mm:ss[.f…]` in range.
pub open spec fn valid_clock(t: Seq<char>) -> bool {
    let ps = split_char(t, ':');
    &&& ps.len() <= 3
    &&& two_digits_in(ps[0], 0, 23)
    &&& ps.len() >= 2 ==> two_digits_in(ps[1], 0, 59)
    &&& ps.len() == 3 ==> valid_seconds(ps[2])
}

/// An ISO time of day with an optional `Z` or `±hh:mm` suffix.
pub open spec fn iso_time(value: Seq<char>) -> bool {
    if value.len() > 0 && value.last() == 'Z' {
        valid_clock(value.drop_last())
    } else if sign_pos(value) >= 0 {
        let i = sign_pos(value);
        valid_offset(value.skip(i + 1)) && valid_clock(value.take(i))
    } else {
        valid_clock(value)
    }
}

pub open spec fn leap_year(year: int) -> bool {
    year % 400 == 0 || (year % 4 == 0 && year % 100 != 0)
}

pub open spec fn days_in_month(year: int, month: int) -> int {
    if month == 2 {
        if leap_year(year) {
            29
        } else {
            28
        }
    } else if month == 4 || month == 6 || month == 9 || month == 11 {
        30
    } else {
        31
    }
}

/// `month` and `day` name a day of `year`'s calendar.
pub open spec fn calendar_date(year: int, month: Seq<char>, day: Seq<char>) -> bool {
    two_digits_in(month, 1, 12) && two_digits_in(day, 1, 31) && two_digit_value(day) <= days_in_month(
        year,
        two_digit_value(month),
    )
}

pub open spec fn four_digit_value(s: Seq<char>) -> int {
    digit_value(s[0]) * 1000 + digit_value(s[1]) * 100 + digit_value(s[2]) * 10 + digit_value(s[3])
}

/// The year a date value names: `YYYY` (1000 or later), `YYYY-MM`, or a
/// calendar date `YYYY-MM-DD` optionally followed by `T` and an ISO time.
pub open spec fn year_of(value: Seq<char>) -> Option<u16> {
    let v = trimmed(value);
    let t = char_pos(v, 'T');
    let date = if t >= 0 {
        v.take(t)
    } else {
        v
    };
    let has_time = t >= 0;
    let parts = split_char(date, '-');
    let y = parts[0];
    if has_time && !iso_time(v.skip(t + 1)) {
        None
    } else if !(y.len() == 4 && all_digits(y)) || four_digit_value(y) < 1000 {
        None
    } else if (parts.len() == 1 && !has_time) || (parts.len() == 2 && !has_time && two_digits_in(parts[1], 1, 12))
        || (parts.len() == 3 && calendar_date(four_digit_value(y), parts[1], parts[2])) {
        Some(four_digit_value(y) as u16)
    } else {
        None
    }
}

pub proof fn lemma_split_nonempty(s: Seq<char>, c: char)
    ensures
        split_char(s, c).len() >= 1,
    decreases s.len(),
{
    if s.len() > 0 {
        lemma_split_nonempty(s.drop_last(), c);
    }
}

/// The pieces of `s` between occurrences of `c`.
pub fn split_chars(s: &[char], c: char) -> (r: Vec<Vec<char>>)
    ensures
        r@.map_values(|v: Vec<char>| v@) == split_char(s@, c),
        r.len() >= 1,
{
    let mut parts: Vec<Vec<char>> = Vec::new();
    let mut cur: Vec<char> = Vec::new();
    let mut i: usize = 0;
    assert(s@.take(0) =~= seq![]);
    while i < s.len()
        invariant
            i <= s.len(),
            parts@.map_values(|v: Vec<char>| v@).push(cur@) == split_char(s@.take(i as int), c),
        decreases s.len() - i,
    {
        let ghost pv = parts@.map_values(|v: Vec<char>| v@);
        assert(s@.take(i as int + 1).drop_last() =~= s@.take(i as int));
        if s[i] == c {
            let done = cur;
            parts.push(done);
            cur = Vec::new();
            assert(parts@.map_values(|v: Vec<char>| v@) =~= pv.push(done@));
        } else {
            cur.push(s[i]);
        }
        assert(parts@.map_values(|v: Vec<char>| v@).push(cur@) =~= split_char(s@.take(i as int + 1), c));
        i = i + 1;
    }
    assert(s@.take(s.len() as int) =~= s@);
    let ghost pv = parts@.map_values(|v: Vec<char>| v@);
    let last = cur;
    parts.push(last);
    assert(parts@.map_values(|v: Vec<char>| v@) =~= pv.push(last@));
    parts
}

pub(crate) fn find_char(s: &[char], c: char) -> (r: Option<usize>)
    ensures
        match r {
            Some(i) => i < s.len() && char_pos(s@, c) == i,
            None => char_pos(s@, c) == -1,
        },
{
    let ghost f = is_char(c);
    let mut i: usize = 0;
    while i < s.len()
        invariant
            i <= s.len(),
            f == is_char(c),
            forall|j: int| 0 <= j < i ==> !f(#[trigger] s@[j]),
        decreases s.len() - i,
    {
        if s[i] == c {
            proof {
                lemma_first_pos_is(s@, f, i as int);
            }
            return Some(i);
        }
        i = i + 1;
    }
    proof {
        lemma_first_pos_is(s@, f, -1);
    }
    None
}

fn find_sign(s: &[char]) -> (r: Option<usize>)
    ensures
        match r {
            Some(i) => 1 <= i < s.len() && sign_pos(s@) == i,
            None => sign_pos(s@) == -1,
        },
{
    if s.len() == 0 {
        return None;
    }
    let ghost f = is_sign();
    let ghost t = s@.drop_first();
    let mut i: usize = 1;
    while i < s.len()
        invariant
            1 <= i <= s.len(),
            t == s@.drop_first(),
            f == is_sign(),
            forall|j: int| 0 <= j < i - 1 ==> !f(#[trigger] t[j]),
        decreases s.len() - i,
    {
        if s[i] == '+' || s[i] == '-' {
            proof {
                assert(t[i - 1] == s@[i as int]);
                lemma_first_pos_is(t, f, i - 1);
            }
            return Some(i);
        }
        assert(t[i - 1] == s@[i as int]);
        i = i + 1;
    }
    proof {
        lemma_first_pos_is(t, f, -1);
    }
    None
}

fn slice_of(s: &[char], from: usize, to: usize) -> (r: Vec<char>)
    requires
        from <= to <= s.len(),
    ensures
        r@ == s@.subrange(from as int, to as int),
{
    let mut out: Vec<char> = Vec::new();
    let mut i: usize = from;
    while i < to
        invariant
            from <= i <= to <= s.len(),
            out@ == s@.subrange(from as int, i as int),
        decreases to - i,
    {
        out.push(s[i]);
        i = i + 1;
        assert(out@ =~= s@.subrange(from as int, i as int));
    }
    out
}

fn digit(c: char) -> (r: bool)
    ensures
        r == is_digit(c),
{
    '0' <= c && c <= '9'
}

fn digits_only(s: &[char]) -> (r: bool)
    ensures
        r == all_digits(s@),
{
    let mut i: usize = 0;
    while i < s.len()
        invariant
            i <= s.len(),
            forall|j: int| 0 <= j < i ==> is_digit(#[trigger] s@[j]),
        decreases s.len() - i,
    {
        if !digit(s[i]) {
            return false;
        }
        i = i + 1;
    }
    true
}

fn value_of_digit(c: char) -> (r: u32)
    requires
        is_digit(c),
    ensures
        r == digit_value(c),
        r <= 9,
{
    (c as u32) - ('0' as u32)
}

/// Two ASCII digits whose value lies in `min..=max`.
pub fn valid_range(value: &[char], min: u32, max: u32) -> (r: bool)
    ensures
        r == two_digits_in(value@, min as int, max as int),
{
    if value.len() != 2 || !digits_only(value) {
        return false;
    }
    let v = value_of_digit(value[0]) * 10 + value_of_digit(value[1]);
    min <= v && v <= max
}

pub fn valid_month(value: &[char]) -> (r: bool)
    ensures
        r == two_digits_in(value@, 1, 12),
{
    valid_range(value, 1, 12)
}

/// `month` and `day` name a day of `year`'s calendar.
pub fn valid_date(year: u32, month: &[char], day: &[char]) -> (r: bool)
    ensures
        r == calendar_date(year as int, month@, day@),
{
    if !valid_month(month) || !valid_range(day, 1, 31) {
        return false;
    }
    let m = value_of_digit(month[0]) * 10 + value_of_digit(month[1]);
    let d = value_of_digit(day[0]) * 10 + value_of_digit(day[1]);
    let max_day: u32 = if m == 2 {
        if year % 400 == 0 || (year % 4 == 0 && year % 100 != 0) {
            29
        } else {
            28
        }
    } else if m == 4 || m == 6 || m == 9 || m == 11 {
        30
    } else {
        31
    };
    d <= max_day
}

fn valid_seconds_exec(s: &[char]) -> (r: bool)
    ensures
        r == valid_seconds(s@),
{
    match find_char(s, '.') {
        Some(d) => {
            let whole = slice_of(s, 0, d);
            let frac = slice_of(s, d + 1, s.len());
            assert(whole@ =~= s@.take(d as int));
            assert(frac@ =~= s@.skip(d + 1));
            valid_range(whole.as_slice(), 0, 59) && s.len() > d + 1 && digits_only(frac.as_slice())
        },
        None => valid_range(s, 0, 59),
    }
}

fn valid_clock_exec(t: &[char]) -> (r: bool)
    ensures
        r == valid_clock(t@),
{
    let ps = split_chars(t, ':');
    let ghost pv = ps@.map_values(|v: Vec<char>| v@);
    assert(pv[0] == ps@[0]@);
    if ps.len() > 3 {
        return false;
    }
    if !valid_range(ps[0].as_slice(), 0, 23) {
        return false;
    }
    if ps.len() >= 2 {
        assert(pv[1] == ps@[1]@);
        if !valid_range(ps[1].as_slice(), 0, 59) {
            return false;
        }
    }
    if ps.len() == 3 {
        assert(pv[2] == ps@[2]@);
        return valid_seconds_exec(ps[2].as_slice());
    }
    true
}

/// Whether `value` is an ISO time of day with an optional `Z` or `±hh:mm`.
pub fn valid_iso_time(value: &[char]) -> (r: bool)
    ensures
        r == iso_time(value@),
{
    if value.len() > 0 && value[value.len() - 1] == 'Z' {
        let t = slice_of(value, 0, value.len() - 1);
        assert(t@ =~= value@.drop_last());
        return valid_clock_exec(t.as_slice());
    }
    match find_sign(value) {
        Some(i) => {
            let rest = slice_of(value, i + 1, value.len());
            let t = slice_of(value, 0, i);
            assert(rest@ =~= value@.skip(i + 1));
            assert(t@ =~= value@.take(i as int));
            if rest.len() != 5 || rest[2] != ':' {
                return false;
            }
            let hh = slice_of(rest.as_slice(), 0, 2);
            let mm = slice_of(rest.as_slice(), 3, 5);
            assert(hh@ =~= rest@.take(2));
            assert(mm@ =~= rest@.skip(3));
            if !valid_range(hh.as_slice(), 0, 23) || !valid_range(mm.as_slice(), 0, 59) {
                return false;
            }
            valid_clock_exec(t.as_slice())
        },
        None => valid_clock_exec(value),
    }
}

/// The year a date value names, when it is strictly well formed.
pub fn parse_year(value: &str) -> (r: Option<u16>)
    ensures
        r == year_of(value@),
{
    let cs = chars_of(value);
    let v = trim_chars(cs.as_slice());
    let (date, has_time) = match find_char(v.as_slice(), 'T') {
        Some(t) => {
            let time = slice_of(v.as_slice(), t + 1, v.len());
            assert(time@ =~= v@.skip(t + 1));
            if !valid_iso_time(time.as_slice()) {
                return None;
            }
            let d = slice_of(v.as_slice(), 0, t);
            assert(d@ =~= v@.take(t as int));
            (d, true)
        },
        None => (v, false),
    };
    let parts = split_chars(date.as_slice(), '-');
    let ghost pv = parts@.map_values(|x: Vec<char>| x@);
    assert(pv[0] == parts@[0]@);
    let y = &parts[0];
    if y.len() != 4 || !digits_only(y.as_slice()) {
        return None;
    }
    let year = value_of_digit(y[0]) * 1000 + value_of_digit(y[1]) * 100 + value_of_digit(y[2]) * 10
        + value_of_digit(y[3]);
    if year < 1000 {
        return None;
    }
    if parts.len() == 1 && !has_time {
        return Some(year as u16);
    }
    if parts.len() == 2 {
        assert(pv[1] == parts@[1]@);
        if !has_time && valid_month(parts[1].as_slice()) {
            return Some(year as u16);
        }
        return None;
    }
    if parts.len() == 3 {
        assert(pv[1] == parts@[1]@);
        assert(pv[2] == parts@[2]@);
        if valid_date(year, parts[1].as_slice(), parts[2].as_slice()) {
            return Some(year as u16);
        }
    }
    None
}

} // verus!
