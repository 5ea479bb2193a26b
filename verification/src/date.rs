//! Calendar dates as plain year/month/day numbers, with ordering,
//! predecessor, and ISO `YYYY-MM-DD` parsing and formatting.

use vstd::prelude::*;
use vstd::arithmetic::div_mod::{
    lemma_div_denominator, lemma_div_is_ordered, lemma_fundamental_div_mod,
};

verus! {

/// A proleptic Gregorian calendar date.
#[derive(Clone, Copy, PartialEq, Eq, Structural, Debug, Hash)]
pub struct CalendarDate {
    pub year: u32,
    pub month: u32,
    pub day: u32,
}

/// Gregorian leap-year rule.
pub open spec fn is_leap_year(y: int) -> bool {
    y % 4 == 0 && (y % 100 != 0 || y % 400 == 0)
}

/// Number of days in a month of a given year (leap-aware).
pub open spec fn spec_days_in_month(y: int, m: int) -> int {
    if m == 2 {
        if is_leap_year(y) {
            29
        } else {
            28
        }
    } else if m == 4 || m == 6 || m == 9 || m == 11 {
        30
    } else {
        31
    }
}

impl CalendarDate {
    /// A well-formed date: month and day in range for the (leap-aware) calendar,
    /// year limited to four decimal digits so the ISO form is total.
    pub open spec fn wf(self) -> bool {
        &&& 1 <= self.year <= 9999
        &&& 1 <= self.month <= 12
        &&& 1 <= self.day <= spec_days_in_month(self.year as int, self.month as int)
    }

    /// Order key: dates compare as (year, month, day) lexicographically,
    /// which this decimal encoding preserves.
    pub open spec fn key(self) -> int {
        self.year as int * 10000 + self.month as int * 100 + self.day as int
    }
}

/// Days in a month, leap-aware; executable counterpart of `spec_days_in_month`.
pub fn days_in_month(year: u32, month: u32) -> (n: u32)
    ensures
        n == spec_days_in_month(year as int, month as int),
{
    if month == 2 {
        if year % 4 == 0 && (year % 100 != 0 || year % 400 == 0) {
            29
        } else {
            28
        }
    } else if month == 4 || month == 6 || month == 9 || month == 11 {
        30
    } else {
        31
    }
}

impl CalendarDate {
    /// `self` is strictly before `other` in calendar order.
    pub fn is_before(&self, other: &CalendarDate) -> (r: bool)
        requires
            self.wf(),
            other.wf(),
        ensures
            r == (self.key() < other.key()),
    {
        if self.year != other.year {
            self.year < other.year
        } else if self.month != other.month {
            self.month < other.month
        } else {
            self.day < other.day
        }
    }

    /// The day before `self`: the greatest well-formed date strictly before it.
    pub fn pred(&self) -> (r: CalendarDate)
        requires
            self.wf(),
            !(self.year == 1 && self.month == 1 && self.day == 1),
        ensures
            r.wf(),
            r.key() < self.key(),
            forall|d: CalendarDate| d.wf() && d.key() < self.key() ==> d.key() <= r.key(),
    {
        let r = if self.day > 1 {
            CalendarDate { year: self.year, month: self.month, day: self.day - 1 }
        } else if self.month > 1 {
            CalendarDate {
                year: self.year,
                month: self.month - 1,
                day: days_in_month(self.year, self.month - 1),
            }
        } else {
            CalendarDate { year: self.year - 1, month: 12, day: 31 }
        };
        r
    }
}

/// The order key determines a well-formed date completely.
pub proof fn lemma_key_injective(a: CalendarDate, b: CalendarDate)
    requires
        a.wf(),
        b.wf(),
        a.key() == b.key(),
    ensures
        a == b,
{
    assert(a.day <= 31);
    assert(b.day <= 31);
}

/// A malformed or impossible date string.
#[derive(Clone, Copy, PartialEq, Eq, Structural, Debug)]
pub struct ParseError;

/// The decimal digit character for `d` in `0..=9`.
pub open spec fn digit_char(d: int) -> char {
    if d == 0 {
        '0'
    } else if d == 1 {
        '1'
    } else if d == 2 {
        '2'
    } else if d == 3 {
        '3'
    } else if d == 4 {
        '4'
    } else if d == 5 {
        '5'
    } else if d == 6 {
        '6'
    } else if d == 7 {
        '7'
    } else if d == 8 {
        '8'
    } else {
        '9'
    }
}

pub open spec fn is_digit_char(c: char) -> bool {
    48 <= c as int <= 57
}

/// Numeric value of a decimal digit character.
pub open spec fn digit_val(c: char) -> int {
    c as int - 48
}

/// `n` zero-padded to two decimal digits.
pub open spec fn two_digits(n: int) -> Seq<char> {
    seq![digit_char(n / 10), digit_char(n % 10)]
}

/// `n` zero-padded to four decimal digits.
pub open spec fn four_digits(n: int) -> Seq<char> {
    seq![digit_char(n / 1000), digit_char(n / 100 % 10), digit_char(n / 10 % 10), digit_char(n % 10)]
}

impl CalendarDate {
    /// The ISO `YYYY-MM-DD` rendering of this date.
    pub open spec fn iso_view(self) -> Seq<char> {
        four_digits(self.year as int) + seq!['-'] + two_digits(self.month as int) + seq!['-']
            + two_digits(self.day as int)
    }
}

/// What an ISO `YYYY-MM-DD` string denotes: a well-formed date, or nothing
/// when the string is malformed or the date impossible.
pub open spec fn spec_parse_iso(s: Seq<char>) -> Option<CalendarDate> {
    if s.len() == 10 && is_digit_char(s[0]) && is_digit_char(s[1]) && is_digit_char(s[2])
        && is_digit_char(s[3]) && s[4] == '-' && is_digit_char(s[5]) && is_digit_char(s[6]) && s[7]
        == '-' && is_digit_char(s[8]) && is_digit_char(s[9]) {
        let date = CalendarDate {
            year: (digit_val(s[0]) * 1000 + digit_val(s[1]) * 100 + digit_val(s[2]) * 10
                + digit_val(s[3])) as u32,
            month: (digit_val(s[5]) * 10 + digit_val(s[6])) as u32,
            day: (digit_val(s[8]) * 10 + digit_val(s[9])) as u32,
        };
        if date.wf() {
            Some(date)
        } else {
            None
        }
    } else {
        None
    }
}

fn digit_str(d: u32) -> (r: &'static str)
    requires
        d <= 9,
    ensures
        r@ == seq![digit_char(d as int)],
{
    let r = match d {
        0 => "0",
        1 => "1",
        2 => "2",
        3 => "3",
        4 => "4",
        5 => "5",
        6 => "6",
        7 => "7",
        8 => "8",
        _ => "9",
    };
    proof {
        reveal_strlit("0");
        reveal_strlit("1");
        reveal_strlit("2");
        reveal_strlit("3");
        reveal_strlit("4");
        reveal_strlit("5");
        reveal_strlit("6");
        reveal_strlit("7");
        reveal_strlit("8");
        reveal_strlit("9");
        assert(r@ =~= seq![digit_char(d as int)]);
    }
    r
}

pub(crate) fn push_two_digits(s: &mut String, n: u32)
    requires
        n <= 99,
    ensures
        final(s)@ == old(s)@ + two_digits(n as int),
{
    s.append(digit_str(n / 10));
    s.append(digit_str(n % 10));
    proof {
        assert(s@ =~= old(s)@ + two_digits(n as int));
    }
}

pub(crate) fn push_four_digits(s: &mut String, n: u32)
    requires
        n <= 9999,
    ensures
        final(s)@ == old(s)@ + four_digits(n as int),
{
    s.append(digit_str(n / 1000));
    s.append(digit_str(n / 100 % 10));
    s.append(digit_str(n / 10 % 10));
    s.append(digit_str(n % 10));
    proof {
        assert(s@ =~= old(s)@ + four_digits(n as int));
    }
}

impl CalendarDate {
    /// Format this date as `YYYY-MM-DD`.
    pub fn format_iso(&self) -> (r: String)
        requires
            self.wf(),
        ensures
            r@ == self.iso_view(),
    {
        let mut s = String::new();
        push_four_digits(&mut s, self.year);
        s.append("-");
        push_two_digits(&mut s, self.month);
        s.append("-");
        push_two_digits(&mut s, self.day);
        proof {
            reveal_strlit("-");
            assert("-"@ =~= seq!['-']);
            assert(s@ =~= self.iso_view());
        }
        s
    }
}

/// Parse an ISO `YYYY-MM-DD` string; rejects malformed strings and
/// impossible dates, exactly as `spec_parse_iso` says.
pub fn parse_iso(s: &str) -> (r: Result<CalendarDate, ParseError>)
    ensures
        match r {
            Ok(d) => spec_parse_iso(s@) == Some(d) && d.wf(),
            Err(_) => spec_parse_iso(s@) is None,
        },
{
    if s.unicode_len() != 10 {
        return Err(ParseError);
    }
    let sep0 = s.get_char(4);
    let sep1 = s.get_char(7);
    if sep0 != '-' || sep1 != '-' {
        return Err(ParseError);
    }
    let d0 = match digit_at(s, 0) {
        Ok(v) => v,
        Err(e) => {
            return Err(e);
        },
    };
    let d1 = match digit_at(s, 1) {
        Ok(v) => v,
        Err(e) => {
            return Err(e);
        },
    };
    let d2 = match digit_at(s, 2) {
        Ok(v) => v,
        Err(e) => {
            return Err(e);
        },
    };
    let d3 = match digit_at(s, 3) {
        Ok(v) => v,
        Err(e) => {
            return Err(e);
        },
    };
    let d5 = match digit_at(s, 5) {
        Ok(v) => v,
        Err(e) => {
            return Err(e);
        },
    };
    let d6 = match digit_at(s, 6) {
        Ok(v) => v,
        Err(e) => {
            return Err(e);
        },
    };
    let d8 = match digit_at(s, 8) {
        Ok(v) => v,
        Err(e) => {
            return Err(e);
        },
    };
    let d9 = match digit_at(s, 9) {
        Ok(v) => v,
        Err(e) => {
            return Err(e);
        },
    };
    let year = d0 * 1000 + d1 * 100 + d2 * 10 + d3;
    let month = d5 * 10 + d6;
    let day = d8 * 10 + d9;
    if year < 1 || month < 1 || month > 12 || day < 1 || day > days_in_month(year, month) {
        return Err(ParseError);
    }
    Ok(CalendarDate { year, month, day })
}

/// Read the character at `i` as a decimal digit, or fail.
fn digit_at(s: &str, i: usize) -> (r: Result<u32, ParseError>)
    requires
        i < s@.len(),
    ensures
        match r {
            Ok(v) => is_digit_char(s@[i as int]) && v == digit_val(s@[i as int]) && v <= 9,
            Err(_) => !is_digit_char(s@[i as int]),
        },
{
    let c = s.get_char(i);
    let v = c as u32;
    if v < 48 || v > 57 {
        Err(ParseError)
    } else {
        Ok(v - 48)
    }
}

/// A number up to 99 is recomposed exactly from its two decimal digits.
proof fn lemma_two_digit_decomp(n: int)
    requires
        0 <= n <= 99,
    ensures
        (n / 10) * 10 + n % 10 == n,
        0 <= n / 10 <= 9,
        0 <= n % 10 <= 9,
{
    lemma_fundamental_div_mod(n, 10);
    lemma_div_is_ordered(n, 99, 10);
}

/// A number up to 9999 is recomposed exactly from its four decimal digits.
proof fn lemma_four_digit_decomp(n: int)
    requires
        0 <= n <= 9999,
    ensures
        (n / 1000) * 1000 + (n / 100 % 10) * 100 + (n / 10 % 10) * 10 + n % 10 == n,
        0 <= n / 1000 <= 9,
        0 <= n / 100 % 10 <= 9,
        0 <= n / 10 % 10 <= 9,
        0 <= n % 10 <= 9,
{
    lemma_fundamental_div_mod(n, 10);
    lemma_fundamental_div_mod(n / 10, 10);
    lemma_fundamental_div_mod(n / 100, 10);
    lemma_div_denominator(n, 10, 10);
    lemma_div_denominator(n, 100, 10);
    lemma_div_is_ordered(n, 9999, 1000);
}

/// Formatting a well-formed date and parsing the result yields the same
/// date back: the ISO round trip is exact.
pub proof fn lemma_iso_round_trip(d: CalendarDate)
    requires
        d.wf(),
    ensures
        spec_parse_iso(d.iso_view()) == Some(d),
{
    let s = d.iso_view();
    let y = d.year as int;
    let m = d.month as int;
    let dd = d.day as int;
    lemma_four_digit_decomp(y);
    lemma_two_digit_decomp(m);
    lemma_two_digit_decomp(dd);
    assert(s.len() == 10);
    assert(s[0] == digit_char(y / 1000));
    assert(s[1] == digit_char(y / 100 % 10));
    assert(s[2] == digit_char(y / 10 % 10));
    assert(s[3] == digit_char(y % 10));
    assert(s[4] == '-');
    assert(s[5] == digit_char(m / 10));
    assert(s[6] == digit_char(m % 10));
    assert(s[7] == '-');
    assert(s[8] == digit_char(dd / 10));
    assert(s[9] == digit_char(dd % 10));
    assert(digit_val(s[0]) * 1000 + digit_val(s[1]) * 100 + digit_val(s[2]) * 10 + digit_val(s[3])
        == y);
    assert(digit_val(s[5]) * 10 + digit_val(s[6]) == m);
    assert(digit_val(s[8]) * 10 + digit_val(s[9]) == dd);
}

} // verus!
