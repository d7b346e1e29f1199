//! Calendar dates as plain year/month/day values, with Gregorian validity,
//! a total order, and parsing of the `YYYY-MM-DD` text form.

use vstd::prelude::*;

use crate::csv_data::chars_to_string;
use crate::text::{all_digits, digit_val, digits_val, is_digit, lemma_digits_val_bound,
    lemma_pow10_small, read_digits};

verus! {

/// Whether `y` is a leap year in the proleptic Gregorian calendar.
pub open spec fn is_leap_year(y: int) -> bool {
    (y % 4 == 0 && y % 100 != 0) || y % 400 == 0
}

/// Number of days in month `m` of year `y` (for `1 <= m <= 12`).
pub open spec fn days_in_month(y: int, m: int) -> int {
    if m == 2 {
        if is_leap_year(y) {
            29
        } else {
            28
        }
    } else if m == 4 || m == 6 || m == 9 || m == 11 {
        30
    } else {
        31
    }
}

/// A calendar date (no time of day), limited to four-digit years.
#[derive(Clone, Copy, Debug, PartialEq, Eq, Structural)]
pub struct Date {
    pub year: u16,
    pub month: u8,
    pub day: u8,
}

impl Date {
    /// A real date of the Gregorian calendar with a four-digit year.
    pub open spec fn wf(self) -> bool {
        &&& self.year <= 9999
        &&& 1 <= self.month <= 12
        &&& 1 <= self.day <= days_in_month(self.year as int, self.month as int)
    }

    /// Order key: dates compare by year, then month, then day.
    pub open spec fn key(self) -> int {
        self.year * 10000 + self.month * 100 + self.day
    }
}

/// `a.key() <= b.key()`, i.e. `a` is no later than `b`.
pub fn date_le(a: &Date, b: &Date) -> (r: bool)
    ensures
        r == (a.key() <= b.key()),
{
    let ak: u32 = (a.year as u32) * 10000 + (a.month as u32) * 100 + (a.day as u32);
    let bk: u32 = (b.year as u32) * 10000 + (b.month as u32) * 100 + (b.day as u32);
    ak <= bk
}

/// `parse_date(s)` is the date written as `YYYY-MM-DD` in `s`, if `s` has
/// exactly that shape and the date is a real one.
pub open spec fn parse_date(s: Seq<char>) -> Option<Date> {
    if s.len() == 10 && s[4] == '-' && s[7] == '-' && all_digits(s.subrange(0, 4)) && all_digits(
        s.subrange(5, 7),
    ) && all_digits(s.subrange(8, 10)) {
        let d = Date {
            year: digits_val(s.subrange(0, 4)) as u16,
            month: digits_val(s.subrange(5, 7)) as u8,
            day: digits_val(s.subrange(8, 10)) as u8,
        };
        if d.wf() {
            Some(d)
        } else {
            None
        }
    } else {
        None
    }
}

/// Parses `YYYY-MM-DD`; returns the date exactly when `parse_date` gives one.
pub fn parse_date_chars(s: &Vec<char>) -> (r: Option<Date>)
    ensures
        r == parse_date(s@),
        r is Some ==> r.unwrap().wf(),
{
    if s.len() != 10 {
        return None;
    }
    if s[4] != '-' || s[7] != '-' {
        return None;
    }
    let y = match read_digits(s, 0, 4) {
        Some(v) => v,
        None => {
            return None;
        },
    };
    let m = match read_digits(s, 5, 2) {
        Some(v) => v,
        None => {
            return None;
        },
    };
    let d = match read_digits(s, 8, 2) {
        Some(v) => v,
        None => {
            return None;
        },
    };
    proof {
        lemma_digits_val_bound(s@.subrange(0, 4));
        lemma_digits_val_bound(s@.subrange(5, 7));
        lemma_digits_val_bound(s@.subrange(8, 10));
        lemma_pow10_small();
    }
    let date = Date { year: y as u16, month: m as u8, day: d as u8 };
    if date.month < 1 || date.month > 12 {
        return None;
    }
    let dim = days_in_month_exec(date.year, date.month);
    if date.day < 1 || date.day > dim {
        return None;
    }
    Some(date)
}

/// `days_in_month` as executable code (for `1 <= m <= 12`).
pub fn days_in_month_exec(y: u16, m: u8) -> (r: u8)
    requires
        1 <= m <= 12,
    ensures
        r == days_in_month(y as int, m as int),
{
    if m == 2 {
        if (y % 4 == 0 && y % 100 != 0) || y % 400 == 0 {
            29
        } else {
            28
        }
    } else if m == 4 || m == 6 || m == 9 || m == 11 {
        30
    } else {
        31
    }
}


/// The digit character for `x`.
fn digit_char(x: u16) -> (c: char)
    requires
        x < 10,
    ensures
        is_digit(c),
        digit_val(c) == x,
{
    (48 + x as u8) as char
}

/// The canonical `YYYY-MM-DD` text of a date; parsing it gives the date
/// back.
pub fn date_to_text(d: &Date) -> (r: String)
    requires
        d.wf(),
    ensures
        parse_date(r@) == Some(*d),
{
    let y = d.year;
    let mo = d.month as u16;
    let dy = d.day as u16;
    let mut v: Vec<char> = Vec::new();
    v.push(digit_char(y / 1000));
    v.push(digit_char((y / 100) % 10));
    v.push(digit_char((y / 10) % 10));
    v.push(digit_char(y % 10));
    v.push('-');
    v.push(digit_char(mo / 10));
    v.push(digit_char(mo % 10));
    v.push('-');
    v.push(digit_char(dy / 10));
    v.push(digit_char(dy % 10));
    proof {
        let s = v@;
        assert(s.len() == 10);
        let ys = s.subrange(0, 4);
        let ms = s.subrange(5, 7);
        let ds = s.subrange(8, 10);
        assert(all_digits(ys)) by {
            assert(is_digit(ys[0]) && is_digit(ys[1]) && is_digit(ys[2]) && is_digit(ys[3]));
        }
        assert(all_digits(ms)) by {
            assert(is_digit(ms[0]) && is_digit(ms[1]));
        }
        assert(all_digits(ds)) by {
            assert(is_digit(ds[0]) && is_digit(ds[1]));
        }
        assert(digits_val(ys) == y) by {
            lemma_digits_val4(ys);
            assert((y / 1000) * 1000 + ((y / 100) % 10) * 100 + ((y / 10) % 10) * 10 + y % 10
                == y) by (nonlinear_arith)
                requires
                    y < 10000,
            ;
        }
        assert(digits_val(ms) == mo) by {
            lemma_digits_val2(ms);
            assert((mo / 10) * 10 + mo % 10 == mo) by (nonlinear_arith)
                requires
                    mo < 100,
            ;
        }
        assert(digits_val(ds) == dy) by {
            lemma_digits_val2(ds);
            assert((dy / 10) * 10 + dy % 10 == dy) by (nonlinear_arith)
                requires
                    dy < 100,
            ;
        }
        assert(parse_date(s) == Some(*d));
    }
    chars_to_string(&v)
}

/// `digits_val` of a four-character string, unfolded.
proof fn lemma_digits_val4(s: Seq<char>)
    requires
        s.len() == 4,
    ensures
        digits_val(s) == ((digit_val(s[0]) * 10 + digit_val(s[1])) * 10 + digit_val(s[2])) * 10
            + digit_val(s[3]),
{
    assert(s.drop_last().drop_last().drop_last() =~= s.subrange(0, 1));
    assert(s.drop_last().drop_last() =~= s.subrange(0, 2));
    assert(s.drop_last() =~= s.subrange(0, 3));
    assert(digits_val(s.subrange(0, 1)) == digit_val(s[0])) by {
        assert(s.subrange(0, 1).drop_last() =~= Seq::<char>::empty());
        assert(digits_val(Seq::<char>::empty()) == 0);
        assert(s.subrange(0, 1).last() == s[0]);
    }
    assert(digits_val(s.subrange(0, 2)) == digit_val(s[0]) * 10 + digit_val(s[1])) by {
        assert(s.subrange(0, 2).drop_last() =~= s.subrange(0, 1));
    }
    assert(digits_val(s.subrange(0, 3)) == (digit_val(s[0]) * 10 + digit_val(s[1])) * 10
        + digit_val(s[2])) by {
        assert(s.subrange(0, 3).drop_last() =~= s.subrange(0, 2));
    }
}

/// `digits_val` of a two-character string, unfolded.
proof fn lemma_digits_val2(s: Seq<char>)
    requires
        s.len() == 2,
    ensures
        digits_val(s) == digit_val(s[0]) * 10 + digit_val(s[1]),
{
    assert(s.drop_last() =~= s.subrange(0, 1));
    assert(digits_val(s.subrange(0, 1)) == digit_val(s[0])) by {
        assert(s.subrange(0, 1).drop_last() =~= Seq::<char>::empty());
        assert(digits_val(Seq::<char>::empty()) == 0);
        assert(s.subrange(0, 1).last() == s[0]);
    }
}

} // verus!
