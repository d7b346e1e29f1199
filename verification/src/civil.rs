//! Civil date-times (no UTC offset) to the microsecond, parsing of the
//! `YYYY-MM-DD HH:MM:SS.ffffff` text form, and their resolution to UTC
//! instants in the US Pacific time zone: the single instant where the civil
//! time is unambiguous, the later instant during a fall-back fold, and no
//! instant at all inside a spring-forward gap.

use vstd::prelude::*;

use crate::date::{parse_date, parse_date_chars, Date};
use crate::text::{all_digits, digits_val, lemma_digits_val_bound, lemma_pow10_adds,
    lemma_pow10_small, pow10, read_digits};

verus! {

/// A civil date-time: a calendar date and a time of day to the microsecond.
#[derive(Clone, Copy, Debug, PartialEq, Eq, Structural)]
pub struct CivilDateTime {
    pub date: Date,
    pub hour: u8,
    pub minute: u8,
    pub second: u8,
    pub micro: u32,
}

impl CivilDateTime {
    pub open spec fn wf(self) -> bool {
        &&& self.date.wf()
        &&& self.hour < 24
        &&& self.minute < 60
        &&& self.second < 60
        &&& self.micro < 1000000
    }

    /// The UTC instants this civil time denotes in the US Pacific zone.
    pub open spec fn instants(self) -> Seq<int> {
        pacific_instants(
            self.date.year as int,
            self.date.month as int,
            self.date.day as int,
            self.hour as int,
            self.minute as int,
            self.second as int,
            self.micro as int,
        )
    }
}

/// The UTC instants (as microseconds since the Unix epoch, in ascending
/// order) that the civil time `y-mo-d h:mi:s.us` denotes in the US Pacific
/// time zone: one where the zone maps it uniquely, two during a fall-back
/// fold, none inside a spring-forward gap.
pub uninterp spec fn pacific_instants(
    y: int,
    mo: int,
    d: int,
    h: int,
    mi: int,
    s: int,
    us: int,
) -> Seq<int>;

/// How the US Pacific zone maps one civil time to UTC instants
/// (microseconds since the Unix epoch).
pub enum LocalResolution {
    /// Exactly one instant.
    Unique(i64),
    /// A fall-back fold: the earlier and the later instant, in that order.
    Ambiguous(i64, i64),
    /// A spring-forward gap: no instant.
    Nonexistent,
}

/// Relies on chrono's `NaiveDateTime::and_local_timezone` with
/// `chrono_tz::US::Pacific`, whose `MappedLocalTime` result is `Single` for
/// a uniquely mapped civil time, `Ambiguous(earliest, latest)` in a
/// fall-back fold, and `None` in a spring-forward gap, and on
/// `DateTime::timestamp_micros` for the instant in microseconds. The zone
/// tables are fixed data of the crate, so the result is a function of the
/// civil time alone, named `pacific_instants`.
#[verifier::external_body]
fn pacific_lookup(c: &CivilDateTime) -> (r: LocalResolution)
    requires
        c.wf(),
    ensures
        ({
            let inst = pacific_instants(
                c.date.year as int,
                c.date.month as int,
                c.date.day as int,
                c.hour as int,
                c.minute as int,
                c.second as int,
                c.micro as int,
            );
            match r {
                LocalResolution::Unique(t) => inst == seq![t as int],
                LocalResolution::Ambiguous(a, b) => a < b && inst == seq![a as int, b as int],
                LocalResolution::Nonexistent => inst == Seq::<int>::empty(),
            }
        }),
{
    let naive = chrono::NaiveDate::from_ymd_opt(c.date.year as i32, c.date.month as u32, c.date.day as u32)
        .and_then(|d| d.and_hms_micro_opt(c.hour as u32, c.minute as u32, c.second as u32, c.micro));
    match naive.map(|n| n.and_local_timezone(chrono_tz::US::Pacific)) {
        Some(chrono::MappedLocalTime::Single(t)) => LocalResolution::Unique(t.timestamp_micros()),
        Some(chrono::MappedLocalTime::Ambiguous(a, b)) => {
            LocalResolution::Ambiguous(a.timestamp_micros(), b.timestamp_micros())
        },
        _ => LocalResolution::Nonexistent,
    }
}

/// The instant this pipeline picks from a zone mapping: the single instant,
/// the later one of a fold, and none for a gap.
pub fn choose_later(r: &LocalResolution) -> (out: Option<i64>)
    ensures
        match *r {
            LocalResolution::Unique(t) => out == Some(t),
            LocalResolution::Ambiguous(_, l) => out == Some(l),
            LocalResolution::Nonexistent => out is None,
        },
{
    match r {
        LocalResolution::Unique(t) => Some(*t),
        LocalResolution::Ambiguous(_, l) => Some(*l),
        LocalResolution::Nonexistent => None,
    }
}

/// Resolves a civil time against the US Pacific zone: the last (hence, in a
/// fold, the later) of its instants; `None` exactly in a gap.
pub fn resolve_pacific(c: &CivilDateTime) -> (r: Option<i64>)
    requires
        c.wf(),
    ensures
        match r {
            Some(t) => c.instants().len() > 0 && t == c.instants().last(),
            None => c.instants().len() == 0,
        },
{
    let looked = pacific_lookup(c);
    choose_later(&looked)
}

/// `parse_civil(s)` is the civil time written as
/// `YYYY-MM-DD HH:MM:SS.ffffff`, with one to six fractional digits, if `s`
/// has exactly that shape and date and time of day are real.
pub open spec fn parse_civil(s: Seq<char>) -> Option<CivilDateTime> {
    if 21 <= s.len() <= 26 && s[10] == ' ' && s[13] == ':' && s[16] == ':' && s[19] == '.'
        && parse_date(s.subrange(0, 10)) is Some && all_digits(s.subrange(11, 13)) && all_digits(
        s.subrange(14, 16),
    ) && all_digits(s.subrange(17, 19)) && all_digits(s.subrange(20, s.len() as int)) {
        let c = CivilDateTime {
            date: parse_date(s.subrange(0, 10)).unwrap(),
            hour: digits_val(s.subrange(11, 13)) as u8,
            minute: digits_val(s.subrange(14, 16)) as u8,
            second: digits_val(s.subrange(17, 19)) as u8,
            micro: (digits_val(s.subrange(20, s.len() as int)) * pow10((26 - s.len()) as nat)) as u32,
        };
        if c.hour < 24 && c.minute < 60 && c.second < 60 {
            Some(c)
        } else {
            None
        }
    } else {
        None
    }
}

/// Parses `YYYY-MM-DD HH:MM:SS.ffffff`, matching `parse_civil` exactly.
pub fn parse_civil_chars(s: &Vec<char>) -> (r: Option<CivilDateTime>)
    ensures
        r == parse_civil(s@),
        r is Some ==> r.unwrap().wf(),
{
    if s.len() < 21 || s.len() > 26 {
        return None;
    }
    if s[10] != ' ' || s[13] != ':' || s[16] != ':' || s[19] != '.' {
        return None;
    }
    let mut datepart: Vec<char> = Vec::new();
    let mut i: usize = 0;
    while i < 10
        invariant
            i <= 10,
            s.len() >= 21,
            datepart@ =~= s@.subrange(0, i as int),
        decreases 10 - i,
    {
        datepart.push(s[i]);
        i = i + 1;
    }
    proof {
        assert(datepart@ =~= s@.subrange(0, 10));
    }
    let date = match parse_date_chars(&datepart) {
        Some(d) => d,
        None => {
            return None;
        },
    };
    let hour = match read_digits(s, 11, 2) {
        Some(v) => v,
        None => {
            return None;
        },
    };
    let minute = match read_digits(s, 14, 2) {
        Some(v) => v,
        None => {
            return None;
        },
    };
    let second = match read_digits(s, 17, 2) {
        Some(v) => v,
        None => {
            return None;
        },
    };
    let fraclen = s.len() - 20;
    let frac = match read_digits(s, 20, fraclen) {
        Some(v) => v,
        None => {
            return None;
        },
    };
    proof {
        lemma_digits_val_bound(s@.subrange(11, 13));
        lemma_digits_val_bound(s@.subrange(14, 16));
        lemma_digits_val_bound(s@.subrange(17, 19));
        lemma_digits_val_bound(s@.subrange(20, s@.len() as int));
        lemma_pow10_small();
        lemma_pow10_adds((fraclen) as nat, (6 - fraclen) as nat);
        lemma_mul_lt(
            digits_val(s@.subrange(20, s@.len() as int)),
            pow10(fraclen as nat),
            pow10((6 - fraclen) as nat),
        );
    }
    let scale = pow10_u32(6 - (fraclen as u32));
    let micro = frac * scale;
    let c = CivilDateTime {
        date,
        hour: hour as u8,
        minute: minute as u8,
        second: second as u8,
        micro,
    };
    if c.hour >= 24 || c.minute >= 60 || c.second >= 60 {
        return None;
    }
    Some(c)
}

/// `10^n` as a `u32`, for `n <= 9`.
fn pow10_u32(n: u32) -> (r: u32)
    requires
        n <= 9,
    ensures
        r == pow10(n as nat),
{
    proof {
        lemma_pow10_small();
    }
    let mut i: u32 = 0;
    let mut acc: u32 = 1;
    while i < n
        invariant
            i <= n <= 9,
            acc == pow10(i as nat),
            acc <= 1000000000,
        decreases n - i,
    {
        proof {
            lemma_pow10_small();
            crate::text::lemma_pow10_le((i + 1) as nat, 9);
        }
        acc = acc * 10;
        i = i + 1;
    }
    acc
}

/// If `0 <= x < a` and `0 < b`, then `x * b < a * b`.
proof fn lemma_mul_lt(x: int, a: int, b: int)
    requires
        0 <= x < a,
        0 < b,
    ensures
        0 <= x * b,
        x * b <= (a - 1) * b,
        x * b < a * b,
{
    assert(0 <= x * b && x * b <= (a - 1) * b && x * b < a * b) by (nonlinear_arith)
        requires
            0 <= x < a,
            0 < b,
    ;
}

} // verus!
