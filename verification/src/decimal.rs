//! Exact decimal numbers for the normalized concentration column: a sign, an
//! integer mantissa and a power-of-ten scale, parsed from the text form and
//! subtracted exactly for trend differences.

use vstd::prelude::*;

use crate::csv_data::chars_to_string;
use crate::text::{all_digits, digit_val, digits_val, find_char, find_char_exec, is_digit,
    lemma_digits_val_bound, lemma_find_char, lemma_pow10_adds, lemma_pow10_le, lemma_pow10_pos,
    lemma_pow10_small, pow10};

verus! {

/// Most digits a parsed number may have; keeps all arithmetic inside `u128`.
pub const MAX_DIGITS: usize = 18;

/// A decimal number `(-1)^negative * mantissa / 10^scale`.
#[derive(Clone, Copy, Debug, PartialEq, Eq, Structural)]
pub struct Decimal {
    pub negative: bool,
    pub mantissa: u128,
    pub scale: u32,
}

impl Decimal {
    /// The signed mantissa; the number itself is `num() / 10^scale`.
    pub open spec fn num(self) -> int {
        if self.negative {
            -(self.mantissa as int)
        } else {
            self.mantissa as int
        }
    }

    /// Well-formed: the scale and mantissa stay within `u128` arithmetic.
    pub open spec fn wf(self) -> bool {
        self.scale <= MAX_DIGITS && self.mantissa < pow10(37)
    }

    /// Freshly parsed: at most `MAX_DIGITS` digits in the mantissa.
    pub open spec fn compact(self) -> bool {
        self.scale <= MAX_DIGITS && self.mantissa < pow10(MAX_DIGITS as nat)
    }
}

/// Powers of ten needed by the decimal arithmetic.
pub proof fn lemma_pow10_large()
    ensures
        pow10(18) == 1000000000000000000,
        pow10(36) == pow10(18) * pow10(18),
        pow10(37) == 10 * pow10(36),
        pow10(38) == 10 * pow10(37),
        pow10(36) < pow10(37) < pow10(38) < u128::MAX,
{
    lemma_pow10_small();
    lemma_pow10_adds(9, 9);
    assert(pow10(18) == 1000000000 * 1000000000);
    lemma_pow10_adds(18, 18);
    assert(pow10(37) == 10 * pow10(36));
    assert(pow10(38) == 10 * pow10(37));
    assert(pow10(18) * pow10(18) == 1000000000000000000 * 1000000000000000000);
    assert(1000000000000000000 * 1000000000000000000
        == 1000000000000000000000000000000000000) by (nonlinear_arith);
}

/// `10^n` as a `u128`, for `n <= 37`.
pub fn pow10_u128(n: u32) -> (r: u128)
    requires
        n <= 37,
    ensures
        r == pow10(n as nat),
{
    let mut i: u32 = 0;
    let mut acc: u128 = 1;
    while i < n
        invariant
            i <= n <= 37,
            acc == pow10(i as nat),
        decreases n - i,
    {
        proof {
            lemma_pow10_le((i + 1) as nat, 38);
            lemma_pow10_large();
        }
        acc = acc * 10;
        i = i + 1;
    }
    acc
}

/// `parse_decimal(s)` is the number written in `s` as an optional sign,
/// one or more integer digits, and an optional point with one or more
/// fractional digits — at most `MAX_DIGITS` digits in all.
pub open spec fn parse_decimal(s: Seq<char>) -> Option<Decimal> {
    if s.len() > 0 && (s[0] == '-' || s[0] == '+') {
        parse_unsigned(s.drop_first(), s[0] == '-')
    } else {
        parse_unsigned(s, false)
    }
}

pub open spec fn parse_unsigned(s: Seq<char>, negative: bool) -> Option<Decimal> {
    let intpart = match find_char(s, '.') {
        Some(i) => s.subrange(0, i),
        None => s,
    };
    let fracpart = match find_char(s, '.') {
        Some(i) => s.subrange(i + 1, s.len() as int),
        None => Seq::<char>::empty(),
    };
    if intpart.len() >= 1 && all_digits(intpart) && (find_char(s, '.') is Some ==> fracpart.len()
        >= 1) && all_digits(fracpart) && intpart.len() + fracpart.len() <= MAX_DIGITS {
        Some(
            Decimal {
                negative,
                mantissa: digits_val(intpart + fracpart) as u128,
                scale: fracpart.len() as u32,
            },
        )
    } else {
        None
    }
}

/// Reads the digits of `s` left to right, skipping the single point at
/// `dot` when there is one, as one mantissa.
fn read_mantissa(s: &Vec<char>, dot: Option<usize>) -> (r: Option<u128>)
    requires
        match dot {
            Some(i) => find_char(s@, '.') == Some(i as int),
            None => find_char(s@, '.') is None,
        },
    ensures
        ({
            let intpart = match find_char(s@, '.') {
                Some(i) => s@.subrange(0, i),
                None => s@,
            };
            let fracpart = match find_char(s@, '.') {
                Some(i) => s@.subrange(i + 1, s@.len() as int),
                None => Seq::<char>::empty(),
            };
            match r {
                Some(v) => all_digits(intpart) && all_digits(fracpart) && intpart.len()
                    + fracpart.len() <= MAX_DIGITS && v == digits_val(intpart + fracpart),
                None => !(all_digits(intpart) && all_digits(fracpart) && intpart.len()
                    + fracpart.len() <= MAX_DIGITS),
            }
        }),
{
    proof {
        lemma_find_char(s@, '.');
    }
    let ghost gdot: Option<int> = match dot {
        Some(i) => Some(i as int),
        None => None,
    };
    let ghost intpart = match find_char(s@, '.') {
        Some(i) => s@.subrange(0, i),
        None => s@,
    };
    let ghost fracpart = match find_char(s@, '.') {
        Some(i) => s@.subrange(i + 1, s@.len() as int),
        None => Seq::<char>::empty(),
    };
    let ghost digits = intpart + fracpart;
    let mut i: usize = 0;
    let mut count: usize = 0;
    let mut acc: u128 = 0;
    while i < s.len()
        invariant
            i <= s.len(),
            count <= i,
            match dot {
                Some(k) => find_char(s@, '.') == Some(k as int) && k < s@.len() && s@[k as int]
                    == '.',
                None => find_char(s@, '.') is None,
            },
            gdot == (match dot {
                Some(k) => Some(k as int),
                None => None::<int>,
            }),
            intpart == (match find_char(s@, '.') {
                Some(k) => s@.subrange(0, k),
                None => s@,
            }),
            fracpart == (match find_char(s@, '.') {
                Some(k) => s@.subrange(k + 1, s@.len() as int),
                None => Seq::<char>::empty(),
            }),
            digits == intpart + fracpart,
            match gdot {
                Some(k) => (i > k ==> count == i - 1) && (i <= k ==> count == i),
                None => count == i,
            },
            all_digits(digits.subrange(0, count as int)),
            acc == digits_val(digits.subrange(0, count as int)),
            count <= MAX_DIGITS,
            acc < pow10(count as nat),
            match gdot {
                Some(k) => (i > k ==> digits.subrange(0, count as int) =~= s@.subrange(0, k)
                    + s@.subrange(k + 1, i as int)) && (i <= k ==> digits.subrange(0, count as int)
                    =~= s@.subrange(0, i as int)),
                None => digits.subrange(0, count as int) =~= s@.subrange(0, i as int),
            },
        decreases s.len() - i,
    {
        let at_dot: bool = match dot {
            Some(d) => i == d,
            None => false,
        };
        if at_dot {
            i = i + 1;
            continue ;
        }
        let c = s[i];
        let cu = c as u32;
        if cu < 48 || cu > 57 {
            proof {
                lemma_not_all_digits(s@, intpart, fracpart, gdot, i as int);
            }
            return None;
        }
        if count == MAX_DIGITS {
            proof {
                lemma_too_many_digits(s@, intpart, fracpart, gdot, i as int, count as int);
            }
            return None;
        }
        proof {
            lemma_digit_step(s@, intpart, fracpart, digits, gdot, i as int, count as int, c);
            lemma_pow10_le((count + 1) as nat, MAX_DIGITS as nat);
            lemma_pow10_le(MAX_DIGITS as nat, 37);
            lemma_pow10_large();
        }
        acc = acc * 10 + ((cu - 48) as u128);
        count = count + 1;
        i = i + 1;
    }
    proof {
        lemma_end_state(s@, intpart, fracpart, digits, gdot, count as int);
    }
    Some(acc)
}

proof fn lemma_not_all_digits(
    s: Seq<char>,
    intpart: Seq<char>,
    fracpart: Seq<char>,
    dot: Option<int>,
    i: int,
)
    requires
        0 <= i < s.len(),
        match dot {
            Some(k) => find_char(s, '.') == Some(k) && i != k,
            None => find_char(s, '.') is None,
        },
        intpart == (match find_char(s, '.') {
            Some(k) => s.subrange(0, k),
            None => s,
        }),
        fracpart == (match find_char(s, '.') {
            Some(k) => s.subrange(k + 1, s.len() as int),
            None => Seq::<char>::empty(),
        }),
        !is_digit(s[i]),
    ensures
        !(all_digits(intpart) && all_digits(fracpart)),
{
    lemma_find_char(s, '.');
    match dot {
        Some(k) => {
            if i < k {
                assert(intpart[i] == s[i]);
                assert(!is_digit(intpart[i]));
            } else {
                assert(i > k);
                assert(fracpart[i - k - 1] == s[i]);
                assert(!is_digit(fracpart[i - k - 1]));
            }
        },
        None => {
            assert(!is_digit(intpart[i]));
        },
    }
}

proof fn lemma_too_many_digits(
    s: Seq<char>,
    intpart: Seq<char>,
    fracpart: Seq<char>,
    dot: Option<int>,
    i: int,
    count: int,
)
    requires
        0 <= i < s.len(),
        match dot {
            Some(k) => find_char(s, '.') == Some(k) && i != k,
            None => find_char(s, '.') is None,
        },
        intpart == (match find_char(s, '.') {
            Some(k) => s.subrange(0, k),
            None => s,
        }),
        fracpart == (match find_char(s, '.') {
            Some(k) => s.subrange(k + 1, s.len() as int),
            None => Seq::<char>::empty(),
        }),
        count == MAX_DIGITS,
        match dot {
            Some(k) => (i > k ==> count == i - 1) && (i <= k ==> count == i),
            None => count == i,
        },
    ensures
        intpart.len() + fracpart.len() > MAX_DIGITS,
{
    lemma_find_char(s, '.');
    match dot {
        Some(k) => {
            if i <= k {
                assert(intpart.len() >= i + 1);
            } else {
                assert(intpart.len() == k);
                assert(fracpart.len() == s.len() - k - 1 >= i - k);
            }
        },
        None => {
            assert(intpart.len() == s.len() >= i + 1);
        },
    }
}

proof fn lemma_digit_step(
    s: Seq<char>,
    intpart: Seq<char>,
    fracpart: Seq<char>,
    digits: Seq<char>,
    dot: Option<int>,
    i: int,
    count: int,
    c: char,
)
    requires
        0 <= i < s.len(),
        0 <= count,
        match dot {
            Some(k) => find_char(s, '.') == Some(k) && i != k,
            None => find_char(s, '.') is None,
        },
        intpart == (match find_char(s, '.') {
            Some(k) => s.subrange(0, k),
            None => s,
        }),
        fracpart == (match find_char(s, '.') {
            Some(k) => s.subrange(k + 1, s.len() as int),
            None => Seq::<char>::empty(),
        }),
        digits == intpart + fracpart,
        s[i] == c,
        match dot {
            Some(k) => (i > k ==> count == i - 1 && digits.subrange(0, count) =~= s.subrange(0, k)
                + s.subrange(k + 1, i)) && (i < k ==> count == i && digits.subrange(0, count)
                =~= s.subrange(0, i)),
            None => count == i && digits.subrange(0, count) =~= s.subrange(0, i),
        },
    ensures
        count < digits.len(),
        digits[count] == c,
        digits.subrange(0, count + 1).drop_last() =~= digits.subrange(0, count),
        digits.subrange(0, count + 1).last() == c,
        all_digits(digits.subrange(0, count + 1)) <==> all_digits(digits.subrange(0, count))
            && is_digit(c),
        match dot {
            Some(k) => (i + 1 > k ==> digits.subrange(0, count + 1) =~= s.subrange(0, k)
                + s.subrange(k + 1, i + 1)) && (i + 1 <= k ==> digits.subrange(0, count + 1)
                =~= s.subrange(0, i + 1)),
            None => digits.subrange(0, count + 1) =~= s.subrange(0, i + 1),
        },
{
    lemma_find_char(s, '.');
    match dot {
        Some(k) => {
            if i < k {
                assert(intpart.len() == k);
                assert(digits[count] == intpart[i]);
                assert(intpart[i] == s[i]);
            } else {
                assert(intpart.len() == k);
                assert(count == k + (i - k - 1));
                assert(digits[count] == fracpart[i - k - 1]);
                assert(fracpart[i - k - 1] == s[i]);
            }
        },
        None => {
            assert(digits[count] == s[i]);
        },
    }
    let pre = digits.subrange(0, count);
    let post = digits.subrange(0, count + 1);
    assert(post.drop_last() =~= pre);
    assert(post.last() == digits[count]);
    assert(all_digits(post) <==> all_digits(pre) && is_digit(c)) by {
        if all_digits(pre) && is_digit(c) {
            assert forall|j: int| 0 <= j < post.len() implies is_digit(post[j]) by {
                if j < count {
                    assert(post[j] == pre[j]);
                }
            }
        }
        if all_digits(post) {
            assert forall|j: int| 0 <= j < pre.len() implies is_digit(pre[j]) by {
                assert(post[j] == pre[j]);
            }
            assert(is_digit(post[count]));
        }
    }
}

proof fn lemma_end_state(
    s: Seq<char>,
    intpart: Seq<char>,
    fracpart: Seq<char>,
    digits: Seq<char>,
    dot: Option<int>,
    count: int,
)
    requires
        match dot {
            Some(k) => find_char(s, '.') == Some(k) && (s.len() > k ==> count == s.len() - 1) && (
            s.len() <= k ==> count == s.len()),
            None => find_char(s, '.') is None && count == s.len(),
        },
        intpart == (match find_char(s, '.') {
            Some(k) => s.subrange(0, k),
            None => s,
        }),
        fracpart == (match find_char(s, '.') {
            Some(k) => s.subrange(k + 1, s.len() as int),
            None => Seq::<char>::empty(),
        }),
        digits == intpart + fracpart,
        count <= MAX_DIGITS,
        all_digits(digits.subrange(0, count)),
    ensures
        digits.subrange(0, count) =~= digits,
        all_digits(intpart),
        all_digits(fracpart),
        intpart.len() + fracpart.len() <= MAX_DIGITS,
        digits_val(digits.subrange(0, count)) == digits_val(intpart + fracpart),
{
    lemma_find_char(s, '.');
    assert(digits.subrange(0, count) =~= digits);
    assert(all_digits(digits));
    assert forall|j: int| 0 <= j < intpart.len() implies is_digit(intpart[j]) by {
        assert(digits[j] == intpart[j]);
    }
    assert forall|j: int| 0 <= j < fracpart.len() implies is_digit(fracpart[j]) by {
        assert(digits[intpart.len() + j] == fracpart[j]);
    }
}

/// Parses an optionally signed decimal, matching `parse_decimal` exactly.
pub fn parse_decimal_chars(s: &Vec<char>) -> (r: Option<Decimal>)
    ensures
        r == parse_decimal(s@),
        r is Some ==> r.unwrap().compact(),
{
    let (negative, rest): (bool, Vec<char>) = if s.len() > 0 && (s[0] == '-' || s[0] == '+') {
        let mut v: Vec<char> = Vec::new();
        let mut i: usize = 1;
        while i < s.len()
            invariant
                1 <= i <= s.len(),
                v@ =~= s@.subrange(1, i as int),
            decreases s.len() - i,
        {
            v.push(s[i]);
            i = i + 1;
        }
        proof {
            assert(v@ =~= s@.drop_first());
        }
        (s[0] == '-', v)
    } else {
        let mut v: Vec<char> = Vec::new();
        let mut i: usize = 0;
        while i < s.len()
            invariant
                i <= s.len(),
                v@ =~= s@.subrange(0, i as int),
            decreases s.len() - i,
        {
            v.push(s[i]);
            i = i + 1;
        }
        proof {
            assert(v@ =~= s@);
        }
        (false, v)
    };
    let r = parse_unsigned_chars(&rest, negative);
    r
}

/// Parses an unsigned decimal, matching `parse_unsigned` exactly.
fn parse_unsigned_chars(s: &Vec<char>, negative: bool) -> (r: Option<Decimal>)
    ensures
        r == parse_unsigned(s@, negative),
        r is Some ==> r.unwrap().compact(),
{
    proof {
        lemma_find_char(s@, '.');
    }
    let dot = find_char_exec(s, '.');
    let ghost intpart = match find_char(s@, '.') {
        Some(k) => s@.subrange(0, k),
        None => s@,
    };
    let ghost fracpart = match find_char(s@, '.') {
        Some(k) => s@.subrange(k + 1, s@.len() as int),
        None => Seq::<char>::empty(),
    };
    let (int_len, frac_len): (usize, usize) = match dot {
        Some(i) => (i, s.len() - i - 1),
        None => (s.len(), 0),
    };
    if int_len == 0 {
        return None;
    }
    if dot.is_some() && frac_len == 0 {
        return None;
    }
    let mant = match read_mantissa(s, dot) {
        Some(v) => v,
        None => {
            return None;
        },
    };
    proof {
        lemma_digits_val_bound(intpart + fracpart);
        lemma_pow10_le((intpart + fracpart).len() as nat, MAX_DIGITS as nat);
    }
    Some(Decimal { negative, mantissa: mant, scale: frac_len as u32 })
}


/// `digits_val` ignores leading zero characters.
proof fn lemma_digits_val_leading_zeros(pad: Seq<char>, s: Seq<char>)
    requires
        forall|i: int| 0 <= i < pad.len() ==> pad[i] == '0',
    ensures
        digits_val(pad + s) == digits_val(s),
    decreases s.len(),
{
    if s.len() == 0 {
        assert(pad + s =~= pad);
        lemma_digits_val_all_zeros(pad);
    } else {
        lemma_digits_val_leading_zeros(pad, s.drop_last());
        assert((pad + s).drop_last() =~= pad + s.drop_last());
        assert((pad + s).last() == s.last());
    }
}

/// A string of zero characters writes zero.
proof fn lemma_digits_val_all_zeros(pad: Seq<char>)
    requires
        forall|i: int| 0 <= i < pad.len() ==> pad[i] == '0',
    ensures
        digits_val(pad) == 0,
    decreases pad.len(),
{
    if pad.len() > 0 {
        lemma_digits_val_all_zeros(pad.drop_last());
    }
}

/// The digit character for `x`.
fn digit_char(x: u128) -> (c: char)
    requires
        x < 10,
    ensures
        is_digit(c),
        digit_val(c) == x,
        c != '.',
        c != '-',
{
    (48 + x as u8) as char
}

/// The decimal digits of `m`, most significant first; `"0"` for zero.
fn mant_digits(m: u128) -> (v: Vec<char>)
    ensures
        v@.len() >= 1,
        all_digits(v@),
        digits_val(v@) == m,
        forall|i: int| 0 <= i < v@.len() ==> v@[i] != '.' && v@[i] != '-',
        v@.len() == 1 || pow10((v@.len() - 1) as nat) <= m,
    decreases m,
{
    if m < 10 {
        let mut v: Vec<char> = Vec::new();
        v.push(digit_char(m));
        proof {
            assert(v@.drop_last() =~= Seq::<char>::empty());
            assert(digits_val(Seq::<char>::empty()) == 0);
        }
        v
    } else {
        let mut v = mant_digits(m / 10);
        let ghost head = v@;
        let c = digit_char(m % 10);
        v.push(c);
        proof {
            assert(v@.drop_last() =~= head);
            assert(v@.last() == c);
            assert(digits_val(v@) == digits_val(head) * 10 + digit_val(c));
            assert((m / 10) * 10 + m % 10 == m);
            assert(pow10((v@.len() - 1) as nat) <= m) by {
                if head.len() == 1 {
                    lemma_pow10_small();
                } else {
                    assert(pow10((head.len() - 1) as nat) <= m / 10);
                    assert(pow10((v@.len() - 1) as nat) == 10 * pow10((head.len() - 1) as nat));
                    assert(10 * (m / 10) <= m);
                    assert(10 * pow10((head.len() - 1) as nat) <= 10 * (m / 10)) by (nonlinear_arith)
                        requires
                            pow10((head.len() - 1) as nat) <= m / 10,
                    ;
                }
            }
        }
        v
    }
}

/// The canonical text of a decimal: the sign, the mantissa digits with the
/// point inserted `scale` places from the right (zero-padded as needed).
/// Parsing it gives the decimal back.
pub fn decimal_to_text(d: &Decimal) -> (r: String)
    requires
        d.compact(),
        d.scale < MAX_DIGITS as u32,
    ensures
        parse_decimal(r@) == Some(*d),
{
    proof {
        lemma_pow10_large();
        lemma_pow10_le(MAX_DIGITS as nat, 37);
    }
    let digits = mant_digits(d.mantissa);
    proof {
        assert(digits@.len() <= MAX_DIGITS) by {
            if digits@.len() > 1 {
                if digits@.len() > MAX_DIGITS {
                    lemma_pow10_le(MAX_DIGITS as nat, (digits@.len() - 1) as nat);
                }
            }
        }
    }
    let scale = d.scale as usize;
    let mut body: Vec<char> = Vec::new();
    while body.len() + digits.len() < scale + 1
        invariant
            scale < MAX_DIGITS,
            1 <= digits@.len() <= MAX_DIGITS,
            body@.len() == 0 || body@.len() + digits@.len() <= scale + 1,
            forall|i: int| 0 <= i < body@.len() ==> body@[i] == '0',
        decreases scale + 1 - body.len() - digits.len(),
    {
        body.push('0');
    }
    let ghost pad = body@;
    let mut i: usize = 0;
    while i < digits.len()
        invariant
            i <= digits@.len(),
            pad == body@.subrange(0, pad.len() as int),
            body@.len() == pad.len() + i,
            body@ =~= pad + digits@.subrange(0, i as int),
        decreases digits@.len() - i,
    {
        body.push(digits[i]);
        i = i + 1;
    }
    proof {
        assert(body@ =~= pad + digits@);
        lemma_digits_val_leading_zeros(pad, digits@);
        assert(digits_val(body@) == d.mantissa);
        assert(body@.len() >= scale + 1);
        assert(body@.len() <= MAX_DIGITS) by {
            if pad.len() > 0 {
                assert(pad.len() + digits@.len() == scale + 1);
            }
        }
    }
    let mut v: Vec<char> = Vec::new();
    if d.negative {
        v.push('-');
    }
    let ghost signed_prefix = v@;
    let split = body.len() - scale;
    let mut j: usize = 0;
    while j < body.len()
        invariant
            j <= body@.len(),
            split == body@.len() - scale,
            scale <= body@.len(),
            signed_prefix == v@.subrange(0, signed_prefix.len() as int),
            v@ =~= signed_prefix + (if j <= split || scale == 0 {
                body@.subrange(0, j as int)
            } else {
                body@.subrange(0, split as int) + seq!['.'] + body@.subrange(
                    split as int,
                    j as int,
                )
            }),
        decreases body@.len() - j,
    {
        if j == split && scale > 0 {
            v.push('.');
        }
        v.push(body[j]);
        j = j + 1;
    }
    proof {
        if scale == 0 {
            assert(v@ =~= signed_prefix + body@);
        } else {
            assert(v@ =~= signed_prefix + body@.subrange(0, split as int) + seq!['.']
                + body@.subrange(split as int, body@.len() as int));
        }
        lemma_decimal_text_parses(*d, signed_prefix, body@, v@, scale as int, split as int);
    }
    chars_to_string(&v)
}

/// The text assembled by `decimal_to_text` parses back to `d`.
proof fn lemma_decimal_text_parses(
    d: Decimal,
    signed_prefix: Seq<char>,
    body: Seq<char>,
    v: Seq<char>,
    scale: int,
    split: int,
)
    requires
        d.compact(),
        d.scale < MAX_DIGITS as u32,
        scale == d.scale,
        split == body.len() - scale,
        1 <= body.len() <= MAX_DIGITS,
        scale + 1 <= body.len() || (scale == 0 && body.len() >= 1),
        all_digits(body),
        forall|i: int| 0 <= i < body.len() ==> body[i] != '.' && body[i] != '-',
        digits_val(body) == d.mantissa,
        signed_prefix == (if d.negative {
            seq!['-']
        } else {
            Seq::<char>::empty()
        }),
        v == (if scale == 0 {
            signed_prefix + body
        } else {
            signed_prefix + body.subrange(0, split) + seq!['.'] + body.subrange(
                split,
                body.len() as int,
            )
        }),
    ensures
        parse_decimal(v) == Some(d),
{
    lemma_pow10_le(MAX_DIGITS as nat, 37);
    let unsigned = if scale == 0 {
        body
    } else {
        body.subrange(0, split) + seq!['.'] + body.subrange(split, body.len() as int)
    };
    if d.negative {
        assert(v[0] == '-');
        assert(v.drop_first() =~= unsigned);
    } else {
        assert(v =~= unsigned);
        assert(unsigned.len() > 0 && unsigned[0] != '-' && unsigned[0] != '+');
    }
    if scale == 0 {
        lemma_find_char(unsigned, '.');
        assert(find_char(unsigned, '.') is None) by {
            if let Some(k) = find_char(unsigned, '.') {
                assert(unsigned[k] == '.');
            }
        }
        assert(parse_unsigned(unsigned, d.negative) == Some(d)) by {
            lemma_digits_val_bound(unsigned);
        }
    } else {
        lemma_find_char(unsigned, '.');
        assert(unsigned[split] == '.');
        assert(forall|j: int| 0 <= j < split ==> unsigned[j] == body[j] && unsigned[j] != '.');
        assert(find_char(unsigned, '.') == Some(split)) by {
            match find_char(unsigned, '.') {
                Some(k) => {
                    if k < split {
                        assert(unsigned[k] != '.');
                    } else if k > split {
                        assert(unsigned[split] != '.');
                    }
                },
                None => {
                    assert(unsigned[split] != '.');
                },
            }
        }
        let intpart = unsigned.subrange(0, split);
        let fracpart = unsigned.subrange(split + 1, unsigned.len() as int);
        assert(intpart =~= body.subrange(0, split));
        assert(fracpart =~= body.subrange(split, body.len() as int));
        assert(intpart + fracpart =~= body);
        assert(all_digits(intpart)) by {
            assert forall|j: int| 0 <= j < intpart.len() implies is_digit(intpart[j]) by {
                assert(intpart[j] == body[j]);
            }
        }
        assert(all_digits(fracpart)) by {
            assert forall|j: int| 0 <= j < fracpart.len() implies is_digit(fracpart[j]) by {
                assert(fracpart[j] == body[split + j]);
            }
        }
        assert(digits_val(intpart + fracpart) == d.mantissa);
        assert(parse_unsigned(unsigned, d.negative) == Some(d)) by {
            lemma_digits_val_bound(intpart + fracpart);
        }
    }
}

/// The subtraction `a - b`, fully determined: the result's scale is the
/// larger of the two, both mantissas are brought to it, and the magnitudes
/// are subtracted or added according to the signs.
pub open spec fn spec_sub(a: Decimal, b: Decimal) -> Decimal {
    let scale = if a.scale >= b.scale {
        a.scale
    } else {
        b.scale
    };
    let am = a.mantissa * pow10((scale - a.scale) as nat);
    let bm = b.mantissa * pow10((scale - b.scale) as nat);
    if a.negative == b.negative {
        if am >= bm {
            Decimal { negative: a.negative, mantissa: (am - bm) as u128, scale }
        } else {
            Decimal { negative: !a.negative, mantissa: (bm - am) as u128, scale }
        }
    } else {
        Decimal { negative: a.negative, mantissa: (am + bm) as u128, scale }
    }
}

/// `a - b` exactly: the result `r` satisfies
/// `r.num() == a.num() * 10^(r.scale - a.scale) - b.num() * 10^(r.scale - b.scale)`.
pub fn sub(a: &Decimal, b: &Decimal) -> (r: Decimal)
    requires
        a.compact(),
        b.compact(),
    ensures
        r == spec_sub(*a, *b),
        r.wf(),
        r.scale == if a.scale >= b.scale {
            a.scale
        } else {
            b.scale
        },
        r.num() == a.num() * pow10((r.scale - a.scale) as nat) - b.num() * pow10(
            (r.scale - b.scale) as nat,
        ),
{
    let scale = if a.scale >= b.scale {
        a.scale
    } else {
        b.scale
    };
    proof {
        lemma_pow10_le((scale - a.scale) as nat, MAX_DIGITS as nat);
        lemma_pow10_le((scale - b.scale) as nat, MAX_DIGITS as nat);
        lemma_pow10_pos((scale - a.scale) as nat);
        lemma_pow10_pos((scale - b.scale) as nat);
        lemma_pow10_large();
        lemma_mul_bound(
            a.mantissa as int,
            pow10((scale - a.scale) as nat),
            pow10(MAX_DIGITS as nat),
        );
        lemma_mul_bound(
            b.mantissa as int,
            pow10((scale - b.scale) as nat),
            pow10(MAX_DIGITS as nat),
        );
        lemma_pow10_adds(MAX_DIGITS as nat, MAX_DIGITS as nat);
    }
    let am = a.mantissa * pow10_u128(scale - a.scale);
    let bm = b.mantissa * pow10_u128(scale - b.scale);
    proof {
        lemma_neg_mul(a.mantissa as int, pow10((scale - a.scale) as nat));
        lemma_neg_mul(b.mantissa as int, pow10((scale - b.scale) as nat));
    }
    if a.negative == b.negative {
        if am >= bm {
            Decimal { negative: a.negative, mantissa: am - bm, scale }
        } else {
            Decimal { negative: !a.negative, mantissa: bm - am, scale }
        }
    } else {
        Decimal { negative: a.negative, mantissa: am + bm, scale }
    }
}

/// `(-m) * p == -(m * p)`.
proof fn lemma_neg_mul(m: int, p: int)
    ensures
        (-m) * p == -(m * p),
{
    assert((-m) * p == -(m * p)) by (nonlinear_arith);
}

/// If `0 <= x < m` and `0 < p <= m`, then `x * p < m * m`.
proof fn lemma_mul_bound(x: int, p: int, m: int)
    requires
        0 <= x < m,
        0 < p <= m,
    ensures
        0 <= x * p,
        x * p < m * m,
    decreases 0int,
{
    assert(0 <= x * p && x * p < m * m) by (nonlinear_arith)
        requires
            0 <= x < m,
            0 < p <= m,
    ;
}

} // verus!
