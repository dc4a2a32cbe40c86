//! Numbers in text: reading decimal integers, digits and ranges, and
//! writing integers in decimal.

use crate::text::{split_once, split_once_on};
use vstd::prelude::*;

verus! {

/// Whether `c` is one of the ten decimal digits `0` to `9`.
pub open spec fn is_digit(c: char) -> bool {
    '0' <= c <= '9'
}

/// The number that the decimal digit `c` stands for.
pub open spec fn digit_value(c: char) -> int {
    c as int - 48
}

/// The decimal digit that stands for `d`, where `0 <= d <= 9`.
pub open spec fn digit_char(d: int) -> char {
    (d + 48) as char
}

/// Whether every character of `s` is a decimal digit.
pub open spec fn all_digits(s: Seq<char>) -> bool {
    forall|i: int| 0 <= i < s.len() ==> is_digit(#[trigger] s[i])
}

/// The number that the decimal digits `s` write, the empty sequence being 0.
pub open spec fn digits_value(s: Seq<char>) -> int
    decreases s.len(),
{
    if s.len() == 0 {
        0
    } else {
        digits_value(s.drop_last()) * 10 + digit_value(s.last())
    }
}

/// The integer that `s` writes, if `s` is an optional sign (`+` or `-`)
/// followed by at least one decimal digit and by nothing else.
pub open spec fn signed_value(s: Seq<char>) -> Option<int> {
    let signed = s.len() > 0 && (s[0] == '-' || s[0] == '+');
    let digits = if signed { s.drop_first() } else { s };
    if digits.len() == 0 || !all_digits(digits) {
        None
    } else if s[0] == '-' {
        Some(-digits_value(digits))
    } else {
        Some(digits_value(digits))
    }
}

/// The 64-bit signed integer that `s` writes: `signed_value` where that
/// lies between `i64::MIN` and `i64::MAX`, and nothing otherwise.
pub open spec fn parsed_i64(s: Seq<char>) -> Option<i64> {
    match signed_value(s) {
        Some(v) if i64::MIN <= v <= i64::MAX => Some(v as i64),
        _ => None,
    }
}

/// The numbers that the digits `s` stand for.
pub open spec fn digits_of(s: Seq<char>) -> Seq<u8> {
    s.map_values(|c: char| digit_value(c) as u8)
}

/// The range that `s` writes: an integer, a `-`, and an integer. The first
/// `-` is the one between the two, so the first integer has no sign.
pub open spec fn range_of(s: Seq<char>) -> Option<(i64, i64)> {
    match split_once_on(s, '-') {
        Some((lo, hi)) => match (parsed_i64(lo), parsed_i64(hi)) {
            (Some(lo), Some(hi)) => Some((lo, hi)),
            _ => None,
        },
        None => None,
    }
}

/// The decimal digits of `n`, without leading zeros.
pub open spec fn decimal_nat(n: nat) -> Seq<char>
    decreases n,
{
    if n < 10 {
        seq![digit_char(n as int)]
    } else {
        decimal_nat(n / 10).push(digit_char((n % 10) as int))
    }
}

/// `n` written in decimal: a minus sign if it is negative, then the digits
/// of its magnitude without leading zeros.
pub open spec fn decimal(n: int) -> Seq<char> {
    if n < 0 {
        seq!['-'] + decimal_nat((-n) as nat)
    } else {
        decimal_nat(n as nat)
    }
}

/// Tells whether `c` is a decimal digit.
pub fn digit(c: char) -> (b: bool)
    ensures
        b == is_digit(c),
{
    '0' <= c && c <= '9'
}

/// The digits of a number write that number.
pub proof fn lemma_decimal_nat_value(n: nat)
    ensures
        all_digits(decimal_nat(n)),
        decimal_nat(n).len() >= 1,
        digits_value(decimal_nat(n)) == n,
    decreases n,
{
    reveal_with_fuel(digits_value, 2);
    if n >= 10 {
        lemma_decimal_nat_value(n / 10);
        assert(decimal_nat(n).drop_last() =~= decimal_nat(n / 10));
    } else {
        assert(decimal_nat(n).drop_last() =~= Seq::<char>::empty());
    }
}

/// A 64-bit integer written in decimal is read back as itself.
pub proof fn lemma_parse_decimal(n: i64)
    ensures
        parsed_i64(decimal(n as int)) == Some(n),
{
    if n < 0 {
        let digits = decimal_nat((-n) as nat);
        lemma_decimal_nat_value((-n) as nat);
        assert(decimal(n as int).drop_first() =~= digits);
    } else {
        lemma_decimal_nat_value(n as nat);
        assert(is_digit(decimal_nat(n as nat)[0]));
    }
}

/// Reads `s` as a 64-bit signed integer in decimal.
pub fn parse_i64(s: &[char]) -> (r: Option<i64>)
    ensures
        r == parsed_i64(s@),
{
    let n: usize = s.len();
    let negative: bool = n > 0 && s[0] == '-';
    let first: usize = if n > 0 && (s[0] == '-' || s[0] == '+') { 1 } else { 0 };
    let ghost digits = s@.subrange(first as int, n as int);
    assert(digits =~= if first == 1 { s@.drop_first() } else { s@ });
    if first == n {
        return None;
    }
    let mut magnitude: u64 = 0;
    let mut beyond: bool = false;
    let mut i: usize = first;
    assert(digits.take(0) =~= Seq::<char>::empty());
    while i < n
        invariant
            first <= i <= n == s@.len(),
            digits == s@.subrange(first as int, n as int),
            digits == if s@.len() > 0 && (s@[0] == '-' || s@[0] == '+') {
                s@.drop_first()
            } else {
                s@
            },
            all_digits(digits.take(i - first)),
            !beyond ==> magnitude == digits_value(digits.take(i - first)) && magnitude
                <= 0x8000_0000_0000_0000,
            beyond ==> digits_value(digits.take(i - first)) > 0x8000_0000_0000_0000,
        decreases n - i,
    {
        let c: char = s[i];
        assert(digits[i - first] == c);
        if !digit(c) {
            assert(!all_digits(digits));
            return None;
        }
        assert(digits.take(i - first + 1).drop_last() =~= digits.take(i - first));
        let d: u64 = (c as u32 - 48) as u64;
        if !beyond {
            let next: u128 = magnitude as u128 * 10 + d as u128;
            if next > 0x8000_0000_0000_0000 {
                beyond = true;
            } else {
                magnitude = next as u64;
            }
        }
        i += 1;
    }
    assert(digits.take(n - first) =~= digits);
    if beyond {
        None
    } else if negative {
        if magnitude == 0x8000_0000_0000_0000 {
            Some(i64::MIN)
        } else {
            Some(-(magnitude as i64))
        }
    } else if magnitude <= 0x7fff_ffff_ffff_ffff {
        Some(magnitude as i64)
    } else {
        None
    }
}

/// Reads one range.
pub fn parse_range(s: &[char]) -> (r: Option<(i64, i64)>)
    ensures
        r == range_of(s@),
{
    match split_once(s, '-') {
        Some((lo, hi)) => match parse_i64(lo) {
            Some(lo) => match parse_i64(hi) {
                Some(hi) => Some((lo, hi)),
                None => None,
            },
            None => None,
        },
        None => None,
    }
}

/// Reads a row of decimal digits.
pub fn parse_digits(s: &[char]) -> (r: Option<Vec<u8>>)
    ensures
        match r {
            Some(digits) => all_digits(s@) && digits@ == digits_of(s@),
            None => !all_digits(s@),
        },
{
    let mut digits: Vec<u8> = Vec::new();
    let mut i: usize = 0;
    while i < s.len()
        invariant
            i <= s.len(),
            digits.len() == i,
            forall|j: int| 0 <= j < i ==> is_digit(#[trigger] s@[j]),
            forall|j: int| 0 <= j < i ==> #[trigger] digits@[j] == digit_value(s@[j]) as u8,
        decreases s.len() - i,
    {
        let c: char = s[i];
        if !digit(c) {
            return None;
        }
        digits.push((c as u32 - 48) as u8);
        i += 1;
    }
    assert(digits@ =~= digits_of(s@));
    Some(digits)
}

/// The one-character text of the decimal digit for `d`.
fn digit_str(d: u64) -> (s: &'static str)
    requires
        d < 10,
    ensures
        s@ == seq![digit_char(d as int)],
{
    proof {
        reveal_strlit("0");
        reveal_strlit("1");
        reveal_strlit("2");
        reveal_strlit("3");
        reveal_strlit("4");
        reveal_strlit("5");
        reveal_strlit("6");
        reveal_strlit("7");
        reveal_strlit("8");
        reveal_strlit("9");
    }
    let s = match d {
        0 => "0",
        1 => "1",
        2 => "2",
        3 => "3",
        4 => "4",
        5 => "5",
        6 => "6",
        7 => "7",
        8 => "8",
        _ => "9",
    };
    assert(s@ =~= seq![digit_char(d as int)]);
    s
}

/// Appends the decimal digits of `n` to `out`.
pub fn push_decimal(out: &mut String, n: u64)
    ensures
        final(out)@ == old(out)@ + decimal_nat(n as nat),
    decreases n,
{
    if n >= 10 {
        push_decimal(out, n / 10);
    }
    out.append(digit_str(n % 10));
    assert(final(out)@ =~= old(out)@ + decimal_nat(n as nat));
}

/// `n` written in decimal.
pub fn decimal_string(n: i64) -> (s: String)
    ensures
        s@ == decimal(n as int),
{
    let mut s = String::new();
    push_signed_decimal(&mut s, n);
    assert(s@ =~= decimal(n as int));
    s
}

/// Appends `n`, written in decimal, to `out`.
pub fn push_signed_decimal(out: &mut String, n: i64)
    ensures
        final(out)@ == old(out)@ + decimal(n as int),
{
    if n < 0 {
        proof {
            reveal_strlit("-");
        }
        out.append("-");
        let magnitude: u64 = if n == i64::MIN {
            0x8000_0000_0000_0000
        } else {
            (-n) as u64
        };
        push_decimal(out, magnitude);
        assert(final(out)@ =~= old(out)@ + decimal(n as int));
    } else {
        push_decimal(out, n as u64);
    }
}

} // verus!
