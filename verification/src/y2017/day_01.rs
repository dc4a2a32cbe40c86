//! Year 2017, day 1: digits that match a digit further on.
//!
//! The text is a row of decimal digits with white space around it. The row
//! is taken as a ring, its last digit followed by its first. A digit counts
//! where the digit a given number of places ahead is the same: one place in
//! the first part, half the ring in the second. The answer is the sum of
//! the digits that count.

use crate::error::{fit_u32, outcome_u32, PuzzleError};
use crate::number::{all_digits, digits_of, parse_digits};
use crate::text::{chars_of, trim, trimmed};
use vstd::arithmetic::div_mod::{lemma_fundamental_div_mod, lemma_fundamental_div_mod_converse};
use vstd::prelude::*;

verus! {

/// What the digit at `i` adds: itself where the digit `ahead` places on in
/// the ring is the same, and nothing otherwise.
pub open spec fn counted(digits: Seq<u8>, ahead: int, i: int) -> int {
    if digits[i] == digits[(i + ahead) % (digits.len() as int)] {
        digits[i] as int
    } else {
        0
    }
}

/// The sum of what the first `upto` digits add.
pub open spec fn matching_sum(digits: Seq<u8>, ahead: int, upto: int) -> int
    decreases upto,
{
    if upto <= 0 {
        0
    } else {
        matching_sum(digits, ahead, upto - 1) + counted(digits, ahead, upto - 1)
    }
}

/// The sum of the digits of the ring that match the digit `ahead` places
/// on.
pub open spec fn captcha(digits: Seq<u8>, ahead: int) -> int {
    matching_sum(digits, ahead, digits.len() as int)
}

/// The answer of the first part: each digit is held against the next.
pub open spec fn part1_of(text: Seq<char>) -> Result<int, PuzzleError> {
    if all_digits(trimmed(text)) {
        fit_u32(captcha(digits_of(trimmed(text)), 1))
    } else {
        Err(PuzzleError::Malformed)
    }
}

/// The answer of the second part: each digit is held against the one half
/// the ring away.
pub open spec fn part2_of(text: Seq<char>) -> Result<int, PuzzleError> {
    if all_digits(trimmed(text)) {
        fit_u32(captcha(digits_of(trimmed(text)), trimmed(text).len() as int / 2))
    } else {
        Err(PuzzleError::Malformed)
    }
}

/// Reads the digits of a text.
pub fn read_digits(input: &str) -> (r: Option<Vec<u8>>)
    ensures
        match r {
            Some(digits) => all_digits(trimmed(input@)) && digits@ == digits_of(trimmed(input@)),
            None => !all_digits(trimmed(input@)),
        },
{
    let chars = chars_of(input);
    parse_digits(trim(chars.as_slice()))
}

/// Sums the digits that match the digit `ahead` places on in the ring.
pub fn solve(digits: &Vec<u8>, ahead: usize) -> (r: Result<u32, PuzzleError>)
    ensures
        outcome_u32(r) == fit_u32(captcha(digits@, ahead as int)),
{
    let n: usize = digits.len();
    if n == 0 {
        return Ok(0);
    }
    let within: usize = ahead % n;
    let ghost rounds: int = ahead as int / n as int;
    proof {
        lemma_fundamental_div_mod(ahead as int, n as int);
    }
    let mut sum: u128 = 0;
    let mut i: usize = 0;
    while i < n
        invariant
            i <= n == digits.len(),
            within < n,
            ahead == n * rounds + within,
            sum == matching_sum(digits@, ahead as int, i as int),
            sum <= 255 * i,
        decreases n - i,
    {
        let other: usize = if i >= n - within {
            i - (n - within)
        } else {
            i + within
        };
        proof {
            let more: int = if i >= n - within {
                rounds + 1
            } else {
                rounds
            };
            assert(i + ahead == more * n + other) by (nonlinear_arith)
                requires
                    ahead == n * rounds + within,
                    more == rounds + 1 && other == i + within - n || more == rounds && other == i
                        + within,
            ;
            lemma_fundamental_div_mod_converse(i + ahead, n as int, more, other as int);
        }
        if digits[i] == digits[other] {
            sum += digits[i] as u128;
        }
        i += 1;
    }
    if sum > u32::MAX as u128 {
        Err(PuzzleError::Overflow)
    } else {
        Ok(sum as u32)
    }
}

/// The first part: the sum of the digits that match the next digit.
pub fn part1(input: &str) -> (r: Result<u32, PuzzleError>)
    ensures
        outcome_u32(r) == part1_of(input@),
{
    match read_digits(input) {
        Some(digits) => solve(&digits, 1),
        None => Err(PuzzleError::Malformed),
    }
}

/// The second part: the sum of the digits that match the digit half the
/// ring away.
pub fn part2(input: &str) -> (r: Result<u32, PuzzleError>)
    ensures
        outcome_u32(r) == part2_of(input@),
{
    match read_digits(input) {
        Some(digits) => solve(&digits, digits.len() / 2),
        None => Err(PuzzleError::Malformed),
    }
}

} // verus!
