//! Year 2025, day 3: the joltage of banks of batteries.
//!
//! Each line of the text that holds more than white space is a bank: a row
//! of decimal digits, with white space around it. From a bank a given
//! number of digits is picked, from left to right. Each pick is the largest
//! digit that still leaves enough digits behind it for the picks to come,
//! and the last such digit where the largest occurs more than once. The
//! picked digits, read as one number, are the joltage of the bank. The
//! answer is the sum of the joltages.

use crate::error::{fit_i64, outcome, PuzzleError};
use crate::number::{all_digits, digits_of, parse_digits};
use crate::text::{
    chars_of, collected, is_inked, keep_inked, lemma_collected, lines, lines_of, trim, trimmed,
    views,
};
use vstd::prelude::*;

verus! {

/// Whether `i` is where the largest of the digits from `from` to `to`, both
/// included, stands last.
pub open spec fn is_last_largest(digits: Seq<u8>, from: int, to: int, i: int) -> bool {
    &&& from <= i <= to
    &&& forall|j: int| from <= j <= to ==> #[trigger] digits[j] <= digits[i]
    &&& forall|j: int| i < j <= to ==> #[trigger] digits[j] < digits[i]
}

/// Where the largest of the digits from `from` to `to` stands last.
pub open spec fn last_largest(digits: Seq<u8>, from: int, to: int) -> int {
    choose|i: int| is_last_largest(digits, from, to, i)
}

/// The number `so_far` with `left` more digits picked behind it from the
/// digits that stand at `from` or later.
pub open spec fn joltage_from(digits: Seq<u8>, from: int, left: int, so_far: int) -> int
    decreases left,
{
    if left <= 0 {
        so_far
    } else {
        let pick = last_largest(digits, from, digits.len() - left);
        joltage_from(digits, pick + 1, left - 1, so_far * 10 + digits[pick])
    }
}

/// The joltage of a bank from which `count` digits are picked.
pub open spec fn joltage_of(digits: Seq<u8>, count: int) -> int {
    joltage_from(digits, 0, count, 0)
}

/// The digits of the bank that `line` writes, if it is a row of digits that
/// holds `count` of them at least.
pub open spec fn bank_of(line: Seq<char>, count: int) -> Option<Seq<u8>> {
    if all_digits(trimmed(line)) && count <= trimmed(line).len() {
        Some(digits_of(trimmed(line)))
    } else {
        None
    }
}

/// The joltage of the bank that `line` writes.
pub open spec fn bank_joltage_of(line: Seq<char>, count: int) -> Result<int, PuzzleError> {
    match bank_of(line, count) {
        Some(digits) => fit_i64(joltage_of(digits, count)),
        None => Err(PuzzleError::Malformed),
    }
}

/// The banks of a text: what its lines that hold more than white space
/// write, if each of them writes a bank.
pub open spec fn banks_in(text: Seq<char>, count: int) -> Option<Seq<Seq<u8>>> {
    collected(
        lines_of(text).filter(is_inked()).map_values(|l: Seq<char>| bank_of(l, count)),
    )
}

/// The sum of the joltages of the banks.
pub open spec fn total_joltage(banks: Seq<Seq<u8>>, count: int) -> int
    decreases banks.len(),
{
    if banks.len() == 0 {
        0
    } else {
        total_joltage(banks.drop_last(), count) + joltage_of(banks.last(), count)
    }
}

/// The answer for a text from whose banks `count` digits are picked.
pub open spec fn both_of(text: Seq<char>, count: int) -> Result<int, PuzzleError> {
    match banks_in(text, count) {
        Some(banks) => fit_i64(total_joltage(banks, count)),
        None => Err(PuzzleError::Malformed),
    }
}

/// What each bank holds.
pub open spec fn rows(banks: Seq<Vec<u8>>) -> Seq<Seq<u8>> {
    banks.map_values(|bank: Vec<u8>| bank@)
}

/// Picking more digits makes a number no smaller.
pub proof fn lemma_joltage_grows(digits: Seq<u8>, from: int, left: int, so_far: int)
    requires
        0 <= so_far,
    ensures
        joltage_from(digits, from, left, so_far) >= so_far,
    decreases left,
{
    if left > 0 {
        let pick = last_largest(digits, from, digits.len() - left);
        lemma_joltage_grows(digits, pick + 1, left - 1, so_far * 10 + digits[pick]);
    }
}

/// Reads one bank.
pub fn parse_bank(line: &[char], count: usize) -> (r: Option<Vec<u8>>)
    ensures
        match r {
            Some(digits) => bank_of(line@, count as int) == Some(digits@) && count
                <= digits@.len(),
            None => bank_of(line@, count as int) is None,
        },
{
    match parse_digits(trim(line)) {
        Some(digits) => {
            if count <= digits.len() {
                Some(digits)
            } else {
                None
            }
        },
        None => None,
    }
}

/// Finds where the largest of the digits from `from` to `to` stands last.
fn find_last_largest(digits: &Vec<u8>, from: usize, to: usize) -> (pick: usize)
    requires
        from <= to < digits.len(),
    ensures
        pick == last_largest(digits@, from as int, to as int),
        is_last_largest(digits@, from as int, to as int, pick as int),
{
    let mut pick: usize = from;
    let mut j: usize = from;
    while j < to
        invariant
            from <= j <= to < digits.len(),
            is_last_largest(digits@, from as int, j as int, pick as int),
        decreases to - j,
    {
        j += 1;
        if digits[j] >= digits[pick] {
            pick = j;
        }
    }
    proof {
        let chosen = last_largest(digits@, from as int, to as int);
        assert(is_last_largest(digits@, from as int, to as int, chosen));
        if chosen < pick {
            assert(digits@[pick as int] < digits@[chosen]);
        }
        if pick < chosen {
            assert(digits@[chosen] < digits@[pick as int]);
        }
    }
    pick
}

/// The joltage of a bank from which `count` digits are picked. A bank with
/// fewer digits than that is malformed.
pub fn joltage(digits: &Vec<u8>, count: usize) -> (r: Result<i64, PuzzleError>)
    ensures
        outcome(r) == if count <= digits@.len() {
            fit_i64(joltage_of(digits@, count as int))
        } else {
            Err(PuzzleError::Malformed)
        },
{
    let n: usize = digits.len();
    if count > n {
        return Err(PuzzleError::Malformed);
    }
    let mut from: usize = 0;
    let mut left: usize = count;
    let mut so_far: i64 = 0;
    while left > 0
        invariant
            n == digits.len(),
            count <= n,
            from + left <= n,
            0 <= so_far,
            joltage_from(digits@, from as int, left as int, so_far as int) == joltage_of(
                digits@,
                count as int,
            ),
        decreases left,
    {
        let pick: usize = find_last_largest(digits, from, n - left);
        let next: i128 = so_far as i128 * 10 + digits[pick] as i128;
        if next > i64::MAX as i128 {
            proof {
                assert(joltage_from(digits@, from as int, left as int, so_far as int)
                    == joltage_from(digits@, pick + 1, left - 1, next as int));
                lemma_joltage_grows(digits@, pick + 1, left - 1, next as int);
            }
            return Err(PuzzleError::Overflow);
        }
        so_far = next as i64;
        from = pick + 1;
        left -= 1;
    }
    Ok(so_far)
}

/// The joltage of the bank that `line` writes, from which `count` digits
/// are picked.
pub fn bank_joltage(line: &str, count: usize) -> (r: Result<i64, PuzzleError>)
    ensures
        outcome(r) == bank_joltage_of(line@, count as int),
{
    let chars = chars_of(line);
    match parse_bank(chars.as_slice(), count) {
        Some(digits) => joltage(&digits, count),
        None => Err(PuzzleError::Malformed),
    }
}

/// Reads the banks of a text.
pub fn read_banks(input: &str, count: usize) -> (r: Option<Vec<Vec<u8>>>)
    ensures
        match r {
            Some(banks) => banks_in(input@, count as int) == Some(rows(banks@)) && forall|j: int|
                0 <= j < banks@.len() ==> count <= (#[trigger] banks@[j])@.len(),
            None => banks_in(input@, count as int) is None,
        },
{
    let chars = chars_of(input);
    let ls = lines(chars.as_slice());
    let kept = keep_inked(ls.as_slice());
    let ghost written = views(kept@).map_values(|l: Seq<char>| bank_of(l, count as int));
    let mut banks: Vec<Vec<u8>> = Vec::new();
    let mut i: usize = 0;
    while i < kept.len()
        invariant
            i <= kept.len(),
            views(kept@) == lines_of(input@).filter(is_inked()),
            written == views(kept@).map_values(|l: Seq<char>| bank_of(l, count as int)),
            banks.len() == i,
            forall|j: int| 0 <= j < i ==> #[trigger] written[j] == Some(banks@[j]@),
            forall|j: int| 0 <= j < i ==> count <= (#[trigger] banks@[j])@.len(),
        decreases kept.len() - i,
    {
        match parse_bank(kept[i], count) {
            Some(bank) => {
                banks.push(bank);
            },
            None => {
                assert(written[i as int] is None);
                return None;
            },
        }
        i += 1;
    }
    proof {
        lemma_collected(written, rows(banks@));
    }
    Some(banks)
}

/// Both parts: the sum of the joltages of the banks of the text, `count`
/// digits being picked from each bank.
pub fn both(input: &str, count: usize) -> (r: Result<i64, PuzzleError>)
    ensures
        outcome(r) == both_of(input@, count as int),
{
    let banks = match read_banks(input, count) {
        Some(banks) => banks,
        None => {
            return Err(PuzzleError::Malformed);
        },
    };
    let mut sum: u128 = 0;
    let mut beyond: bool = false;
    let mut i: usize = 0;
    assert(rows(banks@).take(0) =~= Seq::<Seq<u8>>::empty());
    while i < banks.len()
        invariant
            i <= banks.len(),
            forall|j: int| 0 <= j < banks@.len() ==> count <= (#[trigger] banks@[j])@.len(),
            !beyond ==> sum == total_joltage(rows(banks@).take(i as int), count as int),
            !beyond ==> sum <= i * 0x8000_0000_0000_0000,
            beyond ==> total_joltage(rows(banks@).take(i as int), count as int) > i64::MAX,
        decreases banks.len() - i,
    {
        assert(rows(banks@).take(i + 1).drop_last() =~= rows(banks@).take(i as int));
        proof {
            lemma_joltage_grows(banks@[i as int]@, 0, count as int, 0);
        }
        match joltage(&banks[i], count) {
            Ok(volts) => {
                if !beyond {
                    sum += volts as u128;
                }
            },
            Err(_) => {
                beyond = true;
            },
        }
        i += 1;
    }
    assert(rows(banks@).take(i as int) =~= rows(banks@));
    if beyond || sum > i64::MAX as u128 {
        Err(PuzzleError::Overflow)
    } else {
        Ok(sum as i64)
    }
}

} // verus!
