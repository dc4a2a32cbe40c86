//! Year 2017, day 2: the checksum of a table.
//!
//! Each line of the text that holds more than white space is a row of
//! integers with white space between them. The first part adds up, row by
//! row, the difference between the largest and the smallest number. The
//! second part adds up, for every two numbers of a row of which the smaller
//! divides the larger, their quotient.

use crate::error::{fit_i64, outcome, PuzzleError};
use crate::number::{parse_i64, parsed_i64};
use crate::text::{
    chars_of, collected, is_inked, keep_inked, lemma_collected, lines, lines_of, trim, trimmed,
    views, words, words_of,
};
use vstd::prelude::*;

verus! {

/// The numbers that `line` writes, if each of its words writes one.
pub open spec fn row_of(line: Seq<char>) -> Option<Seq<i64>> {
    collected(words_of(line).map_values(|w: Seq<char>| parsed_i64(w)))
}

/// The rows of a text: what the lines that hold more than white space
/// write, the white space at the ends of the text left aside, if each of
/// them writes a row.
pub open spec fn rows_in(text: Seq<char>) -> Option<Seq<Seq<i64>>> {
    collected(lines_of(trimmed(text)).filter(is_inked()).map_values(|l: Seq<char>| row_of(l)))
}

/// What each row holds.
pub open spec fn table(rows: Seq<Vec<i64>>) -> Seq<Seq<i64>> {
    rows.map_values(|row: Vec<i64>| row@)
}

/// The largest number of a row, and 0 for a row without numbers.
pub open spec fn largest(row: Seq<i64>) -> int
    decreases row.len(),
{
    if row.len() == 0 {
        0
    } else if row.len() == 1 || row.last() > largest(row.drop_last()) {
        row.last() as int
    } else {
        largest(row.drop_last())
    }
}

/// The smallest number of a row, and 0 for a row without numbers.
pub open spec fn smallest(row: Seq<i64>) -> int
    decreases row.len(),
{
    if row.len() == 0 {
        0
    } else if row.len() == 1 || row.last() < smallest(row.drop_last()) {
        row.last() as int
    } else {
        smallest(row.drop_last())
    }
}

/// The sum over the rows of largest less smallest.
pub open spec fn checksum(rows: Seq<Seq<i64>>) -> int
    decreases rows.len(),
{
    if rows.len() == 0 {
        0
    } else {
        checksum(rows.drop_last()) + largest(rows.last()) - smallest(rows.last())
    }
}

/// The answer of the first part.
pub open spec fn part1_of(text: Seq<char>) -> Result<int, PuzzleError> {
    match rows_in(text) {
        Some(rows) => fit_i64(checksum(rows)),
        None => Err(PuzzleError::Malformed),
    }
}

/// `n` without its sign.
pub open spec fn magnitude_of(n: int) -> int {
    if n < 0 {
        -n
    } else {
        n
    }
}

/// The sum so far with the two numbers `a` and `b` taken in. Where the
/// smaller of the two is 0 there is no quotient to take. Where it divides
/// the larger, the quotient is added, and the sum has to stay a 64-bit
/// integer. Otherwise the sum stays as it is. A failure stays a failure.
pub open spec fn with_pair(sum: Result<int, PuzzleError>, a: i64, b: i64) -> Result<
    int,
    PuzzleError,
> {
    let hi = if a > b {
        a
    } else {
        b
    };
    let lo = if a > b {
        b
    } else {
        a
    };
    match sum {
        Err(e) => Err(e),
        Ok(sum) => if lo == 0 {
            Err(PuzzleError::DivisionByZero)
        } else if magnitude_of(hi as int) % magnitude_of(lo as int) != 0 {
            Ok(sum)
        } else if (hi < 0) != (lo < 0) {
            fit_i64(sum - magnitude_of(hi as int) / magnitude_of(lo as int))
        } else {
            fit_i64(sum + magnitude_of(hi as int) / magnitude_of(lo as int))
        },
    }
}

/// The sum so far with the number at `i` paired with those behind it up to
/// `upto`, in their order.
pub open spec fn with_pairs_of(
    sum: Result<int, PuzzleError>,
    row: Seq<i64>,
    i: int,
    upto: int,
) -> Result<int, PuzzleError>
    decreases upto - i,
{
    if upto <= i + 1 {
        sum
    } else {
        with_pair(with_pairs_of(sum, row, i, upto - 1), row[i], row[upto - 1])
    }
}

/// The sum so far with every pair of the row whose first number stands
/// before `upto`, in the order of the first and then of the second number.
pub open spec fn with_row(sum: Result<int, PuzzleError>, row: Seq<i64>, upto: int) -> Result<
    int,
    PuzzleError,
>
    decreases upto,
{
    if upto <= 0 {
        sum
    } else {
        with_pairs_of(with_row(sum, row, upto - 1), row, upto - 1, row.len() as int)
    }
}

/// The sum of the quotients of the rows, taken row by row from 0.
pub open spec fn quotients(rows: Seq<Seq<i64>>) -> Result<int, PuzzleError>
    decreases rows.len(),
{
    if rows.len() == 0 {
        Ok(0)
    } else {
        with_row(quotients(rows.drop_last()), rows.last(), rows.last().len() as int)
    }
}

/// The answer of the second part.
pub open spec fn part2_of(text: Seq<char>) -> Result<int, PuzzleError> {
    match rows_in(text) {
        Some(rows) => quotients(rows),
        None => Err(PuzzleError::Malformed),
    }
}

/// The largest number of a row is one of its numbers, and none of them is
/// larger.
pub proof fn lemma_largest(row: Seq<i64>)
    requires
        row.len() > 0,
    ensures
        exists|i: int| 0 <= i < row.len() && #[trigger] row[i] == largest(row),
        forall|i: int| 0 <= i < row.len() ==> #[trigger] row[i] <= largest(row),
    decreases row.len(),
{
    if row.len() > 1 {
        let before = row.drop_last();
        lemma_largest(before);
        let i = choose|i: int| 0 <= i < before.len() && #[trigger] before[i] == largest(before);
        assert(row[i] == before[i]);
        assert(row[row.len() - 1] == row.last());
        assert forall|j: int| 0 <= j < row.len() implies #[trigger] row[j] <= largest(row) by {
            if j < before.len() {
                assert(row[j] == before[j]);
            }
        }
    } else {
        assert(row[0] == largest(row));
    }
}

/// The smallest number of a row is one of its numbers, and none of them is
/// smaller.
pub proof fn lemma_smallest(row: Seq<i64>)
    requires
        row.len() > 0,
    ensures
        exists|i: int| 0 <= i < row.len() && #[trigger] row[i] == smallest(row),
        forall|i: int| 0 <= i < row.len() ==> #[trigger] row[i] >= smallest(row),
    decreases row.len(),
{
    if row.len() > 1 {
        let before = row.drop_last();
        lemma_smallest(before);
        let i = choose|i: int| 0 <= i < before.len() && #[trigger] before[i] == smallest(before);
        assert(row[i] == before[i]);
        assert(row[row.len() - 1] == row.last());
        assert forall|j: int| 0 <= j < row.len() implies #[trigger] row[j] >= smallest(row) by {
            if j < before.len() {
                assert(row[j] == before[j]);
            }
        }
    } else {
        assert(row[0] == smallest(row));
    }
}

/// Reads one row.
pub fn parse_row(line: &[char]) -> (r: Option<Vec<i64>>)
    ensures
        match r {
            Some(row) => row_of(line@) == Some(row@),
            None => row_of(line@) is None,
        },
{
    let ws = words(line);
    let ghost written = views(ws@).map_values(|w: Seq<char>| parsed_i64(w));
    let mut row: Vec<i64> = Vec::new();
    let mut i: usize = 0;
    while i < ws.len()
        invariant
            i <= ws.len(),
            views(ws@) == words_of(line@),
            written == views(ws@).map_values(|w: Seq<char>| parsed_i64(w)),
            row.len() == i,
            forall|j: int| 0 <= j < i ==> #[trigger] written[j] == Some(row@[j]),
        decreases ws.len() - i,
    {
        match parse_i64(ws[i]) {
            Some(n) => {
                row.push(n);
            },
            None => {
                assert(written[i as int] is None);
                return None;
            },
        }
        i += 1;
    }
    proof {
        lemma_collected(written, row@);
    }
    Some(row)
}

/// Reads the rows of a text.
pub fn read_rows(input: &str) -> (r: Option<Vec<Vec<i64>>>)
    ensures
        match r {
            Some(rows) => rows_in(input@) == Some(table(rows@)),
            None => rows_in(input@) is None,
        },
{
    let chars = chars_of(input);
    let ls = lines(trim(chars.as_slice()));
    let kept = keep_inked(ls.as_slice());
    let ghost written = views(kept@).map_values(|l: Seq<char>| row_of(l));
    let mut rows: Vec<Vec<i64>> = Vec::new();
    let mut i: usize = 0;
    while i < kept.len()
        invariant
            i <= kept.len(),
            views(kept@) == lines_of(trimmed(input@)).filter(is_inked()),
            written == views(kept@).map_values(|l: Seq<char>| row_of(l)),
            rows.len() == i,
            forall|j: int| 0 <= j < i ==> #[trigger] written[j] == Some(rows@[j]@),
        decreases kept.len() - i,
    {
        match parse_row(kept[i]) {
            Some(row) => {
                rows.push(row);
            },
            None => {
                assert(written[i as int] is None);
                return None;
            },
        }
        i += 1;
    }
    proof {
        lemma_collected(written, table(rows@));
    }
    Some(rows)
}

/// The largest number of a row less its smallest.
pub fn spread(row: &Vec<i64>) -> (d: u64)
    ensures
        d == largest(row@) - smallest(row@),
{
    if row.len() == 0 {
        return 0;
    }
    let mut hi: i64 = row[0];
    let mut lo: i64 = row[0];
    let mut i: usize = 1;
    assert(row@.take(1).drop_last() =~= row@.take(0));
    while i < row.len()
        invariant
            1 <= i <= row.len(),
            hi == largest(row@.take(i as int)),
            lo == smallest(row@.take(i as int)),
            lo <= hi,
        decreases row.len() - i,
    {
        assert(row@.take(i + 1).drop_last() =~= row@.take(i as int));
        if row[i] > hi {
            hi = row[i];
        }
        if row[i] < lo {
            lo = row[i];
        }
        i += 1;
    }
    assert(row@.take(i as int) =~= row@);
    (hi as i128 - lo as i128) as u64
}

/// The first part: the sum over the rows of largest less smallest.
pub fn part1(input: &str) -> (r: Result<i64, PuzzleError>)
    ensures
        outcome(r) == part1_of(input@),
{
    let rows = match read_rows(input) {
        Some(rows) => rows,
        None => {
            return Err(PuzzleError::Malformed);
        },
    };
    let mut sum: u128 = 0;
    let mut i: usize = 0;
    assert(table(rows@).take(0) =~= Seq::<Seq<i64>>::empty());
    while i < rows.len()
        invariant
            i <= rows.len(),
            sum == checksum(table(rows@).take(i as int)),
            sum <= i * 0xffff_ffff_ffff_ffff,
        decreases rows.len() - i,
    {
        assert(table(rows@).take(i + 1).drop_last() =~= table(rows@).take(i as int));
        sum += spread(&rows[i]) as u128;
        i += 1;
    }
    assert(table(rows@).take(i as int) =~= table(rows@));
    if sum > i64::MAX as u128 {
        Err(PuzzleError::Overflow)
    } else {
        Ok(sum as i64)
    }
}

/// `n` without its sign.
pub fn magnitude(n: i64) -> (m: u64)
    ensures
        m == magnitude_of(n as int),
{
    if n >= 0 {
        n as u64
    } else {
        (-(n as i128)) as u64
    }
}

/// Takes the two numbers `a` and `b` into the sum so far.
pub fn add_pair(sum: Result<i64, PuzzleError>, a: i64, b: i64) -> (r: Result<i64, PuzzleError>)
    ensures
        outcome(r) == with_pair(outcome(sum), a, b),
{
    let so_far: i64 = match sum {
        Ok(so_far) => so_far,
        Err(e) => {
            return Err(e);
        },
    };
    let (hi, lo): (i64, i64) = if a > b {
        (a, b)
    } else {
        (b, a)
    };
    if lo == 0 {
        return Err(PuzzleError::DivisionByZero);
    }
    let above: u64 = magnitude(hi);
    let below: u64 = magnitude(lo);
    if above % below != 0 {
        return Ok(so_far);
    }
    let quotient: i128 = (above / below) as i128;
    let next: i128 = if (hi < 0) != (lo < 0) {
        so_far as i128 - quotient
    } else {
        so_far as i128 + quotient
    };
    if next < i64::MIN as i128 || next > i64::MAX as i128 {
        Err(PuzzleError::Overflow)
    } else {
        Ok(next as i64)
    }
}

/// Takes every pair of the row into the sum so far.
pub fn add_row(sum: Result<i64, PuzzleError>, row: &Vec<i64>) -> (r: Result<i64, PuzzleError>)
    ensures
        outcome(r) == with_row(outcome(sum), row@, row@.len() as int),
{
    let n: usize = row.len();
    let ghost start = outcome(sum);
    let mut sum = sum;
    let mut i: usize = 0;
    while i < n
        invariant
            i <= n == row.len(),
            outcome(sum) == with_row(start, row@, i as int),
        decreases n - i,
    {
        let ghost before = outcome(sum);
        let mut j: usize = i + 1;
        while j < n
            invariant
                i < j <= n == row.len(),
                outcome(sum) == with_pairs_of(before, row@, i as int, j as int),
            decreases n - j,
        {
            sum = add_pair(sum, row[i], row[j]);
            j += 1;
        }
        i += 1;
    }
    sum
}

/// The second part: the sum of the quotients of the numbers that divide
/// one another.
pub fn part2(input: &str) -> (r: Result<i64, PuzzleError>)
    ensures
        outcome(r) == part2_of(input@),
{
    let rows = match read_rows(input) {
        Some(rows) => rows,
        None => {
            return Err(PuzzleError::Malformed);
        },
    };
    let mut sum: Result<i64, PuzzleError> = Ok(0);
    let mut i: usize = 0;
    assert(table(rows@).take(0) =~= Seq::<Seq<i64>>::empty());
    while i < rows.len()
        invariant
            i <= rows.len(),
            outcome(sum) == quotients(table(rows@).take(i as int)),
        decreases rows.len() - i,
    {
        assert(table(rows@).take(i + 1).drop_last() =~= table(rows@).take(i as int));
        sum = add_row(sum, &rows[i]);
        i += 1;
    }
    assert(table(rows@).take(i as int) =~= table(rows@));
    sum
}

} // verus!
