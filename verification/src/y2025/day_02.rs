//! Year 2025, day 2: ids that repeat themselves.
//!
//! The text holds ranges, written `lo-hi` and separated by commas, with
//! white space around the whole. A range holds the integers from `lo` to
//! `hi`, both included. An id is an integer written in decimal. The first
//! part sums the ids of the ranges that are some digits written twice; the
//! second sums those that are some digits written twice or more often. An
//! id that lies in several ranges counts once for each.

use crate::error::{fit_i64, outcome, PuzzleError};
use crate::number::{
    decimal, decimal_nat, decimal_string, is_digit, lemma_decimal_nat_value, parse_range, range_of,
};
use crate::text::{chars_of, collected, lemma_collected, split, split_on, trim, trimmed, views};
use vstd::prelude::*;

verus! {

/// Whether `s` is its first half written twice.
pub open spec fn is_doubled(s: Seq<char>) -> bool {
    s.len() % 2 == 0 && s.take(s.len() as int / 2) == s.skip(s.len() as int / 2)
}

/// Whether `s` is its first `p` characters written over and over.
pub open spec fn has_period(s: Seq<char>, p: int) -> bool {
    &&& 0 < p
    &&& s.len() as int % p == 0
    &&& forall|j: int| p <= j < s.len() ==> #[trigger] s[j] == s[j - p]
}

/// Whether `s` is some characters written twice or more often.
pub open spec fn is_repeated(s: Seq<char>) -> bool {
    exists|p: int| 1 <= p <= s.len() / 2 && #[trigger] has_period(s, p)
}

/// Whether the id `n` is some digits written twice.
pub open spec fn invalid_id(n: int) -> bool {
    is_doubled(decimal(n))
}

/// Whether the id `n` is some digits written twice or more often.
pub open spec fn invalid_id_v2(n: int) -> bool {
    is_repeated(decimal(n))
}

/// The test of the first part.
pub open spec fn doubled() -> spec_fn(int) -> bool {
    |n: int| invalid_id(n)
}

/// The test of the second part.
pub open spec fn repeated() -> spec_fn(int) -> bool {
    |n: int| invalid_id_v2(n)
}

/// The sum of the integers from `lo` to `hi` that `bad` holds of.
pub open spec fn sum_where(lo: int, hi: int, bad: spec_fn(int) -> bool) -> int
    decreases hi - lo + 1,
{
    if hi < lo {
        0
    } else {
        sum_where(lo, hi - 1, bad) + if bad(hi) {
            hi
        } else {
            0
        }
    }
}

/// The sum over the ranges of the integers in them that `bad` holds of.
pub open spec fn total_where(ranges: Seq<(i64, i64)>, bad: spec_fn(int) -> bool) -> int
    decreases ranges.len(),
{
    if ranges.len() == 0 {
        0
    } else {
        total_where(ranges.drop_last(), bad) + sum_where(
            ranges.last().0 as int,
            ranges.last().1 as int,
            bad,
        )
    }
}

/// The ranges of a text: what the pieces between its commas write, if each
/// of them writes a range.
pub open spec fn ranges_in(text: Seq<char>) -> Option<Seq<(i64, i64)>> {
    collected(split_on(trimmed(text), ',').map_values(|piece: Seq<char>| range_of(piece)))
}

/// The answer of the first part.
pub open spec fn part1_of(text: Seq<char>) -> Result<int, PuzzleError> {
    match ranges_in(text) {
        Some(ranges) => fit_i64(total_where(ranges, doubled())),
        None => Err(PuzzleError::Malformed),
    }
}

/// The answer of the second part.
pub open spec fn part2_of(text: Seq<char>) -> Result<int, PuzzleError> {
    match ranges_in(text) {
        Some(ranges) => fit_i64(total_where(ranges, repeated())),
        None => Err(PuzzleError::Malformed),
    }
}

/// Whether `bad` holds of positive integers only.
pub open spec fn only_positive(bad: spec_fn(int) -> bool) -> bool {
    forall|n: int| #[trigger] bad(n) ==> n > 0
}

/// An id that is some digits written twice or more often has two digits at
/// least, and no sign.
pub proof fn lemma_repeated_is_positive(n: int)
    requires
        invalid_id_v2(n),
    ensures
        n >= 10,
{
    let s = decimal(n);
    let p = choose|p: int| 1 <= p <= s.len() / 2 && #[trigger] has_period(s, p);
    if n < 0 {
        lemma_decimal_nat_value((-n) as nat);
        assert(s[p] == s[0]);
        assert(s[p] == decimal_nat((-n) as nat)[p - 1]);
        assert(is_digit(decimal_nat((-n) as nat)[p - 1]));
    }
}

/// An id that is some digits written twice is some digits written twice or
/// more often.
pub proof fn lemma_doubled_is_repeated(n: int)
    requires
        invalid_id(n),
    ensures
        invalid_id_v2(n),
{
    let s = decimal(n);
    let half = s.len() as int / 2;
    if n < 0 {
    } else {
        lemma_decimal_nat_value(n as nat);
    }
    assert(s.len() >= 1);
    assert forall|j: int| half <= j < s.len() implies #[trigger] s[j] == s[j - half] by {
        assert(s.skip(half)[j - half] == s.take(half)[j - half]);
    }
    assert(s.len() == 2 * half);
    assert(s.len() as int % half == 0) by (nonlinear_arith)
        requires
            s.len() == 2 * half,
            half > 0,
    ;
    assert(has_period(s, half));
}

/// Both tests hold of positive integers only.
pub proof fn lemma_tests_only_positive()
    ensures
        only_positive(doubled()),
        only_positive(repeated()),
{
    assert forall|n: int| #[trigger] doubled()(n) implies n > 0 by {
        lemma_doubled_is_repeated(n);
        lemma_repeated_is_positive(n);
    }
    assert forall|n: int| #[trigger] repeated()(n) implies n > 0 by {
        lemma_repeated_is_positive(n);
    }
}

/// The sum over a range is no smaller than the sum over a part of it that
/// starts where the range starts.
pub proof fn lemma_sum_where_grows(lo: int, mid: int, hi: int, bad: spec_fn(int) -> bool)
    requires
        only_positive(bad),
        mid <= hi,
    ensures
        0 <= sum_where(lo, mid, bad) <= sum_where(lo, hi, bad),
    decreases hi - mid,
{
    if mid < hi {
        lemma_sum_where_grows(lo, mid, hi - 1, bad);
    } else {
        lemma_sum_where_nonnegative(lo, mid, bad);
    }
}

/// A sum of positive integers is not negative.
pub proof fn lemma_sum_where_nonnegative(lo: int, hi: int, bad: spec_fn(int) -> bool)
    requires
        only_positive(bad),
    ensures
        0 <= sum_where(lo, hi, bad),
    decreases hi - lo + 1,
{
    if hi >= lo {
        lemma_sum_where_nonnegative(lo, hi - 1, bad);
    }
}

/// The sum over all ranges is no smaller than the sum over the first of
/// them.
pub proof fn lemma_total_where_grows(ranges: Seq<(i64, i64)>, upto: int, bad: spec_fn(int) -> bool)
    requires
        only_positive(bad),
        0 <= upto <= ranges.len(),
    ensures
        0 <= total_where(ranges.take(upto), bad) <= total_where(ranges, bad),
    decreases ranges.len() - upto,
{
    if upto < ranges.len() {
        lemma_total_where_grows(ranges, upto + 1, bad);
        lemma_total_where_nonnegative(ranges.take(upto), bad);
        assert(ranges.take(upto + 1).drop_last() =~= ranges.take(upto));
        lemma_sum_where_nonnegative(ranges[upto].0 as int, ranges[upto].1 as int, bad);
    } else {
        assert(ranges.take(upto) =~= ranges);
        lemma_total_where_nonnegative(ranges, bad);
    }
}

/// A sum of sums of positive integers is not negative.
pub proof fn lemma_total_where_nonnegative(ranges: Seq<(i64, i64)>, bad: spec_fn(int) -> bool)
    requires
        only_positive(bad),
    ensures
        0 <= total_where(ranges, bad),
    decreases ranges.len(),
{
    if ranges.len() > 0 {
        lemma_total_where_nonnegative(ranges.drop_last(), bad);
        lemma_sum_where_nonnegative(ranges.last().0 as int, ranges.last().1 as int, bad);
    }
}

/// Tells whether the id `num` is some digits written twice.
pub fn is_invalid_id(num: i64) -> (b: bool)
    ensures
        b == invalid_id(num as int),
{
    let text = decimal_string(num);
    let s = chars_of(text.as_str());
    let n: usize = s.len();
    if n % 2 != 0 {
        return false;
    }
    let half: usize = n / 2;
    let mut i: usize = 0;
    while i < half
        invariant
            i <= half,
            n == s.len(),
            n == 2 * half,
            s@ == decimal(num as int),
            forall|j: int| 0 <= j < i ==> #[trigger] s@[j] == s@[j + half],
        decreases half - i,
    {
        if s[i] != s[i + half] {
            assert(s@.take(half as int)[i as int] != s@.skip(half as int)[i as int]);
            return false;
        }
        i += 1;
    }
    assert(s@.take(half as int) =~= s@.skip(half as int));
    true
}

/// Tells whether `s` is its first `p` characters written over and over.
pub fn periodic(s: &Vec<char>, p: usize) -> (b: bool)
    ensures
        b == has_period(s@, p as int),
{
    let n: usize = s.len();
    if p == 0 || n % p != 0 {
        return false;
    }
    let mut j: usize = p;
    while j < n
        invariant
            0 < p <= j,
            n == s.len(),
            forall|k: int| p <= k < j ==> #[trigger] s@[k] == s@[k - p],
        decreases n - j,
    {
        if s[j] != s[j - p] {
            return false;
        }
        j += 1;
    }
    true
}

/// Tells whether the id `num` is some digits written twice or more often.
pub fn is_invalid_id_v2(num: i64) -> (b: bool)
    ensures
        b == invalid_id_v2(num as int),
{
    let text = decimal_string(num);
    let s = chars_of(text.as_str());
    let half: usize = s.len() / 2;
    let mut p: usize = 1;
    while p <= half
        invariant
            1 <= p <= half + 1,
            half == s@.len() / 2,
            half < usize::MAX,
            s@ == decimal(num as int),
            forall|q: int| 1 <= q < p ==> !#[trigger] has_period(s@, q),
        decreases half + 1 - p,
    {
        if periodic(&s, p) {
            return true;
        }
        p += 1;
    }
    false
}

/// Reads the ranges of a text.
pub fn read_ranges(input: &str) -> (r: Option<Vec<(i64, i64)>>)
    ensures
        match r {
            Some(ranges) => ranges_in(input@) == Some(ranges@),
            None => ranges_in(input@) is None,
        },
{
    let chars = chars_of(input);
    let pieces = split(trim(chars.as_slice()), ',');
    let ghost written = views(pieces@).map_values(|piece: Seq<char>| range_of(piece));
    let mut ranges: Vec<(i64, i64)> = Vec::new();
    let mut i: usize = 0;
    while i < pieces.len()
        invariant
            i <= pieces.len(),
            views(pieces@) == split_on(trimmed(input@), ','),
            written == views(pieces@).map_values(|piece: Seq<char>| range_of(piece)),
            ranges.len() == i,
            forall|j: int| 0 <= j < i ==> #[trigger] written[j] == Some(ranges@[j]),
        decreases pieces.len() - i,
    {
        match parse_range(pieces[i]) {
            Some(range) => {
                ranges.push(range);
            },
            None => {
                assert(written[i as int] is None);
                return None;
            },
        }
        i += 1;
    }
    proof {
        lemma_collected(written, ranges@);
    }
    Some(ranges)
}

/// Sums the ids of the ranges that the test of the first part, or with
/// `often` that of the second part, holds of.
pub fn sum_invalid(ranges: &Vec<(i64, i64)>, often: bool) -> (r: Result<i64, PuzzleError>)
    ensures
        outcome(r) == fit_i64(
            total_where(
                ranges@,
                if often {
                    repeated()
                } else {
                    doubled()
                },
            ),
        ),
{
    let ghost bad = if often {
        repeated()
    } else {
        doubled()
    };
    proof {
        lemma_tests_only_positive();
    }
    let mut sum: i64 = 0;
    let mut i: usize = 0;
    assert(ranges@.take(0) =~= Seq::<(i64, i64)>::empty());
    while i < ranges.len()
        invariant
            i <= ranges.len(),
            only_positive(bad),
            bad == if often {
                repeated()
            } else {
                doubled()
            },
            0 <= sum == total_where(ranges@.take(i as int), bad),
        decreases ranges.len() - i,
    {
        let (lo, hi) = ranges[i];
        let ghost before = sum as int;
        proof {
            assert(ranges@.take(i + 1).drop_last() =~= ranges@.take(i as int));
            lemma_total_where_grows(ranges@, i + 1, bad);
        }
        let mut next: i128 = lo as i128;
        while next <= hi as i128
            invariant
                lo <= next <= hi + 1 || (hi < lo && next == lo),
                only_positive(bad),
                bad == if often {
                    repeated()
                } else {
                    doubled()
                },
                before + sum_where(lo as int, hi as int, bad) <= total_where(ranges@, bad),
                0 <= sum == before + sum_where(lo as int, next - 1, bad),
            decreases hi + 1 - next,
        {
            let id: i64 = next as i64;
            let counts: bool = if often {
                is_invalid_id_v2(id)
            } else {
                is_invalid_id(id)
            };
            assert(counts == bad(id as int));
            if counts {
                if sum as i128 + next > i64::MAX as i128 {
                    proof {
                        lemma_sum_where_grows(lo as int, next as int, hi as int, bad);
                    }
                    return Err(PuzzleError::Overflow);
                }
                sum = sum + id;
            }
            next += 1;
        }
        i += 1;
    }
    assert(ranges@.take(i as int) =~= ranges@);
    Ok(sum)
}

/// The first part: the sum of the ids that are some digits written twice.
pub fn part1(input: &str) -> (r: Result<i64, PuzzleError>)
    ensures
        outcome(r) == part1_of(input@),
{
    match read_ranges(input) {
        Some(ranges) => sum_invalid(&ranges, false),
        None => Err(PuzzleError::Malformed),
    }
}

/// The second part: the sum of the ids that are some digits written twice
/// or more often.
pub fn part2(input: &str) -> (r: Result<i64, PuzzleError>)
    ensures
        outcome(r) == part2_of(input@),
{
    match read_ranges(input) {
        Some(ranges) => sum_invalid(&ranges, true),
        None => Err(PuzzleError::Malformed),
    }
}

} // verus!
