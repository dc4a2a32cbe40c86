//! Year 2025, day 5: which ids lie in a range.
//!
//! The text holds ranges, one to a line and written `lo-hi`, then an empty
//! line, then ids, one to a line. A range holds the integers from `lo` to
//! `hi`, both included, and none where `hi` is below `lo`. The first part
//! counts the ids that lie in some range; the second counts the integers
//! that lie in some range.

use crate::error::{fit_i64, outcome, PuzzleError};
use crate::number::{parse_i64, parse_range, parsed_i64, range_of};
use crate::text::{
    chars_of, collected, is_filled, keep_filled, lemma_collected, lines, lines_of, trim, trimmed,
    views,
};
use vstd::prelude::*;
use vstd::slice::slice_subrange;
use vstd::set_lib::{lemma_int_range, lemma_set_disjoint_lens, set_int_range};

verus! {

/// Whether the first `n` of the lines `ls` are those before the first empty
/// line, or all of them where none is empty.
pub open spec fn ranges_end_at(ls: Seq<Seq<char>>, n: int) -> bool {
    &&& 0 <= n <= ls.len()
    &&& forall|j: int| 0 <= j < n ==> (#[trigger] ls[j]).len() > 0
    &&& n < ls.len() ==> ls[n].len() == 0
}

/// How many lines stand before the first empty line.
pub open spec fn range_count(ls: Seq<Seq<char>>) -> int {
    choose|n: int| ranges_end_at(ls, n)
}

/// The ranges among the lines `ls`: what the lines before the first empty
/// line write, if each of them writes a range.
pub open spec fn ranges_in(ls: Seq<Seq<char>>) -> Option<Seq<(i64, i64)>> {
    collected(ls.take(range_count(ls)).map_values(|l: Seq<char>| range_of(l)))
}

/// The ids among the lines `ls`: what the lines that are not empty write
/// from the first empty line on, white space around an id left aside, if
/// each of them writes an integer.
pub open spec fn ids_in(ls: Seq<Seq<char>>) -> Option<Seq<i64>> {
    collected(
        ls.skip(range_count(ls)).filter(is_filled()).map_values(
            |l: Seq<char>| parsed_i64(trimmed(l)),
        ),
    )
}

/// The lines of a text: those of the text without the white space at its
/// ends.
pub open spec fn lines_in(text: Seq<char>) -> Seq<Seq<char>> {
    lines_of(trimmed(text))
}

/// Whether `n` lies in one of the ranges.
pub open spec fn covers(ranges: Seq<(i64, i64)>, n: int) -> bool {
    exists|i: int| 0 <= i < ranges.len() && (#[trigger] ranges[i]).0 <= n <= ranges[i].1
}

/// The integers that lie in one of the ranges.
pub open spec fn covered(ranges: Seq<(i64, i64)>) -> Set<int> {
    Set::new(|n: int| covers(ranges, n))
}

/// Whether an id lies in one of the ranges.
pub open spec fn is_fresh(ranges: Seq<(i64, i64)>) -> spec_fn(i64) -> bool {
    |id: i64| covers(ranges, id as int)
}

/// The answer of the first part: how many of the ids lie in a range, an id
/// counting as often as it is listed.
pub open spec fn part1_of(text: Seq<char>) -> Result<int, PuzzleError> {
    match (ranges_in(lines_in(text)), ids_in(lines_in(text))) {
        (Some(ranges), Some(ids)) => fit_i64(ids.filter(is_fresh(ranges)).len() as int),
        _ => Err(PuzzleError::Malformed),
    }
}

/// The answer of the second part: how many integers lie in a range. A text
/// without any range is malformed.
pub open spec fn part2_of(text: Seq<char>) -> Result<int, PuzzleError> {
    match ranges_in(lines_in(text)) {
        Some(ranges) if ranges.len() > 0 => fit_i64(covered(ranges).len() as int),
        _ => Err(PuzzleError::Malformed),
    }
}

/// Whether the ranges stand in the order of their lower ends.
pub open spec fn ascending(ranges: Seq<(i64, i64)>) -> bool {
    forall|a: int, b: int|
        0 <= a <= b < ranges.len() ==> (#[trigger] ranges[a]).0 <= (#[trigger] ranges[b]).0
}

/// Whether each of the ranges holds an integer.
pub open spec fn all_filled(ranges: Seq<(i64, i64)>) -> bool {
    forall|i: int| 0 <= i < ranges.len() ==> (#[trigger] ranges[i]).0 <= ranges[i].1
}

/// The integers of one range.
pub open spec fn span(range: (i64, i64)) -> Set<int> {
    set_int_range(range.0 as int, range.1 + 1)
}

/// Counts the lines before the first empty line.
pub fn count_range_lines(ls: &Vec<&[char]>) -> (n: usize)
    ensures
        n == range_count(views(ls@)),
        ranges_end_at(views(ls@), n as int),
{
    let mut n: usize = 0;
    while n < ls.len() && ls[n].len() > 0
        invariant
            n <= ls.len(),
            forall|j: int| 0 <= j < n ==> (#[trigger] views(ls@)[j]).len() > 0,
        decreases ls.len() - n,
    {
        n += 1;
    }
    proof {
        let all = views(ls@);
        assert(ranges_end_at(all, n as int));
        let chosen = range_count(all);
        assert(ranges_end_at(all, chosen));
        if chosen < n {
            assert(all[chosen].len() > 0);
        }
        if n < chosen {
            assert(all[n as int].len() > 0);
        }
    }
    n
}

/// Reads the ranges among the lines of a text.
pub fn read_ranges(ls: &Vec<&[char]>) -> (r: Option<Vec<(i64, i64)>>)
    ensures
        match r {
            Some(ranges) => ranges_in(views(ls@)) == Some(ranges@),
            None => ranges_in(views(ls@)) is None,
        },
{
    let n: usize = count_range_lines(ls);
    let ghost written = views(ls@).take(n as int).map_values(|l: Seq<char>| range_of(l));
    let mut ranges: Vec<(i64, i64)> = Vec::new();
    let mut i: usize = 0;
    while i < n
        invariant
            i <= n <= ls.len(),
            n == range_count(views(ls@)),
            written == views(ls@).take(n as int).map_values(|l: Seq<char>| range_of(l)),
            ranges.len() == i,
            forall|j: int| 0 <= j < i ==> #[trigger] written[j] == Some(ranges@[j]),
        decreases n - i,
    {
        match parse_range(ls[i]) {
            Some(range) => {
                ranges.push(range);
            },
            None => {
                assert(written[i as int] is None);
                return None;
            },
        }
        i += 1;
    }
    proof {
        lemma_collected(written, ranges@);
    }
    Some(ranges)
}

/// Reads the ids among the lines of a text.
pub fn read_ids(ls: &Vec<&[char]>) -> (r: Option<Vec<i64>>)
    ensures
        match r {
            Some(ids) => ids_in(views(ls@)) == Some(ids@),
            None => ids_in(views(ls@)) is None,
        },
{
    let n: usize = count_range_lines(ls);
    let rest = slice_subrange(ls.as_slice(), n, ls.len());
    assert(views(rest@) =~~= views(ls@).skip(n as int));
    let kept = keep_filled(rest);
    let ghost written = views(kept@).map_values(|l: Seq<char>| parsed_i64(trimmed(l)));
    let mut ids: Vec<i64> = Vec::new();
    let mut i: usize = 0;
    while i < kept.len()
        invariant
            i <= kept.len(),
            n == range_count(views(ls@)),
            views(kept@) == views(ls@).skip(n as int).filter(is_filled()),
            written == views(kept@).map_values(|l: Seq<char>| parsed_i64(trimmed(l))),
            ids.len() == i,
            forall|j: int| 0 <= j < i ==> #[trigger] written[j] == Some(ids@[j]),
        decreases kept.len() - i,
    {
        match parse_i64(trim(kept[i])) {
            Some(id) => {
                ids.push(id);
            },
            None => {
                assert(written[i as int] is None);
                return None;
            },
        }
        i += 1;
    }
    proof {
        lemma_collected(written, ids@);
    }
    Some(ids)
}

/// Tells whether `id` lies in one of the ranges.
pub fn in_some_range(ranges: &Vec<(i64, i64)>, id: i64) -> (b: bool)
    ensures
        b == covers(ranges@, id as int),
{
    let mut i: usize = 0;
    while i < ranges.len()
        invariant
            i <= ranges.len(),
            forall|j: int| 0 <= j < i ==> !((#[trigger] ranges@[j]).0 <= id <= ranges@[j].1),
        decreases ranges.len() - i,
    {
        if ranges[i].0 <= id && id <= ranges[i].1 {
            return true;
        }
        i += 1;
    }
    false
}

/// Counts the ids that lie in one of the ranges.
pub fn count_fresh(ranges: &Vec<(i64, i64)>, ids: &Vec<i64>) -> (n: usize)
    ensures
        n == ids@.filter(is_fresh(ranges@)).len(),
{
    let mut n: usize = 0;
    let mut i: usize = 0;
    assert(ids@.take(0) =~= Seq::<i64>::empty());
    proof {
        reveal(Seq::filter);
    }
    assert(ids@.take(0).filter(is_fresh(ranges@)).len() == 0);
    while i < ids.len()
        invariant
            i <= ids.len(),
            n <= i,
            n == ids@.take(i as int).filter(is_fresh(ranges@)).len(),
        decreases ids.len() - i,
    {
        proof {
            assert(ids@.take(i + 1) =~= ids@.take(i as int).push(ids@[i as int]));
            ids@.take(i as int).lemma_filter_push(ids@[i as int], is_fresh(ranges@));
        }
        if in_some_range(ranges, ids[i]) {
            n += 1;
        }
        i += 1;
    }
    assert(ids@.take(i as int) =~= ids@);
    n
}

/// The first part: how many of the ids lie in a range.
pub fn part1(input: &str) -> (r: Result<i64, PuzzleError>)
    ensures
        outcome(r) == part1_of(input@),
{
    let chars = chars_of(input);
    let ls = lines(trim(chars.as_slice()));
    let ranges = read_ranges(&ls);
    let ids = read_ids(&ls);
    match (ranges, ids) {
        (Some(ranges), Some(ids)) => {
            let n: usize = count_fresh(&ranges, &ids);
            if n as u128 > i64::MAX as u128 {
                Err(PuzzleError::Overflow)
            } else {
                Ok(n as i64)
            }
        },
        _ => Err(PuzzleError::Malformed),
    }
}

/// Putting a range among others adds its integers to theirs.
pub proof fn lemma_covered_insert(ranges: Seq<(i64, i64)>, at: int, range: (i64, i64))
    requires
        0 <= at <= ranges.len(),
    ensures
        covered(ranges.insert(at, range)) == covered(ranges) + span(range),
{
    let more = ranges.insert(at, range);
    assert forall|n: int| covered(more).contains(n) <==> (covered(ranges) + span(range)).contains(
        n,
    ) by {
        if covers(more, n) {
            let i = choose|i: int| 0 <= i < more.len() && (#[trigger] more[i]).0 <= n <= more[i].1;
            if i < at {
                assert(ranges[i] == more[i]);
            } else if i > at {
                assert(ranges[i - 1] == more[i]);
            }
        }
        if covers(ranges, n) {
            let i = choose|i: int|
                0 <= i < ranges.len() && (#[trigger] ranges[i]).0 <= n <= ranges[i].1;
            if i < at {
                assert(more[i] == ranges[i]);
            } else {
                assert(more[i + 1] == ranges[i]);
            }
        }
        if span(range).contains(n) {
            assert(more[at] == range);
        }
    }
    assert(covered(more) =~= covered(ranges) + span(range));
}

/// The ranges that hold an integer, in the order of their lower ends.
fn sorted_ranges(ranges: &Vec<(i64, i64)>) -> (sorted: Vec<(i64, i64)>)
    ensures
        covered(sorted@) == covered(ranges@),
        ascending(sorted@),
        all_filled(sorted@),
{
    let mut sorted: Vec<(i64, i64)> = Vec::new();
    let mut i: usize = 0;
    assert(covered(sorted@) =~= covered(ranges@.take(0)));
    while i < ranges.len()
        invariant
            i <= ranges.len(),
            covered(sorted@) == covered(ranges@.take(i as int)),
            ascending(sorted@),
            all_filled(sorted@),
        decreases ranges.len() - i,
    {
        let range = ranges[i];
        proof {
            assert(ranges@.take(i + 1) =~= ranges@.take(i as int).insert(i as int, range));
            lemma_covered_insert(ranges@.take(i as int), i as int, range);
        }
        if range.0 <= range.1 {
            let mut at: usize = 0;
            while at < sorted.len() && sorted[at].0 <= range.0
                invariant
                    at <= sorted.len(),
                    forall|j: int| 0 <= j < at ==> (#[trigger] sorted@[j]).0 <= range.0,
                decreases sorted.len() - at,
            {
                at += 1;
            }
            let ghost before = sorted@;
            sorted.insert(at, range);
            proof {
                lemma_covered_insert(before, at as int, range);
                assert forall|a: int, b: int| 0 <= a <= b < sorted@.len() implies (
                #[trigger] sorted@[a]).0 <= (#[trigger] sorted@[b]).0 by {
                    if a < at && b > at {
                        assert(before[a].0 <= before[b - 1].0);
                    } else if a < at && b < at {
                        assert(before[a].0 <= before[b].0);
                    } else if a > at {
                        assert(before[a - 1].0 <= before[b - 1].0);
                    } else if a == at && b > at {
                        assert(before[at as int].0 <= before[b - 1].0);
                    }
                }
                assert forall|j: int| 0 <= j < sorted@.len() implies (#[trigger] sorted@[j]).0
                    <= sorted@[j].1 by {
                    if j < at {
                        assert(sorted@[j] == before[j]);
                    } else if j > at {
                        assert(sorted@[j] == before[j - 1]);
                    }
                }
            }
        } else {
            assert(span(range) =~= Set::<int>::empty());
            assert(covered(sorted@) + span(range) =~= covered(sorted@));
        }
        i += 1;
    }
    assert(ranges@.take(i as int) =~= ranges@);
    sorted
}

/// Counts the integers that lie in one of the ranges, which stand in the
/// order of their lower ends and hold an integer each.
fn measure(sorted: &Vec<(i64, i64)>) -> (total: u128)
    requires
        ascending(sorted@),
        all_filled(sorted@),
    ensures
        total == covered(sorted@).len(),
        covered(sorted@).finite(),
{
    if sorted.len() == 0 {
        assert(covered(sorted@) =~= Set::<int>::empty());
        return 0;
    }
    let mut total: u128 = 0;
    let mut lo: i64 = sorted[0].0;
    let mut hi: i64 = sorted[0].1;
    let ghost mut left: Set<int> = Set::empty();
    let ghost mut start: int = 0;
    let mut i: usize = 1;
    proof {
        lemma_covered_insert(Seq::<(i64, i64)>::empty(), 0, sorted@[0]);
        assert(sorted@.take(1) =~= Seq::<(i64, i64)>::empty().insert(0, sorted@[0]));
        assert(covered(Seq::<(i64, i64)>::empty()) =~= Set::<int>::empty());
        assert(covered(sorted@.take(1)) =~= left + set_int_range(lo as int, hi + 1));
    }
    while i < sorted.len()
        invariant
            1 <= i <= sorted.len(),
            ascending(sorted@),
            all_filled(sorted@),
            0 <= start < i,
            lo == sorted@[start].0,
            lo <= hi,
            left.finite(),
            total == left.len(),
            total <= lo - i64::MIN,
            forall|n: int| left.contains(n) ==> n < lo,
            covered(sorted@.take(i as int)) == left + set_int_range(lo as int, hi + 1),
        decreases sorted.len() - i,
    {
        let range = sorted[i];
        proof {
            assert(sorted@.take(i + 1) =~= sorted@.take(i as int).insert(i as int, range));
            lemma_covered_insert(sorted@.take(i as int), i as int, range);
            assert(sorted@[start].0 <= sorted@[i as int].0);
            lemma_int_range(lo as int, hi + 1);
        }
        if range.0 > hi {
            proof {
                let merged = set_int_range(lo as int, hi + 1);
                lemma_set_disjoint_lens(left, merged);
                assert(left.disjoint(merged));
                left = left + merged;
                start = i as int;
            }
            total = total + ((hi as i128 - lo as i128) as u128 + 1);
            lo = range.0;
            hi = range.1;
        } else {
            let ghost merged = set_int_range(lo as int, hi + 1);
            if range.1 > hi {
                hi = range.1;
            }
            assert(merged + span(range) =~= set_int_range(lo as int, hi + 1));
            assert(left + merged + span(range) =~= left + (merged + span(range)));
        }
        i += 1;
    }
    proof {
        assert(sorted@.take(i as int) =~= sorted@);
        let merged = set_int_range(lo as int, hi + 1);
        lemma_int_range(lo as int, hi + 1);
        lemma_set_disjoint_lens(left, merged);
        assert(left.disjoint(merged));
    }
    total + ((hi as i128 - lo as i128) as u128 + 1)
}

/// Counts the integers that lie in one of the ranges.
pub fn count_covered(ranges: &Vec<(i64, i64)>) -> (total: u128)
    ensures
        total == covered(ranges@).len(),
        covered(ranges@).finite(),
{
    let sorted = sorted_ranges(ranges);
    measure(&sorted)
}

/// The second part: how many integers lie in a range.
pub fn part2(input: &str) -> (r: Result<i64, PuzzleError>)
    ensures
        outcome(r) == part2_of(input@),
{
    let chars = chars_of(input);
    let ls = lines(trim(chars.as_slice()));
    match read_ranges(&ls) {
        Some(ranges) => {
            if ranges.len() == 0 {
                Err(PuzzleError::Malformed)
            } else {
                let total: u128 = count_covered(&ranges);
                if total > i64::MAX as u128 {
                    Err(PuzzleError::Overflow)
                } else {
                    Ok(total as i64)
                }
            }
        },
        None => Err(PuzzleError::Malformed),
    }
}

} // verus!
