//! Year 2017, day 3: how far a square of the spiral lies from its middle.
//!
//! The squares of a grid are numbered along a spiral. Square 1 lies in the
//! middle; the numbering goes one square to the east, one to the north, two
//! to the west, two to the south, three to the east, and so on: straight
//! legs whose length grows by one at every second turn, each turned a
//! quarter to the left of the one before. The text is the number of a
//! square, and the answer is the number of steps east or west and north or
//! south between that square and the middle.

use crate::error::{fit_i64, outcome, PuzzleError};
use crate::number::{parse_i64, parsed_i64};
use crate::text::{chars_of, trim, trimmed};
use vstd::prelude::*;

verus! {

/// How many squares leg number `leg` is long, the first leg being leg 0.
pub open spec fn leg_length(leg: nat) -> int {
    leg as int / 2 + 1
}

/// The place `by` squares along leg number `leg` from the place `at`.
pub open spec fn moved(at: (int, int), leg: nat, by: int) -> (int, int) {
    let heading = leg % 4;
    if heading == 0 {
        (at.0 + by, at.1)
    } else if heading == 1 {
        (at.0, at.1 + by)
    } else if heading == 2 {
        (at.0 - by, at.1)
    } else {
        (at.0, at.1 - by)
    }
}

/// The place of the square `target`, where leg number `leg` begins behind
/// the square `square`, which lies at `at`. A target that the leg does not
/// reach lies on a later leg. One that lies before the leg's start is
/// placed on the leg drawn backwards.
pub open spec fn walk(target: int, leg: nat, square: int, at: (int, int)) -> (int, int)
    decreases target - square,
{
    if square + leg_length(leg) >= target {
        moved(at, leg, target - square)
    } else {
        walk(target, leg + 1, square + leg_length(leg), moved(at, leg, leg_length(leg)))
    }
}

/// The place of the square `target`, the middle being `(0, 0)`, east and
/// north counted upwards.
pub open spec fn place_of(target: int) -> (int, int) {
    walk(target, 0, 1, (0, 0))
}

/// `n` without its sign.
pub open spec fn magnitude(n: int) -> int {
    if n < 0 {
        -n
    } else {
        n
    }
}

/// How many steps along the grid lie between the square `target` and the
/// middle.
pub open spec fn distance_of(target: int) -> int {
    magnitude(place_of(target).0) + magnitude(place_of(target).1)
}

/// The answer of the first part.
pub open spec fn part1_of(text: Seq<char>) -> Result<int, PuzzleError> {
    match parsed_i64(trimmed(text)) {
        Some(target) => fit_i64(distance_of(target as int)),
        None => Err(PuzzleError::Malformed),
    }
}

/// How many steps along the grid lie between two places.
pub open spec fn steps_between(a: (int, int), b: (int, int)) -> int {
    magnitude(a.0 - b.0) + magnitude(a.1 - b.1)
}

/// Square 1 lies in the middle.
pub proof fn lemma_first_square_is_the_middle()
    ensures
        place_of(1) == (0int, 0int),
        distance_of(1) == 0,
{
}

/// On a walk that has not passed the square `target`, the square behind
/// `target` lies one step from it.
pub proof fn lemma_walk_next(target: int, leg: nat, square: int, at: (int, int))
    requires
        square <= target,
    ensures
        steps_between(walk(target, leg, square, at), walk(target + 1, leg, square, at)) == 1,
    decreases target - square,
{
    let length = leg_length(leg);
    if square + length >= target + 1 {
    } else if square + length >= target {
        assert(leg_length((leg + 1) as nat) >= 1);
        assert(walk(target + 1, leg, square, at) == walk(
            target + 1,
            (leg + 1) as nat,
            square + length,
            moved(at, leg, length),
        ));
        assert(walk(target + 1, leg, square, at) == moved(
            moved(at, leg, length),
            (leg + 1) as nat,
            1,
        ));
    } else {
        lemma_walk_next(target, (leg + 1) as nat, square + length, moved(at, leg, length));
    }
}

/// Each square of the spiral lies one step from the square before it.
pub proof fn lemma_next_square_is_adjacent(square: int)
    requires
        1 <= square,
    ensures
        steps_between(place_of(square), place_of(square + 1)) == 1,
{
    lemma_walk_next(square, 0, 1, (0, 0));
}

/// Walks the spiral to the square `target` and counts the steps between it
/// and the middle.
pub fn spiral_distance(target: i64) -> (steps: u64)
    ensures
        steps == distance_of(target as int),
{
    let mut leg: u64 = 0;
    let mut square: i64 = 1;
    let mut x: i64 = 0;
    let mut y: i64 = 0;
    loop
        invariant
            walk(target as int, leg as nat, square as int, (x as int, y as int)) == place_of(
                target as int,
            ),
            1 <= square,
            leg < square,
            magnitude(x as int) + magnitude(y as int) < square,
            square == 1 || square < target,
        decreases target - square,
    {
        let length: i64 = (leg / 2 + 1) as i64;
        let heading: u64 = leg % 4;
        if length as i128 >= target as i128 - square as i128 {
            let by: i128 = target as i128 - square as i128;
            let (to_x, to_y): (i128, i128) = if heading == 0 {
                (x as i128 + by, y as i128)
            } else if heading == 1 {
                (x as i128, y as i128 + by)
            } else if heading == 2 {
                (x as i128 - by, y as i128)
            } else {
                (x as i128, y as i128 - by)
            };
            let east: i128 = if to_x < 0 {
                -to_x
            } else {
                to_x
            };
            let north: i128 = if to_y < 0 {
                -to_y
            } else {
                to_y
            };
            return (east + north) as u64;
        }
        if heading == 0 {
            x = x + length;
        } else if heading == 1 {
            y = y + length;
        } else if heading == 2 {
            x = x - length;
        } else {
            y = y - length;
        }
        square = square + length;
        leg = leg + 1;
    }
}

/// The first part: the distance of the square that the text names.
pub fn part1(input: &str) -> (r: Result<i64, PuzzleError>)
    ensures
        outcome(r) == part1_of(input@),
{
    let chars = chars_of(input);
    match parse_i64(trim(chars.as_slice())) {
        Some(target) => {
            let steps: u64 = spiral_distance(target);
            if steps > i64::MAX as u64 {
                Err(PuzzleError::Overflow)
            } else {
                Ok(steps as i64)
            }
        },
        None => Err(PuzzleError::Malformed),
    }
}

} // verus!
