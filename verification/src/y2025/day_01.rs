//! Year 2025, day 1: a dial that is turned.
//!
//! A dial shows the numbers 0 to 99 and starts at 50. Each line of the text
//! that is not empty writes one turn: a letter for the direction, `R` for
//! upwards and `L` for downwards, and the number of clicks. The first part
//! counts the turns that end on 0; the second counts the clicks that land
//! on 0.

use crate::error::{fit_i64, outcome, PuzzleError};
use crate::number::{parse_i64, parsed_i64};
use crate::text::{
    chars_of, collected, is_filled, keep_filled, lemma_collected, lines, lines_of, trim, trimmed,
    views,
};
use vstd::arithmetic::div_mod::{lemma_fundamental_div_mod, lemma_fundamental_div_mod_converse};
use vstd::prelude::*;
use vstd::slice::slice_subrange;

verus! {

/// Which way a turn goes.
#[derive(Clone, Copy, Debug, PartialEq, Eq, Structural)]
pub enum Direction {
    /// Towards higher numbers.
    Right,
    /// Towards lower numbers.
    Left,
    /// Nowhere: the dial stays where it is.
    Neither,
}

/// One turn of the dial.
#[derive(Clone, Copy, Debug, PartialEq, Eq, Structural)]
pub struct Turn {
    /// Which way it goes.
    pub direction: Direction,
    /// How many clicks it is written with.
    pub amount: i64,
}

/// The direction that a letter stands for. A letter other than `R` and `L`
/// stands for a turn that goes nowhere.
pub open spec fn direction_of(letter: char) -> Direction {
    if letter == 'R' {
        Direction::Right
    } else if letter == 'L' {
        Direction::Left
    } else {
        Direction::Neither
    }
}

/// The turn that `line` writes: one character of the seven-bit range for the
/// direction, then an integer, which may have white space around it.
pub open spec fn turn_of(line: Seq<char>) -> Option<Turn> {
    if line.len() > 0 && (line[0] as int) < 128 {
        match parsed_i64(trimmed(line.skip(1))) {
            Some(amount) => Some(Turn { direction: direction_of(line[0]), amount }),
            None => None,
        }
    } else {
        None
    }
}

/// The turns of a text: what its lines other than the empty ones write, if
/// each of them writes a turn.
pub open spec fn turns_in(text: Seq<char>) -> Option<Seq<Turn>> {
    collected(lines_of(text).filter(is_filled()).map_values(|l: Seq<char>| turn_of(l)))
}

/// How far a turn moves the dial when it is made in one go. A negative
/// amount moves it the other way.
pub open spec fn offset(turn: Turn) -> int {
    match turn.direction {
        Direction::Right => turn.amount as int,
        Direction::Left => -turn.amount,
        Direction::Neither => 0,
    }
}

/// What the dial shows after the turns, each made in one go.
pub open spec fn dial_after(turns: Seq<Turn>) -> int
    decreases turns.len(),
{
    if turns.len() == 0 {
        50
    } else {
        (dial_after(turns.drop_last()) + offset(turns.last())) % 100
    }
}

/// How many of the turns, each made in one go, end on 0.
pub open spec fn rests_on_zero(turns: Seq<Turn>) -> int
    decreases turns.len(),
{
    if turns.len() == 0 {
        0
    } else {
        rests_on_zero(turns.drop_last()) + if dial_after(turns) == 0 {
            1int
        } else {
            0int
        }
    }
}

/// How far one click moves the dial.
pub open spec fn step(direction: Direction) -> int {
    match direction {
        Direction::Right => 1,
        Direction::Left => -1,
        Direction::Neither => 0,
    }
}

/// What a dial at `dial` shows after `clicks` clicks.
pub open spec fn clicked(dial: int, direction: Direction, clicks: int) -> int
    decreases clicks,
{
    if clicks <= 0 {
        dial
    } else {
        (clicked(dial, direction, clicks - 1) + step(direction)) % 100
    }
}

/// How many of `clicks` clicks land on 0, from a dial at `dial`.
pub open spec fn landings(dial: int, direction: Direction, clicks: int) -> int
    decreases clicks,
{
    if clicks <= 0 {
        0
    } else {
        landings(dial, direction, clicks - 1) + if clicked(dial, direction, clicks) == 0 {
            1int
        } else {
            0int
        }
    }
}

/// What the dial shows after the turns, each made click by click. A turn
/// with a negative amount has no clicks.
pub open spec fn dial_after_clicks(turns: Seq<Turn>) -> int
    decreases turns.len(),
{
    if turns.len() == 0 {
        50
    } else {
        clicked(
            dial_after_clicks(turns.drop_last()),
            turns.last().direction,
            turns.last().amount as int,
        )
    }
}

/// How many clicks of the turns land on 0.
pub open spec fn clicks_on_zero(turns: Seq<Turn>) -> int
    decreases turns.len(),
{
    if turns.len() == 0 {
        0
    } else {
        clicks_on_zero(turns.drop_last()) + landings(
            dial_after_clicks(turns.drop_last()),
            turns.last().direction,
            turns.last().amount as int,
        )
    }
}

/// The answer of the first part.
pub open spec fn part1_of(text: Seq<char>) -> Result<int, PuzzleError> {
    match turns_in(text) {
        Some(turns) => fit_i64(rests_on_zero(turns)),
        None => Err(PuzzleError::Malformed),
    }
}

/// The answer of the second part.
pub open spec fn part2_of(text: Seq<char>) -> Result<int, PuzzleError> {
    match turns_in(text) {
        Some(turns) => fit_i64(clicks_on_zero(turns)),
        None => Err(PuzzleError::Malformed),
    }
}

/// Reads one turn.
pub fn parse_turn(line: &[char]) -> (r: Option<Turn>)
    ensures
        r == turn_of(line@),
{
    if line.len() == 0 {
        return None;
    }
    let letter: char = line[0];
    if letter > '\u{7f}' {
        return None;
    }
    assert(line@.skip(1) =~= line@.subrange(1, line@.len() as int));
    match parse_i64(trim(slice_subrange(line, 1, line.len()))) {
        Some(amount) => {
            let direction = if letter == 'R' {
                Direction::Right
            } else if letter == 'L' {
                Direction::Left
            } else {
                Direction::Neither
            };
            Some(Turn { direction, amount })
        },
        None => None,
    }
}

/// Reads the turns of a text.
pub fn read_turns(input: &str) -> (r: Option<Vec<Turn>>)
    ensures
        match r {
            Some(turns) => turns_in(input@) == Some(turns@),
            None => turns_in(input@) is None,
        },
{
    let chars = chars_of(input);
    let ls = lines(chars.as_slice());
    let kept = keep_filled(ls.as_slice());
    let ghost written = views(kept@).map_values(|l: Seq<char>| turn_of(l));
    let mut turns: Vec<Turn> = Vec::new();
    let mut i: usize = 0;
    while i < kept.len()
        invariant
            i <= kept.len(),
            views(kept@) == lines_of(input@).filter(is_filled()),
            written == views(kept@).map_values(|l: Seq<char>| turn_of(l)),
            turns.len() == i,
            forall|j: int| 0 <= j < i ==> #[trigger] written[j] == Some(turns@[j]),
        decreases kept.len() - i,
    {
        match parse_turn(kept[i]) {
            Some(turn) => {
                turns.push(turn);
            },
            None => {
                assert(written[i as int] is None);
                return None;
            },
        }
        i += 1;
    }
    proof {
        lemma_collected(written, turns@);
    }
    Some(turns)
}

/// `n` taken to the range of the dial: what is left of it beyond whole
/// rounds.
pub fn beyond_rounds(n: i64) -> (left: i64)
    ensures
        left == n % 100,
        0 <= left < 100,
{
    if n >= 0 {
        n % 100
    } else {
        let magnitude: i128 = -(n as i128);
        let rounds: i128 = magnitude / 100;
        let short: i128 = magnitude % 100;
        let left: i128 = if short == 0 {
            0
        } else {
            100 - short
        };
        proof {
            let q: int = if short == 0 {
                -rounds
            } else {
                -rounds - 1
            };
            lemma_fundamental_div_mod(magnitude as int, 100);
            lemma_fundamental_div_mod_converse(n as int, 100, q, left as int);
        }
        left as i64
    }
}

/// What a dial at `dial` shows after the turn `turn`, made in one go.
fn turned(dial: i64, turn: Turn) -> (next: i64)
    requires
        0 <= dial < 100,
    ensures
        next == (dial + offset(turn)) % 100,
        0 <= next < 100,
{
    let up: i64 = beyond_rounds(turn.amount);
    let ghost rounds: int = turn.amount as int / 100;
    proof {
        lemma_fundamental_div_mod(turn.amount as int, 100);
    }
    match turn.direction {
        Direction::Right => {
            let sum: i64 = dial + up;
            let next: i64 = if sum >= 100 {
                sum - 100
            } else {
                sum
            };
            proof {
                let q: int = if sum >= 100 {
                    rounds + 1
                } else {
                    rounds
                };
                lemma_fundamental_div_mod_converse(dial + turn.amount, 100, q, next as int);
            }
            next
        },
        Direction::Left => {
            let sum: i64 = dial + 100 - up;
            let next: i64 = if sum >= 100 {
                sum - 100
            } else {
                sum
            };
            proof {
                let q: int = if sum >= 100 {
                    -rounds
                } else {
                    -rounds - 1
                };
                lemma_fundamental_div_mod_converse(dial - turn.amount, 100, q, next as int);
            }
            next
        },
        Direction::Neither => dial,
    }
}

/// The first part: how many turns end on 0.
pub fn part1(input: &str) -> (r: Result<i64, PuzzleError>)
    ensures
        outcome(r) == part1_of(input@),
{
    let turns = match read_turns(input) {
        Some(turns) => turns,
        None => {
            return Err(PuzzleError::Malformed);
        },
    };
    let mut dial: i64 = 50;
    let mut rests: usize = 0;
    let mut i: usize = 0;
    assert(turns@.take(0) =~= Seq::<Turn>::empty());
    while i < turns.len()
        invariant
            i <= turns.len(),
            rests <= i,
            0 <= dial < 100,
            dial == dial_after(turns@.take(i as int)),
            rests == rests_on_zero(turns@.take(i as int)),
        decreases turns.len() - i,
    {
        assert(turns@.take(i + 1).drop_last() =~= turns@.take(i as int));
        dial = turned(dial, turns[i]);
        if dial == 0 {
            rests += 1;
        }
        i += 1;
    }
    assert(turns@.take(i as int) =~= turns@);
    if rests as u128 > i64::MAX as u128 {
        Err(PuzzleError::Overflow)
    } else {
        Ok(rests as i64)
    }
}

/// Clicks need not be counted one by one: the dial after `clicks` clicks,
/// and how many of them land on 0, follow from where the dial stood and
/// from the number of clicks alone.
pub proof fn lemma_clicks(dial: int, direction: Direction, clicks: int)
    requires
        0 <= dial < 100,
        0 <= clicks,
    ensures
        clicked(dial, direction, clicks) == match direction {
            Direction::Right => (dial + clicks) % 100,
            Direction::Left => (dial - clicks) % 100,
            Direction::Neither => dial,
        },
        landings(dial, direction, clicks) == match direction {
            Direction::Right => (dial + clicks) / 100,
            Direction::Left => if dial == 0 {
                clicks / 100
            } else if clicks >= dial {
                (clicks - dial) / 100 + 1
            } else {
                0
            },
            Direction::Neither => if dial == 0 {
                clicks
            } else {
                0
            },
        },
    decreases clicks,
{
    if clicks > 0 {
        lemma_clicks(dial, direction, clicks - 1);
        match direction {
            Direction::Right => {
                lemma_one_up(dial + clicks - 1);
            },
            Direction::Left => {
                lemma_one_down(dial - clicks + 1);
                if dial == 0 {
                    lemma_one_up(clicks - 1);
                    lemma_round_either_way(clicks);
                } else if clicks > dial {
                    lemma_one_up(clicks - dial - 1);
                    lemma_round_either_way(clicks - dial);
                } else {
                    lemma_fundamental_div_mod_converse(dial - clicks, 100, 0, dial - clicks);
                }
            },
            Direction::Neither => {
                lemma_fundamental_div_mod_converse(dial, 100, 0, dial);
            },
        }
    } else {
        lemma_fundamental_div_mod_converse(dial, 100, 0, dial);
    }
}

/// One more than `x` is one further in its round, or starts the next round.
pub proof fn lemma_one_up(x: int)
    ensures
        (x % 100 + 1) % 100 == (x + 1) % 100,
        (x + 1) / 100 == x / 100 + if (x + 1) % 100 == 0 {
            1int
        } else {
            0int
        },
{
    let q = x / 100;
    let r = x % 100;
    lemma_fundamental_div_mod(x, 100);
    if r + 1 < 100 {
        lemma_fundamental_div_mod_converse(x + 1, 100, q, r + 1);
        lemma_fundamental_div_mod_converse(r + 1, 100, 0, r + 1);
    } else {
        lemma_fundamental_div_mod_converse(x + 1, 100, q + 1, 0);
        lemma_fundamental_div_mod_converse(r + 1, 100, 1, 0);
    }
}

/// One less than `x` is one back in its round, or ends the round before.
pub proof fn lemma_one_down(x: int)
    ensures
        (x % 100 - 1) % 100 == (x - 1) % 100,
{
    let q = x / 100;
    let r = x % 100;
    lemma_fundamental_div_mod(x, 100);
    if r >= 1 {
        lemma_fundamental_div_mod_converse(x - 1, 100, q, r - 1);
        lemma_fundamental_div_mod_converse(r - 1, 100, 0, r - 1);
    } else {
        lemma_fundamental_div_mod_converse(x - 1, 100, q - 1, 99);
        lemma_fundamental_div_mod_converse(r - 1, 100, -1, 99);
    }
}

/// A number of whole rounds one way is a number of whole rounds the other
/// way.
pub proof fn lemma_round_either_way(x: int)
    ensures
        ((-x) % 100 == 0) == (x % 100 == 0),
{
    let q = x / 100;
    let r = x % 100;
    lemma_fundamental_div_mod(x, 100);
    if r == 0 {
        lemma_fundamental_div_mod_converse(-x, 100, -q, 0);
    } else {
        lemma_fundamental_div_mod_converse(-x, 100, -q - 1, 100 - r);
    }
}

/// How many of the clicks of a turn land on 0, from a dial at `dial`.
fn landed(dial: i64, turn: Turn) -> (n: i64)
    requires
        0 <= dial < 100,
    ensures
        n == landings(dial as int, turn.direction, turn.amount as int),
        0 <= n,
{
    let clicks: i64 = turn.amount;
    if clicks <= 0 {
        return 0;
    }
    proof {
        lemma_clicks(dial as int, turn.direction, clicks as int);
    }
    match turn.direction {
        Direction::Right => ((dial as i128 + clicks as i128) / 100) as i64,
        Direction::Left => if dial == 0 {
            clicks / 100
        } else if clicks >= dial {
            (clicks - dial) / 100 + 1
        } else {
            0
        },
        Direction::Neither => if dial == 0 {
            clicks
        } else {
            0
        },
    }
}

/// The second part: how many clicks land on 0.
pub fn part2(input: &str) -> (r: Result<i64, PuzzleError>)
    ensures
        outcome(r) == part2_of(input@),
{
    let turns = match read_turns(input) {
        Some(turns) => turns,
        None => {
            return Err(PuzzleError::Malformed);
        },
    };
    let mut dial: i64 = 50;
    let mut total: u128 = 0;
    let mut i: usize = 0;
    assert(turns@.take(0) =~= Seq::<Turn>::empty());
    while i < turns.len()
        invariant
            i <= turns.len(),
            0 <= dial < 100,
            dial == dial_after_clicks(turns@.take(i as int)),
            total == clicks_on_zero(turns@.take(i as int)),
            total <= i * 0x8000_0000_0000_0000,
        decreases turns.len() - i,
    {
        assert(turns@.take(i + 1).drop_last() =~= turns@.take(i as int));
        let turn = turns[i];
        total += landed(dial, turn) as u128;
        if turn.amount > 0 {
            proof {
                lemma_clicks(dial as int, turn.direction, turn.amount as int);
            }
            dial = turned(dial, turn);
        }
        i += 1;
    }
    assert(turns@.take(i as int) =~= turns@);
    if total > i64::MAX as u128 {
        Err(PuzzleError::Overflow)
    } else {
        Ok(total as i64)
    }
}

} // verus!
