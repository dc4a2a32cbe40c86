//! Where the input of a puzzle lies under a root directory.
//!
//! The input of part `part` of the puzzle of day `day` of year `year` is the
//! file `<root>/data/<year>/day_<DD>/input_<part>.txt`, where `DD` is the day
//! in at least two digits. Components are separated by `/`.

use crate::number::{
    decimal, decimal_nat, digit_char, lemma_decimal_nat_value, push_decimal, push_signed_decimal,
};
use crate::text::{chars_of};
use vstd::prelude::*;

verus! {

/// `root`, ready to have a component put behind it: followed by a `/` unless
/// it is empty or ends in one already.
pub open spec fn with_separator(root: Seq<char>) -> Seq<char> {
    if root.len() == 0 || root.last() == '/' {
        root
    } else {
        root + "/"@
    }
}

/// The day in decimal, with a leading zero where it has one digit only.
pub open spec fn padded_day(day: nat) -> Seq<char> {
    if day < 10 {
        "0"@ + decimal_nat(day)
    } else {
        decimal_nat(day)
    }
}

/// The directory of a day: `day_` and the padded day.
pub open spec fn day_segment_of(day: nat) -> Seq<char> {
    "day_"@ + padded_day(day)
}

/// The file of a part: `input_`, the part in decimal, and `.txt`.
pub open spec fn part_segment_of(part: nat) -> Seq<char> {
    "input_"@ + decimal_nat(part) + ".txt"@
}

/// The path of a puzzle's input below `root`.
pub open spec fn input_path_of(root: Seq<char>, year: int, day: nat, part: nat) -> Seq<char> {
    with_separator(root) + "data/"@ + decimal(year) + "/"@ + day_segment_of(day) + "/"@
        + part_segment_of(part)
}

/// The name of the directory that holds the inputs of day `day`.
pub fn day_segment(day: u8) -> (segment: String)
    ensures
        segment@ == day_segment_of(day as nat),
{
    let mut segment = String::from_str("day_");
    if day < 10 {
        segment.append("0");
    }
    push_decimal(&mut segment, day as u64);
    assert(segment@ =~= day_segment_of(day as nat));
    segment
}

/// The name of the file that holds the input of part `part`.
pub fn part_segment(part: u8) -> (segment: String)
    ensures
        segment@ == part_segment_of(part as nat),
{
    let mut segment = String::from_str("input_");
    push_decimal(&mut segment, part as u64);
    segment.append(".txt");
    segment
}

/// Builds the path of the input of a puzzle below `root`. The year is
/// written as it is, the day in at least two digits, the part as it is.
/// A `root` that is empty or ends in `/` gets no further separator.
pub fn input_path(root: &str, year: i32, day: u8, part: u8) -> (path: String)
    ensures
        path@ == input_path_of(root@, year as int, day as nat, part as nat),
{
    let mut path = String::from_str(root);
    let root_chars = chars_of(root);
    let n: usize = root_chars.len();
    if n > 0 && root_chars[n - 1] != '/' {
        path.append("/");
    }
    path.append("data/");
    push_signed_decimal(&mut path, year as i64);
    path.append("/");
    let day_name = day_segment(day);
    path.append(day_name.as_str());
    path.append("/");
    let part_name = part_segment(part);
    path.append(part_name.as_str());
    path
}

/// Building a path twice from equal roots and equal keys gives equal paths.
pub proof fn lemma_input_path_deterministic(
    root_a: Seq<char>,
    root_b: Seq<char>,
    year_a: int,
    year_b: int,
    day_a: nat,
    day_b: nat,
    part_a: nat,
    part_b: nat,
)
    requires
        root_a == root_b,
        year_a == year_b,
        day_a == day_b,
        part_a == part_b,
    ensures
        input_path_of(root_a, year_a, day_a, part_a) == input_path_of(
            root_b,
            year_b,
            day_b,
            part_b,
        ),
{
}

/// Two digits are the least width of a day, not the greatest: a day below
/// ten gets one leading zero, and a day of two or three digits is written
/// as it is.
pub proof fn lemma_padded_day_width(day: nat)
    ensures
        day < 10 ==> padded_day(day) == "0"@ + decimal_nat(day) && decimal_nat(day).len() == 1,
        day >= 10 ==> padded_day(day) == decimal_nat(day) && decimal_nat(day).len() >= 2,
        padded_day(day).len() >= 2,
{
    reveal_strlit("0");
    if day >= 10 {
        assert(decimal_nat(day) == decimal_nat(day / 10).push(
            digit_char((day % 10) as int),
        ));
        lemma_decimal_nat_value(day / 10);
    }
}

} // verus!
