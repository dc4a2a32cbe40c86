//! How the answers of a puzzle are put out.
//!
//! A puzzle program prints two lines, `Part 1: <value>` and
//! `Part 2: <value>`, the value in decimal.

use crate::number::{decimal, decimal_nat, push_decimal, push_signed_decimal};
use vstd::prelude::*;

verus! {

/// The line for the answer `value` of part `part`, without its line feed.
pub open spec fn answer_line_of(part: nat, value: int) -> Seq<char> {
    "Part "@ + decimal_nat(part) + ": "@ + decimal(value)
}

/// Writes the line for the answer `value` of part `part`, without its line
/// feed.
pub fn answer_line(part: u8, value: i64) -> (line: String)
    ensures
        line@ == answer_line_of(part as nat, value as int),
{
    let mut line = String::from_str("Part ");
    push_decimal(&mut line, part as u64);
    line.append(": ");
    push_signed_decimal(&mut line, value);
    line
}

} // verus!
