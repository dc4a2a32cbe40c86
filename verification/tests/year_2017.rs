use aoclib::error::PuzzleError;
use aoclib::y2017::{day_01, day_02, day_03};

#[test]
fn day_01_part1_adds_digits_that_match_the_next() {
    assert_eq!(day_01::part1("1122"), Ok(3));
    assert_eq!(day_01::part1("1111"), Ok(4));
    assert_eq!(day_01::part1("1234"), Ok(0));
    assert_eq!(day_01::part1("91212129"), Ok(9));
    assert_eq!(day_01::part1("1122\n"), Ok(3));
    assert_eq!(day_01::part1("  1122 \r\n"), Ok(3));
}

#[test]
fn day_01_part2_adds_digits_that_match_half_way_round() {
    assert_eq!(day_01::part2("1212"), Ok(6));
    assert_eq!(day_01::part2("1221"), Ok(0));
    assert_eq!(day_01::part2("123425"), Ok(4));
    assert_eq!(day_01::part2("123123"), Ok(12));
    assert_eq!(day_01::part2("12131415\n"), Ok(4));
}

#[test]
fn day_01_short_rings() {
    assert_eq!(day_01::part1(""), Ok(0));
    assert_eq!(day_01::part2(""), Ok(0));
    assert_eq!(day_01::part1("  \n"), Ok(0));
    assert_eq!(day_01::part1("7"), Ok(7));
    assert_eq!(day_01::part2("7"), Ok(7));
    assert_eq!(day_01::part2("77"), Ok(14));
    assert_eq!(day_01::part2("787"), Ok(7));
    assert_eq!(day_01::part2("7887"), Ok(0));
    assert_eq!(day_01::part1("787"), Ok(7));
}

#[test]
fn day_01_rejects_what_is_no_digit() {
    assert_eq!(day_01::part1("12a4"), Err(PuzzleError::Malformed));
    assert_eq!(day_01::part2("12 34"), Err(PuzzleError::Malformed));
    assert_eq!(day_01::part1("-1"), Err(PuzzleError::Malformed));
    assert_eq!(day_01::part1("١١"), Err(PuzzleError::Malformed));
}

#[test]
fn day_01_solve_takes_any_offset() {
    let digits = vec![1u8, 2, 1, 2];
    assert_eq!(day_01::solve(&digits, 0), Ok(6));
    assert_eq!(day_01::solve(&digits, 1), Ok(0));
    assert_eq!(day_01::solve(&digits, 2), Ok(6));
    assert_eq!(day_01::solve(&digits, 4), Ok(6));
    assert_eq!(day_01::solve(&digits, 5), Ok(0));
    assert_eq!(day_01::solve(&digits, 6), Ok(6));
    assert_eq!(day_01::solve(&Vec::new(), 3), Ok(0));
    assert_eq!(day_01::solve(&vec![1, 1, 2, 2], 1), Ok(3));
}

#[test]
fn day_01_read_digits_trims() {
    assert_eq!(day_01::read_digits(" 0129\n"), Some(vec![0, 1, 2, 9]));
    assert_eq!(day_01::read_digits("01 29"), None);
}

#[test]
fn day_02_part1_adds_the_spreads() {
    assert_eq!(day_02::part1("5 1 9 5\n7 5 3\n2 4 6 8\n"), Ok(18));
    assert_eq!(day_02::part1("5\t1\t9\t5\r\n7\t5\t3\r\n\r\n2 4 6 8"), Ok(18));
    assert_eq!(day_02::part1(""), Ok(0));
    assert_eq!(day_02::part1("\n \n"), Ok(0));
    assert_eq!(day_02::part1("7"), Ok(0));
    assert_eq!(day_02::part1("-3 4\n10 -10"), Ok(27));
}

#[test]
fn day_02_part1_fails() {
    assert_eq!(day_02::part1("5 1 x 5"), Err(PuzzleError::Malformed));
    assert_eq!(day_02::part1("1 2\n3 9223372036854775808"), Err(PuzzleError::Malformed));
    assert_eq!(
        day_02::part1("9223372036854775807 -1"),
        Err(PuzzleError::Overflow)
    );
    assert_eq!(day_02::part1("9223372036854775807 0"), Ok(i64::MAX));
    assert_eq!(
        day_02::part1("9223372036854775807 0\n1 2"),
        Err(PuzzleError::Overflow)
    );
    assert_eq!(
        day_02::part1("9223372036854775807 -9223372036854775808"),
        Err(PuzzleError::Overflow)
    );
}

#[test]
fn day_02_part2_adds_the_quotients() {
    assert_eq!(day_02::part2("5 9 2 8\n9 4 7 3\n3 8 6 5\n"), Ok(9));
    assert_eq!(day_02::part2(""), Ok(0));
    assert_eq!(day_02::part2("7"), Ok(0));
    assert_eq!(day_02::part2("2 4 8"), Ok(2 + 4 + 2));
    assert_eq!(day_02::part2("3 3"), Ok(1));
    assert_eq!(day_02::part2("6 -3"), Ok(-2));
    assert_eq!(day_02::part2("-3 6"), Ok(-2));
    assert_eq!(day_02::part2("-6 -3"), Ok(0));
    assert_eq!(day_02::part2("-3 -6"), Ok(0));
    assert_eq!(day_02::part2("-3 -3"), Ok(1));
    assert_eq!(day_02::part2("-6 3"), Ok(0));
    assert_eq!(day_02::part2("-9223372036854775808 -9223372036854775808"), Ok(1));
    assert_eq!(day_02::part2("9223372036854775807 -1"), Ok(-i64::MAX));
}

#[test]
fn day_02_part2_fails() {
    assert_eq!(day_02::part2("4 0"), Err(PuzzleError::DivisionByZero));
    assert_eq!(day_02::part2("0 0"), Err(PuzzleError::DivisionByZero));
    assert_eq!(day_02::part2("0 -4"), Ok(0));
    assert_eq!(day_02::part2("0"), Ok(0));
    assert_eq!(day_02::part2("4 0\n1 x"), Err(PuzzleError::Malformed));
    assert_eq!(day_02::part2("2 a"), Err(PuzzleError::Malformed));
    assert_eq!(
        day_02::part2("9223372036854775807 1\n2 1"),
        Err(PuzzleError::Overflow)
    );
    assert_eq!(
        day_02::part2("9223372036854775807 1\n2 1\n3 0"),
        Err(PuzzleError::Overflow)
    );
    assert_eq!(
        day_02::part2("3 0\n9223372036854775807 1\n2 1"),
        Err(PuzzleError::DivisionByZero)
    );
}

#[test]
fn day_02_pieces() {
    assert_eq!(day_02::parse_row(&[' ', '1', '2', ' ', '-', '3']), Some(vec![12, -3]));
    assert_eq!(day_02::parse_row(&[]), Some(vec![]));
    assert_eq!(day_02::parse_row(&['1', ' ', 'x']), None);
    assert_eq!(day_02::read_rows("1 2\n\n3\n"), Some(vec![vec![1, 2], vec![3]]));
    assert_eq!(day_02::spread(&vec![5, 1, 9, 5]), 8);
    assert_eq!(day_02::spread(&vec![]), 0);
    assert_eq!(day_02::spread(&vec![i64::MIN, i64::MAX]), u64::MAX);
    assert_eq!(day_02::magnitude(-5), 5);
    assert_eq!(day_02::magnitude(5), 5);
    assert_eq!(day_02::magnitude(i64::MIN), 1u64 << 63);
    assert_eq!(day_02::add_pair(Ok(10), 8, 2), Ok(14));
    assert_eq!(day_02::add_pair(Ok(10), 2, 8), Ok(14));
    assert_eq!(day_02::add_pair(Ok(10), 8, 3), Ok(10));
    assert_eq!(day_02::add_pair(Ok(10), 8, 0), Err(PuzzleError::DivisionByZero));
    assert_eq!(day_02::add_pair(Err(PuzzleError::Overflow), 8, 0), Err(PuzzleError::Overflow));
    assert_eq!(day_02::add_pair(Ok(i64::MIN), 5, -5), Err(PuzzleError::Overflow));
    assert_eq!(day_02::add_row(Ok(1), &vec![2, 4, 8]), Ok(9));
}

#[test]
fn day_03_part1_walks_the_spiral() {
    assert_eq!(day_03::part1("1"), Ok(0));
    assert_eq!(day_03::part1("12"), Ok(3));
    assert_eq!(day_03::part1("23"), Ok(2));
    assert_eq!(day_03::part1("1024"), Ok(31));
    assert_eq!(day_03::part1("347991\n"), Ok(480));
    assert_eq!(day_03::part1(" +26 "), Ok(5));
}

#[test]
fn day_03_first_squares() {
    let expected = [0u64, 1, 2, 1, 2, 1, 2, 1, 2, 3, 2, 3, 4, 3, 2, 3, 4, 3, 2, 3, 4, 3, 2, 3, 4, 5];
    let mut square = 1i64;
    for steps in expected {
        assert_eq!(day_03::spiral_distance(square), steps);
        square += 1;
    }
}

#[test]
fn day_03_squares_before_the_first() {
    assert_eq!(day_03::part1("0"), Ok(1));
    assert_eq!(day_03::part1("-5"), Ok(6));
    assert_eq!(day_03::part1("-9223372036854775805"), Ok(9223372036854775806));
    assert_eq!(day_03::part1("-9223372036854775806"), Ok(i64::MAX));
    assert_eq!(day_03::part1("-9223372036854775807"), Err(PuzzleError::Overflow));
    assert_eq!(day_03::part1("-9223372036854775808"), Err(PuzzleError::Overflow));
    assert_eq!(day_03::spiral_distance(i64::MIN), (1u64 << 63) + 1);
}

#[test]
fn day_03_part1_rejects_what_is_no_number() {
    assert_eq!(day_03::part1(""), Err(PuzzleError::Malformed));
    assert_eq!(day_03::part1("12 13"), Err(PuzzleError::Malformed));
    assert_eq!(day_03::part1("twelve"), Err(PuzzleError::Malformed));
    assert_eq!(day_03::part1("9223372036854775808"), Err(PuzzleError::Malformed));
}
