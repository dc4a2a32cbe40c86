use aoclib::error::PuzzleError;
use aoclib::y2025::day_01::{self, Direction, Turn};
use aoclib::y2025::{day_02, day_03, day_05};

const TURNS: &str = "L68\nL30\nR48\nL5\nR60\nL55\nL1\nL99\nR14\nL82\n";

#[test]
fn day_01_counts_rests_and_clicks_on_zero() {
    assert_eq!(day_01::part1(TURNS), Ok(3));
    assert_eq!(day_01::part2(TURNS), Ok(6));
    assert_eq!(day_01::part1(""), Ok(0));
    assert_eq!(day_01::part2(""), Ok(0));
    assert_eq!(day_01::part1("L68\r\n\r\nL30\r\nR48"), Ok(1));
}

#[test]
fn day_01_whole_rounds() {
    assert_eq!(day_01::part1("L250\n"), Ok(1));
    assert_eq!(day_01::part2("L250\n"), Ok(3));
    assert_eq!(day_01::part1("R1000\nL-50\n"), Ok(1));
    assert_eq!(day_01::part2("R1000\nL-50\n"), Ok(10));
    assert_eq!(day_01::part1("R9223372036854775807\nR43\n"), Ok(1));
    assert_eq!(day_01::part1("L9223372036854775807\nL-9223372036854775808\nR49"), Ok(1));
    assert_eq!(day_01::part1("R-9223372036854775808\nR58"), Ok(1));
}

#[test]
fn day_01_counts_clicks_of_long_turns() {
    assert_eq!(day_01::part2("R9223372036854775807"), Ok(92233720368547758));
    assert_eq!(day_01::part2("L9223372036854775807"), Ok(92233720368547758));
    assert_eq!(day_01::part2("R49\nR1\nL100\nR100\nL99\nL1\nL1\nR1"), Ok(5));
    assert_eq!(day_01::part2("L50\nL99\nL1\nL200"), Ok(4));
    assert_eq!(day_01::part2("R50\nX9223372036854775806"), Ok(i64::MAX));
    assert_eq!(day_01::part2("R50\nX9223372036854775807"), Err(PuzzleError::Overflow));
    assert_eq!(
        day_01::part2("R50\nX9223372036854775807\nX9223372036854775807"),
        Err(PuzzleError::Overflow)
    );
    assert_eq!(
        day_01::part2("R50\nX9223372036854775807\nX9223372036854775807\nR"),
        Err(PuzzleError::Malformed)
    );
    let mut clicks = 0;
    while clicks < 450 {
        let mut right = 0;
        let mut left = 0;
        let mut at_right = 50i64;
        let mut at_left = 50i64;
        let mut k = 0;
        while k < clicks {
            at_right = (at_right + 1).rem_euclid(100);
            at_left = (at_left - 1).rem_euclid(100);
            if at_right == 0 {
                right += 1;
            }
            if at_left == 0 {
                left += 1;
            }
            k += 1;
        }
        assert_eq!(day_01::part2(&format!("R{}", clicks)), Ok(right));
        assert_eq!(day_01::part2(&format!("L{}", clicks)), Ok(left));
        assert_eq!(day_01::part2(&format!("L50\nL{}", clicks)), Ok(1 + clicks / 100));
        clicks += 1;
    }
}

#[test]
fn day_01_other_letters_turn_nothing() {
    assert_eq!(day_01::part1("R50\nX7\nX0\n"), Ok(3));
    assert_eq!(day_01::part2("R50\nX7\nX0\n"), Ok(8));
    assert_eq!(day_01::part1("r50"), Ok(0));
    assert_eq!(day_01::part1("550"), Ok(0));
}

#[test]
fn day_01_reads_turns() {
    assert_eq!(
        day_01::read_turns("R5\nL 12 \n?-3\n"),
        Some(vec![
            Turn { direction: Direction::Right, amount: 5 },
            Turn { direction: Direction::Left, amount: 12 },
            Turn { direction: Direction::Neither, amount: -3 },
        ])
    );
    assert_eq!(
        day_01::parse_turn(&['L', '+', '7']),
        Some(Turn { direction: Direction::Left, amount: 7 })
    );
    assert_eq!(day_01::parse_turn(&[]), None);
    assert_eq!(day_01::parse_turn(&['L']), None);
    assert_eq!(day_01::parse_turn(&['é', '7']), None);
    assert_eq!(day_01::beyond_rounds(250), 50);
    assert_eq!(day_01::beyond_rounds(-1), 99);
    assert_eq!(day_01::beyond_rounds(-100), 0);
    assert_eq!(day_01::beyond_rounds(0), 0);
    assert_eq!(day_01::beyond_rounds(i64::MIN), 92);
    assert_eq!(day_01::beyond_rounds(i64::MAX), 7);
}

#[test]
fn day_01_fails() {
    assert_eq!(day_01::part1("R"), Err(PuzzleError::Malformed));
    assert_eq!(day_01::part1("R5\n 5\n"), Ok(0));
    assert_eq!(day_01::part1("R5\n5\n"), Err(PuzzleError::Malformed));
    assert_eq!(day_01::part2("R5\nLx\n"), Err(PuzzleError::Malformed));
    assert_eq!(day_01::part1("é5"), Err(PuzzleError::Malformed));
    assert_eq!(day_01::part2(" \n"), Err(PuzzleError::Malformed));
    assert_eq!(day_01::part1("R9223372036854775808"), Err(PuzzleError::Malformed));
}

const RANGES: &str = "11-22,95-115,998-1012,1188511880-1188511890,222220-222224,\
1698522-1698528,446443-446449,38593856-38593862,565653-565659,\
824824821-824824827,2121212118-2121212124";

#[test]
fn day_02_sums_the_ids_that_repeat() {
    assert_eq!(day_02::part1(RANGES), Ok(1227775554));
    assert_eq!(day_02::part2(RANGES), Ok(4174379265));
    assert_eq!(day_02::part1("1-999\n"), Ok(495));
    assert_eq!(day_02::part2(" 1-999 "), Ok(5490));
    assert_eq!(day_02::part1("11-11,11-11"), Ok(22));
    assert_eq!(day_02::part1("22-11"), Ok(0));
    assert_eq!(day_02::part1("5--5"), Ok(0));
    assert_eq!(day_02::part2("+100-112"), Ok(111));
}

#[test]
fn day_02_tells_ids_apart() {
    for n in [11i64, 22, 99, 1010, 1188511885, 222222, 446446, 38593859] {
        assert!(day_02::is_invalid_id(n));
        assert!(day_02::is_invalid_id_v2(n));
    }
    for n in [111i64, 999, 565656, 824824824, 2121212121, 1111111] {
        assert!(!day_02::is_invalid_id(n));
        assert!(day_02::is_invalid_id_v2(n));
    }
    for n in [0i64, 1, 9, 10, 12, 101, 1001, 123123124, -11, -1, -1111, i64::MAX, i64::MIN] {
        assert!(!day_02::is_invalid_id(n));
        assert!(!day_02::is_invalid_id_v2(n));
    }
    let s: Vec<char> = "abcabc".chars().collect();
    assert!(day_02::periodic(&s, 3));
    assert!(day_02::periodic(&s, 6));
    assert!(!day_02::periodic(&s, 2));
    assert!(!day_02::periodic(&s, 4));
    assert!(!day_02::periodic(&s, 0));
    assert!(!day_02::periodic(&s, 7));
}

#[test]
fn day_02_fails() {
    assert_eq!(day_02::part1(""), Err(PuzzleError::Malformed));
    assert_eq!(day_02::part1("11-22,"), Err(PuzzleError::Malformed));
    assert_eq!(day_02::part1("11-22, 95-115"), Err(PuzzleError::Malformed));
    assert_eq!(day_02::part2("11"), Err(PuzzleError::Malformed));
    assert_eq!(day_02::part2("-11-22"), Err(PuzzleError::Malformed));
    assert_eq!(day_02::part2("a-b"), Err(PuzzleError::Malformed));
    let big = "999999999999999999-999999999999999999";
    let nine = vec![big; 9].join(",");
    let ten = vec![big; 10].join(",");
    assert_eq!(day_02::part1(&nine), Ok(8999999999999999991));
    assert_eq!(day_02::part2(&nine), Ok(8999999999999999991));
    assert_eq!(day_02::part1(&ten), Err(PuzzleError::Overflow));
    assert_eq!(day_02::part2(&ten), Err(PuzzleError::Overflow));
    assert_eq!(day_02::part1(&format!("{},11-x", ten)), Err(PuzzleError::Malformed));
    assert_eq!(day_02::part1(&format!("{},5-50", ten)), Err(PuzzleError::Overflow));
    assert_eq!(
        day_02::sum_invalid(&vec![(1111111111111111111, 1111111111111111111), (1, 100)], true),
        Ok(1111111111111111111 + 495)
    );
    assert_eq!(
        day_02::sum_invalid(&vec![(1111111111111111111, 1111111111111111111), (1, 100)], false),
        Ok(495)
    );
    assert_eq!(day_02::read_ranges("1-2,3-4\n"), Some(vec![(1, 2), (3, 4)]));
}

const BANKS: &str = "987654321111111\n811111111111119\n234234234234278\n818181911112111\n";

#[test]
fn day_03_sums_the_joltages() {
    assert_eq!(day_03::both(BANKS, 2), Ok(357));
    assert_eq!(day_03::both(BANKS, 12), Ok(3114910778619));
    assert_eq!(day_03::both(BANKS, 0), Ok(0));
    assert_eq!(day_03::both("", 2), Ok(0));
    assert_eq!(day_03::both(" \n\n", 2), Ok(0));
    assert_eq!(day_03::both("  98 \r\n\r\n 12\n", 2), Ok(110));
}

#[test]
fn day_03_picks_the_last_of_equal_digits() {
    assert_eq!(day_03::bank_joltage("987654321111111", 2), Ok(98));
    assert_eq!(day_03::bank_joltage("811111111111119", 2), Ok(89));
    assert_eq!(day_03::bank_joltage("234234234234278", 12), Ok(434234234278));
    assert_eq!(day_03::bank_joltage("818181911112111", 12), Ok(881911112111));
    assert_eq!(day_03::bank_joltage("9911", 2), Ok(91));
    assert_eq!(day_03::bank_joltage("9911", 3), Ok(911));
    assert_eq!(day_03::bank_joltage("19293", 2), Ok(93));
    assert_eq!(day_03::bank_joltage("554455", 3), Ok(555));
    assert_eq!(day_03::bank_joltage(" 554455\n", 6), Ok(554455));
    assert_eq!(day_03::bank_joltage("", 0), Ok(0));
    assert_eq!(day_03::bank_joltage("123", 0), Ok(0));
    assert_eq!(day_03::joltage(&vec![9, 9, 1, 1], 2), Ok(91));
    assert_eq!(day_03::joltage(&vec![1, 2, 3], 3), Ok(123));
}

#[test]
fn day_03_fails() {
    assert_eq!(day_03::bank_joltage("123", 4), Err(PuzzleError::Malformed));
    assert_eq!(day_03::bank_joltage("", 1), Err(PuzzleError::Malformed));
    assert_eq!(day_03::bank_joltage("12a", 2), Err(PuzzleError::Malformed));
    assert_eq!(day_03::bank_joltage("12a", 0), Err(PuzzleError::Malformed));
    assert_eq!(day_03::bank_joltage("1 2", 2), Err(PuzzleError::Malformed));
    assert_eq!(day_03::both("123\n12\n", 3), Err(PuzzleError::Malformed));
    assert_eq!(day_03::both("123\n1A\n", 2), Err(PuzzleError::Malformed));
    assert_eq!(day_03::bank_joltage("9223372036854775807", 19), Ok(i64::MAX));
    assert_eq!(day_03::bank_joltage("9223372036854775808", 19), Err(PuzzleError::Overflow));
    assert_eq!(day_03::bank_joltage("99999999999999999999", 20), Err(PuzzleError::Overflow));
    assert_eq!(
        day_03::both("9223372036854775807\n0000000000000000001\n", 19),
        Err(PuzzleError::Overflow)
    );
    assert_eq!(
        day_03::both("9223372036854775806\n0000000000000000001\n", 19),
        Ok(i64::MAX)
    );
    assert_eq!(
        day_03::both("9999999999999999999\n0000000000000000001\nx\n", 19),
        Err(PuzzleError::Malformed)
    );
    assert_eq!(day_03::joltage(&vec![1, 2, 3], 4), Err(PuzzleError::Malformed));
    assert_eq!(day_03::joltage(&vec![1, 2, 3], 2), Ok(23));
    assert_eq!(day_03::read_banks("12\n\n34\n", 1), Some(vec![vec![1, 2], vec![3, 4]]));
    assert_eq!(day_03::parse_bank(&[' ', '1', '2'], 3), None);
}

const INVENTORY: &str = "3-5\n10-14\n16-20\n12-18\n\n1\n5\n8\n11\n17\n32\n";

#[test]
fn day_05_counts_ids_and_integers_in_ranges() {
    assert_eq!(day_05::part1(INVENTORY), Ok(3));
    assert_eq!(day_05::part2(INVENTORY), Ok(14));
    assert_eq!(day_05::part1("3-5\r\n10-14\r\n\r\n4\r\n 12 \r\n\r\n9\r\n"), Ok(2));
    assert_eq!(day_05::part1(""), Ok(0));
    assert_eq!(day_05::part1("3-5"), Ok(0));
    assert_eq!(day_05::part1("3-5\n\n4\n4\n"), Ok(2));
    assert_eq!(day_05::part1("5-3\n\n4\n"), Ok(0));
    assert_eq!(day_05::part1("\n\n3-5\n\n4\n"), Ok(1));
    assert_eq!(day_05::part1("-5--3\n\n-4\n"), Err(PuzzleError::Malformed));
    assert_eq!(day_05::part1("0--3\n-4-+9\n\n-4\n7\n"), Err(PuzzleError::Malformed));
}

#[test]
fn day_05_part2_takes_ranges_in_any_order() {
    assert_eq!(day_05::part2("3-5"), Ok(3));
    assert_eq!(day_05::part2("3-5\n3-5\n"), Ok(3));
    assert_eq!(day_05::part2("16-20\n3-5\n12-18\n10-14\n"), Ok(14));
    assert_eq!(day_05::part2("1-3\n4-6\n"), Ok(6));
    assert_eq!(day_05::part2("1-3\n5-6\n"), Ok(5));
    assert_eq!(day_05::part2("1-10\n2-3\n"), Ok(10));
    assert_eq!(day_05::part2("2-3\n1-10\n11-11\n"), Ok(11));
    assert_eq!(day_05::part2("5-4\n"), Ok(0));
    assert_eq!(day_05::part2("1-3\n10-5\n"), Ok(3));
    assert_eq!(day_05::part2("5-2\n5-9\n"), Ok(5));
    assert_eq!(day_05::part2("3-5\n\nnothing that is read\n"), Ok(3));
    assert_eq!(day_05::part2("0-9223372036854775806\n"), Ok(i64::MAX));
    assert_eq!(day_05::part2("5-9223372036854775807\n7-8\n"), Ok(i64::MAX - 4));
}

#[test]
fn day_05_fails() {
    assert_eq!(day_05::part2(""), Err(PuzzleError::Malformed));
    assert_eq!(day_05::part2(" \n"), Err(PuzzleError::Malformed));
    assert_eq!(day_05::part2("3-5\n7\n"), Err(PuzzleError::Malformed));
    assert_eq!(day_05::part2("3-5\n 7-9\n"), Err(PuzzleError::Malformed));
    assert_eq!(day_05::part1("3-5\n\nseven\n"), Err(PuzzleError::Malformed));
    assert_eq!(day_05::part1("3-5\n7\n\n4\n"), Err(PuzzleError::Malformed));
    assert_eq!(day_05::part1("3-5\n\n4-5\n"), Err(PuzzleError::Malformed));
    assert_eq!(day_05::part2("0-9223372036854775807\n"), Err(PuzzleError::Overflow));
    assert_eq!(
        day_05::part2("-9223372036854775808-9223372036854775807\n"),
        Err(PuzzleError::Malformed)
    );
    assert_eq!(day_05::part2("0-9223372036854775807\nx\n"), Err(PuzzleError::Malformed));
}

#[test]
fn day_05_pieces() {
    assert_eq!(
        day_05::count_covered(&vec![(i64::MIN, i64::MAX), (3, 5)]),
        1u128 << 64
    );
    assert_eq!(day_05::count_covered(&vec![(i64::MIN, -1), (0, i64::MAX)]), 1u128 << 64);
    assert_eq!(day_05::count_covered(&vec![]), 0);
    assert_eq!(day_05::count_covered(&vec![(2, 1), (9, 0)]), 0);
    assert_eq!(day_05::count_covered(&vec![(7, 7), (1, 1), (4, 4), (1, 7)]), 7);
    assert!(day_05::in_some_range(&vec![(3, 5), (10, 14)], 10));
    assert!(!day_05::in_some_range(&vec![(3, 5), (10, 14)], 6));
    assert_eq!(day_05::count_fresh(&vec![(3, 5)], &vec![3, 4, 4, 6]), 3);
    let text: Vec<char> = "3-5\n1-2\n\n7\n\n8\n".chars().collect();
    let ls = aoclib::text::lines(&text);
    assert_eq!(day_05::count_range_lines(&ls), 2);
    assert_eq!(day_05::read_ranges(&ls), Some(vec![(3, 5), (1, 2)]));
    assert_eq!(day_05::read_ids(&ls), Some(vec![7, 8]));
}
