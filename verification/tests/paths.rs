use aoclib::path::{day_segment, input_path, part_segment};
use aoclib::report::answer_line;
use aoclib::root::repo_root;
use aoclib::y2017::day_01;

#[test]
fn path_follows_the_layout() {
    assert_eq!(input_path("/tmp/aoc", 2017, 1, 1), "/tmp/aoc/data/2017/day_01/input_1.txt");
    assert_eq!(input_path("/tmp/aoc", 2025, 23, 2), "/tmp/aoc/data/2025/day_23/input_2.txt");
}

#[test]
fn path_is_the_same_on_every_call() {
    let first = input_path("/srv/puzzles", 2025, 5, 2);
    let second = input_path("/srv/puzzles", 2025, 5, 2);
    assert_eq!(first, second);
    assert_eq!(first, "/srv/puzzles/data/2025/day_05/input_2.txt");
}

#[test]
fn day_is_padded_to_two_digits() {
    assert_eq!(day_segment(1), "day_01");
    assert_eq!(day_segment(9), "day_09");
    assert_eq!(day_segment(10), "day_10");
    assert_eq!(day_segment(23), "day_23");
    assert_eq!(day_segment(0), "day_00");
}

#[test]
fn day_of_three_digits_is_not_cut() {
    assert_eq!(day_segment(100), "day_100");
    assert_eq!(day_segment(255), "day_255");
    assert_eq!(input_path("r", 1, 123, 1), "r/data/1/day_123/input_1.txt");
}

#[test]
fn part_is_not_padded() {
    assert_eq!(part_segment(1), "input_1.txt");
    assert_eq!(part_segment(2), "input_2.txt");
    assert_eq!(part_segment(0), "input_0.txt");
    assert_eq!(part_segment(12), "input_12.txt");
    assert_eq!(part_segment(255), "input_255.txt");
}

#[test]
fn year_is_written_as_it_is() {
    assert_eq!(input_path("/r", 7, 1, 1), "/r/data/7/day_01/input_1.txt");
    assert_eq!(input_path("/r", 0, 1, 1), "/r/data/0/day_01/input_1.txt");
    assert_eq!(input_path("/r", 12345, 1, 1), "/r/data/12345/day_01/input_1.txt");
    assert_eq!(input_path("/r", -3, 1, 1), "/r/data/-3/day_01/input_1.txt");
    assert_eq!(
        input_path("/r", i32::MAX, 1, 1),
        "/r/data/2147483647/day_01/input_1.txt"
    );
    assert_eq!(
        input_path("/r", i32::MIN, 1, 1),
        "/r/data/-2147483648/day_01/input_1.txt"
    );
}

#[test]
fn root_that_ends_in_a_separator_gets_no_second_one() {
    assert_eq!(input_path("/", 2017, 3, 1), "/data/2017/day_03/input_1.txt");
    assert_eq!(input_path("/tmp/", 2017, 3, 1), "/tmp/data/2017/day_03/input_1.txt");
}

#[test]
fn empty_root_gives_a_relative_path() {
    assert_eq!(input_path("", 2017, 3, 1), "data/2017/day_03/input_1.txt");
}

#[test]
fn root_may_hold_any_text() {
    assert_eq!(
        input_path("/données/été", 2025, 2, 1),
        "/données/été/data/2025/day_02/input_1.txt"
    );
}

#[test]
fn override_and_key_lead_to_the_input() {
    let root = repo_root(Some(String::from("/tmp/fixture")), Vec::new()).unwrap();
    assert_eq!(
        input_path(&root, 2017, 1, 1),
        "/tmp/fixture/data/2017/day_01/input_1.txt"
    );
    assert_eq!(day_01::part1("1122"), Ok(3));
    assert_eq!(day_01::part1("1122\n"), Ok(3));
}

#[test]
fn answers_are_put_out_as_lines() {
    assert_eq!(answer_line(1, 3), "Part 1: 3");
    assert_eq!(answer_line(2, 1227775554), "Part 2: 1227775554");
    assert_eq!(answer_line(2, 0), "Part 2: 0");
    assert_eq!(answer_line(1, -2), "Part 1: -2");
    assert_eq!(answer_line(1, i64::MIN), "Part 1: -9223372036854775808");
    assert_eq!(answer_line(1, i64::MAX), "Part 1: 9223372036854775807");
}
