use advent_of_code::day01::{check_recent_state_for_number, Day01};
use std::collections::VecDeque;

#[test]
fn check_day01_part1_case1() {
    assert_eq!(Day01::solve_part_one(""), Some("0".to_string()))
}

#[test]
fn check_day01_part2_case1() {
    assert_eq!(
        Day01::solve_part_two(
            "two1nine
eightwothree
abcone2threexyz
xtwone3four
4nineeightseven2
zoneight234
7pqrstsixteen"
        ),
        Some("281".to_string())
    )
}

#[test]
fn check_day01_part2_case2() {
    assert_eq!(
        Day01::solve_part_two(
            "cmpptgjc3qhcjxcbcqgqkxhrms
9sixonefour
eighttwo2twofour9
7eightseveneightthree
tlnllks2jcfdlgsjbhpfnineone
one44fivesevenjzsfzddg
787seveneight75five
7q7nine3
hlqphphn5dtzzbqvk3three8seven"
        ),
        Some((33 + 94 + 89 + 73 + 21 + 17 + 75 + 73 + 57).to_string())
    )
}

#[test]
fn check_day01_part2_case3() {
    assert_eq!(
        Day01::solve_part_two("sixfckdsbtmkj193onetwonexm"),
        Some(61.to_string())
    )
}

#[test]
fn check_day01_both_case1() {
    assert_eq!(
        Day01::solve("", false),
        Some(("0".to_string(), "0".to_string()))
    )
}

#[test]
fn day01_digits_alone_give_the_first_answer() {
    assert_eq!(
        Day01::solve_part_one("1abc2\npqr3stu8vwx\na1b2c3d4e5f\ntreb7uchet"),
        Some("142".to_string())
    );
    let mut text = Day01::parse_input("two1nine\n7");
    assert_eq!(Day01::part_one(&text), Some("88".to_string()));
    assert_eq!(Day01::part_two(&text), Some("106".to_string()));
    text.push_str("\nnodigit");
    assert_eq!(Day01::part_one(&text), None);
    assert_eq!(Day01::solve("abc", true), None);
}

#[test]
fn day01_values_of_many_lines_add_up() {
    let text = "99\n".repeat(2_000);
    assert_eq!(Day01::solve_part_one(&text), Some("198000".to_string()));
    assert_eq!(Day01::solve_part_two(&text), Some("198000".to_string()));
}

#[test]
fn day01_spelled_digit_is_found_at_the_end_of_the_state() {
    let state: VecDeque<char> = "xtwone".chars().collect();
    assert_eq!(check_recent_state_for_number(&state), Some('1'));
    let state: VecDeque<char> = "xtwo".chars().collect();
    assert_eq!(check_recent_state_for_number(&state), Some('2'));
    let state: VecDeque<char> = "nin".chars().collect();
    assert_eq!(check_recent_state_for_number(&state), None);
    let state: VecDeque<char> = "eight".chars().collect();
    assert_eq!(check_recent_state_for_number(&state), Some('8'));
    let state: VecDeque<char> = VecDeque::new();
    assert_eq!(check_recent_state_for_number(&state), None);
}
