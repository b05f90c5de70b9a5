use advent_of_code::day09::{extrapolate, extrapolate_back, Day09};

#[test]
fn check_day09_part1_case1() {
    assert_eq!(
        Day09::solve_part_one(
            "0 3 6 9 12 15
1 3 6 10 15 21
10 13 16 21 30 45"
        ),
        Some("114".to_string())
    )
}

#[test]
fn check_day09_part2_case1() {
    assert_eq!(
        Day09::solve_part_two(
            "0 3 6 9 12 15
1 3 6 10 15 21
10 13 16 21 30 45"
        ),
        Some("2".to_string())
    )
}

#[test]
fn check_day09_both_case1() {
    assert_eq!(
        Day09::solve("", false),
        Some(("0".to_string(), "0".to_string()))
    )
}

#[test]
fn day09_values_before_and_after_a_history() {
    assert_eq!(extrapolate(&vec![0, 3, 6, 9, 12, 15]), Some(18));
    assert_eq!(extrapolate(&vec![1, 3, 6, 10, 15, 21]), Some(28));
    assert_eq!(extrapolate(&vec![10, 13, 16, 21, 30, 45]), Some(68));
    assert_eq!(extrapolate_back(&vec![0, 3, 6, 9, 12, 15]), Some(-3));
    assert_eq!(extrapolate_back(&vec![1, 3, 6, 10, 15, 21]), Some(0));
    assert_eq!(extrapolate_back(&vec![10, 13, 16, 21, 30, 45]), Some(5));
    assert_eq!(extrapolate(&vec![7]), Some(7));
    assert_eq!(extrapolate_back(&vec![7]), Some(7));
    assert_eq!(extrapolate(&vec![5, 3]), Some(1));
    assert_eq!(extrapolate_back(&vec![5, 3]), Some(7));
    assert_eq!(extrapolate(&vec![]), None);
    assert_eq!(extrapolate_back(&vec![]), None);
}

#[test]
fn day09_negative_totals_are_written_with_a_sign() {
    assert_eq!(Day09::solve_part_one("-1 -3 -5"), Some("-7".to_string()));
    assert_eq!(Day09::solve_part_two("5 3 1\n+2 +2"), Some("9".to_string()));
    assert_eq!(
        Day09::solve("3 2 1", true),
        Some(("0".to_string(), "4".to_string()))
    );
    let histories = Day09::parse_input("1 2\n\n3 x");
    assert!(histories.is_none());
    let histories = Day09::parse_input("1 2\n-3").unwrap();
    assert_eq!(histories, vec![vec![1, 2], vec![-3]]);
    assert_eq!(Day09::part_one(&histories), Some("0".to_string()));
    assert_eq!(Day09::part_two(&histories), Some("-3".to_string()));
}

#[test]
fn day09_values_beyond_64_bits_have_no_answer() {
    assert_eq!(
        extrapolate(&vec![i64::MIN, i64::MAX]),
        None
    );
    assert_eq!(extrapolate(&vec![0, i64::MAX]), None);
    assert_eq!(extrapolate_back(&vec![i64::MAX, 0]), None);
    assert_eq!(extrapolate(&vec![i64::MAX, i64::MAX]), Some(i64::MAX));
    assert_eq!(
        Day09::solve_part_one("9223372036854775807\n1"),
        None
    );
    assert_eq!(
        Day09::solve_part_one("9223372036854775807\n-1\n1"),
        Some("9223372036854775807".to_string())
    );
    assert_eq!(Day09::solve_part_one("9223372036854775808"), None);
    assert_eq!(
        Day09::solve_part_one("-9223372036854775808"),
        Some("-9223372036854775808".to_string())
    );
    // An empty line is a history without a value.
    assert_eq!(Day09::solve_part_one("1 2\n\n3 4"), None);
}
