use advent_of_code::day06::{count_ways, Day06, Races};

#[test]
fn check_day06_part1_case1() {
    assert_eq!(Day06::solve_part_one(""), None)
}

#[test]
fn check_day06_part2_case1() {
    assert_eq!(Day06::solve_part_two(""), None)
}

#[test]
fn check_day06_both_case1() {
    assert_eq!(Day06::solve("", false), None)
}

#[test]
fn day06_ways_of_the_example() {
    let text = "Time:      7  15   30\nDistance:  9  40  200";
    assert_eq!(Day06::solve_part_one(text), Some("288".to_string()));
    assert_eq!(Day06::solve_part_two(text), Some("71503".to_string()));
    assert_eq!(
        Day06::solve(text, true),
        Some(("288".to_string(), "71503".to_string()))
    );
    let races = Day06::parse_input(text).unwrap();
    assert_eq!(races.short, vec![(7, 9), (15, 40), (30, 200)]);
    assert_eq!(races.long, (71530, 940200));
    assert_eq!(Day06::part_one(&races), Some("288".to_string()));
    assert_eq!(Day06::part_two(&races), "71503");
    assert_eq!(count_ways(7, 9), 4);
    assert_eq!(count_ways(15, 40), 8);
    assert_eq!(count_ways(30, 200), 9);
    assert_eq!(count_ways(0, 0), 0);
    assert_eq!(count_ways(2, 0), 1);
}

#[test]
fn day06_sheet_is_read_by_columns() {
    // The shorter row gives the number of columns; further lines are ignored.
    let races = Day06::parse_input("Time: 7 15 30\nDistance: 9 40\nmore").unwrap();
    assert_eq!(races.short, vec![(7, 9), (15, 40)]);
    assert_eq!(races.long, (715, 940));
    assert!(Day06::parse_input("Time: 7 15 30").is_none());
    assert!(Day06::parse_input("Time:\nDistance:").is_none());
    assert!(Day06::parse_input("Time: 7 x\nDistance: 9 40").is_none());
    assert!(Day06::parse_input("Time: 65536\nDistance: 9").is_none());
    assert!(Day06::parse_input("Time: 7\nDistance: 65536").is_none());
    // The columns written together must be a number as well.
    assert!(Day06::parse_input("Time: 7 +5\nDistance: 9 4").is_none());
    let races = Day06::parse_input("Time: +7\nDistance: 9").unwrap();
    assert_eq!(races.short, vec![(7, 9)]);
    assert_eq!(races.long, (7, 9));
}

#[test]
fn day06_product_with_a_race_that_cannot_be_won_is_zero() {
    assert_eq!(
        Day06::solve_part_one("Time: 7 1\nDistance: 9 5"),
        Some("0".to_string())
    );
}

#[test]
fn day06_product_beyond_64_bits_has_no_answer() {
    let races = Races { short: vec![(60000, 1); 5], long: (0, 0) };
    assert_eq!(Day06::part_one(&races), None);
    let races = Races { short: vec![(60000, 1); 4], long: (0, 0) };
    assert_eq!(
        Day06::part_one(&races),
        Some((59999u64 * 59999 * 59999 * 59999).to_string())
    );
    assert_eq!(Day06::part_two(&races), "0");
    // The races written together are beyond 64 bits.
    let text = "Time: 60000 60000 60000 60000\nDistance: 1 1 1 1";
    assert_eq!(Day06::solve_part_one(text), None);
}
