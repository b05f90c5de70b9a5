use advent_of_code::day03::{adjacent_idxs, Day03};

#[test]
fn check_day03_part1_case1() {
    assert_eq!(
        Day03::solve_part_one(
            "467..114..
...*......
..35..633.
......#...
617*......
.....+.58.
..592.....
......755.
...$.*....
.664.598.."
        ),
        Some("4361".to_string())
    )
}

#[test]
fn check_day03_part2_case1() {
    assert_eq!(
        Day03::solve_part_two(
            "467..114..
...*......
..35..633.
......#...
617*......
.....+.58.
..592.....
......755.
...$.*....
.664.598.."
        ),
        Some("467835".to_string())
    )
}

#[test]
fn check_day03_both_case1() {
    assert_eq!(
        Day03::solve("", false),
        Some(("0".to_string(), "0".to_string()))
    )
}

#[test]
fn day03_cells_beside_a_cell_come_in_order() {
    assert_eq!(adjacent_idxs((0, 0)), vec![(1, 1), (1, 0), (0, 1)]);
    assert_eq!(
        adjacent_idxs((2, 0)),
        vec![(3, 1), (3, 0), (2, 1), (1, 1), (1, 0)]
    );
    assert_eq!(
        adjacent_idxs((0, 2)),
        vec![(1, 3), (1, 2), (0, 3), (1, 1), (0, 1)]
    );
    assert_eq!(
        adjacent_idxs((5, 7)),
        vec![(6, 8), (6, 7), (5, 8), (4, 8), (4, 7), (4, 6), (6, 6), (5, 6)]
    );
}

#[test]
fn day03_numbers_and_stars_at_the_rim() {
    // A number at the end of a short row, a symbol under it in a longer row.
    assert_eq!(Day03::solve_part_one("..12\n....#"), Some("12".to_string()));
    assert_eq!(Day03::solve_part_one("12.\n...#"), Some("0".to_string()));
    // A star with one number, with two, with three.
    assert_eq!(Day03::solve_part_two("3*"), Some("0".to_string()));
    assert_eq!(Day03::solve_part_two("3*4"), Some("12".to_string()));
    assert_eq!(Day03::solve_part_two("3*4\n.5."), Some("0".to_string()));
    assert_eq!(Day03::solve_part_two("3.4\n.*."), Some("12".to_string()));
    // One number beside a star twice counts once.
    assert_eq!(Day03::solve_part_two("333\n.*."), Some("0".to_string()));
    // The same symbol beside two digits of a number counts the number once.
    assert_eq!(Day03::solve_part_one("11\n#."), Some("11".to_string()));
    let grid = Day03::parse_input("1#2\n...");
    assert_eq!(Day03::part_one(&grid), Some("3".to_string()));
    assert_eq!(Day03::part_two(&grid), Some("0".to_string()));
    assert_eq!(
        Day03::solve("7*6", true),
        Some(("13".to_string(), "42".to_string()))
    );
}

#[test]
fn day03_numbers_beyond_32_bits_have_no_answer() {
    assert_eq!(Day03::solve_part_one("4294967296"), None);
    assert_eq!(Day03::solve_part_two("4294967296"), None);
    assert_eq!(
        Day03::solve_part_one("4294967295#"),
        Some("4294967295".to_string())
    );
    assert_eq!(Day03::solve_part_one("4294967295#1"), None);
    assert_eq!(Day03::solve_part_two("65536*65536"), None);
    assert_eq!(
        Day03::solve_part_two("65535*65537"),
        Some("4294967295".to_string())
    );
}
