use advent_of_code::day08::{lcm, lcm_of_all, Day08, Direction};

#[test]
fn check_day08_part1_case1() {
    assert_eq!(
        Day08::solve_part_one(
            "RL

AAA = (BBB, CCC)
BBB = (DDD, EEE)
CCC = (ZZZ, GGG)
DDD = (DDD, DDD)
EEE = (EEE, EEE)
GGG = (GGG, GGG)
ZZZ = (ZZZ, ZZZ)"
        ),
        Some("2".to_string())
    )
}

#[test]
fn check_day08_part1_case2() {
    assert_eq!(
        Day08::solve_part_one(
            "LLR

AAA = (BBB, BBB)
BBB = (AAA, ZZZ)
ZZZ = (ZZZ, ZZZ)"
        ),
        Some("6".to_string())
    )
}

#[test]
fn check_day08_part2_case1() {
    assert_eq!(Day08::solve_part_two(""), None)
}

#[test]
fn check_day08_both_case1() {
    assert_eq!(Day08::solve("", false), None)
}

#[test]
fn day08_ways_are_followed_together() {
    let text = "LR

AAA = (AAB, XXX)
AAB = (XXX, AAZ)
AAZ = (AAB, XXX)
BBA = (BBB, XXX)
BBB = (BBC, BBC)
BBC = (BBZ, BBZ)
BBZ = (BBB, BBB)
XXX = (XXX, XXX)";
    // One way: AAA, AAB, AAZ, AAB, AAZ ...; the other: BBA, BBB, BBC, BBZ,
    // BBB, BBC, BBZ ...  After 3 steps both have stood on a name that ends
    // in Z: the first at step 2, the second at step 3.
    assert_eq!(Day08::solve_part_two(text), Some("6".to_string()));
    let atlas = Day08::parse_input(text).unwrap();
    assert_eq!(atlas.directions, vec![Direction::Left, Direction::Right]);
    assert_eq!(atlas.nodes.len(), 8);
    assert_eq!(atlas.nodes[atlas.start].name, vec!['A', 'A', 'A']);
    assert_eq!(atlas.ghost_steps(), Some(6));
    // No way leads to ZZZ: the first part gives up.
    assert_eq!(atlas.steps_to_goal(), None);
    assert_eq!(Day08::part_one(&atlas), None);
    assert_eq!(Day08::part_two(&atlas), Some("6".to_string()));
    assert_eq!(Day08::solve(text, false), None);
}

#[test]
fn day08_map_is_read_line_by_line() {
    assert_eq!(Direction::from_char(&'L'), Some(Direction::Left));
    assert_eq!(Direction::from_char(&'R'), Some(Direction::Right));
    assert_eq!(Direction::from_char(&'x'), None);
    assert!(Day08::parse_input("LX\n\nAAA = (AAA, AAA)").is_none());
    assert!(Day08::parse_input("LR\n\nBBB = (AAA, AAA)").is_none());
    assert!(Day08::parse_input("LR\n\nAAA = AAA, AAA)").is_none());
    assert!(Day08::parse_input("LR\n\nAAA (AAA, AAA)").is_none());
    assert!(Day08::parse_input("LR\n\nAAA = (AAA AAA)").is_none());
    assert!(Day08::parse_input("LR\n\nAAA = (11A, AAA)").is_none());
    // The second line is skipped whatever it holds; the closing bracket may
    // be missing; a later line for the same junction replaces the ways.
    let atlas = Day08::parse_input("R\nskipped\nAAA = (AAA, AAA)\nAAA=(AAA,ZZZ").unwrap();
    assert_eq!(atlas.nodes.len(), 2);
    assert_eq!(atlas.nodes[0].exits, Some((0, 1)));
    assert_eq!(atlas.nodes[1].exits, None);
    assert!(atlas.nodes[0].repeated);
    assert!(!atlas.nodes[1].repeated);
    assert_eq!(atlas.steps_to_goal(), Some(1));
    // The name AAA ends in A and occurs more than once: no second answer.
    assert_eq!(atlas.ghost_steps(), None);
    assert_eq!(
        Day08::solve("R\n\nAAA = (BBB, ZZZ)\nZZZ = (ZZZ, ZZZ)", true),
        Some(("1".to_string(), "1".to_string()))
    );
    // Without turns the first part takes no step.
    assert_eq!(
        Day08::solve_part_one("\n\nAAA = (BBB, ZZZ)"),
        Some("0".to_string())
    );
    assert_eq!(Day08::solve_part_two("\n\nAAA = (BBB, ZZZ)"), None);
    // A way that comes to a junction without ways.
    assert_eq!(Day08::solve_part_one("L\n\nAAA = (BBB, ZZZ)"), None);
    // A way that goes round for ever.
    assert_eq!(Day08::solve_part_one("L\n\nAAA = (AAA, ZZZ)"), None);
}

#[test]
fn day08_least_common_multiples() {
    assert_eq!(lcm(0, 0), Some(0));
    assert_eq!(lcm(0, 5), Some(0));
    assert_eq!(lcm(5, 0), Some(0));
    assert_eq!(lcm(4, 6), Some(12));
    assert_eq!(lcm(7, 3), Some(21));
    assert_eq!(lcm(2, 4), Some(4));
    assert_eq!(lcm(1 << 32, 1 << 33), Some(1 << 33));
    assert_eq!(lcm((1 << 32) + 1, 1 << 32), None);
    assert_eq!(lcm(u64::MAX, u64::MAX), Some(u64::MAX));
    assert_eq!(lcm_of_all(&vec![]), None);
    assert_eq!(lcm_of_all(&vec![9]), Some(9));
    assert_eq!(lcm_of_all(&vec![4, 6, 10]), Some(60));
    assert_eq!(lcm_of_all(&vec![1 << 40, 3, 1 << 63, 5]), None);
}
