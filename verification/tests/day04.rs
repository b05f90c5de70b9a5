use advent_of_code::day04::{Card, Day04};

#[test]
fn check_day04_part1_case1() {
    assert_eq!(
        Day04::solve_part_one(
            "Card 1: 41 48 83 86 17 | 83 86  6 31 17  9 48 53
Card 2: 13 32 20 16 61 | 61 30 68 82 17 32 24 19
Card 3:  1 21 53 59 44 | 69 82 63 72 16 21 14  1
Card 4: 41 92 73 84 69 | 59 84 76 51 58  5 54 83
Card 5: 87 83 26 28 32 | 88 30 70 12 93 22 82 36
Card 6: 31 18 13 56 72 | 74 77 10 23 35 67 36 11"
        ),
        Some("13".to_string())
    )
}

#[test]
fn check_day04_part2_case1() {
    assert_eq!(Day04::solve_part_two(""), Some("0".to_string()))
}

#[test]
fn check_day04_both_case1() {
    assert_eq!(
        Day04::solve("", false),
        Some(("0".to_string(), "0".to_string()))
    )
}

#[test]
fn day04_copies_of_the_example_add_up() {
    let text = "Card 1: 41 48 83 86 17 | 83 86  6 31 17  9 48 53
Card 2: 13 32 20 16 61 | 61 30 68 82 17 32 24 19
Card 3:  1 21 53 59 44 | 69 82 63 72 16 21 14  1
Card 4: 41 92 73 84 69 | 59 84 76 51 58  5 54 83
Card 5: 87 83 26 28 32 | 88 30 70 12 93 22 82 36
Card 6: 31 18 13 56 72 | 74 77 10 23 35 67 36 11";
    assert_eq!(Day04::solve_part_two(text), Some("30".to_string()));
    assert_eq!(
        Day04::solve(text, true),
        Some(("13".to_string(), "30".to_string()))
    );
    let cards = Day04::parse_input(text).unwrap();
    assert_eq!(cards.len(), 6);
    assert_eq!(cards[0].winners, vec![83, 86, 17, 48]);
    assert_eq!(cards[4].winners, Vec::<u8>::new());
    assert_eq!(Day04::part_one(&cards), Some("13".to_string()));
    assert_eq!(Day04::part_two(&cards), Some("30".to_string()));
}

#[test]
fn day04_card_is_read_from_its_line() {
    let card = Card::from_line("Card 7: 1 2 3 | 3 3 9 1").unwrap();
    assert_eq!(card.winners, vec![3, 3, 1]);
    let card = Card::from_line("Card 7:|").unwrap();
    assert_eq!(card.winners, Vec::<u8>::new());
    assert!(Card::from_line("Card").is_none());
    assert!(Card::from_line("Card x: 1 | 1").is_none());
    assert!(Card::from_line("Card 1 1 | 1").is_none());
    assert!(Card::from_line("Card 1: 1 2 3").is_none());
    assert!(Card::from_line("Card 1: 256 | 1").is_none());
    assert!(Card::from_line("Card 1: 1 | 300").is_none());
    assert!(Card::from_line("Card 256: 1 | 1").is_none());
    assert_eq!(Day04::solve_part_one("Card 1: 1 | 1\nCard"), None);
    assert_eq!(Day04::solve_part_two("Card 1: 1 | 1\nCard"), None);
}

#[test]
fn day04_points_double_with_every_match() {
    let mut line = String::from("Card 1: 1 |");
    for _ in 0..32 {
        line.push_str(" 1");
    }
    assert_eq!(Day04::solve_part_one(&line), Some("2147483648".to_string()));
    line.push_str(" 1");
    assert_eq!(Day04::solve_part_one(&line), None);
    let two = format!("{}\n{}", &line[..line.len() - 2], &line[..line.len() - 2]);
    assert_eq!(Day04::solve_part_one(&two), None);
}

#[test]
fn day04_pile_beyond_the_machine_word_has_no_answer() {
    // Every card wins a copy of each of the two next: the pile grows like
    // the Fibonacci numbers.
    let text = vec!["Card 1: 1 2 | 1 2"; 100].join("\n");
    assert_eq!(Day04::solve_part_two(&text), None);
    let text = vec!["Card 1: 1 2 | 1 2"; 10].join("\n");
    assert_eq!(Day04::solve_part_two(&text), Some("364".to_string()));
}
