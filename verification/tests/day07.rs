use advent_of_code::day07::{solve, Card, Day07, Hand, HandType};
use counter::Counter;

#[test]
fn check_day07_part1_case1() {
    assert_eq!(
        Day07::solve_part_one(
            "32T3K 765
T55J5 684
KK677 28
KTJJT 220
QQQJA 483"
        ),
        Some("6440".to_string())
    )
}

#[test]
fn check_day07_part2_case1() {
    assert_eq!(Day07::solve_part_two(""), Some("0".to_string()))
}

#[test]
fn check_day07_both_case1() {
    assert_eq!(
        Day07::solve("", false),
        Some(("0".to_string(), "0".to_string()))
    )
}

#[test]
fn day07_jokers_change_the_winnings() {
    let text = "32T3K 765\nT55J5 684\nKK677 28\nKTJJT 220\nQQQJA 483";
    assert_eq!(Day07::solve_part_two(text), Some("5905".to_string()));
    assert_eq!(
        Day07::solve(text, true),
        Some(("6440".to_string(), "5905".to_string()))
    );
    let hands = Day07::parse_input(text).unwrap();
    assert_eq!(hands.0.len(), 5);
    assert_eq!(hands.1.len(), 5);
    assert_eq!(hands.0[1].hand_type, HandType::ThreeOfAKind);
    assert_eq!(hands.1[1].hand_type, HandType::FourOfAKind);
    assert_eq!(hands.0[1].cards[3], Card::Jack);
    assert_eq!(hands.1[1].cards[3], Card::Joker);
    assert_eq!(hands.0[1].bid, 684);
    assert_eq!(Day07::part_one(&hands), Some("6440".to_string()));
    assert_eq!(Day07::part_two(&hands), Some("5905".to_string()));
}

#[test]
fn day07_types_come_from_the_counts_of_the_counter() {
    let mut counter: Counter<char, usize> = Counter::new();
    assert_eq!(Hand::hand_type("AAAAA", &mut counter), Some(HandType::FiveOfAKind));
    assert_eq!(Hand::hand_type("AA8AA", &mut counter), Some(HandType::FourOfAKind));
    assert_eq!(Hand::hand_type("23332", &mut counter), Some(HandType::FullHouse));
    assert_eq!(Hand::hand_type("TTT98", &mut counter), Some(HandType::ThreeOfAKind));
    assert_eq!(Hand::hand_type("23432", &mut counter), Some(HandType::TwoPair));
    assert_eq!(Hand::hand_type("A23A4", &mut counter), Some(HandType::OnePair));
    assert_eq!(Hand::hand_type("23456", &mut counter), Some(HandType::HighCard));
    assert_eq!(Hand::hand_type("", &mut counter), None);
    assert_eq!(Hand::hand_type("AA", &mut counter), None);
    // The counter holds the counts of the last hand.
    Hand::hand_type("AK", &mut counter);
    assert_eq!(counter[&'A'], 1);
    assert_eq!(counter[&'K'], 1);
    assert_eq!(counter.len(), 2);
    assert_eq!(Hand::hand_type_jokers("JJJJJ", &mut counter), Some(HandType::FiveOfAKind));
    assert_eq!(counter.len(), 0);
    assert_eq!(Hand::hand_type_jokers("QJJQ2", &mut counter), Some(HandType::FourOfAKind));
    assert_eq!(counter.len(), 2);
    assert_eq!(Hand::hand_type_jokers("2233J", &mut counter), Some(HandType::FullHouse));
    assert_eq!(Hand::hand_type_jokers("2345J", &mut counter), Some(HandType::OnePair));
    assert_eq!(Hand::hand_type_jokers("23456", &mut counter), Some(HandType::HighCard));
}

#[test]
fn day07_two_greatest_counts_give_the_type() {
    assert_eq!(HandType::from_count(5, None), Some(HandType::FiveOfAKind));
    assert_eq!(HandType::from_count(4, Some(1)), Some(HandType::FourOfAKind));
    assert_eq!(HandType::from_count(3, Some(2)), Some(HandType::FullHouse));
    assert_eq!(HandType::from_count(3, Some(1)), Some(HandType::ThreeOfAKind));
    assert_eq!(HandType::from_count(2, Some(2)), Some(HandType::TwoPair));
    assert_eq!(HandType::from_count(2, Some(1)), Some(HandType::OnePair));
    assert_eq!(HandType::from_count(1, Some(1)), Some(HandType::HighCard));
    assert_eq!(HandType::from_count(6, None), Some(HandType::HighCard));
    assert_eq!(HandType::from_count(2, None), None);
    assert_eq!(HandType::from_count(3, None), None);
}

#[test]
fn day07_cards_are_read_from_characters() {
    assert_eq!(Card::from_char(&'A'), Ok(Card::Ace));
    assert_eq!(Card::from_char(&'J'), Ok(Card::Jack));
    assert_eq!(Card::from_char_jokers(&'J'), Ok(Card::Joker));
    assert_eq!(Card::from_char(&'T'), Ok(Card::Ten));
    assert_eq!(Card::from_char(&'1'), Ok(Card::One));
    assert_eq!(Card::from_char(&'2'), Ok(Card::Two));
    assert_eq!(Card::from_char(&'0'), Err(()));
    assert_eq!(Card::from_char_jokers(&'x'), Err(()));
    assert_eq!(Card::Ace.rank(), 0);
    assert_eq!(Card::Joker.rank(), 14);
    assert_eq!(HandType::FiveOfAKind.rank(), 0);
    assert_eq!(HandType::HighCard.rank(), 6);
}

#[test]
fn day07_hands_of_equal_strength_keep_their_order() {
    let mut counter: Counter<char, usize> = Counter::new();
    let a = Hand::new("23456", 10, &mut counter).unwrap();
    let b = Hand::new("23456", 1, &mut counter).unwrap();
    let c = Hand::new("AAAAA", 100, &mut counter).unwrap();
    // The later of two equal hands is the weaker when the hands are sorted
    // from the strongest: it gets the lower rank.
    assert_eq!(solve(&[a, b, c]), Some((10 * 2 + 1 + 100 * 3).to_string()));
    assert_eq!(solve(&[b, a, c]), Some((2 + 10 + 100 * 3).to_string()));
    assert_eq!(solve(&[c]), Some("100".to_string()));
    assert_eq!(solve(&[]), Some("0".to_string()));
    assert!(Hand::new("2345", 1, &mut counter).is_none());
    assert!(Hand::new("2345x", 1, &mut counter).is_none());
    assert!(Hand::new_jokers("J345?", 1, &mut counter).is_none());
    let long = Hand::new("AAAAAK", 1, &mut counter).unwrap();
    assert_eq!(long.hand_type, HandType::FiveOfAKind);
    assert_eq!(Day07::solve_part_one("23456"), None);
    assert_eq!(Day07::solve_part_one("23456 x"), None);
    assert_eq!(Day07::solve_part_one("23456 65536"), None);
    assert_eq!(Day07::solve_part_two("2345 1"), None);
}
