use advent_of_code::day02::{Day02, Game};

#[test]
fn check_day02_part1_case1() {
    assert_eq!(
        Day02::solve_part_one(
            "Game 1: 3 blue, 4 red; 1 red, 2 green, 6 blue; 2 green
Game 2: 1 blue, 2 green; 3 green, 4 blue, 1 red; 1 green, 1 blue
Game 3: 8 green, 6 blue, 20 red; 5 blue, 4 red, 13 green; 5 green, 1 red
Game 4: 1 green, 3 red, 6 blue; 3 green, 6 red; 3 green, 15 blue, 14 red
Game 5: 6 red, 1 blue, 3 green; 2 blue, 1 red, 2 green"
        ),
        Some("8".to_string())
    )
}

#[test]
fn check_day02_part2_case1() {
    assert_eq!(Day02::solve_part_two(""), Some("0".to_string()))
}

#[test]
fn check_day02_both_case1() {
    assert_eq!(
        Day02::solve("", false),
        Some(("0".to_string(), "0".to_string()))
    )
}

#[test]
fn day02_powers_of_the_example_add_up() {
    let text = "Game 1: 3 blue, 4 red; 1 red, 2 green, 6 blue; 2 green
Game 2: 1 blue, 2 green; 3 green, 4 blue, 1 red; 1 green, 1 blue
Game 3: 8 green, 6 blue, 20 red; 5 blue, 4 red, 13 green; 5 green, 1 red
Game 4: 1 green, 3 red, 6 blue; 3 green, 6 red; 3 green, 15 blue, 14 red
Game 5: 6 red, 1 blue, 3 green; 2 blue, 1 red, 2 green";
    assert_eq!(Day02::solve_part_two(text), Some("2286".to_string()));
    assert_eq!(
        Day02::solve(text, true),
        Some(("8".to_string(), "2286".to_string()))
    );
    let games = Day02::parse_input(text).unwrap();
    assert_eq!(games.len(), 5);
    assert_eq!(games[2].id, 3);
    assert_eq!(games[2].colour_max, (20, 13, 6));
    assert_eq!(Day02::part_one(&games), Some("8".to_string()));
    assert_eq!(Day02::part_two(&games), Some("2286".to_string()));
}

#[test]
fn day02_game_is_read_from_its_line() {
    let game = Game::from_str("Game 12: 7 red, 1 blue; 9 green").unwrap();
    assert_eq!(game.id, 12);
    assert_eq!(game.colour_max, (7, 9, 1));
    // The colon may be missing, and what follows the last draw is ignored.
    let game = Game::from_str("Game 3 4 blue ; 2 blue. The end").unwrap();
    assert_eq!(game.id, 3);
    assert_eq!(game.colour_max, (0, 0, 4));
    assert!(Game::from_str("Game x: 1 red").is_err());
    assert!(Game::from_str("Game 1: red").is_err());
    assert!(Game::from_str("Game 1: 3 yellow").is_err());
    assert!(Game::from_str("Game 1: 3").is_err());
    assert!(Game::from_str("Game 1: 3 red,").is_err());
    assert!(Game::from_str("Game 1: 4294967296 red").is_err());
    assert!(Game::from_str("").is_err());
    assert_eq!(Day02::solve_part_one("Game 1: 3 red\nnonsense"), None);
}

#[test]
fn day02_total_beyond_32_bits_has_no_answer() {
    assert_eq!(
        Day02::solve_part_two("Game 1: 65536 red, 65536 green, 1 blue"),
        None
    );
    assert_eq!(
        Day02::solve_part_two("Game 1: 65535 red, 65537 green, 1 blue"),
        Some("4294967295".to_string())
    );
    assert_eq!(
        Day02::solve_part_one("Game 4294967295: 1 red\nGame 1: 1 red"),
        None
    );
}
