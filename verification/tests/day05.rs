use advent_of_code::day05::{location_of, minimum_location_for_seeds, Day05, RangeMap};

const ALMANAC: &str = "seeds: 79 14 55 13

seed-to-soil map:
50 98 2
52 50 48

soil-to-fertilizer map:
0 15 37
37 52 2
39 0 15

fertilizer-to-water map:
49 53 8
0 11 42
42 0 7
57 7 4

water-to-light map:
88 18 7
18 25 70

light-to-temperature map:
45 77 23
81 45 19
68 64 13

temperature-to-humidity map:
0 69 1
1 0 69

humidity-to-location map:
60 56 37
56 93 4";

#[test]
fn check_day05_part1_case1() {
    assert_eq!(
        Day05::solve_part_one(
            "seeds: 79 14 55 13

seed-to-soil map:
50 98 2
52 50 48

soil-to-fertilizer map:
0 15 37
37 52 2
39 0 15

fertilizer-to-water map:
49 53 8
0 11 42
42 0 7
57 7 4

water-to-light map:
88 18 7
18 25 70

light-to-temperature map:
45 77 23
81 45 19
68 64 13

temperature-to-humidity map:
0 69 1
1 0 69

humidity-to-location map:
60 56 37
56 93 4"
        ),
        Some("35".to_string())
    )
}

#[test]
fn test_get() {
    let map = RangeMap::new(vec![(52, 50, 48)]);
    assert_eq!(map.get(&79), 81);
}

#[test]
fn test_get_2() {
    let map = RangeMap::new(vec![(52, 50, 48), (50, 98, 2)]);
    assert_eq!(map.get(&79), 81);
}

#[test]
fn check_day05_part2_case1() {
    assert_eq!(
        Day05::solve_part_two(
            "seeds: 79 14 55 13

seed-to-soil map:
50 98 2
52 50 48

soil-to-fertilizer map:
0 15 37
37 52 2
39 0 15

fertilizer-to-water map:
49 53 8
0 11 42
42 0 7
57 7 4

water-to-light map:
88 18 7
18 25 70

light-to-temperature map:
45 77 23
81 45 19
68 64 13

temperature-to-humidity map:
0 69 1
1 0 69

humidity-to-location map:
60 56 37
56 93 4"
        ),
        Some("46".to_string())
    )
}

#[test]
fn check_day05_both_case1() {
    assert_eq!(
        Day05::solve("", false),
        Some((u64::MAX.to_string(), u64::MAX.to_string()))
    )
}

#[test]
fn day05_map_sends_numbers_of_its_ranges_only() {
    let map = RangeMap::new(vec![(52, 50, 48), (50, 98, 2), (0, 10, 5)]);
    assert_eq!(map._ranges, vec![(0, 10, 5), (52, 50, 48), (50, 98, 2)]);
    assert!(map.is_within_bounds());
    assert_eq!(map.get(&9), 9);
    assert_eq!(map.get(&10), 0);
    assert_eq!(map.get(&14), 4);
    assert_eq!(map.get(&15), 15);
    assert_eq!(map.get(&49), 49);
    assert_eq!(map.get(&50), 52);
    assert_eq!(map.get(&97), 99);
    assert_eq!(map.get(&98), 50);
    assert_eq!(map.get(&99), 51);
    assert_eq!(map.get(&100), 100);
    let empty = RangeMap::new(vec![]);
    assert_eq!(empty.get(&7), 7);
    let wide = RangeMap::new(vec![(0, u64::MAX, 2)]);
    assert!(!wide.is_within_bounds());
    let wide = RangeMap::new(vec![(u64::MAX, 0, 2)]);
    assert!(!wide.is_within_bounds());
    let edge = RangeMap::new(vec![(u64::MAX, 0, 1), (0, u64::MAX, 1)]);
    assert!(edge.is_within_bounds());
    assert_eq!(edge.get(&0), u64::MAX);
    assert_eq!(edge.get(&u64::MAX), 0);
}

#[test]
fn day05_seeds_go_through_all_maps() {
    let almanac = Day05::parse_input(ALMANAC).unwrap();
    assert_eq!(almanac.seeds, vec![79, 14, 55, 13]);
    assert_eq!(almanac.maps.len(), 7);
    assert_eq!(almanac.maps[0]._ranges, vec![(52, 50, 48), (50, 98, 2)]);
    assert_eq!(location_of(79, &almanac.maps), 82);
    assert_eq!(location_of(14, &almanac.maps), 43);
    assert_eq!(location_of(55, &almanac.maps), 86);
    assert_eq!(location_of(13, &almanac.maps), 35);
    assert_eq!(minimum_location_for_seeds(&almanac.seeds, &almanac.maps), 35);
    assert_eq!(minimum_location_for_seeds(&vec![], &almanac.maps), u64::MAX);
    assert_eq!(Day05::part_one(&almanac), "35");
    assert_eq!(Day05::part_two(&almanac), Some("46".to_string()));
    assert_eq!(
        Day05::solve(ALMANAC, true),
        Some(("35".to_string(), "46".to_string()))
    );
}

#[test]
fn day05_almanac_is_read_block_by_block() {
    // The seeds may go on over several lines; a number left over at the end
    // of the list of pairs is ignored.
    let almanac = Day05::parse_input("seeds: 1 2\n3\n\nmap:\n10 1 1").unwrap();
    assert_eq!(almanac.seeds, vec![1, 2, 3]);
    assert_eq!(Day05::part_one(&almanac), "2");
    assert_eq!(Day05::part_two(&almanac), Some("2".to_string()));
    assert!(Day05::parse_input("seeds: x").is_none());
    assert!(Day05::parse_input("seeds: 1\n\nmap:\n1 2").is_none());
    assert!(Day05::parse_input("seeds: 1\n\nmap:\n1 2 3 4").is_none());
    assert!(Day05::parse_input("seeds: 1\n\nmap:\n1 2 x").is_none());
    assert!(Day05::parse_input("seeds: 1\n\nmap:\n1 18446744073709551615 2").is_none());
    assert_eq!(
        Day05::solve_part_two("seeds: 18446744073709551615 2"),
        None
    );
    assert_eq!(
        Day05::solve_part_two("seeds: 18446744073709551615 1"),
        Some("18446744073709551615".to_string())
    );
}
