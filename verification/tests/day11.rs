use advent_of_code::day11::{add_costs, solve_for_expansion, Day11, HEAVIEST, MOST_CELLS};
use petgraph::graph::NodeIndex;

#[test]
fn check_day11_part1_case1() {
    assert_eq!(
        Day11::solve_part_one(
            "...#......
.......#..
#.........
..........
......#...
.#........
.........#
..........
.......#..
#...#....."
        ),
        Some("374".to_string())
    )
}

#[test]
fn check_day11_case2() {
    assert_eq!(
        solve_for_expansion(
            &mut Day11::parse_input(
                "...#......
.......#..
#.........
..........
......#...
.#........
.........#
..........
.......#..
#...#....."
            )
            .unwrap(),
            10
        ),
        Some("1030".to_string())
    )
}

#[test]
fn check_day11_case3() {
    assert_eq!(
        solve_for_expansion(
            &mut Day11::parse_input(
                "...#......
.......#..
#.........
..........
......#...
.#........
.........#
..........
.......#..
#...#....."
            )
            .unwrap(),
            100
        ),
        Some("8410".to_string())
    )
}

#[test]
fn check_day11_both_case1() {
    assert_eq!(Day11::solve("", false), None)
}

#[test]
fn day11_map_becomes_a_graph_of_its_cells() {
    let data = Day11::parse_input("#..\n...\n..#\n").unwrap();
    assert_eq!(data.galaxies, vec![0, 8]);
    assert_eq!(data.node_indices, vec![vec![0, 1, 2], vec![3, 4, 5], vec![6, 7, 8]]);
    assert_eq!(data.rows_to_expand, vec![1]);
    assert_eq!(data.cols_to_expand, vec![1]);
    assert_eq!(data.heaviest, 1);
    assert_eq!(data.graph.node_count(), 9);
    assert_eq!(data.graph.edge_count(), 12);
    assert_eq!(data.graph[NodeIndex::new(0)], '#');
    assert_eq!(data.graph[NodeIndex::new(4)], '.');
    for (a, b) in [(0, 1), (0, 3), (4, 5), (4, 7), (7, 8), (5, 8)] {
        let edge = data.graph.find_edge(NodeIndex::new(a), NodeIndex::new(b)).unwrap();
        assert_eq!(data.graph[edge], 1);
    }
    assert!(data.graph.find_edge(NodeIndex::new(0), NodeIndex::new(4)).is_none());
    assert!(data.graph.find_edge(NodeIndex::new(2), NodeIndex::new(3)).is_none());
    // The first edges are those of the first cell: down, then right.
    let first: Vec<(usize, usize)> = data
        .graph
        .edge_indices()
        .take(3)
        .map(|e| data.graph.edge_endpoints(e).unwrap())
        .map(|(a, b)| (a.index(), b.index()))
        .collect();
    assert_eq!(first, vec![(0, 3), (0, 1), (1, 4)]);
}

#[test]
fn day11_rows_and_columns_without_a_galaxy_grow() {
    let mut data = Day11::parse_input("#..\n...\n..#").unwrap();
    // Two rows and two columns apart, one row and one column between them
    // without a galaxy.
    assert_eq!(solve_for_expansion(&mut data, 1), Some("4".to_string()));
    assert_eq!(solve_for_expansion(&mut data, 10), Some("22".to_string()));
    assert_eq!(data.heaviest, 10);
    assert_eq!(data.graph.edge_count(), 12);
    let down = data.graph.find_edge(NodeIndex::new(4), NodeIndex::new(7)).unwrap();
    let right = data.graph.find_edge(NodeIndex::new(1), NodeIndex::new(2)).unwrap();
    let plain = data.graph.find_edge(NodeIndex::new(0), NodeIndex::new(1)).unwrap();
    assert_eq!(data.graph[down], 10);
    assert_eq!(data.graph[right], 10);
    assert_eq!(data.graph[plain], 1);
    // A later, lighter weight replaces the heavier one.
    assert_eq!(Day11::part_one(&mut data), Some("6".to_string()));
    assert_eq!(data.graph[down], 2);
    assert_eq!(data.heaviest, 10);
    assert_eq!(Day11::part_two(&mut data), Some("2000002".to_string()));
    assert_eq!(
        Day11::solve("#..\n...\n..#", true),
        Some(("6".to_string(), "2000002".to_string()))
    );
    assert_eq!(Day11::solve_part_two("#..\n...\n..#"), Some("2000002".to_string()));
    assert_eq!(Day11::solve_part_one("..."), Some("0".to_string()));
    assert_eq!(Day11::solve_part_one("#"), Some("0".to_string()));
    assert_eq!(Day11::solve_part_one("##"), Some("1".to_string()));
    assert_eq!(Day11::solve_part_one("#.#\n#.#"), Some("16".to_string()));
    // A last row or column without a galaxy has nothing below or beside it.
    assert_eq!(Day11::solve_part_one("#.\n#.\n.."), Some("1".to_string()));
}

#[test]
fn day11_text_that_is_no_map_is_refused() {
    assert!(Day11::parse_input("").is_none());
    assert!(Day11::parse_input("#.\n#").is_none());
    assert!(Day11::parse_input("#\n#.").is_none());
    assert_eq!(Day11::solve_part_one("#.\n#"), None);
    assert_eq!(Day11::solve_part_two(""), None);
    assert_eq!(MOST_CELLS, 0x3fff_ffff);
    // Lines without a cell are a map without a node.
    let mut data = Day11::parse_input("\n\n").unwrap();
    assert_eq!(data.graph.node_count(), 0);
    assert_eq!(data.rows_to_expand, vec![0, 1]);
    assert_eq!(solve_for_expansion(&mut data, 5), Some("0".to_string()));
}

#[test]
fn day11_weight_that_is_too_heavy_changes_nothing() {
    let mut data = Day11::parse_input("#..\n...\n..#").unwrap();
    assert_eq!(solve_for_expansion(&mut data, HEAVIEST + 1), None);
    assert_eq!(data.heaviest, 1);
    let down = data.graph.find_edge(NodeIndex::new(4), NodeIndex::new(7)).unwrap();
    assert_eq!(data.graph[down], 1);
    assert_eq!(
        solve_for_expansion(&mut data, HEAVIEST),
        Some((2 * HEAVIEST + 2).to_string())
    );
    assert_eq!(data.graph[down], HEAVIEST);
    assert_eq!(data.heaviest, HEAVIEST);
    assert_eq!(solve_for_expansion(&mut data, 0), Some("2".to_string()));
}

#[test]
fn day11_costs_of_galaxies_up_to_a_node_are_added() {
    let flags = vec![true, false, true, true, true];
    let list = vec![(3, 30), (0, 5), (1, 7), (4, 100)];
    // Node 1 is no galaxy, node 2 has no entry, node 4 lies beyond node 3.
    assert_eq!(add_costs(&list, &flags, 3), Some(35));
    assert_eq!(add_costs(&list, &flags, 4), Some(135));
    assert_eq!(add_costs(&list, &flags, 0), Some(5));
    assert_eq!(add_costs(&vec![], &flags, 2), Some(0));
    // Of two entries for a node the first counts.
    assert_eq!(add_costs(&vec![(0, 1), (0, 9)], &flags, 0), Some(1));
    assert_eq!(add_costs(&vec![(0, u64::MAX), (2, 1)], &flags, 1), Some(u64::MAX));
    assert_eq!(add_costs(&vec![(0, u64::MAX), (2, 1)], &flags, 2), None);
}
