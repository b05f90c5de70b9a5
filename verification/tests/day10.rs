use advent_of_code::day10::grid::{parse, PipeError};
use advent_of_code::day10::interior::{classify_interior, mark_interior};
use advent_of_code::day10::network::build;
use advent_of_code::day10::pipe::{Node, Openings, PipeType};
use advent_of_code::day10::traversal::{count_set, farthest, reachable, shortest_distances};
use advent_of_code::day10::{
    enclosed_cells, farthest_distance, has_no_loose_end, loop_length, Day10,
};

#[test]
fn check_day10_part1_case1() {
    assert_eq!(
        Day10::solve_part_one(
            "-L|F7
7S-7|
L|7||
-L-J|
L|-JF"
        ),
        Ok("4".to_string())
    )
}

#[test]
fn check_day10_part1_case2() {
    assert_eq!(
        Day10::solve_part_one(
            "7-F7-
.FJ|7
SJLL7
|F--J
LJ.LJ"
        ),
        Ok("8".to_string())
    )
}

#[test]
fn check_day10_part2_case1() {
    assert_eq!(
        Day10::solve_part_two(
            "-L|F7
7S-7|
L|7||
-L-J|
L|-JF"
        ),
        Ok("1".to_string())
    )
}

#[test]
fn check_day10_part2_case2() {
    assert_eq!(
        Day10::solve_part_two(
            "7-F7-
.FJ|7
SJLL7
|F--J
LJ.LJ"
        ),
        Ok("1".to_string())
    )
}

#[test]
fn check_day10_both_case1() {
    assert_eq!(Day10::solve("", false), Err(PipeError::MissingStart))
}

#[test]
fn simple_loop_has_farthest_point_four_and_one_enclosed_cell() {
    let text = ".....\n.S-7.\n.|.|.\n.L-J.\n.....";
    assert_eq!(
        Day10::solve(text, false),
        Ok(("4".to_string(), "1".to_string()))
    );
    assert_eq!(Day10::solve(text, true), Day10::solve(text, false));
}

#[test]
fn distances_of_simple_loop() {
    let net = Day10::parse_input(".....\n.S-7.\n.|.|.\n.L-J.\n.....").unwrap();
    let dist = shortest_distances(&net);
    let expected: Vec<Option<usize>> = vec![
        None, None, None, None, None,
        None, Some(0), Some(1), Some(2), None,
        None, Some(1), None, Some(3), None,
        None, Some(2), Some(3), Some(4), None,
        None, None, None, None, None,
    ];
    assert_eq!(dist, expected);
    assert_eq!(farthest(&dist), 4);
    assert_eq!(farthest_distance(&net), 4);
}

#[test]
fn loop_of_simple_diagram_is_a_cycle_of_eight() {
    let net = Day10::parse_input(".....\n.S-7.\n.|.|.\n.L-J.\n.....").unwrap();
    let on_loop = reachable(&net);
    assert!(on_loop[net.grid.start]);
    assert_eq!(count_set(&on_loop), 8);
    for (i, on) in on_loop.iter().enumerate() {
        if *on {
            let l = net.links[i];
            assert_eq!(l.degree(), 2);
            for q in [l.north, l.south, l.east, l.west].into_iter().flatten() {
                assert!(on_loop[q]);
            }
        }
    }
}

#[test]
fn farthest_point_is_half_the_loop() {
    for text in [
        ".....\n.S-7.\n.|.|.\n.L-J.\n.....",
        "-L|F7\n7S-7|\nL|7||\n-L-J|\nL|-JF",
        "7-F7-\n.FJ|7\nSJLL7\n|F--J\nLJ.LJ",
        "S7\nLJ",
    ] {
        let net = Day10::parse_input(text).unwrap();
        let on_loop = reachable(&net);
        assert!(has_no_loose_end(&net));
        assert_eq!(loop_length(&net), count_set(&on_loop));
        assert_eq!(farthest_distance(&net), loop_length(&net) / 2);
    }
}

#[test]
fn loop_with_loose_ends_is_told_apart() {
    // The start is joined to two cells, but the pipe ends on either side.
    let net = Day10::parse_input("S--\n|..\n|..").unwrap();
    assert!(!has_no_loose_end(&net));
    assert_eq!(loop_length(&net), 5);
    assert_eq!(farthest_distance(&net), 2);
    let net = Day10::parse_input("S-\n|.\n|.\n|.").unwrap();
    assert!(!has_no_loose_end(&net));
    assert_eq!(loop_length(&net), 5);
    assert_eq!(farthest_distance(&net), 3);
}

#[test]
fn classification_repeats() {
    let net = Day10::parse_input("7-F7-\n.FJ|7\nSJLL7\n|F--J\nLJ.LJ").unwrap();
    let on_loop = reachable(&net);
    let first = classify_interior(&net, &on_loop);
    let second = classify_interior(&net, &on_loop);
    assert_eq!(first, second);
    assert_eq!(first, enclosed_cells(&net));
}

#[test]
fn enclosed_cells_are_among_the_cells_off_the_loop() {
    let net = Day10::parse_input("-L|F7\n7S-7|\nL|7||\n-L-J|\nL|-JF").unwrap();
    let on_loop = reachable(&net);
    let off = on_loop.len() - count_set(&on_loop);
    assert_eq!(off, 17);
    assert!(classify_interior(&net, &on_loop) < off);
}

#[test]
fn loop_that_fills_the_rim_encloses_every_other_cell() {
    let net = Day10::parse_input("S-7\n|.|\nL-J").unwrap();
    let on_loop = reachable(&net);
    assert_eq!(on_loop.len() - count_set(&on_loop), 1);
    assert_eq!(classify_interior(&net, &on_loop), 1);
}

#[test]
fn start_on_the_rim_has_no_link_outward() {
    let net = Day10::parse_input("S7\nLJ").unwrap();
    let l = net.links[net.grid.start];
    assert_eq!(net.grid.start, 0);
    assert_eq!(l.north, None);
    assert_eq!(l.west, None);
    assert_eq!(l.east, Some(1));
    assert_eq!(l.south, Some(2));
    assert_eq!(farthest_distance(&net), 2);
    assert_eq!(enclosed_cells(&net), 0);
}

#[test]
fn start_shape_is_resolved_before_the_scan() {
    // The start stands for a vertical segment here: the cell to its right is
    // enclosed only if the start flips the flag.
    let net = Day10::parse_input("F-7\nS.|\nL-J").unwrap();
    assert_eq!(net.resolve_start(), PipeType::Vertical);
    assert_eq!(enclosed_cells(&net), 1);
    // Here it stands for a bend open toward south and east, which does not.
    let net = Day10::parse_input("S-7.\n|.|.\nL-J.").unwrap();
    assert_eq!(net.resolve_start(), PipeType::SE);
    assert_eq!(enclosed_cells(&net), 1);
}

#[test]
fn marked_diagram_shows_loop_and_enclosed_cells() {
    let net = Day10::parse_input("-L|F7\n7S-7|\nL|7||\n-L-J|\nL|-JF").unwrap();
    let on_loop = reachable(&net);
    let cells = mark_interior(&net, &on_loop);
    let drawn: String = cells.iter().map(|k| k.to_char()).collect();
    assert_eq!(
        drawn,
        ".....\
         .\u{250c}\u{2500}\u{2510}.\
         .\u{2502}x\u{2502}.\
         .\u{2514}\u{2500}\u{2518}.\
         ....."
    );
}

#[test]
fn two_start_cells_are_refused_as_duplicate() {
    assert_eq!(
        Day10::solve_part_one("S-7\n|.|\nS-J"),
        Err(PipeError::DuplicateStart)
    );
    assert_eq!(
        Day10::parse_input("SS").err(),
        Some(PipeError::DuplicateStart)
    );
    assert_eq!(PipeError::DuplicateStart.message(), "duplicate start cell");
}

#[test]
fn each_fault_is_reported() {
    assert_eq!(parse("S-7\n|x|\nL-J").err(), Some(PipeError::MalformedGlyph));
    assert_eq!(parse("S-7\n|.\nL-J").err(), Some(PipeError::RaggedGrid));
    assert_eq!(parse("F-7\n|.|\nL-J").err(), Some(PipeError::MissingStart));
    assert_eq!(parse("").err(), Some(PipeError::MissingStart));
    assert_eq!(parse("S.S").err(), Some(PipeError::DuplicateStart));
    // A glyph fault comes before a ragged row, and that before the start.
    assert_eq!(parse("S-7\n|.\nLxJ").err(), Some(PipeError::MalformedGlyph));
    assert_eq!(parse("F-7\n|.\nL-J").err(), Some(PipeError::RaggedGrid));
    let grid = parse("S-7\n..|\n.-J").unwrap();
    assert_eq!(build(grid).err(), Some(PipeError::StartConnectivity));
    let grid = parse("|.\nS-\n|.").unwrap();
    assert_eq!(build(grid).err(), Some(PipeError::StartConnectivity));
    assert_eq!(
        Day10::solve_part_two(".S.").err(),
        Some(PipeError::StartConnectivity)
    );
    assert_eq!(
        PipeError::StartConnectivity.message(),
        "inconsistent start connectivity"
    );
    assert_eq!(PipeError::MalformedGlyph.message(), "malformed glyph");
    assert_eq!(PipeError::RaggedGrid.message(), "ragged grid");
    assert_eq!(PipeError::MissingStart.message(), "missing start cell");
}

#[test]
fn glyphs_decode_to_kinds() {
    assert_eq!(PipeType::from_char('.'), Some(PipeType::NotPipe));
    assert_eq!(PipeType::from_char('|'), Some(PipeType::Vertical));
    assert_eq!(PipeType::from_char('-'), Some(PipeType::Horizontal));
    assert_eq!(PipeType::from_char('L'), Some(PipeType::NE));
    assert_eq!(PipeType::from_char('J'), Some(PipeType::NW));
    assert_eq!(PipeType::from_char('7'), Some(PipeType::SW));
    assert_eq!(PipeType::from_char('F'), Some(PipeType::SE));
    assert_eq!(PipeType::from_char('S'), Some(PipeType::Unknown));
    assert_eq!(PipeType::from_char('x'), None);
    assert_eq!(PipeType::NotPipe.to_char(), '.');
    assert_eq!(PipeType::Unknown.to_char(), 'S');
    assert_eq!(PipeType::InLoop.to_char(), 'x');
    assert_eq!(PipeType::NE.to_char(), '\u{2514}');
    assert_eq!(
        Node::new(3, 4, 'F'),
        Some(Node { x: 3, y: 4, pipe_type: PipeType::SE })
    );
    assert_eq!(Node::new(3, 4, '?'), None);
}

#[test]
fn cells_join_where_both_are_open() {
    assert!(PipeType::Vertical.is_connected_north(&PipeType::SE));
    assert!(PipeType::Unknown.is_connected_north(&PipeType::Vertical));
    assert!(!PipeType::Vertical.is_connected_north(&PipeType::NE));
    assert!(!PipeType::Horizontal.is_connected_north(&PipeType::Vertical));
    assert!(PipeType::SW.is_connected_south(&PipeType::NW));
    assert!(!PipeType::SW.is_connected_south(&PipeType::SE));
    assert!(PipeType::Horizontal.is_connected_east(&PipeType::NW));
    assert!(!PipeType::NotPipe.is_connected_east(&PipeType::Horizontal));
    assert!(PipeType::NW.is_connected_west(&PipeType::Unknown));
    assert!(!PipeType::NE.is_connected_west(&PipeType::Horizontal));
    assert!(!PipeType::InLoop.is_connected_west(&PipeType::Horizontal));
    assert_eq!(
        PipeType::from_openings(Openings { north: true, south: false, east: false, west: true }),
        Some(PipeType::NW)
    );
    assert_eq!(
        PipeType::from_openings(Openings { north: true, south: true, east: false, west: true }),
        None
    );
}
