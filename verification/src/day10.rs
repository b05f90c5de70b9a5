//! The pipe network: a diagram of pipe segments, the loop through its start
//! cell, the farthest point of that loop and the cells it encloses.
//!
//! The work is done in four steps, each in its own module: [`grid`] reads
//! the diagram, [`network`] joins neighbouring cells, [`traversal`] walks
//! the loop, and [`interior`] classifies the cells off the loop.

pub mod cycle;
pub mod grid;
pub mod interior;
pub mod laws;
pub mod network;
pub mod pipe;
pub mod traversal;

use vstd::prelude::*;
use crate::day10::grid::{grid_fault, is_start_at, parse, Grid, PipeError};
use crate::day10::interior::classify_interior;
use crate::day10::network::{build, Network};
use crate::day10::pipe::PipeType;
use crate::day10::traversal::{
    count_true, farthest, is_distance, lemma_reach_in_range, reach, reachable, reachable_from,
    shortest_distances,
};
use crate::text::{decimal_digits, decimal_string, lines_of};

verus! {

/// The solver of the pipe network puzzle.
#[derive(Clone, Copy, Debug)]
pub struct Day10;

/// How a glyph is open; a character that is no glyph counts as ground.
pub open spec fn glyph_openings(c: char) -> crate::day10::pipe::Openings {
    match PipeType::of_glyph(c) {
        Some(k) => k.openings(),
        None => PipeType::NotPipe.openings(),
    }
}

/// The number of neighbours that the start cell of the rows `ls` is joined
/// to: those that exist and are open toward it.
pub open spec fn start_degree(ls: Seq<Seq<char>>) -> nat {
    let (r, c) = choose|r: int, c: int| #[trigger] is_start_at(ls, r, c);
    (if r > 0 && glyph_openings(ls[r - 1][c]).south {
        1nat
    } else {
        0nat
    }) + (if r + 1 < ls.len() && glyph_openings(ls[r + 1][c]).north {
        1nat
    } else {
        0nat
    }) + (if c + 1 < ls[r].len() && glyph_openings(ls[r][c + 1]).west {
        1nat
    } else {
        0nat
    }) + (if c > 0 && glyph_openings(ls[r][c - 1]).east {
        1nat
    } else {
        0nat
    })
}

/// The first fault of the rows of a diagram: a fault of the grid, or else a
/// start cell that is not joined to exactly two neighbours.
pub open spec fn network_fault(ls: Seq<Seq<char>>) -> Option<PipeError> {
    match grid_fault(ls) {
        Some(e) => Some(e),
        None => if start_degree(ls) != 2 {
            Some(PipeError::StartConnectivity)
        } else {
            None
        },
    }
}

/// The links of the start cell of a grid are those that the rows it
/// depicts show.
pub proof fn lemma_start_degree(grid: &Grid, ls: Seq<Seq<char>>)
    requires
        grid.wf(),
        grid.depicts(ls),
        grid_fault(ls) is None,
    ensures
        Network::links_of(grid, grid.start as int).count() == start_degree(ls),
{
    let s = grid.start as int;
    let n = grid.nodes[s];
    let (r, c) = choose|r: int, c: int| #[trigger] is_start_at(ls, r, c);
    assert(is_start_at(ls, n.y as int, n.x as int));
    assert(is_start_at(ls, r, c));
    assert(r == n.y && c == n.x);
    Network::lemma_neighbour_cells(grid, s);
    let w = grid.width as int;
    if r > 0 {
        let m = grid.nodes[s - w];
        assert(PipeType::of_glyph(ls[m.y as int][m.x as int]) == Some(m.pipe_type));
    }
    if r + 1 < ls.len() {
        let m = grid.nodes[s + w];
        assert(PipeType::of_glyph(ls[m.y as int][m.x as int]) == Some(m.pipe_type));
    }
    if c + 1 < ls[r].len() {
        let m = grid.nodes[s + 1];
        assert(PipeType::of_glyph(ls[m.y as int][m.x as int]) == Some(m.pipe_type));
    }
    if c > 0 {
        let m = grid.nodes[s - 1];
        assert(PipeType::of_glyph(ls[m.y as int][m.x as int]) == Some(m.pipe_type));
    }
}

impl Network {
    /// For every cell, whether it can be reached from the start cell.
    pub open spec fn loop_flags(&self) -> Seq<bool> {
        Seq::new(self.links.len() as nat, |p: int| reachable_from(self.links@, self.start(), p))
    }

    /// Whether `d` is the distance of the cell of the loop that is farthest
    /// from the start cell.
    pub open spec fn is_farthest(&self, d: nat) -> bool {
        &&& exists|p: int| #[trigger] is_distance(self.links@, self.start(), p, d)
        &&& forall|p: int, x: nat| #[trigger]
            is_distance(self.links@, self.start(), p, x) ==> x <= d
    }

    /// The number of cells off the loop that the loop encloses.
    pub open spec fn enclosed(&self) -> nat {
        count_true(self.interior_flags(self.loop_flags()))
    }
}

/// The greatest distance from the start cell to a cell of the loop.
pub fn farthest_distance(net: &Network) -> (d: usize)
    requires
        net.wf(),
    ensures
        net.is_farthest(d as nat),
{
    let dist = shortest_distances(net);
    let d = farthest(&dist);
    proof {
        let adj = net.links@;
        let s = net.start();
        assert(reach(adj, s, 0, s));
        if d == 0 {
            assert(is_distance(adj, s, s, 0));
        } else {
            let p = choose|p: int| 0 <= p < dist.len() && #[trigger] dist[p] == Some(d);
            assert(is_distance(adj, s, p, d as nat));
        }
        assert forall|p: int, x: nat| #[trigger] is_distance(adj, s, p, x) implies x <= d by {
            lemma_reach_in_range(adj, s, x, p);
            if dist[p] is None {
                assert(reach(adj, s, x, p));
                assert(reachable_from(adj, s, p));
            } else {
                crate::day10::cycle::lemma_one_distance(adj, s, p, x, dist[p]->0 as nat);
            }
        }
    }
    d
}

/// Whether the loop has no loose end: every cell that can be reached from
/// the start cell is joined to two neighbours.
pub fn has_no_loose_end(net: &Network) -> (b: bool)
    requires
        net.wf(),
    ensures
        b == net.is_closed_loop(),
{
    let on_loop = reachable(net);
    let mut p: usize = 0;
    while p < on_loop.len()
        invariant
            p <= on_loop.len(),
            on_loop.len() == net.links.len(),
            forall|q: int|
                0 <= q < on_loop.len() ==> (#[trigger] on_loop[q] <==> reachable_from(
                    net.links@,
                    net.start(),
                    q,
                )),
            forall|q: int|
                0 <= q < p && reachable_from(net.links@, net.start(), q) ==> (
                #[trigger] net.links[q]).count() == 2,
        decreases on_loop.len() - p,
    {
        if on_loop[p] && net.links[p].degree() != 2 {
            return false;
        }
        p += 1;
    }
    true
}

/// The number of cells of the loop.
pub fn loop_length(net: &Network) -> (n: usize)
    requires
        net.wf(),
    ensures
        n == count_true(net.loop_flags()),
{
    let on_loop = reachable(net);
    assert(on_loop@ =~= net.loop_flags());
    crate::day10::traversal::count_set(&on_loop)
}

/// The number of cells off the loop that the loop encloses.
pub fn enclosed_cells(net: &Network) -> (count: usize)
    requires
        net.wf(),
    ensures
        count == net.enclosed(),
{
    let on_loop = reachable(net);
    assert(on_loop@ =~= net.loop_flags());
    classify_interior(net, &on_loop)
}

impl Day10 {
    /// Reads a diagram and joins its cells.
    ///
    /// The text is refused with the first fault that [`network_fault`]
    /// names of its lines.
    pub fn parse_input(input: &str) -> (r: Result<Network, PipeError>)
        ensures
            match r {
                Ok(net) => network_fault(lines_of(input@)) is None && net.wf()
                    && net.grid.depicts(lines_of(input@)),
                Err(e) => network_fault(lines_of(input@)) == Some(e),
            },
    {
        let grid = match parse(input) {
            Ok(g) => g,
            Err(e) => {
                return Err(e);
            },
        };
        proof {
            lemma_start_degree(&grid, lines_of(input@));
        }
        build(grid)
    }

    /// The distance of the farthest cell of the loop, in decimal digits.
    pub fn part_one(net: &Network) -> (s: String)
        requires
            net.wf(),
        ensures
            exists|d: nat| net.is_farthest(d) && s@ == decimal_digits(d),
    {
        let d = farthest_distance(net);
        let s = decimal_string(d as u64);
        assert(net.is_farthest(d as nat) && s@ == decimal_digits(d as nat));
        s
    }

    /// The number of cells that the loop encloses, in decimal digits.
    pub fn part_two(net: &Network) -> (s: String)
        requires
            net.wf(),
        ensures
            s@ == decimal_digits(net.enclosed()),
    {
        decimal_string(enclosed_cells(net) as u64)
    }

    /// Reads a diagram and answers the first part.
    pub fn solve_part_one(input: &str) -> (r: Result<String, PipeError>)
        ensures
            match r {
                Ok(s) => network_fault(lines_of(input@)) is None && exists|net: Network, d: nat|
                    net.wf() && net.grid.depicts(lines_of(input@)) && #[trigger] net.is_farthest(d)
                        && s@ == decimal_digits(d),
                Err(e) => network_fault(lines_of(input@)) == Some(e),
            },
    {
        match Self::parse_input(input) {
            Ok(net) => {
                let d = farthest_distance(&net);
                let s = decimal_string(d as u64);
                assert(net.is_farthest(d as nat));
                Ok(s)
            },
            Err(e) => Err(e),
        }
    }

    /// Reads a diagram and answers the second part.
    pub fn solve_part_two(input: &str) -> (r: Result<String, PipeError>)
        ensures
            match r {
                Ok(s) => network_fault(lines_of(input@)) is None && exists|net: Network|
                    net.wf() && net.grid.depicts(lines_of(input@)) && s@ == decimal_digits(
                        #[trigger] net.enclosed(),
                    ),
                Err(e) => network_fault(lines_of(input@)) == Some(e),
            },
    {
        match Self::parse_input(input) {
            Ok(net) => {
                let s = Self::part_two(&net);
                assert(s@ == decimal_digits(net.enclosed()));
                Ok(s)
            },
            Err(e) => Err(e),
        }
    }

    /// Reads a diagram and answers both parts. The flag asks whoever calls
    /// to time the work; the answers do not depend on it.
    pub fn solve(input: &str, include_time: bool) -> (r: Result<(String, String), PipeError>)
        ensures
            match r {
                Ok((one, two)) => network_fault(lines_of(input@)) is None && exists|
                    net: Network,
                    d: nat,
                |
                    net.wf() && net.grid.depicts(lines_of(input@)) && #[trigger] net.is_farthest(d)
                        && one@ == decimal_digits(d) && two@ == decimal_digits(net.enclosed()),
                Err(e) => network_fault(lines_of(input@)) == Some(e),
            },
    {
        match Self::parse_input(input) {
            Ok(net) => {
                let d = farthest_distance(&net);
                let one = decimal_string(d as u64);
                let two = Self::part_two(&net);
                assert(net.is_farthest(d as nat));
                Ok((one, two))
            },
            Err(e) => Err(e),
        }
    }
}

} // verus!
