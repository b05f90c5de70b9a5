//! The connectivity graph of a diagram: which cells are joined to which of
//! their four neighbours.

use vstd::prelude::*;
use crate::day10::grid::{lemma_cell_bound, lemma_cell_unique, Grid, PipeError};

verus! {

/// The neighbours that one cell is joined to: in each compass direction the
/// index of the neighbouring cell, or `None` where the two are not joined.
#[derive(Clone, Copy, Debug)]
pub struct Links {
    pub north: Option<usize>,
    pub south: Option<usize>,
    pub east: Option<usize>,
    pub west: Option<usize>,
}

impl Links {
    /// Whether one of the four links leads to the cell `j`.
    pub open spec fn joins(self, j: int) -> bool {
        ||| (self.north matches Some(n) && n == j)
        ||| (self.south matches Some(n) && n == j)
        ||| (self.east matches Some(n) && n == j)
        ||| (self.west matches Some(n) && n == j)
    }

    /// The number of neighbours joined.
    pub open spec fn count(self) -> nat {
        (if self.north is Some {
            1nat
        } else {
            0nat
        }) + (if self.south is Some {
            1nat
        } else {
            0nat
        }) + (if self.east is Some {
            1nat
        } else {
            0nat
        }) + (if self.west is Some {
            1nat
        } else {
            0nat
        })
    }

    /// Counts the neighbours joined.
    pub fn degree(&self) -> (n: usize)
        ensures
            n == self.count(),
    {
        let mut n: usize = 0;
        if self.north.is_some() {
            n += 1;
        }
        if self.south.is_some() {
            n += 1;
        }
        if self.east.is_some() {
            n += 1;
        }
        if self.west.is_some() {
            n += 1;
        }
        n
    }
}

/// Whether `adj` is an undirected graph on the cells `0 .. adj.len()`:
/// every link leads to a cell of the graph, and that cell has the opposite
/// link back.
pub open spec fn is_graph(adj: Seq<Links>) -> bool {
    forall|i: int|
        0 <= i < adj.len() ==> {
            let l = #[trigger] adj[i];
            &&& (l.north matches Some(j) ==> j < adj.len() && (adj[j as int].south matches Some(k)
                && k == i))
            &&& (l.south matches Some(j) ==> j < adj.len() && (adj[j as int].north matches Some(k)
                && k == i))
            &&& (l.east matches Some(j) ==> j < adj.len() && (adj[j as int].west matches Some(k)
                && k == i))
            &&& (l.west matches Some(j) ==> j < adj.len() && (adj[j as int].east matches Some(k)
                && k == i))
        }
}

/// Whether the cells `a` and `b` of the graph are joined.
pub open spec fn joined(adj: Seq<Links>, a: int, b: int) -> bool {
    0 <= a < adj.len() && 0 <= b < adj.len() && adj[a].joins(b)
}

/// In a graph, being joined is symmetric.
pub proof fn lemma_joined_symmetric(adj: Seq<Links>, a: int, b: int)
    requires
        is_graph(adj),
        joined(adj, a, b),
    ensures
        joined(adj, b, a),
{
    let l = adj[a];
}

/// The diagram with its connectivity graph.
pub struct Network {
    /// The cells of the diagram.
    pub grid: Grid,
    /// The links of each cell, in the order of `grid.nodes`.
    pub links: Vec<Links>,
}

impl Network {
    /// The links that the cell `i` of a grid has: toward each direction in
    /// which a neighbour exists, the cell is open, and the neighbour is open
    /// toward the cell.
    pub open spec fn links_of(grid: &Grid, i: int) -> Links {
        let n = grid.nodes[i];
        let w = grid.width as int;
        let o = n.pipe_type.openings();
        Links {
            north: if n.y > 0 && o.north && grid.kind(i - w).openings().south {
                Some((i - w) as usize)
            } else {
                None
            },
            south: if n.y + 1 < grid.height && o.south && grid.kind(i + w).openings().north {
                Some((i + w) as usize)
            } else {
                None
            },
            east: if n.x + 1 < grid.width && o.east && grid.kind(i + 1).openings().west {
                Some((i + 1) as usize)
            } else {
                None
            },
            west: if n.x > 0 && o.west && grid.kind(i - 1).openings().east {
                Some((i - 1) as usize)
            } else {
                None
            },
        }
    }

    /// The invariant of a network: the grid is well formed, every cell has
    /// exactly the links that the shapes of the cells imply, and the start
    /// cell is joined to exactly two neighbours.
    pub open spec fn wf(&self) -> bool {
        &&& self.grid.wf()
        &&& self.links.len() == self.grid.nodes.len()
        &&& forall|i: int|
            0 <= i < self.links.len() ==> #[trigger] self.links[i] == Self::links_of(&self.grid, i)
        &&& self.links[self.grid.start as int].count() == 2
    }

    /// The index of the start cell.
    pub open spec fn start(&self) -> int {
        self.grid.start as int
    }

    /// The indices of the cells to the north, south, east and west of cell
    /// `i` are those of the rows above and below and of the columns beside
    /// it.
    pub proof fn lemma_neighbour_cells(grid: &Grid, i: int)
        requires
            grid.wf(),
            0 <= i < grid.nodes.len(),
        ensures
            grid.nodes[i].y > 0 ==> 0 <= i - grid.width && grid.nodes[i - grid.width].y
                == grid.nodes[i].y - 1 && grid.nodes[i - grid.width].x == grid.nodes[i].x,
            grid.nodes[i].y + 1 < grid.height ==> i + grid.width < grid.nodes.len()
                && grid.nodes[i + grid.width].y == grid.nodes[i].y + 1 && grid.nodes[i
                + grid.width].x == grid.nodes[i].x,
            grid.nodes[i].x + 1 < grid.width ==> i + 1 < grid.nodes.len() && grid.nodes[i + 1].y
                == grid.nodes[i].y && grid.nodes[i + 1].x == grid.nodes[i].x + 1,
            grid.nodes[i].x > 0 ==> 0 <= i - 1 && grid.nodes[i - 1].y == grid.nodes[i].y
                && grid.nodes[i - 1].x == grid.nodes[i].x - 1,
    {
        let n = grid.nodes[i];
        let w = grid.width as int;
        let h = grid.height as int;
        let (x, y) = (n.x as int, n.y as int);
        if y > 0 {
            assert((y - 1) * w + x == i - w) by (nonlinear_arith)
                requires
                    i == y * w + x,
            ;
            lemma_cell_bound(w, h, y - 1, x);
            let m = grid.nodes[i - w];
            lemma_cell_unique(w, y - 1, x, m.y as int, m.x as int);
        }
        if y + 1 < h {
            assert((y + 1) * w + x == i + w) by (nonlinear_arith)
                requires
                    i == y * w + x,
            ;
            lemma_cell_bound(w, h, y + 1, x);
            let m = grid.nodes[i + w];
            lemma_cell_unique(w, y + 1, x, m.y as int, m.x as int);
        }
        if x + 1 < w {
            lemma_cell_bound(w, h, y, x + 1);
            let m = grid.nodes[i + 1];
            lemma_cell_unique(w, y, x + 1, m.y as int, m.x as int);
        }
        if x > 0 {
            lemma_cell_bound(w, h, y, x - 1);
            let m = grid.nodes[i - 1];
            lemma_cell_unique(w, y, x - 1, m.y as int, m.x as int);
        }
    }

    /// The links of a well-formed network form an undirected graph.
    pub proof fn lemma_is_graph(&self)
        requires
            self.wf(),
        ensures
            is_graph(self.links@),
    {
        let adj = self.links@;
        assert forall|i: int| 0 <= i < adj.len() implies {
            let l = #[trigger] adj[i];
            &&& (l.north matches Some(j) ==> j < adj.len() && (adj[j as int].south matches Some(k)
                && k == i))
            &&& (l.south matches Some(j) ==> j < adj.len() && (adj[j as int].north matches Some(k)
                && k == i))
            &&& (l.east matches Some(j) ==> j < adj.len() && (adj[j as int].west matches Some(k)
                && k == i))
            &&& (l.west matches Some(j) ==> j < adj.len() && (adj[j as int].east matches Some(k)
                && k == i))
        } by {
            Self::lemma_neighbour_cells(&self.grid, i);
            let l = adj[i];
            let w = self.grid.width as int;
            assert(l == Self::links_of(&self.grid, i));
            if l.north is Some {
                assert(adj[i - w] == Self::links_of(&self.grid, i - w));
            }
            if l.south is Some {
                assert(adj[i + w] == Self::links_of(&self.grid, i + w));
            }
            if l.east is Some {
                assert(adj[i + 1] == Self::links_of(&self.grid, i + 1));
            }
            if l.west is Some {
                assert(adj[i - 1] == Self::links_of(&self.grid, i - 1));
            }
        }
    }

    /// A cell on the rim of the diagram has no link that leaves the
    /// diagram: none north from the top row, south from the bottom row, west
    /// from the first column or east from the last.
    pub proof fn lemma_rim_has_no_outward_link(&self, i: int)
        requires
            self.wf(),
            0 <= i < self.links.len(),
        ensures
            self.grid.nodes[i].y == 0 ==> self.links[i].north is None,
            self.grid.nodes[i].y + 1 == self.grid.height ==> self.links[i].south is None,
            self.grid.nodes[i].x == 0 ==> self.links[i].west is None,
            self.grid.nodes[i].x + 1 == self.grid.width ==> self.links[i].east is None,
    {
        assert(self.links[i] == Self::links_of(&self.grid, i));
    }
}

fn links_at(grid: &Grid, i: usize) -> (l: Links)
    requires
        grid.wf(),
        i < grid.nodes.len(),
    ensures
        l == Network::links_of(grid, i as int),
{
    proof {
        Network::lemma_neighbour_cells(grid, i as int);
    }
    let n = grid.nodes[i];
    let w = grid.width;
    let kind = n.pipe_type;
    let north = if n.y > 0 && kind.is_connected_north(&grid.nodes[i - w].pipe_type) {
        Some(i - w)
    } else {
        None
    };
    let south = if n.y + 1 < grid.height && kind.is_connected_south(&grid.nodes[i + w].pipe_type) {
        Some(i + w)
    } else {
        None
    };
    let east = if n.x + 1 < w && kind.is_connected_east(&grid.nodes[i + 1].pipe_type) {
        Some(i + 1)
    } else {
        None
    };
    let west = if n.x > 0 && kind.is_connected_west(&grid.nodes[i - 1].pipe_type) {
        Some(i - 1)
    } else {
        None
    };
    Links { north, south, east, west }
}

/// Builds the connectivity graph of a grid.
///
/// Two neighbouring cells are joined where each is open toward the other;
/// the start cell counts as open toward all four directions. The grid is
/// refused unless its start cell is then joined to exactly two neighbours.
pub fn build(grid: Grid) -> (r: Result<Network, PipeError>)
    requires
        grid.wf(),
    ensures
        match r {
            Ok(net) => net.wf() && net.grid == grid,
            Err(e) => e == PipeError::StartConnectivity,
        },
        r is Ok <==> Network::links_of(&grid, grid.start as int).count() == 2,
{
    let mut links: Vec<Links> = Vec::new();
    let mut i: usize = 0;
    while i < grid.nodes.len()
        invariant
            grid.wf(),
            i <= grid.nodes.len(),
            links.len() == i,
            forall|j: int| 0 <= j < i ==> #[trigger] links[j] == Network::links_of(&grid, j),
        decreases grid.nodes.len() - i,
    {
        let l = links_at(&grid, i);
        links.push(l);
        i += 1;
    }
    if links[grid.start].degree() != 2 {
        return Err(PipeError::StartConnectivity);
    }
    Ok(Network { grid, links })
}

} // verus!
