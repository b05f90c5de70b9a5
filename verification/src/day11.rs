//! A map of galaxies in a universe that has grown: every row and every
//! column without a galaxy counts for more than one. The cells of the map
//! are the nodes of a graph, neighbouring cells joined by an edge that
//! weighs what the step costs; the answer is the sum, over all pairs of
//! galaxies, of the cost of the cheapest way from the one to the other.

use petgraph::{Graph, Undirected};
use vstd::prelude::*;
use crate::galaxy_graph::{
    add_node, can_reach, cheapest_ways, edges_within, graph_edges, graph_nodes, has_edge,
    is_cheapest, is_simple, is_way, lemma_one_cheapest, lemma_put_edge,
    lemma_simple_at_most_one, lemma_weight_sum, lists_cheapest, new_graph, node_weight,
    put_edge, update_edge, way_cost, weight_sum, Edge,
};
use crate::sums::{capped_sum, lemma_capped_sum_next, lemma_capped_sum_none};
use crate::text::{decimal_digits, decimal_string, lines, lines_of, views};

verus! {

/// The solver of the galaxy puzzle.
#[derive(Clone, Copy, Debug)]
pub struct Day11;

/// What both parts work on: the graph of the cells; the nodes of the
/// galaxies, in the order of the text; the node of every cell, by row and
/// column; the rows and the columns that hold no galaxy, in rising order;
/// and the greatest weight that an edge of the graph has been given.
#[derive(Debug)]
pub struct Day11Data {
    pub graph: Graph<char, u64, Undirected>,
    pub galaxies: Vec<usize>,
    pub node_indices: Vec<Vec<usize>>,
    pub rows_to_expand: Vec<usize>,
    pub cols_to_expand: Vec<usize>,
    pub heaviest: u64,
}

/// The most cells that a universe may have: the graph counts its edges in
/// 32 bits, and every cell has two edges of its own at most.
pub const MOST_CELLS: usize = 0x3fff_ffff;

/// Whether a row holds a galaxy.
pub open spec fn row_has_galaxy(row: Seq<char>) -> bool {
    row.contains('#')
}

/// Whether column `c` of the rows holds a galaxy.
pub open spec fn col_has_galaxy(rows: Seq<Seq<char>>, c: int) -> bool {
    exists|r: int| 0 <= r < rows.len() && 0 <= c < (#[trigger] rows[r]).len() && rows[r][c] == '#'
}

/// Those of the first `n` rows that hold no galaxy, in rising order.
pub open spec fn empty_rows(rows: Seq<Seq<char>>, n: nat) -> Seq<int>
    decreases n,
{
    if n == 0 {
        Seq::empty()
    } else {
        let before = empty_rows(rows, (n - 1) as nat);
        if !row_has_galaxy(rows[n - 1]) {
            before.push(n - 1)
        } else {
            before
        }
    }
}

/// Those of the first `n` columns that hold no galaxy, in rising order.
pub open spec fn empty_cols(rows: Seq<Seq<char>>, n: nat) -> Seq<int>
    decreases n,
{
    if n == 0 {
        Seq::empty()
    } else {
        let before = empty_cols(rows, (n - 1) as nat);
        if !col_has_galaxy(rows, n - 1) {
            before.push(n - 1)
        } else {
            before
        }
    }
}

/// The cells of the first `n` rows, row after row.
pub open spec fn flat(rows: Seq<Seq<char>>, n: nat) -> Seq<char>
    decreases n,
{
    if n == 0 {
        Seq::empty()
    } else {
        flat(rows, (n - 1) as nat) + rows[n - 1]
    }
}

/// The places of the galaxies among the first `n` cells.
pub open spec fn galaxy_places(cells: Seq<char>, n: nat) -> Seq<int>
    decreases n,
{
    if n == 0 {
        Seq::empty()
    } else {
        let before = galaxy_places(cells, (n - 1) as nat);
        if cells[n - 1] == '#' {
            before.push(n - 1)
        } else {
            before
        }
    }
}

/// Whether every row is as long as the first.
pub open spec fn is_rectangular(rows: Seq<Seq<char>>) -> bool {
    forall|r: int| 0 <= r < rows.len() ==> (#[trigger] rows[r]).len() == rows[0].len()
}

/// The places of a vector as numbers without bounds.
pub open spec fn places(v: Seq<usize>) -> Seq<int> {
    Seq::new(v.len(), |i: int| v[i] as int)
}

/// The table of the nodes of the cells as numbers without bounds.
pub open spec fn table(v: Seq<Vec<usize>>) -> Seq<Seq<int>> {
    Seq::new(v.len(), |r: int| places(v[r]@))
}

/// The edges after the cell in row `r` and column `c` has been joined to
/// the cell below it and to the cell to its right, where there are such,
/// each by an edge of weight one.
pub open spec fn cell_edges(edges: Seq<Edge>, t: Seq<Seq<int>>, r: int, c: int) -> Seq<Edge> {
    let down = if r + 1 < t.len() {
        put_edge(edges, t[r][c] as nat, t[r + 1][c] as nat, 1)
    } else {
        edges
    };
    if c + 1 < t[r].len() {
        put_edge(down, t[r][c] as nat, t[r][c + 1] as nat, 1)
    } else {
        down
    }
}

/// The edges after the first `c` cells of row `r` have been joined to
/// their neighbours.
pub open spec fn row_edges(edges: Seq<Edge>, t: Seq<Seq<int>>, r: int, c: nat) -> Seq<Edge>
    decreases c,
{
    if c == 0 {
        edges
    } else {
        cell_edges(row_edges(edges, t, r, (c - 1) as nat), t, r, c - 1)
    }
}

/// The edges of a universe after the cells of its first `r` rows have been
/// joined to their neighbours.
pub open spec fn grid_edges(t: Seq<Seq<int>>, r: nat) -> Seq<Edge>
    decreases r,
{
    if r == 0 {
        Seq::empty()
    } else {
        row_edges(grid_edges(t, (r - 1) as nat), t, r - 1, t[r - 1].len())
    }
}

impl Day11Data {
    /// The number of rows.
    pub open spec fn height(&self) -> int {
        self.node_indices.len() as int
    }

    /// The number of columns.
    pub open spec fn width(&self) -> int {
        if self.node_indices.len() > 0 {
            self.node_indices[0].len() as int
        } else {
            0
        }
    }

    /// The invariant of the data: the table is a rectangle of nodes of the
    /// graph, and so are the galaxies; the graph has at most one edge
    /// between two nodes, an edge between every two neighbouring cells, no
    /// edge heavier than `heaviest`, and not more edges than twice the number
    /// of its nodes, which are not more than [`MOST_CELLS`]; the rows and
    /// columns to expand are rows and columns of the table.
    pub open spec fn wf(&self) -> bool {
        let nodes = graph_nodes(self.graph);
        let edges = graph_edges(self.graph);
        &&& is_table(self.node_indices@, nodes.len())
        &&& forall|i: int| 0 <= i < self.galaxies.len() ==> #[trigger] self.galaxies[i] < nodes.len()
        &&& nodes.len() <= MOST_CELLS
        &&& edges.len() <= 2 * nodes.len()
        &&& is_grid(edges, table(self.node_indices@), nodes.len(), self.heaviest as nat)
        &&& self.heaviest >= 1
        &&& forall|i: int|
            0 <= i < self.rows_to_expand.len() ==> #[trigger] self.rows_to_expand[i]
                < self.node_indices.len()
        &&& forall|i: int|
            0 <= i < self.cols_to_expand.len() ==> #[trigger] self.cols_to_expand[i]
                < self.node_indices[0].len()
    }

    /// Whether the data are those of the rows `rows`: the nodes of the graph
    /// are the cells, row after row; the cells are joined to their
    /// neighbours by edges of weight one, added cell by cell; the galaxies,
    /// and the rows and columns without one, are those of the rows.
    pub open spec fn depicts(&self, rows: Seq<Seq<char>>) -> bool {
        let t = table(self.node_indices@);
        &&& graph_nodes(self.graph) == flat(rows, rows.len())
        &&& t.len() == rows.len()
        &&& forall|r: int, c: int|
            0 <= r < rows.len() && 0 <= c < rows[r].len() ==> (#[trigger] t[r]).len()
                == rows[r].len() && #[trigger] t[r][c] == flat(rows, r as nat).len() + c
        &&& graph_edges(self.graph) == grid_edges(t, rows.len())
        &&& places(self.galaxies@) == galaxy_places(
            flat(rows, rows.len()),
            flat(rows, rows.len()).len(),
        )
        &&& places(self.rows_to_expand@) == empty_rows(rows, rows.len())
        &&& places(self.cols_to_expand@) == empty_cols(rows, rows[0].len())
        &&& self.heaviest == 1
    }
}

/// Whether a text is the map of a universe: it has a line, its lines are of
/// one length, and its cells are not more than [`MOST_CELLS`].
pub open spec fn is_universe(rows: Seq<Seq<char>>) -> bool {
    rows.len() > 0 && is_rectangular(rows) && flat(rows, rows.len()).len() <= MOST_CELLS
}

fn row_holds(row: &Vec<char>) -> (b: bool)
    ensures
        b == row_has_galaxy(row@),
{
    let mut i: usize = 0;
    while i < row.len()
        invariant
            i <= row.len(),
            forall|j: int| 0 <= j < i ==> row[j] != '#',
        decreases row.len() - i,
    {
        if row[i] == '#' {
            assert(row@[i as int] == '#');
            return true;
        }
        i += 1;
    }
    false
}

fn col_holds(rows: &Vec<Vec<char>>, c: usize) -> (b: bool)
    ensures
        b == col_has_galaxy(views(rows@), c as int),
{
    let ghost ls = views(rows@);
    let mut r: usize = 0;
    while r < rows.len()
        invariant
            r <= rows.len(),
            ls == views(rows@),
            forall|q: int| 0 <= q < r && c < (#[trigger] ls[q]).len() ==> ls[q][c as int] != '#',
        decreases rows.len() - r,
    {
        assert(ls[r as int] == rows[r as int]@);
        if c < rows[r].len() && rows[r][c] == '#' {
            return true;
        }
        r += 1;
    }
    false
}

/// The cells of more rows are not fewer.
proof fn lemma_flat_grows(rows: Seq<Seq<char>>, k: nat, n: nat)
    requires
        k <= n,
    ensures
        flat(rows, k).len() <= flat(rows, n).len(),
    decreases n,
{
    if k < n {
        lemma_flat_grows(rows, k, (n - 1) as nat);
    }
}

/// The galaxies among the first cells are the same when further cells
/// follow.
proof fn lemma_galaxy_places_prefix(a: Seq<char>, b: Seq<char>, n: nat)
    requires
        n <= a.len(),
        n <= b.len(),
        forall|i: int| 0 <= i < n ==> a[i] == b[i],
    ensures
        galaxy_places(a, n) == galaxy_places(b, n),
    decreases n,
{
    if n > 0 {
        lemma_galaxy_places_prefix(a, b, (n - 1) as nat);
    }
}

/// Whether the table `t` numbers the cells of the first `r` rows of `rows`
/// row after row, from zero.
pub open spec fn numbers_cells(t: Seq<Seq<int>>, rows: Seq<Seq<char>>, r: int) -> bool {
    forall|q: int, c: int|
        0 <= q < r && 0 <= c < rows[q].len() ==> (#[trigger] t[q]).len() == rows[q].len()
            && #[trigger] t[q][c] == flat(rows, q as nat).len() + c
}

fn build_nodes(rows: &Vec<Vec<char>>) -> (r: (Graph<char, u64, Undirected>, Vec<Vec<usize>>, Vec<usize>))
    requires
        flat(views(rows@), rows.len() as nat).len() <= MOST_CELLS,
    ensures
        graph_nodes(r.0) == flat(views(rows@), rows.len() as nat),
        graph_edges(r.0).len() == 0,
        r.1.len() == rows.len(),
        forall|q: int| 0 <= q < rows.len() ==> (#[trigger] r.1[q]).len() == rows[q].len(),
        numbers_cells(table(r.1@), views(rows@), rows.len() as int),
        places(r.2@) == galaxy_places(graph_nodes(r.0), graph_nodes(r.0).len()),
        forall|i: int| 0 <= i < r.2.len() ==> #[trigger] r.2[i] < graph_nodes(r.0).len(),
{
    let ghost ls = views(rows@);
    let ghost all = flat(ls, rows.len() as nat);
    let mut graph = new_graph();
    let mut node_indices: Vec<Vec<usize>> = Vec::new();
    let mut galaxies: Vec<usize> = Vec::new();
    let mut y: usize = 0;
    assert(places(galaxies@) =~= Seq::<int>::empty());
    while y < rows.len()
        invariant
            y <= rows.len(),
            ls == views(rows@),
            all == flat(ls, rows.len() as nat),
            all.len() <= MOST_CELLS,
            graph_nodes(graph) == flat(ls, y as nat),
            graph_edges(graph).len() == 0,
            node_indices.len() == y,
            forall|q: int| 0 <= q < y ==> (#[trigger] node_indices[q]).len() == rows[q].len(),
            numbers_cells(table(node_indices@), ls, y as int),
            places(galaxies@) == galaxy_places(graph_nodes(graph), graph_nodes(graph).len()),
            forall|i: int| 0 <= i < galaxies.len() ==> #[trigger] galaxies[i] < graph_nodes(graph).len(),
        decreases rows.len() - y,
    {
        let row = &rows[y];
        assert(ls[y as int] == row@);
        proof {
            lemma_flat_grows(ls, (y + 1) as nat, rows.len() as nat);
        }
        let ghost before = flat(ls, y as nat);
        let mut indices: Vec<usize> = Vec::new();
        let mut x: usize = 0;
        while x < row.len()
            invariant
                x <= row.len(),
                y < rows.len(),
                row@ == ls[y as int],
                before == flat(ls, y as nat),
                before.len() + row.len() <= MOST_CELLS,
                graph_nodes(graph) == before + row@.take(x as int),
                graph_edges(graph).len() == 0,
                indices.len() == x,
                forall|c: int| 0 <= c < x ==> #[trigger] indices[c] == before.len() + c,
                places(galaxies@) == galaxy_places(graph_nodes(graph), graph_nodes(graph).len()),
                forall|i: int|
                    0 <= i < galaxies.len() ==> #[trigger] galaxies[i] < graph_nodes(graph).len(),
            decreases row.len() - x,
        {
            let ghost cells = graph_nodes(graph);
            let node = add_node(&mut graph, row[x]);
            proof {
                assert(graph_nodes(graph) =~= before + row@.take(x + 1));
                lemma_galaxy_places_prefix(cells, graph_nodes(graph), cells.len());
            }
            if row[x] == '#' {
                let ghost found = places(galaxies@);
                galaxies.push(node);
                assert(places(galaxies@) =~= found.push(node as int));
            }
            indices.push(node);
            x += 1;
        }
        assert(row@.take(row.len() as int) == row@);
        let ghost t0 = table(node_indices@);
        node_indices.push(indices);
        proof {
            let t = table(node_indices@);
            assert forall|q: int, c: int| 0 <= q < y + 1 && 0 <= c < ls[q].len() implies (
            #[trigger] t[q]).len() == ls[q].len() && #[trigger] t[q][c] == flat(ls, q as nat).len()
                + c by {
                if q < y {
                    assert(t[q] == t0[q]);
                    assert(t0[q][c] == flat(ls, q as nat).len() + c);
                } else {
                    assert(t[q] == places(indices@));
                    assert(indices[c] == before.len() + c);
                }
            }
        }
        y += 1;
    }
    (graph, node_indices, galaxies)
}

/// Whether the first `c` cells of row `r`, and all cells of the rows
/// before it, have edges to the cells below them and to their right.
pub open spec fn joined_upto(edges: Seq<Edge>, t: Seq<Seq<int>>, r: int, c: int) -> bool {
    &&& forall|q: int, d: int|
        0 <= q && q + 1 < t.len() && 0 <= d < t[q].len() && (q < r || (q == r && d < c))
            ==> has_edge(edges, #[trigger] t[q][d] as nat, t[q + 1][d] as nat)
    &&& forall|q: int, d: int|
        0 <= q < t.len() && 0 <= d && d + 1 < t[q].len() && (q < r || (q == r && d < c))
            ==> has_edge(edges, #[trigger] t[q][d] as nat, t[q][d + 1] as nat)
}

/// Whether the table numbers its cells row after row: every cell one more
/// than the cell before it.
pub open spec fn is_numbering(t: Seq<Seq<int>>, width: int) -> bool {
    &&& forall|q: int, c: int|
        0 <= q < t.len() && 0 <= c && c + 1 < width ==> t[q][c + 1] == #[trigger] t[q][c] + 1
    &&& forall|q: int|
        0 <= q && q + 1 < t.len() && width > 0 ==> t[q + 1][0] == (#[trigger] t[q])[width - 1] + 1
}

fn join_cells(graph: &mut Graph<char, u64, Undirected>, node_indices: &Vec<Vec<usize>>)
    requires
        graph_edges(*old(graph)).len() == 0,
        graph_nodes(*old(graph)).len() <= MOST_CELLS,
        node_indices.len() > 0,
        forall|q: int|
            0 <= q < node_indices.len() ==> (#[trigger] node_indices[q]).len()
                == node_indices[0].len(),
        forall|q: int, c: int|
            0 <= q < node_indices.len() && 0 <= c < node_indices[0].len() ==> (
            #[trigger] node_indices[q][c]) < graph_nodes(*old(graph)).len(),
        is_numbering(table(node_indices@), node_indices[0].len() as int),
    ensures
        graph_nodes(*final(graph)) == graph_nodes(*old(graph)),
        graph_edges(*final(graph)) == grid_edges(table(node_indices@), node_indices.len() as nat),
        is_simple(graph_edges(*final(graph))),
        edges_within(graph_edges(*final(graph)), graph_nodes(*old(graph)).len(), 1),
        graph_edges(*final(graph)).len() <= 2 * graph_nodes(*old(graph)).len(),
        joined_upto(
            graph_edges(*final(graph)),
            table(node_indices@),
            node_indices.len() as int,
            0,
        ),
{
    let ghost t = table(node_indices@);
    let ghost n = graph_nodes(*graph).len();
    let height = node_indices.len();
    let width = node_indices[0].len();
    let ghost mut done: int = if width > 0 {
        t[0][0]
    } else {
        0
    };
    let mut r: usize = 0;
    assert(graph_edges(*graph) =~= grid_edges(t, 0));
    assert forall|q: int| 0 <= q < height implies (#[trigger] t[q]).len() == width && t[q]
        == places(node_indices[q]@) by {}
    while r < height
        invariant
            r <= height,
            height == node_indices.len(),
            height > 0,
            width == node_indices[0].len(),
            t == table(node_indices@),
            forall|q: int|
                0 <= q < height ==> (#[trigger] t[q]).len() == width && t[q] == places(
                    node_indices[q]@,
                ),
            is_numbering(t, width as int),
            n == graph_nodes(*graph).len(),
            n <= MOST_CELLS,
            graph_nodes(*graph) == graph_nodes(*old(graph)),
            forall|q: int| 0 <= q < height ==> (#[trigger] node_indices[q]).len() == width,
            forall|q: int, c: int|
                0 <= q < height && 0 <= c < width ==> (#[trigger] node_indices[q][c]) < n,
            graph_edges(*graph) == grid_edges(t, r as nat),
            is_simple(graph_edges(*graph)),
            edges_within(graph_edges(*graph), n, 1),
            graph_edges(*graph).len() <= 2 * done,
            0 <= done <= n,
            width > 0 && r < height ==> done == t[r as int][0],
            joined_upto(graph_edges(*graph), t, r as int, 0),
        decreases height - r,
    {
        let ghost start = graph_edges(*graph);
        let mut c: usize = 0;
        while c < width
            invariant
                c <= width,
                r < height,
                height == node_indices.len(),
                width == node_indices[0].len(),
                t == table(node_indices@),
                forall|q: int|
                    0 <= q < height ==> (#[trigger] t[q]).len() == width && t[q] == places(
                        node_indices[q]@,
                    ),
                is_numbering(t, width as int),
                n == graph_nodes(*graph).len(),
                n <= MOST_CELLS,
                graph_nodes(*graph) == graph_nodes(*old(graph)),
                forall|q: int| 0 <= q < height ==> (#[trigger] node_indices[q]).len() == width,
                forall|q: int, d: int|
                    0 <= q < height && 0 <= d < width ==> (#[trigger] node_indices[q][d]) < n,
                graph_edges(*graph) == row_edges(start, t, r as int, c as nat),
                is_simple(graph_edges(*graph)),
                edges_within(graph_edges(*graph), n, 1),
                graph_edges(*graph).len() <= 2 * done,
                0 <= done <= n,
                c < width ==> done == t[r as int][c as int],
                c == width && width > 0 ==> done == t[r as int][width - 1] + 1,
                joined_upto(graph_edges(*graph), t, r as int, c as int),
            decreases width - c,
        {
            let here = node_indices[r][c];
            assert(t[r as int][c as int] == here);
            let ghost e0 = graph_edges(*graph);
            if r + 1 < height {
                let below = node_indices[r + 1][c];
                assert(t[r + 1][c as int] == below);
                proof {
                    lemma_simple_at_most_one(e0, here as nat, below as nat);
                    lemma_put_edge(e0, here as nat, below as nat, 1);
                }
                update_edge(graph, here, below, 1);
            }
            let ghost e1 = graph_edges(*graph);
            if c + 1 < width {
                let right = node_indices[r][c + 1];
                assert(t[r as int][c + 1] == right);
                proof {
                    lemma_simple_at_most_one(e1, here as nat, right as nat);
                    lemma_put_edge(e1, here as nat, right as nat, 1);
                }
                update_edge(graph, here, right, 1);
            }
            assert(graph_edges(*graph) == cell_edges(e0, t, r as int, c as int));
            proof {
                done = done + 1;
                let e2 = graph_edges(*graph);
                assert(joined_upto(e2, t, r as int, c + 1)) by {
                    assert forall|q: int, d: int|
                        0 <= q && q + 1 < t.len() && 0 <= d < t[q].len() && (q < r || (q == r && d
                            < c + 1)) implies has_edge(
                        e2,
                        #[trigger] t[q][d] as nat,
                        t[q + 1][d] as nat,
                    ) by {
                        if q < r || d < c {
                            assert(has_edge(e0, t[q][d] as nat, t[q + 1][d] as nat));
                            assert(has_edge(e1, t[q][d] as nat, t[q + 1][d] as nat));
                        } else {
                            assert(has_edge(e1, t[q][d] as nat, t[q + 1][d] as nat));
                        }
                    }
                    assert forall|q: int, d: int|
                        0 <= q < t.len() && 0 <= d && d + 1 < t[q].len() && (q < r || (q == r && d
                            < c + 1)) implies has_edge(
                        e2,
                        #[trigger] t[q][d] as nat,
                        t[q][d + 1] as nat,
                    ) by {
                        if q < r || d < c {
                            assert(has_edge(e0, t[q][d] as nat, t[q][d + 1] as nat));
                            assert(has_edge(e1, t[q][d] as nat, t[q][d + 1] as nat));
                        }
                    }
                }
            }
            c += 1;
        }
        proof {
            assert(joined_upto(graph_edges(*graph), t, r + 1, 0)) by {
                let e = graph_edges(*graph);
                assert forall|q: int, d: int|
                    0 <= q && q + 1 < t.len() && 0 <= d < t[q].len() && (q < r + 1 || (q == r + 1
                        && d < 0)) implies has_edge(
                    e,
                    #[trigger] t[q][d] as nat,
                    t[q + 1][d] as nat,
                ) by {}
                assert forall|q: int, d: int|
                    0 <= q < t.len() && 0 <= d && d + 1 < t[q].len() && (q < r + 1 || (q == r + 1
                        && d < 0)) implies has_edge(
                    e,
                    #[trigger] t[q][d] as nat,
                    t[q][d + 1] as nat,
                ) by {}
            }
        }
        r += 1;
    }
}

/// The edges after the edges from the first `c` cells of row `r` to the
/// cells below them have been given the weight `amount`.
pub open spec fn widen_row(edges: Seq<Edge>, t: Seq<Seq<int>>, r: int, amount: nat, c: nat) -> Seq<
    Edge,
>
    decreases c,
{
    if c == 0 {
        edges
    } else {
        put_edge(
            widen_row(edges, t, r, amount, (c - 1) as nat),
            t[r][c - 1] as nat,
            t[r + 1][c - 1] as nat,
            amount,
        )
    }
}

/// The edges after the edges below the first `k` of the rows `rows` have
/// been given the weight `amount`; a last row has no edges below it.
pub open spec fn widen_rows(
    edges: Seq<Edge>,
    t: Seq<Seq<int>>,
    rows: Seq<int>,
    amount: nat,
    k: nat,
) -> Seq<Edge>
    decreases k,
{
    if k == 0 {
        edges
    } else {
        let before = widen_rows(edges, t, rows, amount, (k - 1) as nat);
        let r = rows[k - 1];
        if r + 1 < t.len() {
            widen_row(before, t, r, amount, t[r].len())
        } else {
            before
        }
    }
}

/// The edges after the edges from the cells of column `c` in the first `r`
/// rows to the cells to their right have been given the weight `amount`.
pub open spec fn widen_col(edges: Seq<Edge>, t: Seq<Seq<int>>, c: int, amount: nat, r: nat) -> Seq<
    Edge,
>
    decreases r,
{
    if r == 0 {
        edges
    } else {
        put_edge(
            widen_col(edges, t, c, amount, (r - 1) as nat),
            t[r - 1][c] as nat,
            t[r - 1][c + 1] as nat,
            amount,
        )
    }
}

/// The edges after the edges to the right of the first `k` of the columns
/// `cols` have been given the weight `amount`; a last column has no edges to
/// its right.
pub open spec fn widen_cols(
    edges: Seq<Edge>,
    t: Seq<Seq<int>>,
    cols: Seq<int>,
    amount: nat,
    k: nat,
) -> Seq<Edge>
    decreases k,
{
    if k == 0 {
        edges
    } else {
        let before = widen_cols(edges, t, cols, amount, (k - 1) as nat);
        let c = cols[k - 1];
        if c + 1 < t[0].len() {
            widen_col(before, t, c, amount, t.len())
        } else {
            before
        }
    }
}

/// The greater of two weights.
pub open spec fn larger(a: u64, b: u64) -> u64 {
    if a >= b {
        a
    } else {
        b
    }
}

/// The greatest weight with which the sum of the weights of all edges is
/// sure to fit 64 bits.
pub const HEAVIEST: u64 = 0x1_ffff_ffff;

/// The value that a list of nodes and costs gives for the node `a`: that
/// of the first of its first `n` entries for `a`.
pub open spec fn listed(list: Seq<(usize, u64)>, a: int, n: nat) -> Option<u64>
    decreases n,
{
    if n == 0 {
        None
    } else {
        match listed(list, a, (n - 1) as nat) {
            Some(v) => Some(v),
            None => if list[n - 1].0 == a {
                Some(list[n - 1].1)
            } else {
                None
            },
        }
    }
}

/// What the node `a` adds to the sum of a galaxy: the cost that the list
/// gives for it where it is a galaxy and the list has an entry for it, and
/// nothing otherwise.
pub open spec fn pair_cost(list: Seq<(usize, u64)>, flags: Seq<bool>, a: int) -> Option<int> {
    Some(
        if flags[a] {
            match listed(list, a, list.len()) {
                Some(v) => v as int,
                None => 0,
            }
        } else {
            0
        },
    )
}

/// The sum of a galaxy at node `b`: of the costs that the list gives for
/// the galaxies at the nodes up to `b`, added from the first node on;
/// `None` where the running sum is beyond 64 bits.
pub open spec fn galaxy_cost(list: Seq<(usize, u64)>, flags: Seq<bool>, b: int) -> Option<int> {
    capped_sum(Seq::new((b + 1) as nat, |a: int| pair_cost(list, flags, a)), u64::MAX as int)
}

/// Adds up, for the galaxy at node `b`, the costs that `list` gives for the
/// galaxies at the nodes up to `b`; `flags` tells for every node whether it
/// is a galaxy.
pub fn add_costs(list: &Vec<(usize, u64)>, flags: &Vec<bool>, b: usize) -> (r: Option<u64>)
    requires
        b < flags.len(),
    ensures
        r matches Some(v) ==> galaxy_cost(list@, flags@, b as int) == Some(v as int),
        r is None ==> galaxy_cost(list@, flags@, b as int) is None,
{
    let mut dense: Vec<Option<u64>> = Vec::new();
    let mut a: usize = 0;
    while a <= b
        invariant
            a <= b + 1,
            b < flags.len(),
            dense.len() == a,
            forall|k: int| 0 <= k < a ==> (#[trigger] dense[k]) is None,
        decreases b + 1 - a,
    {
        dense.push(None);
        a += 1;
    }
    let mut i: usize = 0;
    while i < list.len()
        invariant
            i <= list.len(),
            dense.len() == b + 1,
            forall|k: int| 0 <= k <= b ==> #[trigger] dense[k] == listed(list@, k, i as nat),
        decreases list.len() - i,
    {
        let (k, v) = list[i];
        if k <= b && dense[k].is_none() {
            dense.set(k, Some(v));
        }
        i += 1;
    }
    let ghost terms = Seq::new((b + 1) as nat, |a: int| pair_cost(list@, flags@, a));
    let mut total: u64 = 0;
    let mut a: usize = 0;
    while a <= b
        invariant
            a <= b + 1,
            b < flags.len(),
            dense.len() == b + 1,
            forall|k: int|
                0 <= k <= b ==> #[trigger] dense[k] == listed(list@, k, list.len() as nat),
            terms == Seq::new((b + 1) as nat, |a: int| pair_cost(list@, flags@, a)),
            capped_sum(terms.take(a as int), u64::MAX as int) == Some(total as int),
        decreases b + 1 - a,
    {
        proof {
            lemma_capped_sum_next(terms, u64::MAX as int, a as int);
        }
        let cost = if flags[a] {
            match dense[a] {
                Some(v) => v,
                None => 0,
            }
        } else {
            0
        };
        match total.checked_add(cost) {
            Some(t) => {
                total = t;
            },
            None => {
                proof {
                    lemma_capped_sum_none(terms, u64::MAX as int, a + 1);
                }
                return None;
            },
        }
        a += 1;
    }
    assert(terms.take(b + 1) == terms);
    Some(total)
}

/// The cost of the cheapest way from `from` to `to`; nothing where no way
/// leads from the one to the other.
pub open spec fn cheapest(edges: Seq<Edge>, from: nat, to: nat) -> nat {
    if can_reach(edges, from, to) {
        choose|cost: nat| is_cheapest(edges, from, to, cost)
    } else {
        0
    }
}

/// What the node `a` adds to the sum of the galaxy at node `b`: the cost of
/// the cheapest way from `b` to `a` where `a` is a galaxy, and nothing
/// otherwise.
pub open spec fn way_term(edges: Seq<Edge>, cells: Seq<char>, b: int, a: int) -> Option<int> {
    Some(
        if cells[a] == '#' {
            cheapest(edges, b as nat, a as nat) as int
        } else {
            0
        },
    )
}

/// The sum of the galaxy at node `b` over the galaxies at the nodes up to
/// `b`, added from the first node on.
pub open spec fn cost_from(edges: Seq<Edge>, cells: Seq<char>, b: int) -> Option<int> {
    capped_sum(Seq::new((b + 1) as nat, |a: int| way_term(edges, cells, b, a)), u64::MAX as int)
}

/// The sum over all galaxies, in their order, of the sums of each: the
/// cost of the cheapest way between the galaxies of every pair, once for
/// each pair, and from every galaxy to itself.
pub open spec fn total_cost(cells: Seq<char>, edges: Seq<Edge>, galaxies: Seq<int>) -> Option<int> {
    capped_sum(
        Seq::new(galaxies.len(), |i: int| cost_from(edges, cells, galaxies[i])),
        u64::MAX as int,
    )
}

/// A list of the cheapest ways from a node gives for every node the cost
/// of the cheapest way to it, and nothing for a node to which no way leads.
proof fn lemma_listed(edges: Seq<Edge>, n: nat, start: nat, list: Seq<(usize, u64)>, a: int, k: nat)
    requires
        lists_cheapest(edges, n, start, list),
        k <= list.len(),
        0 <= a,
    ensures
        listed(list, a, k) matches Some(v) ==> is_cheapest(edges, start, a as nat, v as nat),
        listed(list, a, k) is None ==> forall|i: int| 0 <= i < k ==> (#[trigger] list[i]).0 != a,
    decreases k,
{
    if k > 0 {
        lemma_listed(edges, n, start, list, a, (k - 1) as nat);
    }
}

/// The sum that a list of the cheapest ways from a galaxy gives is the sum
/// of the costs of the cheapest ways.
proof fn lemma_galaxy_cost(
    edges: Seq<Edge>,
    list: Seq<(usize, u64)>,
    flags: Seq<bool>,
    cells: Seq<char>,
    b: int,
)
    requires
        lists_cheapest(edges, cells.len(), b as nat, list),
        0 <= b < flags.len(),
        flags.len() <= cells.len(),
        forall|a: int| 0 <= a <= b ==> #[trigger] flags[a] == (cells[a] == '#'),
    ensures
        galaxy_cost(list, flags, b) == cost_from(edges, cells, b),
{
    let x = Seq::new((b + 1) as nat, |a: int| pair_cost(list, flags, a));
    let y = Seq::new((b + 1) as nat, |a: int| way_term(edges, cells, b, a));
    assert forall|a: int| 0 <= a <= b implies x[a] == y[a] by {
        lemma_listed(edges, cells.len(), b as nat, list, a, list.len());
        match listed(list, a, list.len()) {
            Some(v) => {
                let steps = choose|steps: Seq<int>| #[trigger]
                    is_way(edges, b as nat, a as nat, steps) && way_cost(
                        edges,
                        steps,
                        steps.len(),
                    ) == v;
                assert(is_way(edges, b as nat, a as nat, steps));
                assert(can_reach(edges, b as nat, a as nat));
                lemma_one_cheapest(
                    edges,
                    b as nat,
                    a as nat,
                    v as nat,
                    cheapest(edges, b as nat, a as nat),
                );
            },
            None => {
                if can_reach(edges, b as nat, a as nat) {
                    let i = choose|i: int| 0 <= i < list.len() && (#[trigger] list[i]).0 == a as nat;
                }
            },
        }
    }
    assert(x =~= y);
}

impl Day11Data {
    /// The edges `edges` after the edges below every row without a galaxy,
    /// and then the edges to the right of every column without one, have
    /// been given the weight `amount`.
    pub open spec fn widened_from(&self, edges: Seq<Edge>, amount: nat) -> Seq<Edge> {
        let t = table(self.node_indices@);
        widen_cols(
            widen_rows(
                edges,
                t,
                places(self.rows_to_expand@),
                amount,
                self.rows_to_expand.len() as nat,
            ),
            t,
            places(self.cols_to_expand@),
            amount,
            self.cols_to_expand.len() as nat,
        )
    }

    /// The edges of the graph after `solve_for_expansion` with `amount`.
    pub open spec fn widened(&self, amount: nat) -> Seq<Edge> {
        self.widened_from(graph_edges(self.graph), amount)
    }

    /// Whether the data are those of the same map as `other`: the same
    /// nodes, galaxies and table, and the same rows and columns to expand.
    pub open spec fn same_map(&self, other: Day11Data) -> bool {
        &&& graph_nodes(self.graph) == graph_nodes(other.graph)
        &&& self.galaxies == other.galaxies
        &&& self.node_indices == other.node_indices
        &&& self.rows_to_expand == other.rows_to_expand
        &&& self.cols_to_expand == other.cols_to_expand
    }

    /// Whether `after` and `r` are what `solve_for_expansion` with `amount`
    /// leaves of these data and returns. The map stays the same. Where
    /// `amount` or the greatest weight so far is too heavy, the graph stays
    /// the same as well, and there is no answer. Otherwise the edges are
    /// widened, the greatest weight is the greater of its old value and
    /// `amount`, and `r` is the answer for the widened edges.
    pub open spec fn expands_to(&self, after: Day11Data, amount: u64, r: Option<String>) -> bool {
        &&& after.same_map(*self)
        &&& if self.is_too_heavy(amount) {
            r is None && graph_edges(after.graph) == graph_edges(self.graph) && after.heaviest
                == self.heaviest
        } else {
            &&& graph_edges(after.graph) == self.widened(amount as nat)
            &&& after.heaviest == larger(self.heaviest, amount)
            &&& r matches Some(s) ==> self.answer(graph_edges(after.graph)) == Some(s@)
            &&& r is None ==> self.answer(graph_edges(after.graph)) is None
        }
    }

    /// Whether `amount`, or the greatest weight of an edge so far, is more
    /// than [`HEAVIEST`].
    pub open spec fn is_too_heavy(&self, amount: u64) -> bool {
        amount > HEAVIEST || self.heaviest > HEAVIEST
    }

    /// The answer in a graph with the edges `edges`: the total cost in
    /// decimal digits.
    pub open spec fn answer(&self, edges: Seq<Edge>) -> Option<Seq<char>> {
        match total_cost(graph_nodes(self.graph), edges, places(self.galaxies@)) {
            Some(t) => Some(decimal_digits(t as nat)),
            None => None,
        }
    }

}

/// Whether the edges are those of a grid: at most one between two nodes,
/// none to a node beyond `n` or heavier than `w`, and one between every two
/// neighbouring cells of the table `t`.
pub open spec fn is_grid(edges: Seq<Edge>, t: Seq<Seq<int>>, n: nat, w: nat) -> bool {
    &&& is_simple(edges)
    &&& edges_within(edges, n, w)
    &&& forall|r: int, c: int|
        0 <= r && r + 1 < t.len() && 0 <= c < t[0].len() ==> has_edge(
            edges,
            #[trigger] t[r][c] as nat,
            t[r + 1][c] as nat,
        )
    &&& forall|r: int, c: int|
        0 <= r < t.len() && 0 <= c && c + 1 < t[0].len() ==> has_edge(
            edges,
            #[trigger] t[r][c] as nat,
            t[r][c + 1] as nat,
        )
}

/// Whether the table is a rectangle of nodes below `n`.
pub open spec fn is_table(v: Seq<Vec<usize>>, n: nat) -> bool {
    &&& v.len() > 0
    &&& forall|r: int| 0 <= r < v.len() ==> (#[trigger] v[r]).len() == v[0].len()
    &&& forall|r: int, c: int| 0 <= r < v.len() && 0 <= c < v[0].len() ==> (#[trigger] v[r][c]) < n
}

/// Giving the weight `amount` to the edge between two neighbouring cells
/// keeps the edges those of a grid and adds none.
proof fn lemma_put_keeps(edges: Seq<Edge>, t: Seq<Seq<int>>, n: nat, w: nat, a: nat, b: nat, amount: nat)
    requires
        is_grid(edges, t, n, w),
        has_edge(edges, a, b),
        a < n,
        b < n,
        amount <= w,
    ensures
        is_grid(put_edge(edges, a, b, amount), t, n, w),
        put_edge(edges, a, b, amount).len() == edges.len(),
{
    lemma_put_edge(edges, a, b, amount);
}

fn widen_graph(
    graph: &mut Graph<char, u64, Undirected>,
    node_indices: &Vec<Vec<usize>>,
    rows: &Vec<usize>,
    cols: &Vec<usize>,
    amount: u64,
    Ghost(w): Ghost<nat>,
)
    requires
        is_table(node_indices@, graph_nodes(*old(graph)).len()),
        is_grid(
            graph_edges(*old(graph)),
            table(node_indices@),
            graph_nodes(*old(graph)).len(),
            w,
        ),
        graph_edges(*old(graph)).len() < 0xffff_ffff,
        amount <= w,
        forall|i: int| 0 <= i < rows.len() ==> #[trigger] rows[i] < node_indices.len(),
        forall|i: int| 0 <= i < cols.len() ==> #[trigger] cols[i] < node_indices[0].len(),
    ensures
        graph_nodes(*final(graph)) == graph_nodes(*old(graph)),
        graph_edges(*final(graph)) == widen_cols(
            widen_rows(
                graph_edges(*old(graph)),
                table(node_indices@),
                places(rows@),
                amount as nat,
                rows.len() as nat,
            ),
            table(node_indices@),
            places(cols@),
            amount as nat,
            cols.len() as nat,
        ),
        graph_edges(*final(graph)).len() == graph_edges(*old(graph)).len(),
        is_grid(
            graph_edges(*final(graph)),
            table(node_indices@),
            graph_nodes(*old(graph)).len(),
            w,
        ),
{
    let ghost t = table(node_indices@);
    let ghost n = graph_nodes(*graph).len();
    let ghost e0 = graph_edges(*graph);
    let height = node_indices.len();
    let width = node_indices[0].len();
    assert forall|q: int| 0 <= q < height implies (#[trigger] t[q]).len() == width && t[q]
        == places(node_indices[q]@) by {}
    let mut i: usize = 0;
    while i < rows.len()
        invariant
            i <= rows.len(),
            height == node_indices.len(),
            width == node_indices[0].len(),
            t == table(node_indices@),
            forall|q: int|
                0 <= q < height ==> (#[trigger] t[q]).len() == width && t[q] == places(
                    node_indices[q]@,
                ),
            is_table(node_indices@, n),
            n == graph_nodes(*graph).len(),
            graph_nodes(*graph) == graph_nodes(*old(graph)),
            e0 == graph_edges(*old(graph)),
            e0.len() < 0xffff_ffff,
            amount <= w,
            forall|j: int| 0 <= j < rows.len() ==> #[trigger] rows[j] < height,
            graph_edges(*graph) == widen_rows(e0, t, places(rows@), amount as nat, i as nat),
            graph_edges(*graph).len() == e0.len(),
            is_grid(graph_edges(*graph), t, n, w),
        decreases rows.len() - i,
    {
        let r = rows[i];
        assert(places(rows@)[i as int] == r);
        if r + 1 < height {
            let ghost start = graph_edges(*graph);
            let mut c: usize = 0;
            while c < width
                invariant
                    c <= width,
                    r + 1 < height,
                    height == node_indices.len(),
                    width == node_indices[0].len(),
                    t == table(node_indices@),
                    forall|q: int|
                        0 <= q < height ==> (#[trigger] t[q]).len() == width && t[q] == places(
                            node_indices[q]@,
                        ),
                    is_table(node_indices@, n),
                    n == graph_nodes(*graph).len(),
                    graph_nodes(*graph) == graph_nodes(*old(graph)),
                    start.len() == e0.len(),
                    e0.len() < 0xffff_ffff,
                    amount <= w,
                    graph_edges(*graph) == widen_row(start, t, r as int, amount as nat, c as nat),
                    graph_edges(*graph).len() == e0.len(),
                    is_grid(graph_edges(*graph), t, n, w),
                decreases width - c,
            {
                let here = node_indices[r][c];
                let below = node_indices[r + 1][c];
                assert(t[r as int][c as int] == here && t[r + 1][c as int] == below);
                proof {
                    let e = graph_edges(*graph);
                    lemma_simple_at_most_one(e, here as nat, below as nat);
                    lemma_put_keeps(e, t, n, w, here as nat, below as nat, amount as nat);
                }
                update_edge(graph, here, below, amount);
                c += 1;
            }
        }
        i += 1;
    }
    let ghost e1 = graph_edges(*graph);
    let mut i: usize = 0;
    while i < cols.len()
        invariant
            i <= cols.len(),
            height == node_indices.len(),
            width == node_indices[0].len(),
            t == table(node_indices@),
            forall|q: int|
                0 <= q < height ==> (#[trigger] t[q]).len() == width && t[q] == places(
                    node_indices[q]@,
                ),
            is_table(node_indices@, n),
            n == graph_nodes(*graph).len(),
            graph_nodes(*graph) == graph_nodes(*old(graph)),
            e1.len() < 0xffff_ffff,
            e1.len() == graph_edges(*old(graph)).len(),
            amount <= w,
            forall|j: int| 0 <= j < cols.len() ==> #[trigger] cols[j] < width,
            graph_edges(*graph) == widen_cols(e1, t, places(cols@), amount as nat, i as nat),
            graph_edges(*graph).len() == e1.len(),
            is_grid(graph_edges(*graph), t, n, w),
        decreases cols.len() - i,
    {
        let c = cols[i];
        assert(places(cols@)[i as int] == c);
        if c + 1 < width {
            let ghost start = graph_edges(*graph);
            let mut r: usize = 0;
            while r < height
                invariant
                    r <= height,
                    c + 1 < width,
                    height == node_indices.len(),
                    width == node_indices[0].len(),
                    t == table(node_indices@),
                    forall|q: int|
                        0 <= q < height ==> (#[trigger] t[q]).len() == width && t[q] == places(
                            node_indices[q]@,
                        ),
                    is_table(node_indices@, n),
                    n == graph_nodes(*graph).len(),
                    graph_nodes(*graph) == graph_nodes(*old(graph)),
                    start.len() == e1.len(),
                    e1.len() < 0xffff_ffff,
                    amount <= w,
                    graph_edges(*graph) == widen_col(start, t, c as int, amount as nat, r as nat),
                    graph_edges(*graph).len() == e1.len(),
                    is_grid(graph_edges(*graph), t, n, w),
                decreases height - r,
            {
                let here = node_indices[r][c];
                let right = node_indices[r][c + 1];
                assert(t[r as int][c as int] == here && t[r as int][c + 1] == right);
                proof {
                    let e = graph_edges(*graph);
                    lemma_simple_at_most_one(e, here as nat, right as nat);
                    lemma_put_keeps(e, t, n, w, here as nat, right as nat, amount as nat);
                }
                update_edge(graph, here, right, amount);
                r += 1;
            }
        }
        i += 1;
    }
}

fn galaxy_flags(graph: &Graph<char, u64, Undirected>, galaxies: &Vec<usize>) -> (flags: Vec<bool>)
    requires
        graph_nodes(*graph).len() <= MOST_CELLS,
        forall|i: int| 0 <= i < galaxies.len() ==> #[trigger] galaxies[i] < graph_nodes(*graph).len(),
    ensures
        flags.len() <= graph_nodes(*graph).len(),
        forall|i: int| 0 <= i < galaxies.len() ==> #[trigger] galaxies[i] < flags.len(),
        forall|a: int| 0 <= a < flags.len() ==> #[trigger] flags[a] == (graph_nodes(*graph)[a] == '#'),
{
    let mut most: usize = 0;
    let mut i: usize = 0;
    while i < galaxies.len()
        invariant
            i <= galaxies.len(),
            graph_nodes(*graph).len() <= MOST_CELLS,
            forall|j: int|
                0 <= j < galaxies.len() ==> #[trigger] galaxies[j] < graph_nodes(*graph).len(),
            most <= graph_nodes(*graph).len(),
            forall|j: int| 0 <= j < i ==> #[trigger] galaxies[j] < most,
        decreases galaxies.len() - i,
    {
        if galaxies[i] >= most {
            most = galaxies[i] + 1;
        }
        i += 1;
    }
    let mut flags: Vec<bool> = Vec::new();
    let mut a: usize = 0;
    while a < most
        invariant
            a <= most,
            most <= graph_nodes(*graph).len(),
            flags.len() == a,
            forall|k: int| 0 <= k < a ==> #[trigger] flags[k] == (graph_nodes(*graph)[k] == '#'),
        decreases most - a,
    {
        flags.push(node_weight(graph, a) == '#');
        a += 1;
    }
    flags
}

fn sum_costs(data: &Day11Data) -> (r: Option<u64>)
    requires
        data.wf(),
        data.heaviest <= HEAVIEST,
    ensures
        r matches Some(v) ==> total_cost(
            graph_nodes(data.graph),
            graph_edges(data.graph),
            places(data.galaxies@),
        ) == Some(v as int),
        r is None ==> total_cost(
            graph_nodes(data.graph),
            graph_edges(data.graph),
            places(data.galaxies@),
        ) is None,
{
    let ghost cells = graph_nodes(data.graph);
    let ghost edges = graph_edges(data.graph);
    let ghost gs = places(data.galaxies@);
    let ghost terms = Seq::new(gs.len(), |i: int| cost_from(edges, cells, gs[i]));
    proof {
        lemma_weight_sum(edges, cells.len(), edges.len(), data.heaviest as nat);
        let (count, weight) = (edges.len() as int, data.heaviest as int);
        assert(count * weight <= 0x7fff_fffe * 0x1_ffff_ffff) by (nonlinear_arith)
            requires
                0 <= count <= 0x7fff_fffe,
                0 <= weight <= 0x1_ffff_ffff,
        ;
    }
    let flags = galaxy_flags(&data.graph, &data.galaxies);
    let mut total: u64 = 0;
    let mut i: usize = 0;
    while i < data.galaxies.len()
        invariant
            i <= data.galaxies.len(),
            cells == graph_nodes(data.graph),
            edges == graph_edges(data.graph),
            gs == places(data.galaxies@),
            terms == Seq::new(gs.len(), |i: int| cost_from(edges, cells, gs[i])),
            weight_sum(edges, edges.len()) <= u64::MAX,
            forall|j: int| 0 <= j < data.galaxies.len() ==> #[trigger] data.galaxies[j] < flags.len(),
            flags.len() <= cells.len(),
            forall|a: int| 0 <= a < flags.len() ==> #[trigger] flags[a] == (cells[a] == '#'),
            capped_sum(terms.take(i as int), u64::MAX as int) == Some(total as int),
        decreases data.galaxies.len() - i,
    {
        let b = data.galaxies[i];
        let list = cheapest_ways(&data.graph, b);
        proof {
            lemma_capped_sum_next(terms, u64::MAX as int, i as int);
            lemma_galaxy_cost(edges, list@, flags@, cells, b as int);
            assert(gs[i as int] == b);
        }
        let sum = match add_costs(&list, &flags, b) {
            Some(v) => total.checked_add(v),
            None => None,
        };
        match sum {
            Some(t) => {
                total = t;
            },
            None => {
                proof {
                    lemma_capped_sum_none(terms, u64::MAX as int, i + 1);
                }
                return None;
            },
        }
        i += 1;
    }
    assert(terms.take(data.galaxies.len() as int) == terms);
    Some(total)
}

/// Gives the edges below every row and to the right of every column
/// without a galaxy the weight `expansion_amount`, and adds up the costs of
/// the cheapest ways between the galaxies, in decimal digits.
///
/// Nothing is done, and there is no answer, where the weight or the
/// greatest weight of the graph so far is more than [`HEAVIEST`]. There is
/// no answer either where a running sum is beyond 64 bits.
pub fn solve_for_expansion(parsed_input: &mut Day11Data, expansion_amount: u64) -> (r: Option<
    String,
>)
    requires
        old(parsed_input).wf(),
    ensures
        final(parsed_input).wf(),
        old(parsed_input).expands_to(*final(parsed_input), expansion_amount, r),
{
    if expansion_amount > HEAVIEST || parsed_input.heaviest > HEAVIEST {
        return None;
    }
    let heavy = if expansion_amount > parsed_input.heaviest {
        expansion_amount
    } else {
        parsed_input.heaviest
    };
    proof {
        let edges = graph_edges(parsed_input.graph);
        let n = graph_nodes(parsed_input.graph).len();
        assert(edges_within(edges, n, heavy as nat));
    }
    widen_graph(
        &mut parsed_input.graph,
        &parsed_input.node_indices,
        &parsed_input.rows_to_expand,
        &parsed_input.cols_to_expand,
        expansion_amount,
        Ghost(heavy as nat),
    );
    parsed_input.heaviest = heavy;
    match sum_costs(parsed_input) {
        Some(t) => Some(decimal_string(t)),
        None => None,
    }
}

impl Day11 {
    /// Reads the map of a universe and builds the graph of its cells;
    /// `None` where the text is no such map.
    pub fn parse_input(input: &str) -> (r: Option<Day11Data>)
        ensures
            r matches Some(data) ==> is_universe(lines_of(input@)) && data.wf() && data.depicts(
                lines_of(input@),
            ),
            r is None ==> !is_universe(lines_of(input@)),
    {
        let rows = lines(input);
        let ghost ls = lines_of(input@);
        if rows.len() == 0 {
            return None;
        }
        let height = rows.len();
        let width = rows[0].len();
        assert(ls[0] == rows[0]@);
        let mut cells: usize = 0;
        let mut y: usize = 0;
        while y < height
            invariant
                y <= height,
                height == rows.len(),
                height > 0,
                ls == views(rows@),
                ls == lines_of(input@),
                width == ls[0].len(),
                forall|q: int| 0 <= q < y ==> (#[trigger] ls[q]).len() == width,
                cells == flat(ls, y as nat).len(),
                cells <= MOST_CELLS,
            decreases height - y,
        {
            assert(ls[y as int] == rows[y as int]@);
            if rows[y].len() != width {
                return None;
            }
            if width > MOST_CELLS - cells {
                proof {
                    lemma_flat_grows(ls, (y + 1) as nat, height as nat);
                }
                return None;
            }
            cells = cells + width;
            y += 1;
        }
        let (mut graph, node_indices, galaxies) = build_nodes(&rows);
        let ghost t = table(node_indices@);
        proof {
            assert forall|q: int| 0 <= q < height implies (#[trigger] node_indices[q]).len()
                == width by {
                assert(ls[q] == rows[q]@);
            }
            assert forall|q: int| 0 <= q < height implies (#[trigger] t[q]).len() == width && t[q]
                == places(node_indices[q]@) by {
                assert(node_indices[q].len() == width);
            }
            assert forall|q: int, c: int| 0 <= q < height && 0 <= c < width implies (
            #[trigger] node_indices[q][c]) < graph_nodes(graph).len() by {
                assert(t[q][c] == flat(ls, q as nat).len() + c);
                assert(flat(ls, (q + 1) as nat).len() == flat(ls, q as nat).len() + ls[q].len());
                lemma_flat_grows(ls, (q + 1) as nat, height as nat);
            }
            assert(is_numbering(t, width as int)) by {
                assert forall|q: int, c: int|
                    0 <= q < t.len() && 0 <= c && c + 1 < width implies t[q][c + 1]
                    == #[trigger] t[q][c] + 1 by {
                    assert(t[q][c] == flat(ls, q as nat).len() + c);
                    assert(t[q][c + 1] == flat(ls, q as nat).len() + c + 1);
                }
                assert forall|q: int| 0 <= q && q + 1 < t.len() && width > 0 implies t[q + 1][0] == (
                #[trigger] t[q])[width - 1] + 1 by {
                    assert(t[q][width - 1] == flat(ls, q as nat).len() + width - 1);
                    assert(t[q + 1][0] == flat(ls, (q + 1) as nat).len() + 0);
                    assert(flat(ls, (q + 1) as nat).len() == flat(ls, q as nat).len()
                        + ls[q].len());
                }
            }
        }
        join_cells(&mut graph, &node_indices);
        let mut rows_to_expand: Vec<usize> = Vec::new();
        let mut y: usize = 0;
        assert(places(rows_to_expand@) =~= Seq::<int>::empty());
        while y < height
            invariant
                y <= height,
                height == rows.len(),
                ls == views(rows@),
                places(rows_to_expand@) == empty_rows(ls, y as nat),
                forall|i: int| 0 <= i < rows_to_expand.len() ==> #[trigger] rows_to_expand[i] < y,
            decreases height - y,
        {
            assert(ls[y as int] == rows[y as int]@);
            if !row_holds(&rows[y]) {
                let ghost before = places(rows_to_expand@);
                rows_to_expand.push(y);
                assert(places(rows_to_expand@) =~= before.push(y as int));
            }
            y += 1;
        }
        let mut cols_to_expand: Vec<usize> = Vec::new();
        let mut x: usize = 0;
        assert(places(cols_to_expand@) =~= Seq::<int>::empty());
        while x < width
            invariant
                x <= width,
                ls == views(rows@),
                places(cols_to_expand@) == empty_cols(ls, x as nat),
                forall|i: int| 0 <= i < cols_to_expand.len() ==> #[trigger] cols_to_expand[i] < x,
            decreases width - x,
        {
            if !col_holds(&rows, x) {
                let ghost before = places(cols_to_expand@);
                cols_to_expand.push(x);
                assert(places(cols_to_expand@) =~= before.push(x as int));
            }
            x += 1;
        }
        let data = Day11Data {
            graph,
            galaxies,
            node_indices,
            rows_to_expand,
            cols_to_expand,
            heaviest: 1,
        };
        proof {
            assert(data.width() == width);
            assert(is_rectangular(ls));
            assert(data.wf());
            assert(data.depicts(ls));
        }
        Some(data)
    }
}

impl Day11 {
    /// The sum of the costs between the galaxies where every row and column
    /// without a galaxy counts twice.
    pub fn part_one(parsed_input: &mut Day11Data) -> (r: Option<String>)
        requires
            old(parsed_input).wf(),
        ensures
            final(parsed_input).wf(),
            old(parsed_input).expands_to(*final(parsed_input), 2, r),
    {
        solve_for_expansion(parsed_input, 2)
    }

    /// The sum of the costs between the galaxies where every row and column
    /// without a galaxy counts a million times.
    pub fn part_two(parsed_input: &mut Day11Data) -> (r: Option<String>)
        requires
            old(parsed_input).wf(),
        ensures
            final(parsed_input).wf(),
            old(parsed_input).expands_to(*final(parsed_input), 1000000, r),
    {
        solve_for_expansion(parsed_input, 1000000)
    }

    /// Reads the map and answers the first part.
    pub fn solve_part_one(input: &str) -> (r: Option<String>)
        ensures
            r is Some ==> is_universe(lines_of(input@)),
            r matches Some(s) ==> exists|data: Day11Data|
                #![trigger data.depicts(lines_of(input@))]
                data.depicts(lines_of(input@)) && data.answer(data.widened(2)) == Some(s@),
            r is None ==> !is_universe(lines_of(input@)) || exists|data: Day11Data|
                #![trigger data.depicts(lines_of(input@))]
                data.depicts(lines_of(input@)) && data.answer(data.widened(2)) is None,
    {
        match Self::parse_input(input) {
            Some(mut data) => {
                let ghost start = data;
                let r = solve_for_expansion(&mut data, 2);
                assert(r is Some ==> start.answer(start.widened(2)) == Some(r->0@));
                assert(r is None ==> start.answer(start.widened(2)) is None);
                r
            },
            None => None,
        }
    }

    /// Reads the map and answers the second part.
    pub fn solve_part_two(input: &str) -> (r: Option<String>)
        ensures
            r is Some ==> is_universe(lines_of(input@)),
            r matches Some(s) ==> exists|data: Day11Data|
                #![trigger data.depicts(lines_of(input@))]
                data.depicts(lines_of(input@)) && data.answer(data.widened(1000000)) == Some(s@),
            r is None ==> !is_universe(lines_of(input@)) || exists|data: Day11Data|
                #![trigger data.depicts(lines_of(input@))]
                data.depicts(lines_of(input@)) && data.answer(data.widened(1000000)) is None,
    {
        match Self::parse_input(input) {
            Some(mut data) => {
                let ghost start = data;
                let r = solve_for_expansion(&mut data, 1000000);
                assert(r is Some ==> start.answer(start.widened(1000000)) == Some(r->0@));
                assert(r is None ==> start.answer(start.widened(1000000)) is None);
                r
            },
            None => None,
        }
    }

    /// Reads the map and answers both parts, the second on the graph that
    /// the first has left; `None` where either has no answer. The flag asks
    /// whoever calls to time the work; the answers do not depend on it.
    pub fn solve(input: &str, include_time: bool) -> (r: Option<(String, String)>)
        ensures
            r is Some ==> is_universe(lines_of(input@)),
            r matches Some((one, two)) ==> exists|data: Day11Data|
                #![trigger data.depicts(lines_of(input@))]
                data.depicts(lines_of(input@)) && data.answer(data.widened(2)) == Some(one@)
                    && data.answer(data.widened_from(data.widened(2), 1000000)) == Some(two@),
            r is None ==> !is_universe(lines_of(input@)) || exists|data: Day11Data|
                #![trigger data.depicts(lines_of(input@))]
                data.depicts(lines_of(input@)) && (data.answer(data.widened(2)) is None
                    || data.answer(data.widened_from(data.widened(2), 1000000)) is None),
    {
        match Self::parse_input(input) {
            Some(mut data) => {
                let ghost start = data;
                let one = solve_for_expansion(&mut data, 2);
                let ghost middle = data;
                let two = solve_for_expansion(&mut data, 1000000);
                proof {
                    assert(middle.widened(1000000) == start.widened_from(
                        start.widened(2),
                        1000000,
                    ));
                    assert(middle.answer(graph_edges(data.graph)) == start.answer(
                        graph_edges(data.graph),
                    ));
                }
                match (one, two) {
                    (Some(a), Some(b)) => Some((a, b)),
                    _ => None,
                }
            },
            None => None,
        }
    }
}

} // verus!
