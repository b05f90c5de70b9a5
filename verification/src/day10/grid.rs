//! The grid model: a diagram read from text into typed cells.

use vstd::prelude::*;
use crate::day10::pipe::{Node, PipeType};
use crate::text::{lines, lines_of, views};

verus! {

/// Why a text is not the diagram of one closed pipe loop.
#[derive(Clone, Copy, Debug, PartialEq, Eq, Hash, Structural)]
pub enum PipeError {
    /// A character of the text is none of the eight glyphs.
    MalformedGlyph,
    /// Two rows differ in length.
    RaggedGrid,
    /// No cell is the start cell.
    MissingStart,
    /// More than one cell is the start cell.
    DuplicateStart,
    /// The start cell is joined to fewer or more than two neighbours.
    StartConnectivity,
}

impl PipeError {
    /// The words that name the error.
    pub open spec fn words(self) -> Seq<char> {
        match self {
            PipeError::MalformedGlyph => "malformed glyph"@,
            PipeError::RaggedGrid => "ragged grid"@,
            PipeError::MissingStart => "missing start cell"@,
            PipeError::DuplicateStart => "duplicate start cell"@,
            PipeError::StartConnectivity => "inconsistent start connectivity"@,
        }
    }

    /// A short description of the error.
    pub fn message(&self) -> (s: String)
        ensures
            s@ == self.words(),
    {
        match self {
            PipeError::MalformedGlyph => "malformed glyph".to_owned(),
            PipeError::RaggedGrid => "ragged grid".to_owned(),
            PipeError::MissingStart => "missing start cell".to_owned(),
            PipeError::DuplicateStart => "duplicate start cell".to_owned(),
            PipeError::StartConnectivity => "inconsistent start connectivity".to_owned(),
        }
    }
}

/// Whether row `r`, column `c` lies in the rows `ls`.
pub open spec fn in_rows(ls: Seq<Seq<char>>, r: int, c: int) -> bool {
    0 <= r < ls.len() && 0 <= c < ls[r].len()
}

/// Whether some character of the rows is no glyph.
pub open spec fn has_bad_glyph(ls: Seq<Seq<char>>) -> bool {
    exists|r: int, c: int| in_rows(ls, r, c) && PipeType::of_glyph(#[trigger] ls[r][c]) is None
}

/// Whether some row differs in length from the first.
pub open spec fn is_ragged(ls: Seq<Seq<char>>) -> bool {
    exists|r: int| 0 <= r < ls.len() && (#[trigger] ls[r]).len() != ls[0].len()
}

/// Whether row `r`, column `c` of the rows holds the start glyph.
pub open spec fn is_start_at(ls: Seq<Seq<char>>, r: int, c: int) -> bool {
    in_rows(ls, r, c) && ls[r][c] == 'S'
}

/// Whether some cell of the rows holds the start glyph.
pub open spec fn has_start(ls: Seq<Seq<char>>) -> bool {
    exists|r: int, c: int| #[trigger] is_start_at(ls, r, c)
}

/// Whether two different cells of the rows hold the start glyph.
pub open spec fn has_two_starts(ls: Seq<Seq<char>>) -> bool {
    exists|r1: int, c1: int, r2: int, c2: int|
        #[trigger] is_start_at(ls, r1, c1) && #[trigger] is_start_at(ls, r2, c2) && (r1 != r2 || c1
            != c2)
}

/// The first fault of the rows of a diagram, in this order: a character
/// that is no glyph, rows of unequal length, no start cell, more than one.
pub open spec fn grid_fault(ls: Seq<Seq<char>>) -> Option<PipeError> {
    if has_bad_glyph(ls) {
        Some(PipeError::MalformedGlyph)
    } else if is_ragged(ls) {
        Some(PipeError::RaggedGrid)
    } else if !has_start(ls) {
        Some(PipeError::MissingStart)
    } else if has_two_starts(ls) {
        Some(PipeError::DuplicateStart)
    } else {
        None
    }
}

/// A rectangular diagram: its cells row by row, and which of them is the
/// start cell.
pub struct Grid {
    /// The number of columns.
    pub width: usize,
    /// The number of rows.
    pub height: usize,
    /// The cells, row by row from the top, each row from the left.
    pub nodes: Vec<Node>,
    /// The index of the start cell in `nodes`.
    pub start: usize,
}

impl Grid {
    /// The invariant of a grid: the cells fill the rectangle in row-major
    /// order, and exactly one of them, at `start`, is the start cell.
    pub open spec fn wf(&self) -> bool {
        &&& self.nodes.len() == self.width * self.height
        &&& self.start < self.nodes.len()
        &&& forall|i: int|
            0 <= i < self.nodes.len() ==> {
                let n = #[trigger] self.nodes[i];
                &&& n.x < self.width
                &&& n.y < self.height
                &&& i == n.y * self.width + n.x
                &&& (n.pipe_type is Unknown <==> i == self.start)
                &&& n.pipe_type !is InLoop
            }
    }

    /// Whether the grid holds what the rows `ls` draw.
    pub open spec fn depicts(&self, ls: Seq<Seq<char>>) -> bool {
        &&& self.height == ls.len()
        &&& forall|r: int| 0 <= r < ls.len() ==> (#[trigger] ls[r]).len() == self.width
        &&& forall|i: int|
            0 <= i < self.nodes.len() ==> {
                let n = #[trigger] self.nodes[i];
                PipeType::of_glyph(ls[n.y as int][n.x as int]) == Some(n.pipe_type)
            }
    }

    /// The kind of the cell at index `i`.
    pub open spec fn kind(&self, i: int) -> PipeType {
        self.nodes[i].pipe_type
    }
}

/// The row-major index of a cell is below the number of cells.
pub proof fn lemma_cell_bound(w: int, h: int, r: int, c: int)
    requires
        0 <= r < h,
        0 <= c < w,
    ensures
        0 <= r * w + c < w * h,
{
    assert(r * w + w <= h * w) by (nonlinear_arith)
        requires
            r + 1 <= h,
            w > 0,
    ;
    assert(0 <= r * w) by (nonlinear_arith)
        requires
            0 <= r,
            0 <= w,
    ;
    assert(h * w == w * h) by (nonlinear_arith);
}

/// A row-major index determines its row and column.
pub proof fn lemma_cell_unique(w: int, r1: int, c1: int, r2: int, c2: int)
    requires
        0 <= c1 < w,
        0 <= c2 < w,
        r1 * w + c1 == r2 * w + c2,
    ensures
        r1 == r2,
        c1 == c2,
{
    if r1 < r2 {
        assert(r2 * w >= r1 * w + w) by (nonlinear_arith)
            requires
                r1 + 1 <= r2,
                w > 0,
        ;
    } else if r2 < r1 {
        assert(r1 * w >= r2 * w + w) by (nonlinear_arith)
            requires
                r2 + 1 <= r1,
                w > 0,
        ;
    }
}

fn all_glyphs(rows: &Vec<Vec<char>>) -> (ok: bool)
    ensures
        ok == !has_bad_glyph(views(rows@)),
{
    let ghost ls = views(rows@);
    let mut r: usize = 0;
    while r < rows.len()
        invariant
            r <= rows.len(),
            ls == views(rows@),
            forall|r0: int, c0: int|
                0 <= r0 < r && 0 <= c0 < ls[r0].len() ==> PipeType::of_glyph(
                    #[trigger] ls[r0][c0],
                ) is Some,
        decreases rows.len() - r,
    {
        let row = &rows[r];
        let mut c: usize = 0;
        while c < row.len()
            invariant
                r < rows.len(),
                c <= row.len(),
                row@ == ls[r as int],
                ls == views(rows@),
                forall|r0: int, c0: int|
                    0 <= r0 < r && 0 <= c0 < ls[r0].len() ==> PipeType::of_glyph(
                        #[trigger] ls[r0][c0],
                    ) is Some,
                forall|c0: int|
                    0 <= c0 < c ==> PipeType::of_glyph(#[trigger] ls[r as int][c0]) is Some,
            decreases row.len() - c,
        {
            if PipeType::from_char(row[c]).is_none() {
                assert(in_rows(ls, r as int, c as int) && PipeType::of_glyph(ls[r as int][c as int])
                    is None);
                return false;
            }
            c += 1;
        }
        r += 1;
    }
    true
}

fn same_lengths(rows: &Vec<Vec<char>>) -> (ok: bool)
    ensures
        ok == !is_ragged(views(rows@)),
{
    let ghost ls = views(rows@);
    if rows.len() == 0 {
        return true;
    }
    let width = rows[0].len();
    let mut r: usize = 0;
    while r < rows.len()
        invariant
            r <= rows.len(),
            ls == views(rows@),
            rows.len() > 0,
            width == ls[0].len(),
            forall|r0: int| 0 <= r0 < r ==> (#[trigger] ls[r0]).len() == width,
        decreases rows.len() - r,
    {
        if rows[r].len() != width {
            assert((ls[r as int]).len() != ls[0].len());
            return false;
        }
        r += 1;
    }
    true
}

/// Reads a diagram from text, one row to a line.
///
/// The text is refused with the first fault of its lines that
/// [`grid_fault`] names; a text without any line has no start cell.
pub fn parse(text: &str) -> (r: Result<Grid, PipeError>)
    ensures
        match r {
            Ok(g) => grid_fault(lines_of(text@)) is None && g.wf() && g.depicts(lines_of(text@)),
            Err(e) => grid_fault(lines_of(text@)) == Some(e),
        },
{
    let rows = lines(text);
    let ghost ls = views(rows@);
    if !all_glyphs(&rows) {
        return Err(PipeError::MalformedGlyph);
    }
    if !same_lengths(&rows) {
        return Err(PipeError::RaggedGrid);
    }
    let height = rows.len();
    let width = if height > 0 {
        rows[0].len()
    } else {
        0
    };
    let mut nodes: Vec<Node> = Vec::new();
    let mut start: Option<usize> = None;
    let mut y: usize = 0;
    while y < height
        invariant
            y <= height,
            height == rows.len(),
            ls == views(rows@),
            ls == lines_of(text@),
            !has_bad_glyph(ls),
            !is_ragged(ls),
            forall|r0: int| 0 <= r0 < ls.len() ==> (#[trigger] ls[r0]).len() == width,
            nodes.len() == y * width,
            forall|i: int|
                0 <= i < nodes.len() ==> {
                    let n = #[trigger] nodes[i];
                    &&& n.x < width
                    &&& n.y < y
                    &&& i == n.y * width + n.x
                    &&& PipeType::of_glyph(ls[n.y as int][n.x as int]) == Some(n.pipe_type)
                    &&& (n.pipe_type is Unknown ==> start == Some(i as usize))
                },
            start matches Some(s) ==> s < nodes.len() && nodes[s as int].pipe_type is Unknown,
            forall|r0: int, c0: int| #[trigger]
                is_start_at(ls, r0, c0) && r0 < y ==> start is Some,
        decreases height - y,
    {
        let row = &rows[y];
        assert(row@ == ls[y as int]);
        let mut x: usize = 0;
        while x < width
            invariant
                y < height,
                x <= width,
                height == rows.len(),
                ls == views(rows@),
                row@ == ls[y as int],
                row.len() == width,
                ls == lines_of(text@),
                !has_bad_glyph(ls),
                !is_ragged(ls),
                nodes.len() == y * width + x,
                forall|i: int|
                    0 <= i < nodes.len() ==> {
                        let n = #[trigger] nodes[i];
                        &&& n.x < width
                        &&& (n.y < y || (n.y == y && n.x < x))
                        &&& i == n.y * width + n.x
                        &&& PipeType::of_glyph(ls[n.y as int][n.x as int]) == Some(n.pipe_type)
                        &&& (n.pipe_type is Unknown ==> start == Some(i as usize))
                    },
                start matches Some(s) ==> s < nodes.len() && nodes[s as int].pipe_type is Unknown,
                forall|r0: int, c0: int| #[trigger]
                    is_start_at(ls, r0, c0) && (r0 < y || (r0 == y && c0 < x)) ==> start is Some,
            decreases width - x,
        {
            let c = row[x];
            assert(in_rows(ls, y as int, x as int));
            assert(ls[y as int][x as int] == c);
            let kind = match PipeType::from_char(c) {
                Some(k) => k,
                None => {
                    return Err(PipeError::MalformedGlyph);
                },
            };
            if kind == PipeType::Unknown {
                assert(is_start_at(ls, y as int, x as int));
                if let Some(first) = start {
                    proof {
                        let n = nodes[first as int];
                        assert(is_start_at(ls, n.y as int, n.x as int));
                        assert(n.y != y || n.x != x);
                        assert(has_start(ls));
                        assert(has_two_starts(ls));
                    }
                    return Err(PipeError::DuplicateStart);
                }
                start = Some(nodes.len());
            }
            nodes.push(Node { x, y, pipe_type: kind });
            x += 1;
        }
        assert(y * width + width == (y + 1) * width) by (nonlinear_arith);
        y += 1;
    }
    proof {
        assert(height * width == width * height) by (nonlinear_arith);
    }
    match start {
        None => {
            assert(!has_start(ls));
            Err(PipeError::MissingStart)
        },
        Some(s) => {
            proof {
                let n = nodes[s as int];
                assert(is_start_at(ls, n.y as int, n.x as int));
                assert forall|r1: int, c1: int| #[trigger] is_start_at(ls, r1, c1) implies r1
                    == n.y && c1 == n.x by {
                    let i = r1 * width + c1;
                    lemma_cell_bound(width as int, height as int, r1, c1);
                    let m = nodes[i];
                    lemma_cell_unique(width as int, r1, c1, m.y as int, m.x as int);
                }
            }
            Ok(Grid { width, height, nodes, start: s })
        },
    }
}

} // verus!
