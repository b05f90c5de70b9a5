//! Pipe segments: the kinds of cell in a pipe diagram, the glyph of each,
//! and the compass directions in which each is open.

use vstd::prelude::*;

verus! {

/// The kind of one cell of a pipe diagram.
///
/// `NotPipe` is ground. The six two-letter and one-word kinds are pipe
/// segments, each open toward two compass directions. `Unknown` is the start
/// cell, whose shape the diagram does not show. `InLoop` marks a cell that
/// the loop encloses; no diagram holds it.
#[derive(Clone, Copy, Debug, PartialEq, Eq, Hash, Structural)]
pub enum PipeType {
    NotPipe,
    NE,
    NW,
    SE,
    SW,
    Horizontal,
    Vertical,
    Unknown,
    InLoop,
}

/// The four compass directions, each open or closed.
#[derive(Clone, Copy, Debug, PartialEq, Eq, Hash, Structural)]
pub struct Openings {
    pub north: bool,
    pub south: bool,
    pub east: bool,
    pub west: bool,
}

impl Openings {
    /// How many of the four directions are open.
    pub open spec fn count(self) -> nat {
        (if self.north {
            1nat
        } else {
            0nat
        }) + (if self.south {
            1nat
        } else {
            0nat
        }) + (if self.east {
            1nat
        } else {
            0nat
        }) + (if self.west {
            1nat
        } else {
            0nat
        })
    }

    /// Counts the open directions.
    pub fn degree(&self) -> (n: usize)
        ensures
            n == self.count(),
    {
        let mut n: usize = 0;
        if self.north {
            n += 1;
        }
        if self.south {
            n += 1;
        }
        if self.east {
            n += 1;
        }
        if self.west {
            n += 1;
        }
        n
    }
}

impl PipeType {
    /// The kind that a glyph of the diagram stands for.
    pub open spec fn of_glyph(c: char) -> Option<PipeType> {
        if c == '.' {
            Some(PipeType::NotPipe)
        } else if c == '|' {
            Some(PipeType::Vertical)
        } else if c == '-' {
            Some(PipeType::Horizontal)
        } else if c == 'L' {
            Some(PipeType::NE)
        } else if c == 'J' {
            Some(PipeType::NW)
        } else if c == '7' {
            Some(PipeType::SW)
        } else if c == 'F' {
            Some(PipeType::SE)
        } else if c == 'S' {
            Some(PipeType::Unknown)
        } else {
            None
        }
    }

    /// The character that draws a kind: ground as a dot, a segment as the
    /// box-drawing line of its shape, the start as `S`, an enclosed cell as
    /// `x`.
    pub open spec fn drawing(self) -> char {
        match self {
            PipeType::NotPipe => '.',
            PipeType::NE => '\u{2514}',
            PipeType::NW => '\u{2518}',
            PipeType::SE => '\u{250c}',
            PipeType::SW => '\u{2510}',
            PipeType::Horizontal => '\u{2500}',
            PipeType::Vertical => '\u{2502}',
            PipeType::Unknown => 'S',
            PipeType::InLoop => 'x',
        }
    }

    /// The directions toward which a kind is open. The start, whose shape is
    /// not known, counts as open toward all four.
    pub open spec fn openings(self) -> Openings {
        match self {
            PipeType::NotPipe => Openings { north: false, south: false, east: false, west: false },
            PipeType::NE => Openings { north: true, south: false, east: true, west: false },
            PipeType::NW => Openings { north: true, south: false, east: false, west: true },
            PipeType::SE => Openings { north: false, south: true, east: true, west: false },
            PipeType::SW => Openings { north: false, south: true, east: false, west: true },
            PipeType::Horizontal => Openings {
                north: false,
                south: false,
                east: true,
                west: true,
            },
            PipeType::Vertical => Openings { north: true, south: true, east: false, west: false },
            PipeType::Unknown => Openings { north: true, south: true, east: true, west: true },
            PipeType::InLoop => Openings { north: false, south: false, east: false, west: false },
        }
    }

    /// The pipe segment that is open toward exactly the given two
    /// directions, if they are two.
    pub open spec fn with_openings(o: Openings) -> Option<PipeType> {
        if o.north && o.south && !o.east && !o.west {
            Some(PipeType::Vertical)
        } else if !o.north && !o.south && o.east && o.west {
            Some(PipeType::Horizontal)
        } else if o.north && !o.south && o.east && !o.west {
            Some(PipeType::NE)
        } else if o.north && !o.south && !o.east && o.west {
            Some(PipeType::NW)
        } else if !o.north && o.south && o.east && !o.west {
            Some(PipeType::SE)
        } else if !o.north && o.south && !o.east && o.west {
            Some(PipeType::SW)
        } else {
            None
        }
    }

    /// Decodes a glyph of the diagram; `None` for any other character.
    pub fn from_char(c: char) -> (r: Option<PipeType>)
        ensures
            r == Self::of_glyph(c),
    {
        if c == '.' {
            Some(PipeType::NotPipe)
        } else if c == '|' {
            Some(PipeType::Vertical)
        } else if c == '-' {
            Some(PipeType::Horizontal)
        } else if c == 'L' {
            Some(PipeType::NE)
        } else if c == 'J' {
            Some(PipeType::NW)
        } else if c == '7' {
            Some(PipeType::SW)
        } else if c == 'F' {
            Some(PipeType::SE)
        } else if c == 'S' {
            Some(PipeType::Unknown)
        } else {
            None
        }
    }

    /// The character that draws this kind.
    pub fn to_char(&self) -> (c: char)
        ensures
            c == self.drawing(),
    {
        match self {
            PipeType::NotPipe => '.',
            PipeType::NE => '\u{2514}',
            PipeType::NW => '\u{2518}',
            PipeType::SE => '\u{250c}',
            PipeType::SW => '\u{2510}',
            PipeType::Horizontal => '\u{2500}',
            PipeType::Vertical => '\u{2502}',
            PipeType::Unknown => 'S',
            PipeType::InLoop => 'x',
        }
    }

    /// The directions toward which this kind is open.
    pub fn open_sides(&self) -> (o: Openings)
        ensures
            o == self.openings(),
    {
        match self {
            PipeType::NotPipe => Openings { north: false, south: false, east: false, west: false },
            PipeType::NE => Openings { north: true, south: false, east: true, west: false },
            PipeType::NW => Openings { north: true, south: false, east: false, west: true },
            PipeType::SE => Openings { north: false, south: true, east: true, west: false },
            PipeType::SW => Openings { north: false, south: true, east: false, west: true },
            PipeType::Horizontal => Openings {
                north: false,
                south: false,
                east: true,
                west: true,
            },
            PipeType::Vertical => Openings { north: true, south: true, east: false, west: false },
            PipeType::Unknown => Openings { north: true, south: true, east: true, west: true },
            PipeType::InLoop => Openings { north: false, south: false, east: false, west: false },
        }
    }

    /// The pipe segment open toward exactly the given directions; `None`
    /// unless exactly two of them are open.
    pub fn from_openings(o: Openings) -> (r: Option<PipeType>)
        ensures
            r == Self::with_openings(o),
            r is Some <==> o.count() == 2,
            r matches Some(k) ==> k.openings() == o,
    {
        if o.north && o.south && !o.east && !o.west {
            Some(PipeType::Vertical)
        } else if !o.north && !o.south && o.east && o.west {
            Some(PipeType::Horizontal)
        } else if o.north && !o.south && o.east && !o.west {
            Some(PipeType::NE)
        } else if o.north && !o.south && !o.east && o.west {
            Some(PipeType::NW)
        } else if !o.north && o.south && o.east && !o.west {
            Some(PipeType::SE)
        } else if !o.north && o.south && !o.east && o.west {
            Some(PipeType::SW)
        } else {
            None
        }
    }

    /// Whether this cell and the cell `other` to its north are joined: this
    /// one open toward north and that one toward south.
    pub fn is_connected_north(&self, other: &PipeType) -> (b: bool)
        ensures
            b == (self.openings().north && other.openings().south),
    {
        self.open_sides().north && other.open_sides().south
    }

    /// Whether this cell and the cell `other` to its south are joined.
    pub fn is_connected_south(&self, other: &PipeType) -> (b: bool)
        ensures
            b == (self.openings().south && other.openings().north),
    {
        self.open_sides().south && other.open_sides().north
    }

    /// Whether this cell and the cell `other` to its east are joined.
    pub fn is_connected_east(&self, other: &PipeType) -> (b: bool)
        ensures
            b == (self.openings().east && other.openings().west),
    {
        self.open_sides().east && other.open_sides().west
    }

    /// Whether this cell and the cell `other` to its west are joined.
    pub fn is_connected_west(&self, other: &PipeType) -> (b: bool)
        ensures
            b == (self.openings().west && other.openings().east),
    {
        self.open_sides().west && other.open_sides().east
    }
}

/// One cell of a diagram: its column `x`, its row `y` (counted downward
/// from zero), and its kind.
#[derive(Clone, Copy, Debug, PartialEq, Eq, Hash, Structural)]
pub struct Node {
    pub x: usize,
    pub y: usize,
    pub pipe_type: PipeType,
}

impl Node {
    /// The cell at column `x` and row `y` that the glyph `c` draws; `None`
    /// where `c` is no glyph.
    pub fn new(x: usize, y: usize, c: char) -> (r: Option<Node>)
        ensures
            r == match PipeType::of_glyph(c) {
                Some(k) => Some(Node { x, y, pipe_type: k }),
                None => None,
            },
    {
        match PipeType::from_char(c) {
            Some(k) => Some(Node { x, y, pipe_type: k }),
            None => None,
        }
    }
}

} // verus!
