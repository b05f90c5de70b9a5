//! The interior classifier: which cells off the loop the loop encloses.
//!
//! Each row is scanned from the left with a flag that starts cleared and
//! flips at every loop cell whose shape is open toward north. A cell off the
//! loop that the scan meets with the flag set is enclosed.

use vstd::prelude::*;
use crate::day10::network::Network;
use crate::day10::pipe::{Openings, PipeType};
use crate::day10::traversal::count_true;

verus! {

impl Network {
    /// The directions in which the start cell is joined to a neighbour.
    pub open spec fn start_openings(&self) -> Openings {
        let l = self.links[self.start()];
        Openings {
            north: l.north is Some,
            south: l.south is Some,
            east: l.east is Some,
            west: l.west is Some,
        }
    }

    /// The shape of the start cell: the pipe segment open toward exactly
    /// the two directions in which the start cell is joined.
    pub open spec fn start_shape(&self) -> PipeType {
        PipeType::with_openings(self.start_openings())->0
    }

    /// Works out the shape of the start cell.
    pub fn resolve_start(&self) -> (k: PipeType)
        requires
            self.wf(),
        ensures
            k == self.start_shape(),
            k.openings() == self.start_openings(),
    {
        let l = &self.links[self.grid.start];
        let o = Openings {
            north: l.north.is_some(),
            south: l.south.is_some(),
            east: l.east.is_some(),
            west: l.west.is_some(),
        };
        assert(o.count() == l.count());
        match PipeType::from_openings(o) {
            Some(k) => k,
            None => PipeType::Unknown,
        }
    }

    /// The kind of cell `i` as the scan sees it: ground for a cell off the
    /// loop, the resolved shape for the start cell, its own kind otherwise.
    pub open spec fn rendered(&self, on_loop: Seq<bool>, i: int) -> PipeType {
        if !on_loop[i] {
            PipeType::NotPipe
        } else if i == self.start() {
            self.start_shape()
        } else {
            self.grid.kind(i)
        }
    }

    /// Whether the scan of a row has its flag set when it comes to cell
    /// `i`: cleared at the first cell of a row, and flipped by every cell
    /// before `i` in the row that is on the loop and open toward north.
    pub open spec fn inside_before(&self, on_loop: Seq<bool>, i: int) -> bool
        decreases i,
    {
        if i <= 0 || self.grid.nodes[i].x == 0 {
            false
        } else {
            self.inside_before(on_loop, i - 1) != self.rendered(on_loop, i - 1).openings().north
        }
    }

    /// Whether cell `i` is off the loop and enclosed by it.
    pub open spec fn is_interior(&self, on_loop: Seq<bool>, i: int) -> bool {
        !on_loop[i] && self.inside_before(on_loop, i)
    }

    /// For every cell, whether it is enclosed.
    pub open spec fn interior_flags(&self, on_loop: Seq<bool>) -> Seq<bool> {
        Seq::new(on_loop.len(), |i: int| self.is_interior(on_loop, i))
    }

    /// The picture of the classified diagram: an enclosed cell as `InLoop`,
    /// every other cell as the scan sees it.
    pub open spec fn marked(&self, on_loop: Seq<bool>) -> Seq<PipeType> {
        Seq::new(
            on_loop.len(),
            |i: int|
                if self.is_interior(on_loop, i) {
                    PipeType::InLoop
                } else {
                    self.rendered(on_loop, i)
                },
        )
    }
}

/// Draws the classified diagram: the loop cells by their shapes, with the
/// start cell resolved, the enclosed cells as `InLoop`, all others as
/// ground.
pub fn mark_interior(net: &Network, on_loop: &Vec<bool>) -> (cells: Vec<PipeType>)
    requires
        net.wf(),
        on_loop.len() == net.links.len(),
    ensures
        cells@ == net.marked(on_loop@),
{
    let start_kind = net.resolve_start();
    let mut cells: Vec<PipeType> = Vec::new();
    let mut inside = false;
    let mut i: usize = 0;
    while i < on_loop.len()
        invariant
            net.wf(),
            on_loop.len() == net.links.len(),
            i <= on_loop.len(),
            start_kind == net.start_shape(),
            cells.len() == i,
            forall|j: int| 0 <= j < i ==> #[trigger] cells[j] == net.marked(on_loop@)[j],
            i > 0 ==> inside == (net.inside_before(on_loop@, i - 1) != net.rendered(
                on_loop@,
                i - 1,
            ).openings().north),
        decreases on_loop.len() - i,
    {
        if net.grid.nodes[i].x == 0 {
            inside = false;
        }
        assert(inside == net.inside_before(on_loop@, i as int));
        let kind = if !on_loop[i] {
            PipeType::NotPipe
        } else if i == net.grid.start {
            start_kind
        } else {
            net.grid.nodes[i].pipe_type
        };
        assert(kind == net.rendered(on_loop@, i as int));
        if !on_loop[i] && inside {
            cells.push(PipeType::InLoop);
        } else {
            cells.push(kind);
        }
        if kind.open_sides().north {
            inside = !inside;
        }
        i += 1;
    }
    assert(cells@ =~= net.marked(on_loop@));
    cells
}

/// Counts the cells off the loop that the loop encloses.
pub fn classify_interior(net: &Network, on_loop: &Vec<bool>) -> (count: usize)
    requires
        net.wf(),
        on_loop.len() == net.links.len(),
    ensures
        count == count_true(net.interior_flags(on_loop@)),
{
    let cells = mark_interior(net, on_loop);
    let ghost flags = net.interior_flags(on_loop@);
    let mut count: usize = 0;
    let mut i: usize = 0;
    while i < cells.len()
        invariant
            net.wf(),
            on_loop.len() == net.links.len(),
            cells@ == net.marked(on_loop@),
            flags == net.interior_flags(on_loop@),
            i <= cells.len(),
            count == count_true(flags.take(i as int)),
            count <= i,
        decreases cells.len() - i,
    {
        assert(flags.take(i + 1).drop_last() == flags.take(i as int));
        proof {
            let k = net.rendered(on_loop@, i as int);
            net.lemma_rendered_is_no_mark(on_loop@, i as int);
        }
        if cells[i] == PipeType::InLoop {
            count += 1;
        }
        i += 1;
    }
    assert(flags.take(cells.len() as int) == flags);
    count
}

impl Network {
    /// The scan never sees a cell as `InLoop`.
    pub proof fn lemma_rendered_is_no_mark(&self, on_loop: Seq<bool>, i: int)
        requires
            self.wf(),
            0 <= i < self.links.len(),
        ensures
            self.rendered(on_loop, i) !is InLoop,
    {
        let o = self.start_openings();
        assert(o.count() == self.links[self.start()].count());
        let n = self.grid.nodes[i];
    }
}

} // verus!
