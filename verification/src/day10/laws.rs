//! What holds of every pipe network.

use vstd::prelude::*;
use crate::day10::grid::lemma_cell_unique;
use crate::day10::network::{joined, Network};
use crate::day10::traversal::{count_true, lemma_reach_step, reach, reachable_from};

verus! {

/// The start cell is on the loop.
pub proof fn lemma_loop_holds_start(net: &Network)
    requires
        net.wf(),
    ensures
        reachable_from(net.links@, net.start(), net.start()),
{
    assert(reach(net.links@, net.start(), 0, net.start()));
}

/// The loop is closed under links: a cell joined to a cell of the loop is
/// on the loop.
pub proof fn lemma_loop_is_closed(net: &Network, p: int, q: int)
    requires
        net.wf(),
        reachable_from(net.links@, net.start(), p),
        joined(net.links@, p, q),
    ensures
        reachable_from(net.links@, net.start(), q),
{
    net.lemma_is_graph();
    let k = choose|k: nat| reach(net.links@, net.start(), k, p);
    lemma_reach_step(net.links@, net.start(), k, p, q);
}

/// No cell is joined to more than two neighbours.
pub proof fn lemma_at_most_two_links(net: &Network, p: int)
    requires
        net.wf(),
        0 <= p < net.links.len(),
    ensures
        net.links[p].count() <= 2,
{
    assert(net.links[p] == Network::links_of(&net.grid, p));
}

impl Network {
    /// The number of neighbours of cell `p` that are on the loop.
    pub open spec fn loop_degree(&self, p: int) -> nat {
        let l = self.links[p];
        let on = |q: Option<usize>| q is Some && reachable_from(self.links@, self.start(), q->0 as int);
        (if on(l.north) {
            1nat
        } else {
            0nat
        }) + (if on(l.south) {
            1nat
        } else {
            0nat
        }) + (if on(l.east) {
            1nat
        } else {
            0nat
        }) + (if on(l.west) {
            1nat
        } else {
            0nat
        })
    }

    /// Whether the loop has no loose end: every cell that can be reached
    /// from the start cell is joined to two neighbours.
    pub open spec fn is_closed_loop(&self) -> bool {
        forall|p: int|
            0 <= p < self.links.len() && reachable_from(self.links@, self.start(), p)
                ==> (#[trigger] self.links[p]).count() == 2
    }
}

/// In a network without a loose end the cells that can be reached from the
/// start cell form a cycle: the start cell is one of them, and each of them
/// has exactly two neighbours among them.
pub proof fn lemma_loop_is_cycle(net: &Network, p: int)
    requires
        net.wf(),
        net.is_closed_loop(),
        0 <= p < net.links.len(),
        reachable_from(net.links@, net.start(), p),
    ensures
        reachable_from(net.links@, net.start(), net.start()),
        net.loop_degree(p) == 2,
{
    lemma_loop_holds_start(net);
    net.lemma_is_graph();
    let l = net.links[p];
    if l.north is Some {
        lemma_loop_is_closed(net, p, l.north->0 as int);
    }
    if l.south is Some {
        lemma_loop_is_closed(net, p, l.south->0 as int);
    }
    if l.east is Some {
        lemma_loop_is_closed(net, p, l.east->0 as int);
    }
    if l.west is Some {
        lemma_loop_is_closed(net, p, l.west->0 as int);
    }
}

/// Where every set flag of `a` is set in `b`, no more flags are set in `a`
/// than in `b`; and fewer, where `b` has a set flag that `a` has not.
pub proof fn lemma_count_true_le(a: Seq<bool>, b: Seq<bool>)
    requires
        a.len() == b.len(),
        forall|i: int| 0 <= i < a.len() && a[i] ==> b[i],
    ensures
        count_true(a) <= count_true(b),
        (exists|i: int| 0 <= i < a.len() && b[i] && !a[i]) ==> count_true(a) < count_true(b),
    decreases a.len(),
{
    if a.len() > 0 {
        lemma_count_true_le(a.drop_last(), b.drop_last());
        if exists|i: int| 0 <= i < a.len() && b[i] && !a[i] {
            let i = choose|i: int| 0 <= i < a.len() && b[i] && !a[i];
            if i < a.len() - 1 {
                assert(b.drop_last()[i] && !a.drop_last()[i]);
            }
        }
    }
}

impl Network {
    /// For every cell, whether it is off the loop given by `on_loop`.
    pub open spec fn off_flags(on_loop: Seq<bool>) -> Seq<bool> {
        Seq::new(on_loop.len(), |i: int| !on_loop[i])
    }
}

/// The enclosed cells are never more than the cells off the loop, and are
/// fewer wherever some cell off the loop is not enclosed.
pub proof fn lemma_interior_within_off_loop(net: &Network, on_loop: Seq<bool>)
    requires
        net.wf(),
        on_loop.len() == net.links.len(),
    ensures
        0 <= count_true(net.interior_flags(on_loop)) <= count_true(Network::off_flags(on_loop)),
        (exists|i: int| 0 <= i < on_loop.len() && !on_loop[i] && !net.is_interior(on_loop, i))
            ==> count_true(net.interior_flags(on_loop)) < count_true(Network::off_flags(on_loop)),
{
    let a = net.interior_flags(on_loop);
    let b = Network::off_flags(on_loop);
    lemma_count_true_le(a, b);
    if exists|i: int| 0 <= i < on_loop.len() && !on_loop[i] && !net.is_interior(on_loop, i) {
        let i = choose|i: int| 0 <= i < on_loop.len() && !on_loop[i] && !net.is_interior(on_loop, i);
        assert(b[i] && !a[i]);
    }
}

/// A cell in the first column is never enclosed.
pub proof fn lemma_first_column_is_outside(net: &Network, on_loop: Seq<bool>, i: int)
    requires
        net.wf(),
        0 <= i < net.links.len(),
        net.grid.nodes[i].x == 0,
    ensures
        !net.is_interior(on_loop, i),
{
}

/// A diagram has one network: two networks that depict the same rows have
/// the same cells, the same start and the same links.
pub proof fn lemma_diagram_determines_network(a: &Network, b: &Network, ls: Seq<Seq<char>>)
    requires
        a.wf(),
        b.wf(),
        a.grid.depicts(ls),
        b.grid.depicts(ls),
    ensures
        a.grid.width == b.grid.width,
        a.grid.height == b.grid.height,
        a.grid.nodes@ == b.grid.nodes@,
        a.grid.start == b.grid.start,
        a.links@ == b.links@,
{
    let w = a.grid.width as int;
    assert(ls.len() > 0) by {
        if ls.len() == 0 {
            assert(a.grid.nodes.len() == a.grid.width * 0);
        }
    }
    assert(ls[0].len() == a.grid.width && ls[0].len() == b.grid.width);
    assert(a.grid.nodes.len() == b.grid.nodes.len());
    assert forall|i: int| 0 <= i < a.grid.nodes.len() implies a.grid.nodes@[i]
        == b.grid.nodes@[i] by {
        let m = a.grid.nodes[i];
        let n = b.grid.nodes[i];
        lemma_cell_unique(w, m.y as int, m.x as int, n.y as int, n.x as int);
    }
    assert(a.grid.nodes@ =~= b.grid.nodes@);
    assert(b.grid.nodes[a.grid.start as int].pipe_type is Unknown);
    assert forall|i: int| 0 <= i < a.links.len() implies a.links@[i] == b.links@[i] by {
        assert(a.links[i] == Network::links_of(&a.grid, i));
        assert(b.links[i] == Network::links_of(&b.grid, i));
    }
    assert(a.links@ =~= b.links@);
}

/// Networks with the same cells, start and links see every cell alike in
/// the scan of the rows.
proof fn lemma_same_scan(a: &Network, b: &Network, on_loop: Seq<bool>, i: int)
    requires
        a.grid.nodes@ == b.grid.nodes@,
        a.grid.start == b.grid.start,
        a.links@ == b.links@,
    ensures
        a.rendered(on_loop, i) == b.rendered(on_loop, i),
        a.inside_before(on_loop, i) == b.inside_before(on_loop, i),
        a.is_interior(on_loop, i) == b.is_interior(on_loop, i),
    decreases i,
{
    assert(a.grid.nodes[i] == b.grid.nodes[i]) by {
        assert(a.grid.nodes@[i] == b.grid.nodes@[i]);
    }
    assert(a.links[a.start()] == b.links[b.start()]) by {
        assert(a.links@[a.start()] == b.links@[b.start()]);
    }
    if i > 0 {
        lemma_same_scan(a, b, on_loop, i - 1);
    }
}

/// The answers are functions of the diagram: two networks that depict the
/// same rows have the same farthest distance and the same count of enclosed
/// cells, however often they are worked out.
pub proof fn lemma_answers_repeat(a: &Network, b: &Network, ls: Seq<Seq<char>>, d: nat)
    requires
        a.wf(),
        b.wf(),
        a.grid.depicts(ls),
        b.grid.depicts(ls),
    ensures
        a.enclosed() == b.enclosed(),
        a.is_farthest(d) == b.is_farthest(d),
        a.loop_flags() == b.loop_flags(),
{
    lemma_diagram_determines_network(a, b, ls);
    assert(a.loop_flags() =~= b.loop_flags());
    let on_loop = a.loop_flags();
    assert forall|i: int| 0 <= i < on_loop.len() implies a.interior_flags(on_loop)[i]
        == b.interior_flags(on_loop)[i] by {
        lemma_same_scan(a, b, on_loop, i);
    }
    assert(a.interior_flags(on_loop) =~= b.interior_flags(on_loop));
}

/// The farthest distance of a network is one number.
pub proof fn lemma_one_farthest(net: &Network, c: nat, d: nat)
    requires
        net.is_farthest(c),
        net.is_farthest(d),
    ensures
        c == d,
{
}

} // verus!
