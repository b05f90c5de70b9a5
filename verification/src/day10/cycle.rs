//! The shape of a loop without a loose end: from the start cell two walks
//! set out, one along each link, and meet on the far side. Each step of the
//! walks is one layer of cells at the same distance from the start; so the
//! farthest cell is half the loop away.

use vstd::prelude::*;
use crate::day10::network::{is_graph, joined, lemma_joined_symmetric, Links, Network};
use crate::day10::traversal::{
    count_true, is_distance, lemma_count_true_bound, lemma_reach_in_range, lemma_reach_mono,
    lemma_reach_step, reach, reachable_from,
};

verus! {

/// Whether the links of cell `p` lead to cells that differ from one another
/// and from `p`.
pub open spec fn links_distinct(l: Links, p: int) -> bool {
    &&& (l.north matches Some(a) ==> a != p)
    &&& (l.south matches Some(a) ==> a != p)
    &&& (l.east matches Some(a) ==> a != p)
    &&& (l.west matches Some(a) ==> a != p)
    &&& (l.north matches Some(a) ==> (l.south matches Some(b) ==> a != b))
    &&& (l.north matches Some(a) ==> (l.east matches Some(b) ==> a != b))
    &&& (l.north matches Some(a) ==> (l.west matches Some(b) ==> a != b))
    &&& (l.south matches Some(a) ==> (l.east matches Some(b) ==> a != b))
    &&& (l.south matches Some(a) ==> (l.west matches Some(b) ==> a != b))
    &&& (l.east matches Some(a) ==> (l.west matches Some(b) ==> a != b))
}

/// The first of the links of a cell, in the order north, south, east,
/// west.
pub open spec fn first_link(l: Links) -> int {
    if l.north is Some {
        l.north->0 as int
    } else if l.south is Some {
        l.south->0 as int
    } else if l.east is Some {
        l.east->0 as int
    } else {
        l.west->0 as int
    }
}

/// The second of the links of a cell, in the same order.
pub open spec fn second_link(l: Links) -> int {
    if l.north is Some {
        if l.south is Some {
            l.south->0 as int
        } else if l.east is Some {
            l.east->0 as int
        } else {
            l.west->0 as int
        }
    } else if l.south is Some {
        if l.east is Some {
            l.east->0 as int
        } else {
            l.west->0 as int
        }
    } else {
        l.west->0 as int
    }
}

/// Of the two links of a cell, the one that does not lead to `from`.
pub open spec fn other_link(l: Links, from: int) -> int {
    if first_link(l) == from {
        second_link(l)
    } else {
        first_link(l)
    }
}

/// A cell with two links is joined to the cells of its first and its second
/// link and to no other.
pub proof fn lemma_two_links(l: Links, p: int)
    requires
        l.count() == 2,
        links_distinct(l, p),
    ensures
        first_link(l) != second_link(l),
        first_link(l) != p,
        second_link(l) != p,
        forall|q: int| l.joins(q) <==> (q == first_link(l) || q == second_link(l)),
{
}

/// Whether `adj` with the start `s` is a ring: a graph in which no link
/// leads back to its own cell or to the same cell as another link of the
/// cell, and every cell that can be reached from `s` has two links.
pub open spec fn is_ring(adj: Seq<Links>, s: int) -> bool {
    &&& is_graph(adj)
    &&& 0 <= s < adj.len()
    &&& forall|p: int| 0 <= p < adj.len() ==> links_distinct(#[trigger] adj[p], p)
    &&& forall|p: int|
        0 <= p < adj.len() && reachable_from(adj, s, p) ==> (#[trigger] adj[p]).count() == 2
}

/// The cell that a walk from `s` stands on after `k` steps: the first step
/// goes along the first link of `s`, or along the second if `side` is not
/// set; every further step goes along the link that does not lead back.
pub open spec fn walk(adj: Seq<Links>, s: int, side: bool, k: nat) -> int
    decreases k,
{
    if k == 0 {
        s
    } else if k == 1 {
        if side {
            first_link(adj[s])
        } else {
            second_link(adj[s])
        }
    } else {
        other_link(adj[walk(adj, s, side, (k - 1) as nat)], walk(adj, s, side, (k - 2) as nat))
    }
}

/// Whether the cells at distance `j` from `s` are the two cells that the
/// two walks stand on after `j` steps, and these differ.
pub open spec fn layer_ok(adj: Seq<Links>, s: int, j: nat) -> bool {
    let x = walk(adj, s, true, j);
    let y = walk(adj, s, false, j);
    &&& j >= 1
    &&& is_distance(adj, s, x, j)
    &&& is_distance(adj, s, y, j)
    &&& x != y
    &&& joined(adj, walk(adj, s, true, (j - 1) as nat), x)
    &&& joined(adj, walk(adj, s, false, (j - 1) as nat), y)
    &&& forall|p: int| is_distance(adj, s, p, j) ==> p == x || p == y
}

/// Whether every layer from the first to the `k`th is made of the two
/// cells of the walks.
pub open spec fn layered(adj: Seq<Links>, s: int, k: nat) -> bool {
    forall|j: nat| 1 <= j <= k ==> #[trigger] layer_ok(adj, s, j)
}

/// A cell at distance `k + 1` is joined to a cell at distance `k`.
pub proof fn lemma_parent(adj: Seq<Links>, s: int, p: int, k: nat) -> (q: int)
    requires
        is_graph(adj),
        is_distance(adj, s, p, k + 1),
    ensures
        joined(adj, p, q),
        joined(adj, q, p),
        is_distance(adj, s, q, k),
{
    assert(reach(adj, s, ((k + 1) - 1) as nat, p) == reach(adj, s, k, p));
    let l = adj[p];
    let q: int = if l.north is Some && reach(adj, s, k, l.north->0 as int) {
        l.north->0 as int
    } else if l.south is Some && reach(adj, s, k, l.south->0 as int) {
        l.south->0 as int
    } else if l.east is Some && reach(adj, s, k, l.east->0 as int) {
        l.east->0 as int
    } else {
        l.west->0 as int
    };
    assert(joined(adj, p, q));
    lemma_joined_symmetric(adj, p, q);
    if k > 0 && reach(adj, s, (k - 1) as nat, q) {
        lemma_reach_step(adj, s, (k - 1) as nat, q, p);
    }
    q
}

/// A cell reached within `k` steps has a distance of at most `k`.
pub proof fn lemma_has_distance(adj: Seq<Links>, s: int, p: int, k: nat) -> (d: nat)
    requires
        reach(adj, s, k, p),
    ensures
        d <= k,
        is_distance(adj, s, p, d),
    decreases k,
{
    if k == 0 {
        0
    } else if reach(adj, s, (k - 1) as nat, p) {
        lemma_has_distance(adj, s, p, (k - 1) as nat)
    } else {
        k
    }
}

/// A cell has one distance.
pub proof fn lemma_one_distance(adj: Seq<Links>, s: int, p: int, a: nat, b: nat)
    requires
        is_distance(adj, s, p, a),
        is_distance(adj, s, p, b),
    ensures
        a == b,
{
    if a < b {
        lemma_reach_mono(adj, s, a, (b - 1) as nat, p);
    } else if b < a {
        lemma_reach_mono(adj, s, b, (a - 1) as nat, p);
    }
}

/// The distances of two joined cells differ by one at most.
pub proof fn lemma_joined_distances(adj: Seq<Links>, s: int, p: int, q: int, a: nat, b: nat)
    requires
        is_graph(adj),
        joined(adj, p, q),
        is_distance(adj, s, p, a),
        is_distance(adj, s, q, b),
    ensures
        b <= a + 1,
        a <= b + 1,
{
    lemma_joined_symmetric(adj, p, q);
    lemma_reach_step(adj, s, a, p, q);
    if b > a + 1 {
        lemma_reach_mono(adj, s, a + 1, (b - 1) as nat, q);
    }
    lemma_reach_step(adj, s, b, q, p);
    if a > b + 1 {
        lemma_reach_mono(adj, s, b + 1, (a - 1) as nat, p);
    }
}

/// The first layer of a ring is made of the two cells that the start is
/// joined to.
pub proof fn lemma_first_layer(adj: Seq<Links>, s: int)
    requires
        is_ring(adj, s),
    ensures
        layered(adj, s, 1),
{
    assert(reach(adj, s, 0, s));
    assert(reachable_from(adj, s, s));
    let l = adj[s];
    lemma_two_links(l, s);
    let x = walk(adj, s, true, 1);
    let y = walk(adj, s, false, 1);
    assert(l.joins(x) && l.joins(y));
    assert(joined(adj, s, x) && joined(adj, s, y)) by {
        assert(adj[s].joins(x));
    }
    lemma_reach_step(adj, s, 0, s, x);
    lemma_reach_step(adj, s, 0, s, y);
    assert(walk(adj, s, true, 0) == s && walk(adj, s, false, 0) == s);
    assert forall|p: int| is_distance(adj, s, p, 1) implies p == x || p == y by {
        let q = lemma_parent(adj, s, p, 0);
        assert(q == s);
        assert(l.joins(p));
    }
    assert(layer_ok(adj, s, 1));
}

/// A cell of a ring that is joined to two different cells is joined to no
/// third.
pub proof fn lemma_two_neighbours(adj: Seq<Links>, s: int, p: int, a: int, b: int)
    requires
        is_ring(adj, s),
        reachable_from(adj, s, p),
        joined(adj, p, a),
        joined(adj, p, b),
        a != b,
    ensures
        forall|q: int| joined(adj, p, q) <==> (q == a || q == b),
{
    let l = adj[p];
    lemma_two_links(l, p);
    assert(l.count() == 2);
    assert forall|q: int| joined(adj, p, q) <==> (q == a || q == b) by {
        if joined(adj, p, q) {
            assert(l.joins(q));
        }
    }
}

/// The next step of a walk leads to a cell that the cell of the walk is
/// joined to, and not back; the cell is joined to the cell before it on the
/// walk, to the next, and to no other.
pub proof fn lemma_walk_step(adj: Seq<Links>, s: int, side: bool, k: nat)
    requires
        is_ring(adj, s),
        k >= 1,
        reachable_from(adj, s, walk(adj, s, side, k)),
        joined(adj, walk(adj, s, side, (k - 1) as nat), walk(adj, s, side, k)),
    ensures
        joined(adj, walk(adj, s, side, k), walk(adj, s, side, k + 1)),
        walk(adj, s, side, k + 1) != walk(adj, s, side, (k - 1) as nat),
        walk(adj, s, side, k + 1) != walk(adj, s, side, k),
        forall|q: int|
            joined(adj, walk(adj, s, side, k), q) <==> (q == walk(adj, s, side, (k - 1) as nat)
                || q == walk(adj, s, side, k + 1)),
{
    let back = walk(adj, s, side, (k - 1) as nat);
    let here = walk(adj, s, side, k);
    let next = walk(adj, s, side, k + 1);
    let l = adj[here];
    assert(walk(adj, s, side, ((k + 1) - 1) as nat) == here);
    assert(walk(adj, s, side, ((k + 1) - 2) as nat) == back);
    assert(next == other_link(l, back));
    lemma_joined_symmetric(adj, back, here);
    lemma_two_links(l, here);
    assert(l.joins(back));
    assert(l.joins(next));
    assert(l.joins(next) ==> joined(adj, here, next)) by {
        let n = adj[here];
    }
    lemma_two_neighbours(adj, s, here, back, next);
}

/// Whether no cell is at distance `m` from the start.
pub open spec fn no_cell_at(adj: Seq<Links>, s: int, m: nat) -> bool {
    forall|p: int| !#[trigger] is_distance(adj, s, p, m)
}

/// Whether the cell `z` alone is at distance `m` from the start.
pub open spec fn one_cell_at(adj: Seq<Links>, s: int, m: nat, z: int) -> bool {
    is_distance(adj, s, z, m) && forall|p: int| #[trigger] is_distance(adj, s, p, m) ==> p == z
}

/// Whether the ring closes after `k` layers on a link between the two
/// cells of the `k`th layer: no cell is farther from the start than `k`.
pub open spec fn ends_odd(adj: Seq<Links>, s: int, k: nat) -> bool {
    no_cell_at(adj, s, k + 1)
}

/// Whether the ring closes after `k` layers on one cell that both walks
/// come to: that cell alone is at distance `k + 1` from the start, and none
/// is farther.
pub open spec fn ends_even(adj: Seq<Links>, s: int, k: nat) -> bool {
    let z = walk(adj, s, true, k + 1);
    &&& z == walk(adj, s, false, k + 1)
    &&& one_cell_at(adj, s, k + 1, z)
    &&& no_cell_at(adj, s, k + 2)
}

/// The cell of a walk after `j` steps is at distance `j`, for every `j` up
/// to the last layer.
pub proof fn lemma_walk_distance(adj: Seq<Links>, s: int, side: bool, k: nat, j: nat)
    requires
        is_ring(adj, s),
        layered(adj, s, k),
        j <= k,
    ensures
        is_distance(adj, s, walk(adj, s, side, j), j),
        reachable_from(adj, s, walk(adj, s, side, j)),
{
    if j == 0 {
        assert(reach(adj, s, 0, s));
    } else {
        assert(layer_ok(adj, s, j));
    }
    assert(reach(adj, s, j, walk(adj, s, side, j)));
}

/// Where the next cell of one walk is not a new cell, it is the cell of
/// the other walk.
proof fn lemma_next_cell(adj: Seq<Links>, s: int, side: bool, k: nat)
    requires
        is_ring(adj, s),
        k >= 1,
        layered(adj, s, k),
    ensures
        is_distance(adj, s, walk(adj, s, side, k + 1), k + 1) || walk(adj, s, side, k + 1) == walk(
            adj,
            s,
            !side,
            k,
        ),
{
    let back = walk(adj, s, side, (k - 1) as nat);
    let here = walk(adj, s, side, k);
    let next = walk(adj, s, side, k + 1);
    let there = walk(adj, s, !side, k);
    assert(layer_ok(adj, s, k));
    lemma_walk_distance(adj, s, side, k, k);
    lemma_walk_distance(adj, s, side, k, (k - 1) as nat);
    lemma_walk_distance(adj, s, !side, k, k);
    lemma_walk_step(adj, s, side, k);
    lemma_reach_step(adj, s, k, here, next);
    let d = lemma_has_distance(adj, s, next, k + 1);
    lemma_joined_distances(adj, s, here, next, k, d);
    if d == k {
        // The layer holds the two cells of the walks, and the next cell is
        // not the one it comes from.
        assert(next == here || next == there);
    } else if d + 1 == k {
        if k == 1 {
            assert(is_distance(adj, s, s, 0));
            lemma_one_distance(adj, s, next, d, 0);
            assert(reach(adj, s, 0, next));
            assert(next == s);
            assert(back == s);
        } else {
            let j = (k - 1) as nat;
            assert(layer_ok(adj, s, j));
            let other_back = walk(adj, s, !side, j);
            assert(next == back || next == other_back);
            // The cell before the cell of the other walk would be joined
            // to three cells: the one before it, the cell of the other
            // walk, and the cell of this one.
            let before = walk(adj, s, !side, (j - 1) as nat);
            lemma_walk_distance(adj, s, !side, k, j);
            lemma_walk_distance(adj, s, !side, k, (j - 1) as nat);
            lemma_walk_step(adj, s, !side, j);
            lemma_joined_symmetric(adj, here, next);
            assert(joined(adj, other_back, here));
            lemma_one_distance_differs(adj, s, here, before, k, (j - 1) as nat);
            assert(here == before || here == there);
        }
    }
}

/// Cells at different distances differ.
pub proof fn lemma_one_distance_differs(adj: Seq<Links>, s: int, p: int, q: int, a: nat, b: nat)
    requires
        is_distance(adj, s, p, a),
        is_distance(adj, s, q, b),
        a != b,
    ensures
        p != q,
{
    if p == q {
        lemma_one_distance(adj, s, p, a, b);
    }
}

/// After a layer of two cells comes another such layer, or the ring
/// closes.
pub proof fn lemma_next_layer(adj: Seq<Links>, s: int, k: nat)
    requires
        is_ring(adj, s),
        k >= 1,
        layered(adj, s, k),
    ensures
        layer_ok(adj, s, k + 1) || ends_even(adj, s, k) || ends_odd(adj, s, k),
{
    let xm = walk(adj, s, true, (k - 1) as nat);
    let x = walk(adj, s, true, k);
    let xn = walk(adj, s, true, k + 1);
    let ym = walk(adj, s, false, (k - 1) as nat);
    let y = walk(adj, s, false, k);
    let yn = walk(adj, s, false, k + 1);
    assert(layer_ok(adj, s, k));
    lemma_walk_distance(adj, s, true, k, k);
    lemma_walk_distance(adj, s, false, k, k);
    lemma_walk_distance(adj, s, true, k, (k - 1) as nat);
    lemma_walk_distance(adj, s, false, k, (k - 1) as nat);
    lemma_walk_step(adj, s, true, k);
    lemma_walk_step(adj, s, false, k);
    lemma_next_cell(adj, s, true, k);
    lemma_next_cell(adj, s, false, k);
    lemma_one_distance_differs(adj, s, x, ym, k, (k - 1) as nat);
    lemma_one_distance_differs(adj, s, y, xm, k, (k - 1) as nat);
    if xn == y || yn == x {
        // The two cells of the layer are joined to one another.
        if xn == y {
            lemma_joined_symmetric(adj, x, y);
        } else {
            lemma_joined_symmetric(adj, y, x);
        }
        assert(joined(adj, x, y) && joined(adj, y, x));
        assert(xn == y && yn == x);
        let m = k + 1;
        assert forall|p: int| !#[trigger] is_distance(adj, s, p, m) by {
            if is_distance(adj, s, p, m) {
                let q = lemma_parent(adj, s, p, k);
                assert(q == x || q == y);
                assert(p == xm || p == xn || p == ym || p == yn);
                if p == xm {
                    lemma_one_distance(adj, s, p, k + 1, (k - 1) as nat);
                } else if p == ym {
                    lemma_one_distance(adj, s, p, k + 1, (k - 1) as nat);
                } else {
                    lemma_one_distance(adj, s, p, k + 1, k);
                }
            }
        }
    } else {
        assert(is_distance(adj, s, xn, k + 1) && is_distance(adj, s, yn, k + 1));
        let m = k + 1;
        assert forall|p: int| #[trigger] is_distance(adj, s, p, m) implies p == xn || p == yn by {
            let q = lemma_parent(adj, s, p, k);
            assert(q == x || q == y);
            assert(p == xm || p == xn || p == ym || p == yn);
            if p == xm || p == ym {
                lemma_one_distance(adj, s, p, k + 1, (k - 1) as nat);
            }
        }
        assert(walk(adj, s, true, ((k + 1) - 1) as nat) == x);
        assert(walk(adj, s, false, ((k + 1) - 1) as nat) == y);
        if xn == yn {
            let z = xn;
            assert(reach(adj, s, k + 1, z));
            lemma_joined_symmetric(adj, x, z);
            lemma_joined_symmetric(adj, y, z);
            lemma_two_neighbours(adj, s, z, x, y);
            let m2 = k + 2;
            assert forall|p: int| !#[trigger] is_distance(adj, s, p, m2) by {
                if is_distance(adj, s, p, m2) {
                    let q = lemma_parent(adj, s, p, k + 1);
                    assert(q == z);
                    assert(p == x || p == y);
                    lemma_one_distance(adj, s, p, k + 2, k);
                }
            }
            assert(ends_even(adj, s, k));
        } else {
            assert(layer_ok(adj, s, k + 1));
        }
    }
}

/// The start and the cells of the two walks up to the `k`th layer.
pub open spec fn ring_nodes(adj: Seq<Links>, s: int, k: nat) -> Seq<int>
    decreases k,
{
    if k == 0 {
        seq![s]
    } else {
        ring_nodes(adj, s, (k - 1) as nat).push(walk(adj, s, true, k)).push(
            walk(adj, s, false, k),
        )
    }
}

/// Whether the distance of `p` from the start is `k` at most.
pub open spec fn within_layers(adj: Seq<Links>, s: int, p: int, k: nat) -> bool {
    exists|j: nat| j <= k && #[trigger] is_distance(adj, s, p, j)
}

/// The distance of a cell whose distance is `k` at most.
pub proof fn lemma_within(adj: Seq<Links>, s: int, p: int, k: nat) -> (d: nat)
    requires
        within_layers(adj, s, p, k),
    ensures
        d <= k,
        is_distance(adj, s, p, d),
        reach(adj, s, d, p),
{
    choose|j: nat| j <= k && #[trigger] is_distance(adj, s, p, j)
}

/// A list without repetition stays one when an element is added that it
/// does not hold, and then holds that element besides its own.
pub proof fn lemma_push_fresh(list: Seq<int>, e: int)
    requires
        list.no_duplicates(),
        !list.contains(e),
    ensures
        list.push(e).no_duplicates(),
        forall|p: int| #[trigger] list.push(e).contains(p) <==> (list.contains(p) || p == e),
{
    let more = list.push(e);
    assert forall|a: int, b: int| 0 <= a < more.len() && 0 <= b < more.len() && a != b implies more[a]
        != more[b] by {
        if a < list.len() {
            assert(list.contains(list[a]));
        }
        if b < list.len() {
            assert(list.contains(list[b]));
        }
    }
    assert forall|p: int| #[trigger] more.contains(p) <==> (list.contains(p) || p == e) by {
        if more.contains(p) {
            let i = choose|i: int| 0 <= i < more.len() && more[i] == p;
            if i < list.len() {
                assert(list[i] == p);
            }
        }
        if list.contains(p) {
            let i = choose|i: int| 0 <= i < list.len() && list[i] == p;
            assert(more[i] == p);
        }
        if p == e {
            assert(more[more.len() - 1] == p);
        }
    }
}

/// The cells of the walks up to the `k`th layer are `2 k + 1` different
/// cells of the graph: those whose distance from the start is `k` at most.
pub proof fn lemma_ring_nodes(adj: Seq<Links>, s: int, k: nat)
    requires
        0 <= s < adj.len(),
        layered(adj, s, k),
    ensures
        ring_nodes(adj, s, k).len() == 2 * k + 1,
        ring_nodes(adj, s, k).no_duplicates(),
        forall|i: int|
            0 <= i < ring_nodes(adj, s, k).len() ==> 0 <= #[trigger] ring_nodes(adj, s, k)[i]
                < adj.len(),
        forall|p: int| #[trigger]
            ring_nodes(adj, s, k).contains(p) <==> within_layers(adj, s, p, k),
    decreases k,
{
    let nodes = ring_nodes(adj, s, k);
    if k == 0 {
        assert(reach(adj, s, 0, s));
        assert(is_distance(adj, s, s, 0));
        assert forall|p: int| #[trigger] nodes.contains(p) <==> within_layers(adj, s, p, 0) by {
            if nodes.contains(p) {
                assert(p == s);
                assert(within_layers(adj, s, p, 0));
            }
            if within_layers(adj, s, p, 0) {
                let d = lemma_within(adj, s, p, 0);
                assert(nodes[0] == p);
            }
        }
    } else {
        let j = (k - 1) as nat;
        let before = ring_nodes(adj, s, j);
        let x = walk(adj, s, true, k);
        let y = walk(adj, s, false, k);
        assert(layered(adj, s, j)) by {
            assert forall|i: nat| 1 <= i <= j implies #[trigger] layer_ok(adj, s, i) by {
                assert(layer_ok(adj, s, i));
            }
        }
        lemma_ring_nodes(adj, s, j);
        assert(layer_ok(adj, s, k));
        let mid = before.push(x);
        assert(nodes == mid.push(y));
        if before.contains(x) {
            assert(within_layers(adj, s, x, j));
            let i = lemma_within(adj, s, x, j);
            lemma_one_distance(adj, s, x, i, k);
        }
        lemma_push_fresh(before, x);
        if mid.contains(y) {
            assert(before.contains(y));
            assert(within_layers(adj, s, y, j));
            let i = lemma_within(adj, s, y, j);
            lemma_one_distance(adj, s, y, i, k);
        }
        lemma_push_fresh(mid, y);
        assert forall|p: int| #[trigger] nodes.contains(p) <==> within_layers(adj, s, p, k) by {
            if nodes.contains(p) {
                if before.contains(p) {
                    assert(within_layers(adj, s, p, j));
                    let d = lemma_within(adj, s, p, j);
                    assert(d <= k && is_distance(adj, s, p, d));
                } else {
                    assert(p == x || p == y);
                    assert(is_distance(adj, s, p, k));
                }
                assert(within_layers(adj, s, p, k));
            }
            if within_layers(adj, s, p, k) {
                let d = lemma_within(adj, s, p, k);
                if d == k {
                    assert(p == x || p == y);
                } else {
                    assert(d <= j && is_distance(adj, s, p, d));
                    assert(within_layers(adj, s, p, j));
                    assert(before.contains(p));
                }
            }
        }
        assert forall|i: int| 0 <= i < nodes.len() implies 0 <= #[trigger] nodes[i]
            < adj.len() by {
            if i < before.len() {
                assert(nodes[i] == before[i]);
            }
        }
    }
}

/// Clearing a set flag takes one from the count of set flags.
pub proof fn lemma_count_true_clear(flags: Seq<bool>, i: int)
    requires
        0 <= i < flags.len(),
        flags[i],
    ensures
        count_true(flags.update(i, false)) + 1 == count_true(flags),
    decreases flags.len(),
{
    let after = flags.update(i, false);
    if i == flags.len() - 1 {
        assert(after.drop_last() == flags.drop_last());
    } else {
        lemma_count_true_clear(flags.drop_last(), i);
        assert(after.drop_last() == flags.drop_last().update(i, false));
    }
}

/// Where no flag is set, the count of set flags is zero.
pub proof fn lemma_count_true_none(flags: Seq<bool>)
    requires
        forall|i: int| 0 <= i < flags.len() ==> !flags[i],
    ensures
        count_true(flags) == 0,
    decreases flags.len(),
{
    if flags.len() > 0 {
        lemma_count_true_none(flags.drop_last());
    }
}

/// Where the set flags are those at the places that a list without
/// repetition names, there are as many set flags as the list is long.
pub proof fn lemma_count_list(flags: Seq<bool>, list: Seq<int>)
    requires
        list.no_duplicates(),
        forall|i: int| 0 <= i < list.len() ==> 0 <= #[trigger] list[i] < flags.len(),
        forall|p: int| 0 <= p < flags.len() ==> (flags[p] <==> list.contains(p)),
    ensures
        count_true(flags) == list.len(),
    decreases list.len(),
{
    if list.len() == 0 {
        lemma_count_true_none(flags);
    } else {
        let e = list.last();
        let rest = list.drop_last();
        let cleared = flags.update(e, false);
        assert(list[list.len() - 1] == e);
        assert(list.contains(e));
        assert forall|p: int| 0 <= p < cleared.len() implies (cleared[p] <==> rest.contains(
            p,
        )) by {
            if p == e {
                if rest.contains(p) {
                    let i = choose|i: int| 0 <= i < rest.len() && rest[i] == p;
                    assert(list[i] == list[list.len() - 1]);
                }
            } else {
                if rest.contains(p) {
                    let i = choose|i: int| 0 <= i < rest.len() && rest[i] == p;
                    assert(list[i] == p);
                }
                if list.contains(p) {
                    let i = choose|i: int| 0 <= i < list.len() && list[i] == p;
                    assert(rest[i] == p);
                }
            }
        }
        assert(rest.no_duplicates());
        assert forall|i: int| 0 <= i < rest.len() implies 0 <= #[trigger] rest[i]
            < cleared.len() by {
            assert(rest[i] == list[i]);
        }
        lemma_count_list(cleared, rest);
        lemma_count_true_clear(flags, e);
    }
}

/// The layers of a ring go on until the ring closes.
pub proof fn lemma_ring_closes(adj: Seq<Links>, s: int, k: nat) -> (last: nat)
    requires
        is_ring(adj, s),
        k >= 1,
        layered(adj, s, k),
    ensures
        last >= k,
        layered(adj, s, last),
        ends_even(adj, s, last) || ends_odd(adj, s, last),
    decreases adj.len() - 2 * k,
{
    lemma_ring_nodes(adj, s, k);
    let nodes = ring_nodes(adj, s, k);
    let flags = Seq::new(adj.len(), |p: int| nodes.contains(p));
    lemma_count_list(flags, nodes);
    lemma_count_true_bound(flags);
    lemma_next_layer(adj, s, k);
    if layer_ok(adj, s, k + 1) {
        assert(layered(adj, s, k + 1)) by {
            assert forall|j: nat| 1 <= j <= k + 1 implies #[trigger] layer_ok(adj, s, j) by {
                if j <= k {
                    assert(layer_ok(adj, s, j));
                }
            }
        }
        lemma_ring_nodes(adj, s, k + 1);
        let more = ring_nodes(adj, s, k + 1);
        let more_flags = Seq::new(adj.len(), |p: int| more.contains(p));
        lemma_count_list(more_flags, more);
        lemma_count_true_bound(more_flags);
        lemma_ring_closes(adj, s, k + 1)
    } else {
        k
    }
}

/// A cell at distance `d` has cells at every lesser distance behind it.
pub proof fn lemma_ancestor(adj: Seq<Links>, s: int, p: int, d: nat, m: nat) -> (q: int)
    requires
        is_graph(adj),
        is_distance(adj, s, p, d),
        m <= d,
    ensures
        is_distance(adj, s, q, m),
    decreases d - m,
{
    if m == d {
        p
    } else {
        let parent = lemma_parent(adj, s, p, (d - 1) as nat);
        lemma_ancestor(adj, s, parent, (d - 1) as nat, m)
    }
}

/// Where the walks have gone `k` layers and no cell lies beyond, the cells
/// that can be reached are `2 k + 1`.
proof fn lemma_count_odd(adj: Seq<Links>, s: int, flags: Seq<bool>, k: nat)
    requires
        is_graph(adj),
        0 <= s < adj.len(),
        layered(adj, s, k),
        no_cell_at(adj, s, k + 1),
        flags.len() == adj.len(),
        forall|p: int| 0 <= p < flags.len() ==> (flags[p] <==> reachable_from(adj, s, p)),
    ensures
        count_true(flags) == 2 * k + 1,
{
    lemma_ring_nodes(adj, s, k);
    let nodes = ring_nodes(adj, s, k);
    let m = k + 1;
    assert forall|p: int| 0 <= p < flags.len() implies (flags[p] <==> nodes.contains(p)) by {
        if flags[p] {
            let j = choose|j: nat| reach(adj, s, j, p);
            let dd = lemma_has_distance(adj, s, p, j);
            if dd > k {
                let q = lemma_ancestor(adj, s, p, dd, m);
            }
            assert(within_layers(adj, s, p, k));
        }
        if nodes.contains(p) {
            assert(within_layers(adj, s, p, k));
            let dd = lemma_within(adj, s, p, k);
            assert(reachable_from(adj, s, p));
        }
    }
    lemma_count_list(flags, nodes);
}

/// Where the walks have gone `k` layers and meet on one cell beyond, past
/// which no cell lies, the cells that can be reached are `2 k + 2`.
proof fn lemma_count_even(adj: Seq<Links>, s: int, flags: Seq<bool>, k: nat, z: int)
    requires
        is_graph(adj),
        0 <= s < adj.len(),
        layered(adj, s, k),
        one_cell_at(adj, s, k + 1, z),
        no_cell_at(adj, s, k + 2),
        flags.len() == adj.len(),
        forall|p: int| 0 <= p < flags.len() ==> (flags[p] <==> reachable_from(adj, s, p)),
    ensures
        count_true(flags) == 2 * k + 2,
{
    lemma_ring_nodes(adj, s, k);
    let nodes = ring_nodes(adj, s, k);
    let m = k + 1;
    let m2 = k + 2;
    let all = nodes.push(z);
    assert(reach(adj, s, m, z));
    lemma_reach_in_range(adj, s, m, z);
    if nodes.contains(z) {
        assert(within_layers(adj, s, z, k));
        let dd = lemma_within(adj, s, z, k);
        lemma_one_distance(adj, s, z, dd, m);
    }
    lemma_push_fresh(nodes, z);
    assert forall|i: int| 0 <= i < all.len() implies 0 <= #[trigger] all[i] < flags.len() by {
        if i < nodes.len() {
            assert(all[i] == nodes[i]);
        }
    }
    assert forall|p: int| 0 <= p < flags.len() implies (flags[p] <==> all.contains(p)) by {
        if flags[p] {
            let j = choose|j: nat| reach(adj, s, j, p);
            let dd = lemma_has_distance(adj, s, p, j);
            if dd > m {
                let q = lemma_ancestor(adj, s, p, dd, m2);
            }
            if dd == m {
                assert(p == z);
            } else {
                assert(within_layers(adj, s, p, k));
                assert(nodes.contains(p));
            }
        }
        if all.contains(p) {
            if nodes.contains(p) {
                assert(within_layers(adj, s, p, k));
                let dd = lemma_within(adj, s, p, k);
            }
            assert(reachable_from(adj, s, p));
        }
    }
    lemma_count_list(flags, all);
}

/// In a ring the cell farthest from the start is half the ring away: its
/// distance is half the number of cells that can be reached from the start,
/// rounded down.
pub proof fn lemma_ring_half(adj: Seq<Links>, s: int, flags: Seq<bool>, d: nat)
    requires
        is_ring(adj, s),
        flags.len() == adj.len(),
        forall|p: int| 0 <= p < flags.len() ==> (flags[p] <==> reachable_from(adj, s, p)),
        exists|p: int| #[trigger] is_distance(adj, s, p, d),
        forall|p: int, x: nat| #[trigger] is_distance(adj, s, p, x) ==> x <= d,
    ensures
        d == count_true(flags) / 2,
{
    lemma_first_layer(adj, s);
    let k = lemma_ring_closes(adj, s, 1);
    let x = walk(adj, s, true, k);
    assert(layer_ok(adj, s, k));
    assert(is_distance(adj, s, x, k));
    let far = choose|p: int| #[trigger] is_distance(adj, s, p, d);
    let m = k + 1;
    if ends_odd(adj, s, k) {
        if d > k {
            let q = lemma_ancestor(adj, s, far, d, m);
        }
        lemma_count_odd(adj, s, flags, k);
    } else {
        let z = walk(adj, s, true, m);
        assert(one_cell_at(adj, s, m, z));
        if d > m {
            let q = lemma_ancestor(adj, s, far, d, m + 1);
        }
        lemma_count_even(adj, s, flags, k, z);
    }
}

/// A network without a loose end is a ring.
pub proof fn lemma_network_is_ring(net: &Network)
    requires
        net.wf(),
        net.is_closed_loop(),
    ensures
        is_ring(net.links@, net.start()),
{
    net.lemma_is_graph();
    assert forall|p: int| 0 <= p < net.links.len() implies links_distinct(
        #[trigger] net.links@[p],
        p,
    ) by {
        Network::lemma_neighbour_cells(&net.grid, p);
        assert(net.links[p] == Network::links_of(&net.grid, p));
    }
}

/// In a network without a loose end, the greatest distance from the start
/// cell to a cell of the loop is half the number of cells of the loop,
/// rounded down.
pub proof fn lemma_farthest_is_half_the_loop(net: &Network, d: nat)
    requires
        net.wf(),
        net.is_closed_loop(),
        net.is_farthest(d),
    ensures
        d == count_true(net.loop_flags()) / 2,
{
    lemma_network_is_ring(net);
    lemma_ring_half(net.links@, net.start(), net.loop_flags(), d);
}

} // verus!
