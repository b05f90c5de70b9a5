//! Loop traversal: the distance from the start cell to every cell that can
//! be reached from it, and the set of those cells.

use vstd::prelude::*;
use crate::day10::network::{is_graph, joined, Links, Network};

verus! {

/// Whether the cell `p` can be reached from the cell `s` by walking along
/// at most `k` links.
pub open spec fn reach(adj: Seq<Links>, s: int, k: nat, p: int) -> bool
    decreases k,
{
    if k == 0 {
        p == s
    } else {
        ||| reach(adj, s, (k - 1) as nat, p)
        ||| (0 <= p < adj.len() && {
            let l = adj[p];
            ||| (l.north matches Some(q) && reach(adj, s, (k - 1) as nat, q as int))
            ||| (l.south matches Some(q) && reach(adj, s, (k - 1) as nat, q as int))
            ||| (l.east matches Some(q) && reach(adj, s, (k - 1) as nat, q as int))
            ||| (l.west matches Some(q) && reach(adj, s, (k - 1) as nat, q as int))
        })
    }
}

/// Whether `d` is the distance from `s` to `p`: the least number of links
/// of a walk from the one to the other.
pub open spec fn is_distance(adj: Seq<Links>, s: int, p: int, d: nat) -> bool {
    reach(adj, s, d, p) && (d == 0 || !reach(adj, s, (d - 1) as nat, p))
}

/// Whether some walk leads from `s` to `p`.
pub open spec fn reachable_from(adj: Seq<Links>, s: int, p: int) -> bool {
    exists|k: nat| reach(adj, s, k, p)
}

/// What can be reached within `a` steps can be reached within more.
pub proof fn lemma_reach_mono(adj: Seq<Links>, s: int, a: nat, b: nat, p: int)
    requires
        a <= b,
        reach(adj, s, a, p),
    ensures
        reach(adj, s, b, p),
    decreases b,
{
    if a < b {
        lemma_reach_mono(adj, s, a, (b - 1) as nat, p);
    }
}

/// A cell joined to one reached within `k` steps is reached within `k + 1`.
pub proof fn lemma_reach_step(adj: Seq<Links>, s: int, k: nat, q: int, p: int)
    requires
        is_graph(adj),
        joined(adj, q, p),
        reach(adj, s, k, q),
    ensures
        reach(adj, s, k + 1, p),
{
    let l = adj[q];
    let m = adj[p];
    assert(reach(adj, s, ((k + 1) - 1) as nat, q));
}

/// A cell is reached only from cells of the graph, and only where the start
/// is a cell of the graph.
pub proof fn lemma_reach_in_range(adj: Seq<Links>, s: int, k: nat, p: int)
    requires
        0 <= s < adj.len(),
        reach(adj, s, k, p),
    ensures
        0 <= p < adj.len(),
    decreases k,
{
    if k > 0 && reach(adj, s, (k - 1) as nat, p) {
        lemma_reach_in_range(adj, s, (k - 1) as nat, p);
    }
}

/// Once a step adds no cell, no number of steps adds one.
pub proof fn lemma_reach_closed(adj: Seq<Links>, s: int, k: nat, j: nat, p: int)
    requires
        k > 0,
        forall|q: int| reach(adj, s, k, q) ==> reach(adj, s, (k - 1) as nat, q),
        reach(adj, s, j, p),
    ensures
        reach(adj, s, (k - 1) as nat, p),
    decreases j,
{
    if j < k {
        lemma_reach_mono(adj, s, j, k, p);
    } else {
        let j1 = (j - 1) as nat;
        if reach(adj, s, j1, p) {
            lemma_reach_closed(adj, s, k, j1, p);
        } else {
            let l = adj[p];
            if l.north is Some && reach(adj, s, j1, l.north->0 as int) {
                lemma_reach_closed(adj, s, k, j1, l.north->0 as int);
            } else if l.south is Some && reach(adj, s, j1, l.south->0 as int) {
                lemma_reach_closed(adj, s, k, j1, l.south->0 as int);
            } else if l.east is Some && reach(adj, s, j1, l.east->0 as int) {
                lemma_reach_closed(adj, s, k, j1, l.east->0 as int);
            } else if l.west is Some && reach(adj, s, j1, l.west->0 as int) {
                lemma_reach_closed(adj, s, k, j1, l.west->0 as int);
            }
            assert(reach(adj, s, k, p));
        }
    }
}

/// The number of cells without a distance.
pub open spec fn blanks(dist: Seq<Option<usize>>) -> nat
    decreases dist.len(),
{
    if dist.len() == 0 {
        0
    } else {
        blanks(dist.drop_last()) + if dist.last() is None {
            1nat
        } else {
            0nat
        }
    }
}

proof fn lemma_blanks_fill(dist: Seq<Option<usize>>, i: int, d: usize)
    requires
        0 <= i < dist.len(),
        dist[i] is None,
    ensures
        blanks(dist.update(i, Some(d))) + 1 == blanks(dist),
    decreases dist.len(),
{
    let after = dist.update(i, Some(d));
    if i == dist.len() - 1 {
        assert(after.drop_last() == dist.drop_last());
    } else {
        lemma_blanks_fill(dist.drop_last(), i, d);
        assert(after.drop_last() == dist.drop_last().update(i, Some(d)));
    }
}

/// Whether every distance in `dist` is at most `k` and is the distance of
/// its cell from `s`.
pub open spec fn labels_sound(adj: Seq<Links>, s: int, dist: Seq<Option<usize>>, k: nat) -> bool {
    &&& dist.len() == adj.len()
    &&& forall|p: int|
        0 <= p < dist.len() ==> ((#[trigger] dist[p]) matches Some(d) ==> d <= k && is_distance(
            adj,
            s,
            p,
            d as nat,
        ))
}

/// Whether every cell reached within `k` steps has a distance in `dist`.
pub open spec fn labels_complete(adj: Seq<Links>, s: int, dist: Seq<Option<usize>>, k: nat) -> bool {
    forall|p: int| 0 <= p < dist.len() && #[trigger] reach(adj, s, k, p) ==> dist[p] is Some
}

/// Whether `front` lists exactly the cells whose distance in `dist` is `k`.
pub open spec fn is_level(dist: Seq<Option<usize>>, k: nat, front: Seq<usize>) -> bool {
    &&& forall|j: int|
        0 <= j < front.len() ==> (#[trigger] front[j]) < dist.len() && dist[front[j] as int]
            == Some(k as usize)
    &&& forall|p: int|
        0 <= p < dist.len() && #[trigger] dist[p] == Some(k as usize) ==> exists|j: int|
            0 <= j < front.len() && #[trigger] front[j] == p
}

/// Whether every cell joined to one of the first `upto` cells of `front`
/// has a distance in `dist`.
pub open spec fn is_expanded(
    adj: Seq<Links>,
    dist: Seq<Option<usize>>,
    front: Seq<usize>,
    upto: int,
) -> bool {
    forall|j: int, q: int|
        0 <= j < upto && #[trigger] joined(adj, #[trigger] front[j] as int, q) ==> dist[q] is Some
}

/// The cells that a cell is joined to.
pub fn neighbours(l: &Links) -> (r: Vec<usize>)
    ensures
        forall|q: int| l.joins(q) <==> exists|t: int| 0 <= t < r.len() && #[trigger] r[t] == q,
        r.len() == l.count(),
{
    let mut r: Vec<usize> = Vec::new();
    if let Some(q) = l.north {
        r.push(q);
    }
    if let Some(q) = l.south {
        r.push(q);
    }
    if let Some(q) = l.east {
        r.push(q);
    }
    if let Some(q) = l.west {
        r.push(q);
    }
    proof {
        assert forall|q: int| l.joins(q) implies exists|t: int|
            0 <= t < r.len() && #[trigger] r[t] == q by {
            if l.north matches Some(n) && n == q {
                assert(r[0] == q);
            } else if l.south matches Some(n) && n == q {
                let t = if l.north is Some {
                    1int
                } else {
                    0int
                };
                assert(r[t] == q);
            } else if l.east matches Some(n) && n == q {
                let t = (if l.north is Some {
                    1int
                } else {
                    0int
                }) + (if l.south is Some {
                    1int
                } else {
                    0int
                });
                assert(r[t] == q);
            } else {
                assert(r[r.len() - 1] == q);
            }
        }
    }
    r
}

fn blank_labels(n: usize) -> (dist: Vec<Option<usize>>)
    ensures
        dist.len() == n,
        blanks(dist@) == n,
        forall|p: int| 0 <= p < n ==> #[trigger] dist[p] is None,
{
    let mut dist: Vec<Option<usize>> = Vec::new();
    let mut i: usize = 0;
    while i < n
        invariant
            i <= n,
            dist.len() == i,
            blanks(dist@) == i,
            forall|p: int| 0 <= p < i ==> #[trigger] dist[p] is None,
        decreases n - i,
    {
        let ghost before = dist@;
        dist.push(None);
        assert(dist@.drop_last() == before);
        i += 1;
    }
    dist
}

/// The distance from the start cell to every cell: for a cell that can be
/// reached from the start, the least number of links of a walk to it (zero
/// for the start itself); for any other cell, `None`.
pub fn shortest_distances(net: &Network) -> (dist: Vec<Option<usize>>)
    requires
        net.wf(),
    ensures
        dist.len() == net.links.len(),
        forall|p: int|
            0 <= p < dist.len() ==> match #[trigger] dist[p] {
                Some(d) => is_distance(net.links@, net.start(), p, d as nat),
                None => !reachable_from(net.links@, net.start(), p),
            },
{
    let ghost adj = net.links@;
    let ghost s = net.start();
    proof {
        net.lemma_is_graph();
    }
    let n = net.links.len();
    let start = net.grid.start;
    let mut dist = blank_labels(n);
    proof {
        lemma_blanks_fill(dist@, start as int, 0);
    }
    dist.set(start, Some(0));
    let mut frontier: Vec<usize> = Vec::new();
    frontier.push(start);
    let mut k: usize = 0;
    assert(is_level(dist@, 0, frontier@)) by {
        assert(frontier[0] == start);
    }
    while frontier.len() > 0
        invariant
            adj == net.links@,
            s == start,
            n == adj.len(),
            start < n,
            is_graph(adj),
            labels_sound(adj, s, dist@, k as nat),
            labels_complete(adj, s, dist@, k as nat),
            is_level(dist@, k as nat, frontier@),
            k + blanks(dist@) + (if frontier.len() > 0 {
                1int
            } else {
                0int
            }) <= n,
            frontier.len() == 0 ==> k > 0,
        decreases
                blanks(dist@) + (if frontier.len() > 0 {
                    1int
                } else {
                    0int
                }),
    {
        let ghost dist0 = dist@;
        let mut next: Vec<usize> = Vec::new();
        let mut fi: usize = 0;
        while fi < frontier.len()
            invariant
                adj == net.links@,
                s == start,
                n == adj.len(),
                start < n,
                is_graph(adj),
                fi <= frontier.len(),
                k + 1 + blanks(dist0) <= n,
                labels_sound(adj, s, dist@, (k + 1) as nat),
                labels_complete(adj, s, dist@, k as nat),
                is_level(dist@, k as nat, frontier@),
                is_level(dist@, (k + 1) as nat, next@),
                is_expanded(adj, dist@, frontier@, fi as int),
                blanks(dist@) + next.len() == blanks(dist0),
            decreases frontier.len() - fi,
        {
            let u = frontier[fi];
            let nbrs = neighbours(&net.links[u]);
            proof {
                assert forall|t: int| 0 <= t < nbrs.len() implies (#[trigger] nbrs[t]) < n by {
                    let l = adj[u as int];
                    assert(l.joins(nbrs[t] as int));
                }
            }
            let mut ni: usize = 0;
            while ni < nbrs.len()
                invariant
                    adj == net.links@,
                    s == start,
                    n == adj.len(),
                    start < n,
                    is_graph(adj),
                    fi < frontier.len(),
                    u == frontier[fi as int],
                    u < n,
                    ni <= nbrs.len(),
                    forall|q: int|
                        adj[u as int].joins(q) <==> exists|t: int|
                            0 <= t < nbrs.len() && #[trigger] nbrs[t] == q,
                    k + 1 + blanks(dist0) <= n,
                    labels_sound(adj, s, dist@, (k + 1) as nat),
                    labels_complete(adj, s, dist@, k as nat),
                    is_level(dist@, k as nat, frontier@),
                    is_level(dist@, (k + 1) as nat, next@),
                    is_expanded(adj, dist@, frontier@, fi as int),
                    forall|t: int| 0 <= t < nbrs.len() ==> (#[trigger] nbrs[t]) < n,
                    forall|t: int| 0 <= t < ni ==> dist[(#[trigger] nbrs[t]) as int] is Some,
                    blanks(dist@) + next.len() == blanks(dist0),
                decreases nbrs.len() - ni,
            {
                let q = nbrs[ni];
                assert(adj[u as int].joins(q as int));
                assert(joined(adj, u as int, q as int)) by {
                    let l = adj[u as int];
                }
                if dist[q].is_none() {
                    let ghost before = dist@;
                    let ghost before_next = next@;
                    proof {
                        assert(is_distance(adj, s, u as int, k as nat));
                        lemma_reach_step(adj, s, k as nat, u as int, q as int);
                        lemma_blanks_fill(dist@, q as int, (k + 1) as usize);
                    }
                    dist.set(q, Some(k + 1));
                    next.push(q);
                    proof {
                        assert(is_distance(adj, s, q as int, (k + 1) as nat));
                        assert(is_level(dist@, (k + 1) as nat, next@)) by {
                            assert forall|p: int|
                                0 <= p < dist.len() && #[trigger] dist[p] == Some(
                                    (k + 1) as usize,
                                ) implies exists|j: int|
                                0 <= j < next.len() && #[trigger] next[j] == p by {
                                if p == q {
                                    assert(next[next.len() - 1] == p);
                                } else {
                                    assert(before[p] == Some((k + 1) as usize));
                                    let j = choose|j: int|
                                        0 <= j < before_next.len() && #[trigger] before_next[j]
                                            == p;
                                    assert(next[j] == p);
                                }
                            }
                            assert forall|j: int| 0 <= j < next.len() implies (
                            #[trigger] next[j]) < dist.len() && dist[next[j] as int] == Some(
                                (k + 1) as usize,
                            ) by {
                                if j < before_next.len() {
                                    assert(before_next[j] == next[j]);
                                }
                            }
                        }
                        assert(is_level(dist@, k as nat, frontier@)) by {
                            assert forall|p: int|
                                0 <= p < dist.len() && #[trigger] dist[p] == Some(
                                    k as usize,
                                ) implies exists|j: int|
                                0 <= j < frontier.len() && #[trigger] frontier[j] == p by {
                                assert(before[p] == Some(k as usize));
                            }
                        }
                        assert(labels_complete(adj, s, dist@, k as nat)) by {
                            assert forall|p: int|
                                0 <= p < dist.len() && #[trigger] reach(
                                    adj,
                                    s,
                                    k as nat,
                                    p,
                                ) implies dist[p] is Some by {
                                assert(before[p] is Some);
                            }
                        }
                        assert(is_expanded(adj, dist@, frontier@, fi as int)) by {
                            assert forall|j: int, q0: int|
                                0 <= j < fi && #[trigger] joined(
                                    adj,
                                    #[trigger] frontier[j] as int,
                                    q0,
                                ) implies dist[q0] is Some by {
                                assert(before[q0] is Some);
                            }
                        }
                        assert forall|t: int| 0 <= t < ni + 1 implies dist[(
                        #[trigger] nbrs[t]) as int] is Some by {
                            if t < ni {
                                assert(before[nbrs[t] as int] is Some);
                            }
                        }
                    }
                }
                ni += 1;
            }
            proof {
                assert(is_expanded(adj, dist@, frontier@, fi + 1)) by {
                    assert forall|j: int, q0: int|
                        0 <= j < fi + 1 && #[trigger] joined(
                            adj,
                            #[trigger] frontier[j] as int,
                            q0,
                        ) implies dist[q0] is Some by {
                        if j == fi {
                            assert(adj[u as int].joins(q0));
                            let t = choose|t: int| 0 <= t < nbrs.len() && #[trigger] nbrs[t] == q0;
                            assert(dist[nbrs[t] as int] is Some);
                        }
                    }
                }
            }
            fi += 1;
        }
        proof {
            assert(labels_complete(adj, s, dist@, (k + 1) as nat)) by {
                assert forall|p: int|
                    0 <= p < dist.len() && #[trigger] reach(
                        adj,
                        s,
                        (k + 1) as nat,
                        p,
                    ) implies dist[p] is Some by {
                    lemma_complete_step(adj, s, dist@, k as nat, frontier@, p);
                }
            }
        }
        frontier = next;
        k = k + 1;
    }
    proof {
        assert forall|q: int| reach(adj, s, k as nat, q) implies reach(
            adj,
            s,
            (k - 1) as nat,
            q,
        ) by {
            lemma_reach_in_range(adj, s, k as nat, q);
            assert(dist[q] is Some);
            let d = dist[q]->0;
            assert(is_distance(adj, s, q, d as nat));
            if d == k {
                let j = choose|j: int| 0 <= j < frontier.len() && #[trigger] frontier[j] == q;
            }
            lemma_reach_mono(adj, s, d as nat, (k - 1) as nat, q);
        }
        assert forall|p: int| 0 <= p < dist.len() && (#[trigger] dist[p]) is None implies
            !reachable_from(adj, s, p) by {
            if reachable_from(adj, s, p) {
                let j = choose|j: nat| reach(adj, s, j, p);
                lemma_reach_closed(adj, s, k as nat, j, p);
                lemma_reach_mono(adj, s, (k - 1) as nat, k as nat, p);
            }
        }
    }
    dist
}

proof fn lemma_complete_step(
    adj: Seq<Links>,
    s: int,
    dist: Seq<Option<usize>>,
    k: nat,
    front: Seq<usize>,
    p: int,
)
    requires
        is_graph(adj),
        0 <= p < dist.len(),
        labels_sound(adj, s, dist, k + 1),
        labels_complete(adj, s, dist, k),
        is_level(dist, k, front),
        is_expanded(adj, dist, front, front.len() as int),
        reach(adj, s, k + 1, p),
    ensures
        dist[p] is Some,
{
    let k0 = ((k + 1) - 1) as nat;
    assert(k0 == k);
    if reach(adj, s, k, p) {
    } else {
        let l = adj[p];
        let q: int = if l.north is Some && reach(adj, s, k, l.north->0 as int) {
            l.north->0 as int
        } else if l.south is Some && reach(adj, s, k, l.south->0 as int) {
            l.south->0 as int
        } else if l.east is Some && reach(adj, s, k, l.east->0 as int) {
            l.east->0 as int
        } else {
            l.west->0 as int
        };
        assert(reach(adj, s, k, q));
        assert(joined(adj, p, q));
        crate::day10::network::lemma_joined_symmetric(adj, p, q);
        assert(dist[q] is Some);
        let d = dist[q]->0;
        assert(is_distance(adj, s, q, d as nat));
        if d == k {
            let j = choose|j: int| 0 <= j < front.len() && #[trigger] front[j] == q;
            assert(joined(adj, front[j] as int, p));
        } else if d < k {
            lemma_reach_step(adj, s, d as nat, q, p);
            lemma_reach_mono(adj, s, (d + 1) as nat, k, p);
        } else {
            assert(d == k + 1);
            assert(!reach(adj, s, k, q));
        }
    }
}

/// The cells that can be reached from the start cell, as a flag for every
/// cell: the loop through the start cell.
pub fn reachable(net: &Network) -> (on_loop: Vec<bool>)
    requires
        net.wf(),
    ensures
        on_loop.len() == net.links.len(),
        forall|p: int|
            0 <= p < on_loop.len() ==> (#[trigger] on_loop[p] <==> reachable_from(
                net.links@,
                net.start(),
                p,
            )),
{
    let dist = shortest_distances(net);
    let mut on_loop: Vec<bool> = Vec::new();
    let mut i: usize = 0;
    while i < dist.len()
        invariant
            i <= dist.len(),
            on_loop.len() == i,
            forall|p: int| 0 <= p < i ==> (#[trigger] on_loop[p] <==> dist[p] is Some),
        decreases dist.len() - i,
    {
        on_loop.push(dist[i].is_some());
        i += 1;
    }
    proof {
        assert forall|p: int| 0 <= p < on_loop.len() implies (#[trigger] on_loop[p]
            <==> reachable_from(net.links@, net.start(), p)) by {
            if dist[p] is Some {
                assert(reach(net.links@, net.start(), dist[p]->0 as nat, p));
            }
        }
    }
    on_loop
}

/// Whether `d` is the greatest distance in `dist`, or zero where `dist`
/// holds none.
pub open spec fn is_greatest(dist: Seq<Option<usize>>, d: nat) -> bool {
    &&& forall|p: int| 0 <= p < dist.len() ==> ((#[trigger] dist[p]) matches Some(x) ==> x <= d)
    &&& (d == 0 || exists|p: int| 0 <= p < dist.len() && #[trigger] dist[p] == Some(d as usize))
}

/// The greatest of the distances in `dist`.
pub fn farthest(dist: &Vec<Option<usize>>) -> (d: usize)
    ensures
        is_greatest(dist@, d as nat),
{
    let mut best: usize = 0;
    let mut i: usize = 0;
    while i < dist.len()
        invariant
            i <= dist.len(),
            forall|p: int| 0 <= p < i ==> ((#[trigger] dist[p]) matches Some(x) ==> x <= best),
            best == 0 || exists|p: int| 0 <= p < i && #[trigger] dist[p] == Some(best),
        decreases dist.len() - i,
    {
        if let Some(x) = dist[i] {
            if x > best {
                best = x;
                assert(dist[i as int] == Some(best));
            }
        }
        i += 1;
    }
    best
}

/// The number of flags that are set.
pub open spec fn count_true(flags: Seq<bool>) -> nat
    decreases flags.len(),
{
    if flags.len() == 0 {
        0
    } else {
        count_true(flags.drop_last()) + if flags.last() {
            1nat
        } else {
            0nat
        }
    }
}

/// No more flags are set than there are flags.
pub proof fn lemma_count_true_bound(flags: Seq<bool>)
    ensures
        count_true(flags) <= flags.len(),
    decreases flags.len(),
{
    if flags.len() > 0 {
        lemma_count_true_bound(flags.drop_last());
    }
}

/// Counts the flags that are set.
pub fn count_set(flags: &Vec<bool>) -> (n: usize)
    ensures
        n == count_true(flags@),
{
    let mut n: usize = 0;
    let mut i: usize = 0;
    while i < flags.len()
        invariant
            i <= flags.len(),
            n == count_true(flags@.take(i as int)),
            n <= i,
        decreases flags.len() - i,
    {
        assert(flags@.take(i + 1).drop_last() == flags@.take(i as int));
        if flags[i] {
            n += 1;
        }
        i += 1;
    }
    assert(flags@.take(flags.len() as int) == flags@);
    n
}

} // verus!
