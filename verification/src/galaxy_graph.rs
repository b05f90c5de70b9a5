//! A weighted, undirected graph kept in a `petgraph` graph, and what the
//! library needs of it: nodes that carry a character, at most one edge
//! between two nodes, and the cost of the cheapest way from a node to every
//! other.

use petgraph::algo::dijkstra;
use petgraph::graph::NodeIndex;
use petgraph::{Graph, Undirected};
use vstd::prelude::*;

verus! {

/// The type `Graph` of the crate `petgraph`.
#[verifier::external_type_specification]
#[verifier::external_body]
#[verifier::reject_recursive_types(N)]
#[verifier::reject_recursive_types(E)]
#[verifier::reject_recursive_types(Ty)]
#[verifier::reject_recursive_types(Ix)]
pub struct ExGraph<N, E, Ty, Ix>(Graph<N, E, Ty, Ix>);

/// The marker `Undirected` of the crate `petgraph`.
#[verifier::external_type_specification]
#[verifier::external_body]
pub struct ExUndirected(Undirected);

/// An edge as plain values: the two nodes it joins, and its weight.
pub type Edge = (nat, nat, nat);

/// The characters that the nodes of a graph carry, by the index of the
/// node.
pub uninterp spec fn graph_nodes(g: Graph<char, u64, Undirected>) -> Seq<char>;

/// The edges of a graph in the order in which they were added.
pub uninterp spec fn graph_edges(g: Graph<char, u64, Undirected>) -> Seq<Edge>;

/// Whether the edge joins the nodes `a` and `b`, in either direction.
pub open spec fn joins(e: Edge, a: nat, b: nat) -> bool {
    (e.0 == a && e.1 == b) || (e.0 == b && e.1 == a)
}

/// The place of the first of the first `n` edges that joins `a` and `b`.
pub open spec fn find_edge(edges: Seq<Edge>, a: nat, b: nat, n: nat) -> Option<int>
    decreases n,
{
    if n == 0 {
        None
    } else {
        match find_edge(edges, a, b, (n - 1) as nat) {
            Some(i) => Some(i),
            None => if joins(edges[n - 1], a, b) {
                Some(n - 1)
            } else {
                None
            },
        }
    }
}

/// The edges after an edge between `a` and `b` has been given the weight
/// `w`: the edge that joins them gets the weight, or, where none does, a new
/// edge from `a` to `b` is added at the end.
pub open spec fn put_edge(edges: Seq<Edge>, a: nat, b: nat, w: nat) -> Seq<Edge> {
    match find_edge(edges, a, b, edges.len()) {
        Some(i) => edges.update(i, (edges[i].0, edges[i].1, w)),
        None => edges.push((a, b, w)),
    }
}

/// Whether no two edges join the same two nodes.
pub open spec fn is_simple(edges: Seq<Edge>) -> bool {
    forall|i: int, j: int|
        0 <= i < edges.len() && 0 <= j < edges.len() && joins(
            #[trigger] edges[j],
            (#[trigger] edges[i]).0,
            edges[i].1,
        ) ==> i == j
}

/// Whether at most one edge joins `a` and `b`.
pub open spec fn at_most_one(edges: Seq<Edge>, a: nat, b: nat) -> bool {
    forall|i: int, j: int|
        0 <= i < edges.len() && 0 <= j < edges.len() && joins(#[trigger] edges[i], a, b) && joins(
            #[trigger] edges[j],
            a,
            b,
        ) ==> i == j
}

/// Whether some edge joins `a` and `b`.
pub open spec fn has_edge(edges: Seq<Edge>, a: nat, b: nat) -> bool {
    exists|i: int| 0 <= i < edges.len() && joins(#[trigger] edges[i], a, b)
}

/// The sum of the weights of the first `n` edges.
pub open spec fn weight_sum(edges: Seq<Edge>, n: nat) -> nat
    decreases n,
{
    if n == 0 {
        0
    } else {
        weight_sum(edges, (n - 1) as nat) + edges[n - 1].2
    }
}

/// Whether every edge joins nodes below `n` and weighs `w` at most.
pub open spec fn edges_within(edges: Seq<Edge>, n: nat, w: nat) -> bool {
    forall|i: int|
        0 <= i < edges.len() ==> (#[trigger] edges[i]).0 < n && edges[i].1 < n && edges[i].2 <= w
}

/// The node at the other end of an edge, seen from the node `v`; `None`
/// where the edge does not touch `v`.
pub open spec fn other_end(e: Edge, v: nat) -> Option<nat> {
    if e.0 == v {
        Some(e.1)
    } else if e.1 == v {
        Some(e.0)
    } else {
        None
    }
}

/// The node that a walk from `from` comes to after the first `n` of its
/// steps, each step the place of an edge that is walked along from the node
/// reached so far, in either direction; `None` where a step names no edge at
/// that node.
pub open spec fn way_end(edges: Seq<Edge>, from: nat, steps: Seq<int>, n: nat) -> Option<nat>
    decreases n,
{
    if n == 0 {
        Some(from)
    } else {
        match way_end(edges, from, steps, (n - 1) as nat) {
            Some(v) => if 0 <= steps[n - 1] < edges.len() {
                other_end(edges[steps[n - 1]], v)
            } else {
                None
            },
            None => None,
        }
    }
}

/// The sum of the weights of the edges of the first `n` steps of a walk.
pub open spec fn way_cost(edges: Seq<Edge>, steps: Seq<int>, n: nat) -> nat
    decreases n,
{
    if n == 0 {
        0
    } else {
        way_cost(edges, steps, (n - 1) as nat) + edges[steps[n - 1]].2
    }
}

/// Whether the steps are a way from `from` to `to`.
pub open spec fn is_way(edges: Seq<Edge>, from: nat, to: nat, steps: Seq<int>) -> bool {
    way_end(edges, from, steps, steps.len()) == Some(to)
}

/// Whether some way leads from `from` to `to`.
pub open spec fn can_reach(edges: Seq<Edge>, from: nat, to: nat) -> bool {
    exists|steps: Seq<int>| is_way(edges, from, to, steps)
}

/// Whether `cost` is the cost of the cheapest way from `from` to `to`:
/// some way costs as much, and none costs less.
pub open spec fn is_cheapest(edges: Seq<Edge>, from: nat, to: nat, cost: nat) -> bool {
    &&& exists|steps: Seq<int>| #[trigger]
        is_way(edges, from, to, steps) && way_cost(edges, steps, steps.len()) == cost
    &&& forall|steps: Seq<int>| #[trigger]
        is_way(edges, from, to, steps) ==> way_cost(edges, steps, steps.len()) >= cost
}

/// Whether `list` names every node below `n` to which a way leads from
/// `start`, each once and in any order, with the cost of the cheapest way to
/// it, and no other node.
pub open spec fn lists_cheapest(edges: Seq<Edge>, n: nat, start: nat, list: Seq<(usize, u64)>) -> bool {
    &&& forall|i: int|
        0 <= i < list.len() ==> (#[trigger] list[i]).0 < n && is_cheapest(
            edges,
            start,
            list[i].0 as nat,
            list[i].1 as nat,
        )
    &&& forall|i: int, j: int|
        0 <= i < j < list.len() ==> (#[trigger] list[i]).0 != (#[trigger] list[j]).0
    &&& forall|v: nat|
        v < n && #[trigger] can_reach(edges, start, v) ==> exists|i: int|
            0 <= i < list.len() && (#[trigger] list[i]).0 == v
}

/// No edges.
pub open spec fn no_edges() -> Seq<Edge> {
    Seq::empty()
}

/// No nodes.
pub open spec fn no_nodes() -> Seq<char> {
    Seq::empty()
}

/// `Graph::new_undirected`: a graph without nodes and edges.
#[verifier::external_body]
pub(crate) fn new_graph() -> (g: Graph<char, u64, Undirected>)
    ensures
        graph_nodes(g) == no_nodes(),
        graph_edges(g) == no_edges(),
{
    Graph::new_undirected()
}

/// `Graph::add_node`: adds a node that carries `c` and returns its index,
/// which is the number of nodes before. The graph counts its nodes in 32
/// bits and refuses a node beyond them.
#[verifier::external_body]
pub(crate) fn add_node(g: &mut Graph<char, u64, Undirected>, c: char) -> (i: usize)
    requires
        graph_nodes(*old(g)).len() < 0xffff_ffff,
    ensures
        i == graph_nodes(*old(g)).len(),
        graph_nodes(*final(g)) == graph_nodes(*old(g)).push(c),
        graph_edges(*final(g)) == graph_edges(*old(g)),
{
    g.add_node(c).index()
}

/// `Graph::node_weight`: the character that the node `a` carries.
#[verifier::external_body]
pub(crate) fn node_weight(g: &Graph<char, u64, Undirected>, a: usize) -> (c: char)
    requires
        a < graph_nodes(*g).len(),
    ensures
        c == graph_nodes(*g)[a as int],
{
    *g.node_weight(NodeIndex::new(a)).unwrap()
}

/// `Graph::update_edge`: gives the edge between `a` and `b` the weight `w`,
/// or adds such an edge where there is none. Both nodes must exist; the
/// graph counts its edges in 32 bits and refuses an edge beyond them. Where
/// several edges join the two nodes the crate changes the one that its
/// search comes to first; the contract leaves that case out.
#[verifier::external_body]
pub(crate) fn update_edge(g: &mut Graph<char, u64, Undirected>, a: usize, b: usize, w: u64)
    requires
        a < graph_nodes(*old(g)).len(),
        b < graph_nodes(*old(g)).len(),
        graph_edges(*old(g)).len() < 0xffff_ffff,
        at_most_one(graph_edges(*old(g)), a as nat, b as nat),
    ensures
        graph_nodes(*final(g)) == graph_nodes(*old(g)),
        graph_edges(*final(g)) == put_edge(graph_edges(*old(g)), a as nat, b as nat, w as nat),
{
    g.update_edge(NodeIndex::new(a), NodeIndex::new(b), w);
}

/// `petgraph::algo::dijkstra` from the node `start`, without a goal, with
/// the weight of an edge as its cost: the length of the shortest path from
/// `start` to every node that can be reached, listed in no stated order.
/// The crate adds costs in 64 bits; the sum of all weights must fit them.
#[verifier::external_body]
pub(crate) fn cheapest_ways(g: &Graph<char, u64, Undirected>, start: usize) -> (list: Vec<
    (usize, u64),
>)
    requires
        start < graph_nodes(*g).len(),
        weight_sum(graph_edges(*g), graph_edges(*g).len()) <= u64::MAX,
    ensures
        lists_cheapest(graph_edges(*g), graph_nodes(*g).len(), start as nat, list@),
{
    dijkstra(g, NodeIndex::new(start), None, |e| *e.weight())
        .into_iter()
        .map(|(node, cost)| (node.index(), cost))
        .collect()
}

/// The search finds an edge where one joins the two nodes, and what it
/// finds joins them.
pub proof fn lemma_find_edge(edges: Seq<Edge>, a: nat, b: nat, n: nat)
    requires
        n <= edges.len(),
    ensures
        find_edge(edges, a, b, n) matches Some(i) ==> 0 <= i < n && joins(edges[i], a, b),
        find_edge(edges, a, b, n) is None ==> forall|i: int|
            0 <= i < n ==> !joins(#[trigger] edges[i], a, b),
    decreases n,
{
    if n > 0 {
        lemma_find_edge(edges, a, b, (n - 1) as nat);
    }
}

/// Putting an edge keeps the edges simple, keeps every pair of nodes joined
/// that was joined, joins the two nodes, adds one edge at most, and none
/// where the two nodes were joined.
pub proof fn lemma_put_edge(edges: Seq<Edge>, a: nat, b: nat, w: nat)
    ensures
        is_simple(edges) ==> is_simple(put_edge(edges, a, b, w)),
        has_edge(put_edge(edges, a, b, w), a, b),
        forall|x: nat, y: nat| has_edge(edges, x, y) ==> has_edge(put_edge(edges, a, b, w), x, y),
        put_edge(edges, a, b, w).len() <= edges.len() + 1,
        put_edge(edges, a, b, w).len() >= edges.len(),
        has_edge(edges, a, b) ==> put_edge(edges, a, b, w).len() == edges.len(),
        forall|n: nat, m: nat|
            edges_within(edges, n, m) && a < n && b < n && w <= m ==> edges_within(
                put_edge(edges, a, b, w),
                n,
                m,
            ),
{
    let after = put_edge(edges, a, b, w);
    lemma_find_edge(edges, a, b, edges.len());
    match find_edge(edges, a, b, edges.len()) {
        Some(i) => {
            assert(joins(after[i], a, b));
            assert forall|x: nat, y: nat| has_edge(edges, x, y) implies has_edge(after, x, y) by {
                let k = choose|k: int| 0 <= k < edges.len() && joins(#[trigger] edges[k], x, y);
                assert(joins(after[k], x, y));
            }
            if is_simple(edges) {
                assert forall|p: int, q: int|
                    0 <= p < after.len() && 0 <= q < after.len() && joins(
                        #[trigger] after[q],
                        (#[trigger] after[p]).0,
                        after[p].1,
                    ) implies p == q by {
                    assert(joins(edges[q], edges[p].0, edges[p].1));
                }
            }
        },
        None => {
            assert(joins(after[edges.len() as int], a, b));
            assert forall|x: nat, y: nat| has_edge(edges, x, y) implies has_edge(after, x, y) by {
                let k = choose|k: int| 0 <= k < edges.len() && joins(#[trigger] edges[k], x, y);
                assert(joins(after[k], x, y));
            }
            if is_simple(edges) {
                assert forall|p: int, q: int|
                    0 <= p < after.len() && 0 <= q < after.len() && joins(
                        #[trigger] after[q],
                        (#[trigger] after[p]).0,
                        after[p].1,
                    ) implies p == q by {
                    if p < edges.len() && q < edges.len() {
                        assert(joins(edges[q], edges[p].0, edges[p].1));
                    } else if p < edges.len() {
                        assert(joins(edges[p], a, b));
                    } else if q < edges.len() {
                        assert(joins(edges[q], a, b));
                    }
                }
            }
            if has_edge(edges, a, b) {
                let k = choose|k: int| 0 <= k < edges.len() && joins(#[trigger] edges[k], a, b);
            }
        },
    }
}

/// Among simple edges at most one joins two nodes.
pub proof fn lemma_simple_at_most_one(edges: Seq<Edge>, a: nat, b: nat)
    requires
        is_simple(edges),
    ensures
        at_most_one(edges, a, b),
{
    assert forall|i: int, j: int|
        0 <= i < edges.len() && 0 <= j < edges.len() && joins(#[trigger] edges[i], a, b) && joins(
            #[trigger] edges[j],
            a,
            b,
        ) implies i == j by {
        assert(joins(edges[j], edges[i].0, edges[i].1));
    }
}

/// Edges that weigh `w` at most weigh together no more than `w` times
/// their number.
pub proof fn lemma_weight_sum(edges: Seq<Edge>, n: nat, m: nat, w: nat)
    requires
        edges_within(edges, n, w),
        m <= edges.len(),
    ensures
        weight_sum(edges, m) <= m * w,
    decreases m,
{
    if m > 0 {
        lemma_weight_sum(edges, n, (m - 1) as nat, w);
        assert((m - 1) * w + w == m * w) by (nonlinear_arith);
    }
}

/// The cheapest way between two nodes has one cost.
pub proof fn lemma_one_cheapest(edges: Seq<Edge>, from: nat, to: nat, a: nat, b: nat)
    requires
        is_cheapest(edges, from, to, a),
        is_cheapest(edges, from, to, b),
    ensures
        a == b,
{
    let x = choose|steps: Seq<int>| #[trigger]
        is_way(edges, from, to, steps) && way_cost(edges, steps, steps.len()) == a;
    let y = choose|steps: Seq<int>| #[trigger]
        is_way(edges, from, to, steps) && way_cost(edges, steps, steps.len()) == b;
    assert(is_way(edges, from, to, x) && is_way(edges, from, to, y));
}

/// The way without a step leads from a node to itself and costs nothing:
/// the cheapest way from a node to itself costs nothing.
pub proof fn lemma_cheapest_to_itself(edges: Seq<Edge>, v: nat)
    ensures
        is_cheapest(edges, v, v, 0),
        can_reach(edges, v, v),
{
    let none = Seq::<int>::empty();
    assert(is_way(edges, v, v, none));
    assert(way_cost(edges, none, none.len()) == 0);
}

} // verus!
