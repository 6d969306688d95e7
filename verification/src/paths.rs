//! Paths through a collection of nodes, their weights, and what it means for
//! the nodes' values to be the costs of the shortest paths from a source.
//!
//! A graph is a sequence of nodes as plain values. A node is addressed by its
//! place in that sequence, and a transition leads to the nodes that carry the
//! identifier it names.

use crate::graph::NodeView;
use crate::graph::INFINITY;
use vstd::prelude::*;

verus! {

/// No two nodes of `g` carry the same identifier.
pub open spec fn distinct_names(g: Seq<NodeView>) -> bool {
    forall|i: int, j: int| 0 <= i < g.len() && 0 <= j < g.len() && i != j ==> g[i].id != g[j].id
}

/// No transition of `g` has a negative weight.
pub open spec fn nonnegative(g: Seq<NodeView>) -> bool {
    forall|i: int, id: Seq<char>|
        0 <= i < g.len() && #[trigger] g[i].next.contains_key(id) ==> g[i].next[id] >= 0
}

/// `h` has the nodes of `g` in the same places, with the same identifiers,
/// offsets and transitions. Their values may differ.
pub open spec fn same_graph(g: Seq<NodeView>, h: Seq<NodeView>) -> bool {
    &&& g.len() == h.len()
    &&& forall|i: int|
        0 <= i < g.len() ==> {
            &&& (#[trigger] h[i]).id == g[i].id
            &&& h[i].offset == g[i].offset
            &&& h[i].next == g[i].next
        }
}

/// The values of the nodes of `g`, place by place.
pub open spec fn values(g: Seq<NodeView>) -> Seq<int> {
    Seq::new(g.len(), |i: int| g[i].value)
}

/// The node at `from` has a transition to the node at `to`.
pub open spec fn has_edge(g: Seq<NodeView>, from: int, to: int) -> bool {
    &&& 0 <= from < g.len()
    &&& 0 <= to < g.len()
    &&& g[from].next.contains_key(g[to].id)
}

/// The weight of the transition from the node at `from` to the node at `to`.
pub open spec fn edge_weight(g: Seq<NodeView>, from: int, to: int) -> int {
    g[from].next[g[to].id]
}

/// `p` is a path of `g`: a node, or a path followed by a node that the
/// path's last node has a transition to.
pub open spec fn is_path(g: Seq<NodeView>, p: Seq<int>) -> bool
    decreases p.len(),
{
    if p.len() == 0 {
        false
    } else if p.len() == 1 {
        0 <= p[0] < g.len()
    } else {
        is_path(g, p.drop_last()) && has_edge(g, p[p.len() - 2], p.last())
    }
}

/// The sum of the weights of the transitions along `p`.
pub open spec fn path_weight(g: Seq<NodeView>, p: Seq<int>) -> int
    decreases p.len(),
{
    if p.len() <= 1 {
        0
    } else {
        path_weight(g, p.drop_last()) + edge_weight(g, p[p.len() - 2], p.last())
    }
}

/// `p` is a path from a node called `source` to the node at `to`.
pub open spec fn leads(g: Seq<NodeView>, p: Seq<int>, source: Seq<char>, to: int) -> bool {
    &&& is_path(g, p)
    &&& g[p[0]].id == source
    &&& p.last() == to
}

/// Some path leads from a node called `source` to the node at `to`.
pub open spec fn reachable(g: Seq<NodeView>, source: Seq<char>, to: int) -> bool {
    exists|p: Seq<int>| leads(g, p, source, to)
}

/// `val` gives each node of `g` the cost of reaching it from `source`: a
/// value is no higher than the weight of any path to its node, and a value
/// below `INFINITY` is the weight of such a path.
pub open spec fn settled(g: Seq<NodeView>, source: Seq<char>, val: Seq<int>) -> bool {
    &&& val.len() == g.len()
    &&& forall|to: int| 0 <= to < g.len() ==> #[trigger] val[to] <= INFINITY
    &&& forall|to: int, p: Seq<int>| #[trigger]
        leads(g, p, source, to) ==> val[to] <= path_weight(g, p)
    &&& forall|to: int|
        0 <= to < g.len() && #[trigger] val[to] < INFINITY ==> exists|p: Seq<int>|
            leads(g, p, source, to) && path_weight(g, p) == val[to]
}

/// The values at the start of a run: zero for the source, `INFINITY` for
/// every other node.
pub open spec fn initial_values(g: Seq<NodeView>, source: Seq<char>) -> Seq<int> {
    Seq::new(
        g.len(),
        |i: int|
            if g[i].id == source {
                0
            } else {
                INFINITY as int
            },
    )
}

/// The values after every transition of the node at `u` has been relaxed.
pub open spec fn relax_from(g: Seq<NodeView>, val: Seq<int>, u: int) -> Seq<int> {
    Seq::new(
        val.len(),
        |j: int|
            if has_edge(g, u, j) && val[u] + edge_weight(g, u, j) < val[j] {
                val[u] + edge_weight(g, u, j)
            } else {
                val[j]
            },
    )
}

/// What holds of the values during a run, `done` being the nodes finalized
/// so far: a value below `INFINITY` is the weight of a path from the source,
/// every transition of a finalized node has been relaxed, and no finalized
/// node has a higher value than one that is not.
pub open spec fn tentative(
    g: Seq<NodeView>,
    source: Seq<char>,
    val: Seq<int>,
    done: Set<int>,
) -> bool {
    &&& val.len() == g.len()
    &&& forall|i: int| 0 <= i < g.len() ==> 0 <= #[trigger] val[i] <= INFINITY
    &&& forall|i: int| 0 <= i < g.len() && g[i].id == source ==> #[trigger] val[i] <= 0
    &&& forall|i: int|
        0 <= i < g.len() && #[trigger] val[i] < INFINITY ==> exists|p: Seq<int>|
            leads(g, p, source, i) && path_weight(g, p) == val[i]
    &&& forall|i: int, j: int|
        done.contains(i) && #[trigger] has_edge(g, i, j) ==> val[j] <= val[i] + edge_weight(
            g,
            i,
            j,
        )
    &&& forall|i: int, j: int|
        0 <= i < g.len() && 0 <= j < g.len() && done.contains(i) && !done.contains(j)
            ==> #[trigger] val[i] <= #[trigger] val[j]
}

/// The values at the start of a run are tentative, with no node finalized.
pub proof fn lemma_start(g: Seq<NodeView>, source: Seq<char>)
    ensures
        tentative(g, source, initial_values(g, source), Set::empty()),
{
    let val = initial_values(g, source);
    assert forall|i: int| 0 <= i < g.len() && #[trigger] val[i] < INFINITY implies exists|
        p: Seq<int>,
    |
        leads(g, p, source, i) && path_weight(g, p) == val[i] by {
        let p = seq![i];
        assert(leads(g, p, source, i) && path_weight(g, p) == val[i]);
    }
}

/// Finalizing the node at `u`, one of least value among those not yet
/// finalized, and relaxing its transitions keeps the values tentative.
pub proof fn lemma_finalize(
    g: Seq<NodeView>,
    source: Seq<char>,
    val: Seq<int>,
    done: Set<int>,
    u: int,
)
    requires
        nonnegative(g),
        tentative(g, source, val, done),
        0 <= u < g.len(),
        !done.contains(u),
        val[u] < INFINITY,
        forall|j: int| 0 <= j < g.len() && !done.contains(j) ==> val[u] <= val[j],
    ensures
        tentative(g, source, relax_from(g, val, u), done.insert(u)),
{
    let after = relax_from(g, val, u);
    // A lowered value is the weight of a path to `u` followed by the
    // transition that was relaxed.
    let through = choose|p: Seq<int>| leads(g, p, source, u) && path_weight(g, p) == val[u];
    assert forall|i: int| 0 <= i < g.len() && #[trigger] after[i] < INFINITY implies exists|
        p: Seq<int>,
    |
        leads(g, p, source, i) && path_weight(g, p) == after[i] by {
        if has_edge(g, u, i) && val[u] + edge_weight(g, u, i) < val[i] {
            let p = through.push(i);
            assert(p.drop_last() =~= through);
            assert(leads(g, p, source, i) && path_weight(g, p) == after[i]);
        }
    }
    // No weight is negative, so no value falls below that of `u`: the
    // finalized nodes, `u` among them, keep their values and stay the nearest.
}

/// With tentative values, and every node that is not finalized at
/// `INFINITY`, no value is higher than the weight of a path to its node.
proof fn lemma_lower_bound(
    g: Seq<NodeView>,
    source: Seq<char>,
    val: Seq<int>,
    done: Set<int>,
    p: Seq<int>,
    to: int,
)
    requires
        nonnegative(g),
        tentative(g, source, val, done),
        forall|j: int| 0 <= j < g.len() && !done.contains(j) ==> val[j] == INFINITY,
        leads(g, p, source, to),
    ensures
        0 <= to < g.len(),
        val[to] <= path_weight(g, p),
    decreases p.len(),
{
    if p.len() > 1 {
        let before = p.drop_last();
        let from = before.last();
        lemma_lower_bound(g, source, val, done, before, from);
    }
}

/// When the values are tentative and every node that is not finalized is at
/// `INFINITY`, the run is over: the values are settled.
pub proof fn lemma_settled(g: Seq<NodeView>, source: Seq<char>, val: Seq<int>, done: Set<int>)
    requires
        nonnegative(g),
        tentative(g, source, val, done),
        forall|j: int| 0 <= j < g.len() && !done.contains(j) ==> val[j] == INFINITY,
    ensures
        settled(g, source, val),
{
    assert forall|to: int, p: Seq<int>| #[trigger] leads(g, p, source, to) implies val[to]
        <= path_weight(g, p) by {
        lemma_lower_bound(g, source, val, done, p, to);
    }
}

/// Paths and their weights depend on the identifiers and the transitions of
/// the nodes alone, not on their values.
pub proof fn lemma_same_paths(g: Seq<NodeView>, h: Seq<NodeView>, p: Seq<int>)
    requires
        same_graph(g, h),
    ensures
        is_path(g, p) == is_path(h, p),
        is_path(g, p) ==> path_weight(g, p) == path_weight(h, p) && g[p[0]].id == h[p[0]].id,
    decreases p.len(),
{
    if p.len() > 1 {
        lemma_same_paths(g, h, p.drop_last());
    }
}

/// Values that are settled for a graph are settled for the same graph with
/// other values in its nodes.
pub proof fn lemma_same_graph_settled(
    g: Seq<NodeView>,
    h: Seq<NodeView>,
    source: Seq<char>,
    val: Seq<int>,
)
    requires
        same_graph(g, h),
        settled(g, source, val),
    ensures
        settled(h, source, val),
{
    assert forall|to: int, p: Seq<int>| #[trigger] leads(h, p, source, to) implies val[to]
        <= path_weight(h, p) by {
        lemma_same_paths(g, h, p);
        assert(leads(g, p, source, to));
    }
    assert forall|to: int| 0 <= to < h.len() && #[trigger] val[to] < INFINITY implies exists|
        p: Seq<int>,
    |
        leads(h, p, source, to) && path_weight(h, p) == val[to] by {
        let p = choose|p: Seq<int>| leads(g, p, source, to) && path_weight(g, p) == val[to];
        lemma_same_paths(g, h, p);
        assert(leads(h, p, source, to) && path_weight(h, p) == val[to]);
    }
}

/// A node that no path from the source leads to keeps the value `INFINITY`.
pub proof fn lemma_unreachable_is_infinite(
    g: Seq<NodeView>,
    source: Seq<char>,
    val: Seq<int>,
    to: int,
)
    requires
        settled(g, source, val),
        0 <= to < g.len(),
        !reachable(g, source, to),
    ensures
        val[to] == INFINITY,
{
}

/// The value of a node that a path of a weight up to `INFINITY` leads to is
/// the least weight of the paths from the source to it.
pub proof fn lemma_reached_is_least(
    g: Seq<NodeView>,
    source: Seq<char>,
    val: Seq<int>,
    to: int,
    p: Seq<int>,
)
    requires
        settled(g, source, val),
        leads(g, p, source, to),
        path_weight(g, p) <= INFINITY,
        0 <= to < g.len(),
    ensures
        exists|q: Seq<int>| leads(g, q, source, to) && path_weight(g, q) == val[to],
        forall|q: Seq<int>| leads(g, q, source, to) ==> val[to] <= path_weight(g, q),
{
}

} // verus!
