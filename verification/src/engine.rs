//! The run that gives every node the cost of the shortest path to it.

use crate::find_nearest_node;
use crate::graph::Node;
use crate::graph::NodeView;
use crate::graph::INFINITY;
use crate::nearest_at;
use crate::paths::distinct_names;
use crate::paths::initial_values;
use crate::paths::lemma_finalize;
use crate::paths::lemma_same_graph_settled;
use crate::paths::lemma_settled;
use crate::paths::lemma_start;
use crate::paths::lemma_unreachable_is_infinite;
use crate::paths::nonnegative;
use crate::paths::reachable;
use crate::paths::relax_from;
use crate::paths::same_graph;
use crate::paths::settled;
use crate::paths::tentative;
use crate::paths::values;
use crate::position;
use crate::remove_node;
use crate::update_next_nodes;
use crate::views;
use vstd::prelude::*;

verus! {

/// The nodes that are finalized: those that have left the active set, in
/// which `place[k]` is the place in the graph of the node at `k`.
spec fn finalized(n: nat, place: Seq<int>) -> Set<int> {
    Set::new(|i: int| 0 <= i < n && !place.contains(i))
}

/// How the state of a run stands for the values `val`: `active` holds a copy
/// of each node that is not finalized, with its value so far, and `nodes`
/// holds the value of each node that is.
spec fn tracks(
    g: Seq<NodeView>,
    source: Seq<char>,
    nodes: Seq<NodeView>,
    active: Seq<NodeView>,
    place: Seq<int>,
    val: Seq<int>,
) -> bool {
    &&& same_graph(g, nodes)
    &&& val.len() == g.len()
    &&& active.len() == place.len()
    &&& forall|k: int| 0 <= k < place.len() ==> 0 <= #[trigger] place[k] < g.len()
    &&& forall|k: int, l: int| 0 <= k < l < place.len() ==> place[k] != place[l]
    &&& forall|k: int|
        0 <= k < place.len() ==> {
            &&& (#[trigger] active[k]).id == g[place[k]].id
            &&& active[k].next == g[place[k]].next
            &&& active[k].value == val[place[k]]
        }
    &&& forall|i: int|
        0 <= i < g.len() ==> if place.contains(i) {
            (#[trigger] nodes[i]).value == INFINITY || g[i].id == source
        } else {
            nodes[i].value == val[i]
        }
}

/// Taking the entry at `at` out of `place` finalizes the node it stood for,
/// and no other.
proof fn lemma_leave(n: nat, place: Seq<int>, at: int)
    requires
        0 <= at < place.len(),
        0 <= place[at] < n,
        forall|k: int, l: int| 0 <= k < l < place.len() ==> place[k] != place[l],
    ensures
        finalized(n, place.remove(at)) == finalized(n, place).insert(place[at]),
        forall|i: int| place.remove(at).contains(i) <==> place.contains(i) && i != place[at],
{
    let rest = place.remove(at);
    assert forall|i: int| rest.contains(i) <==> place.contains(i) && i != place[at] by {
        if place.contains(i) && i != place[at] {
            let k = choose|k: int| 0 <= k < place.len() && place[k] == i;
            if k < at {
                assert(rest[k] == i);
            } else {
                assert(rest[k - 1] == i);
            }
        }
    }
}

/// Starts a run: the node called `source` gets the value zero and every other
/// node of `nodes` the value `INFINITY`. The active set that is returned
/// holds a copy of each node.
fn start(nodes: &mut Vec<Node>, source: &String) -> (active: Vec<Node>)
    ensures
        same_graph(views(old(nodes)@), views(final(nodes)@)),
        values(views(final(nodes)@)) == initial_values(views(old(nodes)@), source@),
        views(active@) == views(final(nodes)@),
{
    let ghost g = views(nodes@);
    let mut active: Vec<Node> = Vec::new();
    let mut i: usize = 0;
    while i < nodes.len()
        invariant
            i <= nodes.len(),
            active.len() == i,
            same_graph(g, views(nodes@)),
            forall|k: int|
                #![trigger views(nodes@)[k]]
                0 <= k < i ==> views(nodes@)[k].value == initial_values(g, source@)[k],
            forall|k: int|
                #![trigger views(active@)[k]]
                0 <= k < i ==> views(active@)[k] == views(nodes@)[k],
        decreases nodes.len() - i,
    {
        let ghost nodes_before = views(nodes@);
        let ghost active_before = views(active@);
        let value = if nodes[i].is_called(source) {
            0
        } else {
            INFINITY
        };
        nodes[i].set_value(value);
        active.push(nodes[i].clone());
        proof {
            assert(views(nodes@) =~= nodes_before.update(
                i as int,
                NodeView { value: value as int, ..nodes_before[i as int] },
            ));
            assert(views(active@) =~= active_before.push(views(nodes@)[i as int]));
        }
        i += 1;
    }
    proof {
    }
    active
}

/// Gives every node of `nodes` the cost of the shortest path to it from the
/// node called `source_id`: the least sum of the weights of the transitions
/// along a path, zero for the source itself. A node that no path leads to, or
/// none of a cost below `INFINITY`, gets `INFINITY`. The values that the nodes
/// had before play no part.
///
/// The nodes must carry different identifiers, and no transition may have a
/// negative weight. A transition to an identifier that no node carries leads
/// nowhere.
///
/// The run keeps an active set of the nodes that are not finalized. As long
/// as one of them has been reached, the nearest is taken, its transitions are
/// relaxed against the active set, it leaves the set, and its value is
/// recorded in `nodes`.
pub fn shortest_paths(nodes: &mut Vec<Node>, source_id: &str)
    requires
        distinct_names(views(old(nodes)@)),
        nonnegative(views(old(nodes)@)),
    ensures
        same_graph(views(old(nodes)@), views(final(nodes)@)),
        settled(views(final(nodes)@), source_id@, values(views(final(nodes)@))),
        forall|to: int|
            #![trigger final(nodes)[to]]
            0 <= to < final(nodes).len() && !reachable(views(final(nodes)@), source_id@, to)
                ==> final(nodes)[to]@.value == INFINITY,
{
    let ghost g = views(nodes@);
    let source = source_id.to_owned();
    let mut active = start(nodes, &source);
    let ghost mut place: Seq<int> = Seq::new(g.len(), |i: int| i);
    let ghost mut val: Seq<int> = initial_values(g, source@);
    proof {
        lemma_start(g, source@);
        assert forall|i: int| 0 <= i < g.len() implies place.contains(i) && views(
            nodes@,
        )[i].value == val[i] by {
            assert(place[i] == i);
        }
    }
    while active.len() > 0
        invariant
            distinct_names(g),
            nonnegative(g),
            source@ == source_id@,
            tracks(g, source@, views(nodes@), views(active@), place, val),
            tentative(g, source@, val, finalized(g.len(), place)),
        ensures
            forall|k: int|
                #![trigger views(active@)[k]]
                0 <= k < active.len() ==> views(active@)[k].value == INFINITY,
        decreases active.len(),
    {
        let current = find_nearest_node(&active).unwrap().clone();
        if current.get_value() == INFINITY {
            break ;
        }
        let ghost at = choose|k: int|
            nearest_at(views(active@), k) && current@ == views(active@)[k];
        let ghost u = place[at];
        let ghost before = views(active@);
        proof {
            // `current` is a copy of the nearest node that is not finalized.
            assert forall|j: int|
                0 <= j < g.len() && !finalized(g.len(), place).contains(j) implies val[u]
                <= val[j] by {
                let k = choose|k: int| 0 <= k < place.len() && place[k] == j;
                assert(before[k].value == val[j]);
            }
            lemma_finalize(g, source@, val, finalized(g.len(), place), u);
        }
        update_next_nodes(&current, &mut active);
        proof {
            // Each copy in the active set now holds the relaxed value of its
            // node. No weight is negative, so the finalized nodes and
            // `current` itself would not have been lowered.
            let after = relax_from(g, val, u);
            assert forall|k: int| 0 <= k < place.len() implies (#[trigger] views(
                active@,
            )[k]).value == after[place[k]] by {}
            val = after;
        }
        let ghost relaxed = active@;
        remove_node(&mut active, &current);
        proof {
            // The identifiers differ, so it is the copy at `at` that left.
            assert(active@ == relaxed.remove(at));
            assert(views(active@) =~= views(relaxed).remove(at));
            lemma_leave(g.len(), place, at);
            place = place.remove(at);
        }
        let ghost recorded = views(nodes@);
        let id = current.get_id().to_owned();
        if let Some(index) = position(nodes, &id) {
            nodes[index].set_value(current.get_value());
        }
        proof {
            assert(views(nodes@) =~= recorded.update(
                u,
                NodeView { value: val[u], ..recorded[u] },
            ));
        }
    }
    proof {
        // What is left in the active set was never reached.
        assert forall|j: int|
            0 <= j < g.len() && !finalized(g.len(), place).contains(j) implies val[j]
            == INFINITY by {
            let k = choose|k: int| 0 <= k < place.len() && place[k] == j;
            assert(views(active@)[k].value == val[j]);
        }
        lemma_settled(g, source@, val, finalized(g.len(), place));
        lemma_same_graph_settled(g, views(nodes@), source@, val);
        assert(values(views(nodes@)) =~= val);
        assert forall|to: int|
            0 <= to < nodes.len() && !reachable(views(nodes@), source_id@, to) implies (
        #[trigger] nodes[to])@.value == INFINITY by {
            lemma_unreachable_is_infinite(views(nodes@), source@, val, to);
        }
    }
}

} // verus!
