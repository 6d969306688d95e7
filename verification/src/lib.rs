//! Shortest paths over a directed, weighted graph whose nodes add an offset
//! of their own to the weight of every transition that leaves them.
//!
//! Nodes are known by their identifier. A collection of nodes owns them, and
//! a transition names its target by identifier; the functions here find, relax
//! and remove nodes of such a collection.

pub mod engine;
pub mod graph;
pub mod paths;

use graph::Node;
use graph::NodeView;
use vstd::prelude::*;

verus! {

/// The nodes of a collection as plain values, in the collection's order.
pub open spec fn views(nodes: Seq<Node>) -> Seq<NodeView> {
    Seq::new(nodes.len(), |i: int| nodes[i]@)
}

/// `k` is the first place in `nodes` of a node called `id`.
pub open spec fn named_first_at(nodes: Seq<NodeView>, id: Seq<char>, k: int) -> bool {
    &&& 0 <= k < nodes.len()
    &&& nodes[k].id == id
    &&& forall|j: int| 0 <= j < k ==> nodes[j].id != id
}

/// Some node of `nodes` is called `id`.
pub open spec fn has_name(nodes: Seq<NodeView>, id: Seq<char>) -> bool {
    exists|k: int| 0 <= k < nodes.len() && nodes[k].id == id
}

/// `k` is the place of the nearest node of `nodes`: none has a lower value,
/// and of those of equal value it comes first.
pub open spec fn nearest_at(nodes: Seq<NodeView>, k: int) -> bool {
    &&& 0 <= k < nodes.len()
    &&& forall|j: int| 0 <= j < nodes.len() ==> nodes[k].value <= nodes[j].value
    &&& forall|j: int| 0 <= j < k ==> nodes[k].value < nodes[j].value
}

/// What relaxing the transition of `source` to the node called `target` makes
/// of `nodes`: where `source` has that transition and `nodes` has such a node,
/// the first such node takes the value of `source` plus the transition's
/// weight, if that is lower than its own. Otherwise nothing changes.
pub open spec fn relaxed(nodes: Seq<NodeView>, target: Seq<char>, source: NodeView) -> Seq<
    NodeView,
> {
    if source.next.contains_key(target) && exists|k: int| named_first_at(nodes, target, k) {
        let k = choose|k: int| named_first_at(nodes, target, k);
        let candidate = source.value + source.next[target];
        if candidate < nodes[k].value {
            nodes.update(k, NodeView { value: candidate, ..nodes[k] })
        } else {
            nodes
        }
    } else {
        nodes
    }
}

/// What relaxing the transitions of `source` to the targets in `targets`
/// makes of `nodes`: for each such target that `source` has a transition to,
/// the first node of that name takes the value of `source` plus the
/// transition's weight, if that is lower than its own.
pub open spec fn relaxed_among(
    nodes: Seq<NodeView>,
    source: NodeView,
    targets: Set<Seq<char>>,
) -> Seq<NodeView> {
    Seq::new(
        nodes.len(),
        |k: int|
            if targets.contains(nodes[k].id) && source.next.contains_key(nodes[k].id)
                && named_first_at(nodes, nodes[k].id, k) && source.value
                + source.next[nodes[k].id] < nodes[k].value {
                NodeView { value: source.value + source.next[nodes[k].id], ..nodes[k] }
            } else {
                nodes[k]
            },
    )
}

/// What relaxing every transition of `source` makes of `nodes`.
pub open spec fn relaxed_all(nodes: Seq<NodeView>, source: NodeView) -> Seq<NodeView> {
    relaxed_among(nodes, source, source.next.dom())
}

/// Relaxing one more transition, to `target`, after those to `targets`.
proof fn lemma_relaxed_among_next(
    nodes: Seq<NodeView>,
    source: NodeView,
    targets: Set<Seq<char>>,
    target: Seq<char>,
)
    requires
        source.next.contains_key(target),
    ensures
        relaxed(relaxed_among(nodes, source, targets), target, source) == relaxed_among(
            nodes,
            source,
            targets.insert(target),
        ),
{
    // The nodes keep their names, so the first node called `target` stands
    // where it stood.
    let before = relaxed_among(nodes, source, targets);
    assert forall|k: int| named_first_at(before, target, k) <==> named_first_at(
        nodes,
        target,
        k,
    ) by {
        if named_first_at(before, target, k) {
            assert forall|j: int| 0 <= j < k implies nodes[j].id != target by {
                assert(before[j].id == nodes[j].id);
            }
        }
    }
}

/// Relaxation keeps every node's place, identifier, offset and transitions,
/// and never raises a value.
pub proof fn lemma_relaxed_lowers(nodes: Seq<NodeView>, target: Seq<char>, source: NodeView)
    ensures
        relaxed(nodes, target, source).len() == nodes.len(),
        forall|i: int|
            0 <= i < nodes.len() ==> {
                &&& (#[trigger] relaxed(nodes, target, source)[i]).id == nodes[i].id
                &&& relaxed(nodes, target, source)[i].offset == nodes[i].offset
                &&& relaxed(nodes, target, source)[i].next == nodes[i].next
                &&& relaxed(nodes, target, source)[i].value <= nodes[i].value
            },
{
}

/// Relaxing a transition whose candidate, the value of `source` plus the
/// transition's weight, is not lower than the target's value changes nothing.
pub proof fn lemma_relaxed_not_lower(nodes: Seq<NodeView>, target: Seq<char>, source: NodeView)
    requires
        forall|k: int|
            named_first_at(nodes, target, k) ==> nodes[k].value <= source.value
                + source.next[target],
    ensures
        relaxed(nodes, target, source) == nodes,
{
}

/// Relaxing the same transition of the same source a second time changes
/// nothing: the candidate is then no longer lower than the target's value.
pub proof fn lemma_relaxed_twice(nodes: Seq<NodeView>, target: Seq<char>, source: NodeView)
    ensures
        relaxed(relaxed(nodes, target, source), target, source) == relaxed(nodes, target, source),
{
    let once = relaxed(nodes, target, source);
    if source.next.contains_key(target) && exists|k: int| named_first_at(nodes, target, k) {
        let k = choose|k: int| named_first_at(nodes, target, k);
        assert(named_first_at(once, target, k));
    }
}

/// The first place in `nodes` of a node called `id`.
fn position(nodes: &Vec<Node>, id: &String) -> (place: Option<usize>)
    ensures
        match place {
            Some(k) => named_first_at(views(nodes@), id@, k as int),
            None => !has_name(views(nodes@), id@),
        },
{
    let mut i: usize = 0;
    while i < nodes.len()
        invariant
            i <= nodes.len(),
            forall|j: int| 0 <= j < i ==> views(nodes@)[j].id != id@,
        decreases nodes.len() - i,
    {
        if nodes[i].is_called(id) {
            return Some(i);
        }
        i += 1;
    }
    None
}

/// The node of least value among `nodes`, or `None` when there is none. Of
/// several nodes of the same least value, the first in `nodes` is returned.
pub fn find_nearest_node(nodes: &Vec<Node>) -> (nearest: Option<&Node>)
    ensures
        nearest is None <==> nodes.len() == 0,
        nearest matches Some(node) ==> exists|k: int|
            nearest_at(views(nodes@), k) && *node == nodes[k],
{
    if nodes.len() == 0 {
        return None;
    }
    let mut best: usize = 0;
    let mut i: usize = 1;
    while i < nodes.len()
        invariant
            1 <= i <= nodes.len(),
            best < i,
            forall|j: int|
                0 <= j < i ==> views(nodes@)[best as int].value <= views(nodes@)[j].value,
            forall|j: int|
                0 <= j < best ==> views(nodes@)[best as int].value < views(nodes@)[j].value,
        decreases nodes.len() - i,
    {
        if nodes[i] < nodes[best] {
            best = i;
        }
        i += 1;
    }
    Some(&nodes[best])
}

/// Removes from `nodes` the first node that has the identifier of
/// `node_to_remove`. Without such a node, `nodes` stays as it is.
pub fn remove_node(nodes: &mut Vec<Node>, node_to_remove: &Node)
    ensures
        forall|k: int|
            named_first_at(views(old(nodes)@), node_to_remove@.id, k) ==> final(nodes)@ == old(
                nodes,
            )@.remove(k),
        !has_name(views(old(nodes)@), node_to_remove@.id) ==> final(nodes)@ == old(nodes)@,
{
    let id = node_to_remove.get_id().to_owned();
    if let Some(index) = position(nodes, &id) {
        nodes.remove(index);
    }
}

/// Relaxes the transition of `node` to the node called `next_node_id`, which
/// is looked for in `nodes`: that node's value becomes the value of `node`
/// plus the transition's weight where this is lower. Where `node` has no such
/// transition, or `nodes` no such node, nothing changes.
///
/// Where there is such a transition and such a node, the value of `node`
/// plus the weight must not lie below `i32::MIN`.
pub fn update_next_node(next_node_id: &str, node: &Node, nodes: &mut Vec<Node>)
    requires
        node@.next.contains_key(next_node_id@) && has_name(views(old(nodes)@), next_node_id@)
            ==> i32::MIN <= node@.value + node@.next[next_node_id@],
    ensures
        final(nodes).len() == old(nodes).len(),
        views(final(nodes)@) == relaxed(views(old(nodes)@), next_node_id@, node@),
        forall|i: int|
            0 <= i < final(nodes).len() ==> (#[trigger] final(nodes)[i])@.value <= old(
                nodes,
            )[i]@.value,
{
    proof {
        lemma_relaxed_lowers(views(nodes@), next_node_id@, node@);
    }
    if let Some(transition) = node.get_next_mut(next_node_id) {
        let id = next_node_id.to_owned();
        if let Some(index) = position(nodes, &id) {
            let candidate: i64 = node.get_value() as i64 + transition.get_weight() as i64;
            if candidate < nodes[index].get_value() as i64 {
                nodes[index].set_value(candidate as i32);
            }
        }
    }
}

/// Relaxes every transition of `node` against `nodes`, as `update_next_node`
/// does for one of them. No target is relaxed twice, so the order in which
/// the transitions are taken plays no part.
///
/// For each transition to a node of `nodes`, the value of `node` plus the
/// weight must not lie below `i32::MIN`.
pub fn update_next_nodes(node: &Node, nodes: &mut Vec<Node>)
    requires
        forall|id: Seq<char>|
            #![trigger node@.next.contains_key(id)]
            node@.next.contains_key(id) && has_name(views(old(nodes)@), id) ==> i32::MIN
                <= node@.value + node@.next[id],
    ensures
        final(nodes).len() == old(nodes).len(),
        views(final(nodes)@) == relaxed_all(views(old(nodes)@), node@),
        forall|i: int|
            0 <= i < final(nodes).len() ==> (#[trigger] final(nodes)[i])@.value <= old(
                nodes,
            )[i]@.value,
{
    let transitions = node.get_transitions();
    let ghost before = views(nodes@);
    let ghost mut targets: Set<Seq<char>> = Set::empty();
    let mut i: usize = 0;
    while i < transitions.len()
        invariant
            i <= transitions.len(),
            nodes.len() == old(nodes).len(),
            forall|id: Seq<char>|
                #![trigger node@.next.contains_key(id)]
                node@.next.contains_key(id) && has_name(before, id) ==> i32::MIN <= node@.value
                    + node@.next[id],
            forall|k: int|
                0 <= k < transitions.len() ==> node@.next.contains_key(
                    (#[trigger] transitions[k])@.target,
                ),
            forall|k: int| 0 <= k < i ==> targets.contains((#[trigger] transitions[k])@.target),
            views(nodes@) == relaxed_among(before, node@, targets),
        decreases transitions.len() - i,
    {
        let target = transitions[i].get_next_node();
        proof {
            lemma_relaxed_among_next(before, node@, targets, target@);
            targets = targets.insert(target@);
        }
        update_next_node(target, node, nodes);
        i += 1;
    }
    assert(relaxed_among(before, node@, targets) =~= relaxed_among(
        before,
        node@,
        node@.next.dom(),
    ));
    assert forall|i: int| 0 <= i < nodes.len() implies (#[trigger] nodes[i])@.value <= old(
        nodes,
    )[i]@.value by {
        assert(views(nodes@)[i].value <= before[i].value);
    }
}

} // verus!
