//! Nodes and the transitions between them.

use std::cmp::Ordering;
use vstd::prelude::*;
use vstd::std_specs::cmp::PartialEqSpecImpl;
use vstd::std_specs::cmp::PartialOrdSpecImpl;

verus! {

/// The value of a node that has not been reached.
pub const INFINITY: i32 = i32::MAX;

/// A transition as plain values: the identifier of the node it leads to and
/// its effective weight.
pub struct TransitionView {
    /// The identifier of the node that the transition leads to.
    pub target: Seq<char>,
    /// The base weight plus the offset of the node that the transition leaves.
    pub weight: int,
}

/// A directed link to a target node. The target is held by its identifier,
/// and the weight is fixed when the transition is built.
#[derive(Debug)]
pub struct Transition {
    target: String,
    weight: i32,
}

impl View for Transition {
    type V = TransitionView;

    closed spec fn view(&self) -> TransitionView {
        TransitionView { target: self.target@, weight: self.weight as int }
    }
}

impl Transition {
    /// Builds the transition to `node`, of weight `weight + offset`, which
    /// must fit an `i32`.
    pub fn new(node: &Node, weight: i32, offset: i32) -> (transition: Transition)
        requires
            i32::MIN <= weight + offset <= i32::MAX,
        ensures
            transition@.target == node@.id,
            transition@.weight == weight + offset,
    {
        Transition { target: node.id.clone(), weight: weight + offset }
    }

    /// The effective weight, fixed at construction.
    pub fn get_weight(&self) -> (weight: i32)
        ensures
            weight == self@.weight,
    {
        self.weight
    }

    /// The identifier of the node this transition leads to.
    pub fn get_next_node(&self) -> (id: &str)
        ensures
            id@ == self@.target,
    {
        self.target.as_str()
    }
}

/// A node as plain values: its identifier, the offset it adds to the weight
/// of each transition created from it, its tentative cost, and the effective
/// weight of its transition to each target identifier.
pub struct NodeView {
    /// The identifier, by which the node is found and removed.
    pub id: Seq<char>,
    /// What the node adds to the weight of each transition created from it.
    pub offset: int,
    /// The best cost known so far of reaching the node.
    pub value: int,
    /// The effective weight of the transition to each target identifier.
    pub next: Map<Seq<char>, int>,
}

/// A vertex of the graph. It holds at most one transition to each target.
#[derive(Debug)]
pub struct Node {
    id: String,
    offset: i32,
    value: i32,
    next: Vec<Transition>,
}

/// No two transitions of `next` lead to the same target.
spec fn distinct_targets(next: Seq<Transition>) -> bool {
    forall|i: int, j: int|
        0 <= i < next.len() && 0 <= j < next.len() && next[i].target@ == next[j].target@ ==> i == j
}

/// The weights of `next`, by target identifier.
spec fn weights_by_target(next: Seq<Transition>) -> Map<Seq<char>, int> {
    Map::new(
        |id: Seq<char>| exists|i: int| 0 <= i < next.len() && next[i].target@ == id,
        |id: Seq<char>|
            next[choose|i: int| 0 <= i < next.len() && next[i].target@ == id].weight as int,
    )
}

/// In a list without repeated targets, the weight recorded for the target of
/// the transition at `k` is that transition's weight.
proof fn lemma_weight_at(next: Seq<Transition>, k: int)
    requires
        distinct_targets(next),
        0 <= k < next.len(),
    ensures
        weights_by_target(next).contains_key(next[k].target@),
        weights_by_target(next)[next[k].target@] == next[k].weight,
{
}

/// Putting `t` in the place of the transition to the same target keeps the
/// targets distinct and records the weight of `t` for that target.
proof fn lemma_replace(next: Seq<Transition>, k: int, t: Transition)
    requires
        distinct_targets(next),
        0 <= k < next.len(),
        next[k].target@ == t.target@,
    ensures
        distinct_targets(next.update(k, t)),
        weights_by_target(next.update(k, t)) == weights_by_target(next).insert(
            t.target@,
            t.weight as int,
        ),
{
    let after = next.update(k, t);
    let expected = weights_by_target(next).insert(t.target@, t.weight as int);
    assert forall|id: Seq<char>| #[trigger] expected.contains_key(id) implies weights_by_target(
        after,
    ).contains_key(id) && weights_by_target(after)[id] == expected[id] by {
        if id == t.target@ {
            lemma_weight_at(after, k);
        } else {
            let i = choose|i: int| 0 <= i < next.len() && next[i].target@ == id;
            lemma_weight_at(next, i);
            lemma_weight_at(after, i);
        }
    }
}

/// Appending a transition to a target that `next` does not lead to keeps the
/// targets distinct and records the weight of `t` for that target.
proof fn lemma_push(next: Seq<Transition>, t: Transition)
    requires
        distinct_targets(next),
        forall|i: int| 0 <= i < next.len() ==> next[i].target@ != t.target@,
    ensures
        distinct_targets(next.push(t)),
        weights_by_target(next.push(t)) == weights_by_target(next).insert(
            t.target@,
            t.weight as int,
        ),
{
    let after = next.push(t);
    let expected = weights_by_target(next).insert(t.target@, t.weight as int);
    assert forall|id: Seq<char>| #[trigger] expected.contains_key(id) implies weights_by_target(
        after,
    ).contains_key(id) && weights_by_target(after)[id] == expected[id] by {
        if id == t.target@ {
            lemma_weight_at(after, next.len() as int);
        } else {
            let i = choose|i: int| 0 <= i < next.len() && next[i].target@ == id;
            lemma_weight_at(next, i);
            lemma_weight_at(after, i);
        }
    }
    assert forall|id: Seq<char>| #[trigger]
        weights_by_target(after).contains_key(id) implies expected.contains_key(id) by {
        let i = choose|i: int| 0 <= i < after.len() && after[i].target@ == id;
        if i < next.len() {
            lemma_weight_at(next, i);
        }
    }
}

/// The place in `next` of the transition to `id`, if there is one.
fn position_of(next: &Vec<Transition>, id: &String) -> (place: Option<usize>)
    ensures
        match place {
            Some(k) => k < next.len() && next[k as int].target@ == id@,
            None => forall|i: int| 0 <= i < next.len() ==> next[i].target@ != id@,
        },
{
    let mut i: usize = 0;
    while i < next.len()
        invariant
            i <= next.len(),
            forall|j: int| 0 <= j < i ==> next[j].target@ != id@,
        decreases next.len() - i,
    {
        if next[i].target == *id {
            return Some(i);
        }
        i += 1;
    }
    None
}

impl View for Node {
    type V = NodeView;

    closed spec fn view(&self) -> NodeView {
        NodeView {
            id: self.id@,
            offset: self.offset as int,
            value: self.value as int,
            next: weights_by_target(self.next@),
        }
    }
}

impl Node {
    #[verifier::type_invariant]
    spec fn well_formed(self) -> bool {
        distinct_targets(self.next@)
    }

    /// A node without offset: unreached, and with no transition.
    pub fn new(identifier: String) -> (node: Node)
        ensures
            node@ == (NodeView {
                id: identifier@,
                offset: 0,
                value: INFINITY as int,
                next: Map::empty(),
            }),
    {
        let node = Node { id: identifier, offset: 0, value: INFINITY, next: Vec::new() };
        assert(node@.next =~= Map::empty());
        node
    }

    /// A node with the given offset: unreached, and with no transition.
    pub fn with_offset(identifier: String, offset: i32) -> (node: Node)
        ensures
            node@ == (NodeView {
                id: identifier@,
                offset: offset as int,
                value: INFINITY as int,
                next: Map::empty(),
            }),
    {
        let node = Node { id: identifier, offset: offset, value: INFINITY, next: Vec::new() };
        assert(node@.next =~= Map::empty());
        node
    }

    /// Adds the transition to `next_node`, of weight `weight` plus this node's
    /// offset, which must fit an `i32`. It takes the place of an earlier
    /// transition to the same target. `next_node` itself is not touched.
    pub fn add_next(&mut self, next_node: &Node, weight: i32)
        requires
            i32::MIN <= weight + old(self)@.offset <= i32::MAX,
        ensures
            final(self)@ == (NodeView {
                next: old(self)@.next.insert(next_node@.id, weight + old(self)@.offset),
                ..old(self)@
            }),
    {
        proof {
            use_type_invariant(&*self);
        }
        let transition = Transition::new(next_node, weight, self.offset);
        let mut next: Vec<Transition> = Vec::new();
        std::mem::swap(&mut next, &mut self.next);
        let ghost before = next@;
        match position_of(&next, &transition.target) {
            Some(k) => {
                proof {
                    lemma_replace(before, k as int, transition);
                }
                next[k] = transition;
            },
            None => {
                proof {
                    lemma_push(before, transition);
                }
                next.push(transition);
            },
        }
        self.next = next;
    }

    /// The transition to the node called `id`, if this node has one. A
    /// transition cannot be changed once it is built, so the reference that
    /// is handed out is a shared one.
    pub fn get_next_mut(&self, id: &str) -> (transition: Option<&Transition>)
        ensures
            match transition {
                Some(t) => self@.next.contains_key(id@) && t@ == (TransitionView {
                    target: id@,
                    weight: self@.next[id@],
                }),
                None => !self@.next.contains_key(id@),
            },
    {
        proof {
            use_type_invariant(self);
        }
        let key = id.to_owned();
        match position_of(&self.next, &key) {
            Some(k) => {
                proof {
                    lemma_weight_at(self.next@, k as int);
                }
                Some(&self.next[k])
            },
            None => None,
        }
    }

    /// The transitions that leave this node: one for each target that
    /// `self@.next` knows, with the weight recorded there.
    pub fn get_transitions(&self) -> (transitions: &Vec<Transition>)
        ensures
            forall|k: int, l: int|
                #![trigger transitions[k], transitions[l]]
                0 <= k < l < transitions.len() ==> transitions[k]@.target != transitions[l]@.target,
            forall|k: int|
                #![trigger transitions[k]]
                0 <= k < transitions.len() ==> {
                    &&& self@.next.contains_key(transitions[k]@.target)
                    &&& self@.next[transitions[k]@.target] == transitions[k]@.weight
                },
            forall|id: Seq<char>|
                #![trigger self@.next.contains_key(id)]
                self@.next.contains_key(id) ==> exists|k: int|
                    #![trigger transitions[k]]
                    0 <= k < transitions.len() && transitions[k]@.target == id,
    {
        proof {
            use_type_invariant(self);
            assert forall|k: int| 0 <= k < self.next.len() implies self@.next.contains_key(
                (#[trigger] self.next[k])@.target,
            ) && self@.next[self.next[k]@.target] == self.next[k]@.weight by {
                lemma_weight_at(self.next@, k);
            }
        }
        &self.next
    }

    /// Whether this node is the one called `id`.
    pub fn is_called(&self, id: &String) -> (called: bool)
        ensures
            called == (self@.id == id@),
    {
        self.id == *id
    }

    /// The offset that this node adds to the weight of its transitions.
    pub fn get_offset(&self) -> (offset: i32)
        ensures
            offset == self@.offset,
    {
        self.offset
    }

    /// The identifier of this node.
    pub fn get_id(&self) -> (id: &str)
        ensures
            id@ == self@.id,
    {
        self.id.as_str()
    }

    /// Sets the tentative cost, whatever it was.
    pub fn set_value(&mut self, value: i32)
        ensures
            final(self)@ == (NodeView { value: value as int, ..old(self)@ }),
    {
        proof {
            use_type_invariant(&*self);
        }
        self.value = value;
    }

    /// The tentative cost: `INFINITY` as long as the node is unreached.
    pub fn get_value(&self) -> (value: i32)
        ensures
            value == self@.value,
    {
        self.value
    }
}

impl Clone for Transition {
    fn clone(&self) -> (copy: Transition)
        ensures
            copy == *self,
    {
        Transition { target: self.target.clone(), weight: self.weight }
    }
}

impl Clone for Node {
    fn clone(&self) -> (copy: Node)
        ensures
            copy@ == self@,
    {
        proof {
            use_type_invariant(self);
        }
        let next = self.next.clone();
        Node { id: self.id.clone(), offset: self.offset, value: self.value, next }
    }
}

/// Two transitions are equal when they lead to the same target with the same
/// weight.
impl PartialEq for Transition {
    fn eq(&self, other: &Transition) -> (equal: bool) {
        self.target == other.target && self.weight == other.weight
    }
}

impl PartialEqSpecImpl for Transition {
    open spec fn obeys_eq_spec() -> bool {
        true
    }

    open spec fn eq_spec(&self, other: &Transition) -> bool {
        self@.target == other@.target && self@.weight == other@.weight
    }
}

/// Nodes compare by their tentative cost alone, never by identifier: two
/// different nodes of equal cost are equal here.
impl PartialEq for Node {
    fn eq(&self, other: &Node) -> (equal: bool) {
        self.value == other.value
    }
}

impl PartialEqSpecImpl for Node {
    open spec fn obeys_eq_spec() -> bool {
        true
    }

    open spec fn eq_spec(&self, other: &Node) -> bool {
        self@.value == other@.value
    }
}

impl Eq for Node {}

/// Nodes are ordered by their tentative cost, ascending. Any two nodes can
/// be compared.
impl PartialOrd for Node {
    fn partial_cmp(&self, other: &Node) -> (order: Option<Ordering>) {
        if self.value < other.value {
            Some(Ordering::Less)
        } else if self.value == other.value {
            Some(Ordering::Equal)
        } else {
            Some(Ordering::Greater)
        }
    }
}

impl PartialOrdSpecImpl for Node {
    open spec fn obeys_partial_cmp_spec() -> bool {
        true
    }

    open spec fn partial_cmp_spec(&self, other: &Node) -> Option<Ordering> {
        if self@.value < other@.value {
            Some(Ordering::Less)
        } else if self@.value == other@.value {
            Some(Ordering::Equal)
        } else {
            Some(Ordering::Greater)
        }
    }
}

} // verus!
