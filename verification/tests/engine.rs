use shortest_path::engine::shortest_paths;
use shortest_path::find_nearest_node;
use shortest_path::graph::Node;
use shortest_path::remove_node;
use shortest_path::update_next_node;

fn names(nodes: &Vec<Node>) -> Vec<&str> {
    nodes.iter().map(|node| node.get_id()).collect()
}

fn costs(nodes: &Vec<Node>) -> Vec<i32> {
    nodes.iter().map(|node| node.get_value()).collect()
}

/// Nodes with the given names, and a transition for each `(from, to, weight)`.
fn graph(ids: &[&str], transitions: &[(usize, usize, i32)]) -> Vec<Node> {
    let mut nodes: Vec<Node> = ids.iter().map(|id| Node::new(id.to_string())).collect();
    for &(from, to, weight) in transitions {
        let target = Node::new(ids[to].to_string());
        nodes[from].add_next(&target, weight);
    }
    nodes
}

#[test]
fn one_pass_from_the_source_then_the_nearest_node() {
    let b = Node::new("B".to_string());
    let c = Node::new("C".to_string());
    let mut a = Node::new("A".to_string());
    a.add_next(&b, 85);
    a.add_next(&c, 12);
    a.set_value(0);
    let mut active = vec![a, b, c];

    let current = find_nearest_node(&active).unwrap().clone();
    assert_eq!(current.get_id(), "A");
    update_next_node("B", &current, &mut active);
    update_next_node("C", &current, &mut active);
    remove_node(&mut active, &current);
    assert_eq!(names(&active), vec!["B", "C"]);
    assert_eq!(costs(&active), vec![85, 12]);

    let current = find_nearest_node(&active).unwrap().clone();
    assert_eq!(current.get_id(), "C");
    assert!(current.get_transitions().is_empty());
    remove_node(&mut active, &current);
    assert_eq!(names(&active), vec!["B"]);
    assert_eq!(costs(&active), vec![85]);

    let current = find_nearest_node(&active).unwrap().clone();
    assert_eq!(current.get_id(), "B");
    remove_node(&mut active, &current);
    assert!(active.is_empty());
    assert_eq!(find_nearest_node(&active), None);
}

#[test]
fn a_run_over_three_nodes() {
    let mut nodes = graph(&["A", "B", "C"], &[(0, 1, 85), (0, 2, 12)]);
    shortest_paths(&mut nodes, "A");
    assert_eq!(names(&nodes), vec!["A", "B", "C"]);
    assert_eq!(costs(&nodes), vec![0, 85, 12]);
    assert_eq!(nodes[0].get_next_mut("B").unwrap().get_weight(), 85);
    assert_eq!(nodes[0].get_next_mut("C").unwrap().get_weight(), 12);
}

#[test]
fn a_run_takes_the_cheaper_way_round() {
    let mut nodes = graph(
        &["s", "a", "b", "t"],
        &[(0, 1, 10), (0, 2, 1), (2, 1, 1), (1, 3, 5), (2, 3, 100)],
    );
    shortest_paths(&mut nodes, "s");
    assert_eq!(costs(&nodes), vec![0, 2, 1, 7]);
}

#[test]
fn a_run_from_a_node_in_the_middle() {
    let mut nodes = graph(&["a", "b", "c", "d"], &[(0, 1, 1), (1, 2, 2), (2, 3, 3), (3, 1, 4)]);
    shortest_paths(&mut nodes, "c");
    assert_eq!(names(&nodes), vec!["a", "b", "c", "d"]);
    assert_eq!(costs(&nodes), vec![i32::MAX, 7, 0, 3]);
}

#[test]
fn a_node_that_cannot_be_reached_stays_at_infinity() {
    let mut nodes = graph(&["a", "b", "c", "d"], &[(0, 1, 4), (2, 1, 1), (2, 3, 1), (3, 0, 1)]);
    shortest_paths(&mut nodes, "a");
    assert_eq!(costs(&nodes), vec![0, 4, i32::MAX, i32::MAX]);
}

#[test]
fn a_run_forgets_the_values_from_before() {
    let mut nodes = graph(&["a", "b", "c"], &[(0, 1, 4)]);
    nodes[0].set_value(17);
    nodes[1].set_value(1);
    nodes[2].set_value(-5);
    shortest_paths(&mut nodes, "a");
    assert_eq!(costs(&nodes), vec![0, 4, i32::MAX]);
}

#[test]
fn a_run_counts_each_node_s_offset_in_its_transitions() {
    let c = Node::new("c".to_string());
    let mut b = Node::with_offset("b".to_string(), 100);
    b.add_next(&c, 1);
    let mut a = Node::with_offset("a".to_string(), 32);
    a.add_next(&b, 10);
    a.add_next(&c, 150);
    let mut nodes = vec![c, b, a];
    shortest_paths(&mut nodes, "a");
    assert_eq!(names(&nodes), vec!["c", "b", "a"]);
    assert_eq!(costs(&nodes), vec![143, 42, 0]);
    assert_eq!(nodes[1].get_offset(), 100);
    assert_eq!(nodes[2].get_offset(), 32);
}

#[test]
fn a_run_without_the_source_reaches_nothing() {
    let mut nodes = graph(&["a", "b"], &[(0, 1, 4)]);
    nodes[0].set_value(3);
    shortest_paths(&mut nodes, "z");
    assert_eq!(costs(&nodes), vec![i32::MAX, i32::MAX]);
}

#[test]
fn a_run_over_no_node() {
    let mut nodes: Vec<Node> = vec![];
    shortest_paths(&mut nodes, "a");
    assert!(nodes.is_empty());
}

#[test]
fn a_run_over_the_source_alone() {
    let mut nodes = graph(&["a"], &[(0, 0, 3)]);
    shortest_paths(&mut nodes, "a");
    assert_eq!(costs(&nodes), vec![0]);
}

#[test]
fn a_transition_to_a_node_that_is_not_there_leads_nowhere() {
    let gone = Node::new("gone".to_string());
    let b = Node::new("b".to_string());
    let mut a = Node::new("a".to_string());
    a.add_next(&gone, 1);
    a.add_next(&b, 2);
    let mut nodes = vec![a, b];
    shortest_paths(&mut nodes, "a");
    assert_eq!(costs(&nodes), vec![0, 2]);
}

#[test]
fn a_run_with_transitions_of_no_weight() {
    let mut nodes = graph(&["a", "b", "c"], &[(0, 1, 0), (1, 2, 0), (2, 0, 0)]);
    shortest_paths(&mut nodes, "b");
    assert_eq!(costs(&nodes), vec![0, 0, 0]);
}

#[test]
fn a_cost_that_does_not_fit_stays_at_infinity() {
    let mut nodes = graph(
        &["a", "b", "c", "d"],
        &[(0, 1, i32::MAX - 1), (1, 2, 1), (2, 3, 1), (0, 3, i32::MAX)],
    );
    shortest_paths(&mut nodes, "a");
    assert_eq!(costs(&nodes), vec![0, i32::MAX - 1, i32::MAX, i32::MAX]);
}

#[test]
fn a_run_over_a_longer_chain_in_any_order() {
    let mut nodes = graph(
        &["e", "c", "a", "d", "b"],
        &[(2, 4, 3), (4, 1, 4), (1, 3, 5), (3, 0, 6), (2, 0, 100), (4, 3, 10)],
    );
    shortest_paths(&mut nodes, "a");
    assert_eq!(names(&nodes), vec!["e", "c", "a", "d", "b"]);
    assert_eq!(costs(&nodes), vec![18, 7, 0, 12, 3]);
}
