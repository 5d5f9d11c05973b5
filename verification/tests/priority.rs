use kanter_core::node::mix::MixType;
use kanter_core::node::node_type::NodeType;
use kanter_core::node::Node;
use kanter_core::node_graph::{NodeGraph, NodeId, SlotId};
use kanter_core::priority::{Priority, PriorityPropagator};

fn add_node_with_prio(
    node_graph: &mut NodeGraph,
    priority_propagator: &mut PriorityPropagator,
    val: i8,
) -> NodeId {
    let node_id = node_graph
        .add_node(Node::new(NodeType::Mix(MixType::default())))
        .unwrap();
    let mut prio = Priority::new();
    prio.set_priority(val);
    priority_propagator.push_priority(node_id, prio);
    node_id
}

fn assert_priority(expected_node_id: NodeId, expected_prio: i8, (node_id, prio): (NodeId, Priority)) {
    assert_eq!(node_id, expected_node_id);
    assert_eq!(prio.propagated_priority(), expected_prio);
    assert!(!prio.is_touched());
}

#[test]
fn propagate_priority() {
    let mut node_graph = NodeGraph::new();
    let mut priority_propagator = PriorityPropagator::new();

    let node_1_prio = 3;
    let node_2_prio = -10;
    let node_3_prio = 8;
    let node_4_prio = 5;
    let node_5_prio = 0;

    let node_1 = add_node_with_prio(&mut node_graph, &mut priority_propagator, node_1_prio);
    let node_2 = add_node_with_prio(&mut node_graph, &mut priority_propagator, node_2_prio);
    let node_3 = add_node_with_prio(&mut node_graph, &mut priority_propagator, node_3_prio);
    let node_4 = add_node_with_prio(&mut node_graph, &mut priority_propagator, node_4_prio);
    let node_5 = add_node_with_prio(&mut node_graph, &mut priority_propagator, node_5_prio);

    node_graph.connect(node_1, node_2, SlotId(0), SlotId(0)).unwrap();
    node_graph.connect(node_2, node_4, SlotId(0), SlotId(0)).unwrap();
    node_graph.connect(node_3, node_4, SlotId(0), SlotId(1)).unwrap();
    node_graph.connect(node_4, node_5, SlotId(0), SlotId(0)).unwrap();

    // This is what the DAG looks like
    //
    //  1───2───┐
    //          4───5
    //      3───┘
    //

    priority_propagator.update(&node_graph, &vec![]);

    let mut priorities = priority_propagator.priorities().clone();
    assert_priority(node_3, node_3_prio, priorities.pop().unwrap());
    assert_priority(node_4, node_4_prio, priorities.pop().unwrap());
    assert_priority(node_1, node_4_prio, priorities.pop().unwrap());
    assert_priority(node_5, node_5_prio, priorities.pop().unwrap());
    assert_priority(node_2, node_4_prio, priorities.pop().unwrap());
}

#[test]
fn priority_starts_touched_and_set_priority_touches_on_change() {
    let mut p = Priority::new();
    assert!(p.is_touched());
    assert_eq!(p.priority(), 0);
    assert_eq!(p.propagated_priority(), 0);
    p.set_priority(4);
    assert_eq!(p.priority(), 4);
    assert!(p.is_touched());
}

#[test]
fn update_drops_removed_nodes_and_sorts_by_priority() {
    let mut graph = NodeGraph::new();
    let mut prop = PriorityPropagator::new();
    let a = add_node_with_prio(&mut graph, &mut prop, 7);
    let b = add_node_with_prio(&mut graph, &mut prop, -2);
    let c = add_node_with_prio(&mut graph, &mut prop, 1);
    graph.remove_node(a).unwrap();
    prop.update(&graph, &vec![]);
    let entries = prop.priorities().clone();
    assert_eq!(entries.len(), 2);
    assert_eq!(entries[0].0, b);
    assert_eq!(entries[1].0, c);
    assert!(entries.iter().all(|(_, p)| !p.is_touched()));
    assert!(entries.iter().all(|(_, p)| p.propagated_priority() >= p.priority()));
}

#[test]
fn update_keeps_a_removed_node_that_is_still_held() {
    let mut graph = NodeGraph::new();
    let mut prop = PriorityPropagator::new();
    let a = add_node_with_prio(&mut graph, &mut prop, 7);
    let b = add_node_with_prio(&mut graph, &mut prop, -2);
    let c = add_node_with_prio(&mut graph, &mut prop, 4);
    graph.remove_node(a).unwrap();
    graph.remove_node(c).unwrap();
    prop.update(&graph, &vec![a]);
    let entries = prop.priorities().clone();
    assert_eq!(entries.len(), 2);
    assert_eq!(entries[0].0, b);
    assert_eq!(entries[1].0, a);
    assert_eq!(entries[1].1.propagated_priority(), 7);
    prop.update(&graph, &vec![]);
    assert_eq!(prop.priorities().len(), 1);
    assert_eq!(prop.priorities()[0].0, b);
}

#[test]
fn push_priority_keeps_the_first_entry_of_a_node() {
    let mut prop = PriorityPropagator::new();
    let mut p1 = Priority::new();
    p1.set_priority(3);
    let mut p2 = Priority::new();
    p2.set_priority(9);
    prop.push_priority(NodeId(1), p1);
    prop.push_priority(NodeId(1), p2);
    assert_eq!(prop.priorities().len(), 1);
    assert_eq!(prop.priorities()[0].1.priority(), 3);
}

#[test]
fn a_child_raises_its_parent() {
    let mut graph = NodeGraph::new();
    let mut prop = PriorityPropagator::new();
    let parent = add_node_with_prio(&mut graph, &mut prop, 1);
    let child = add_node_with_prio(&mut graph, &mut prop, 20);
    graph.connect(parent, child, SlotId(0), SlotId(0)).unwrap();
    prop.update(&graph, &vec![]);
    let entries = prop.priorities().clone();
    let parent_entry = entries.iter().find(|(id, _)| *id == parent).unwrap();
    assert_eq!(parent_entry.1.propagated_priority(), 20);
}

#[test]
fn a_second_update_changes_nothing() {
    let mut graph = NodeGraph::new();
    let mut prop = PriorityPropagator::new();
    let a = add_node_with_prio(&mut graph, &mut prop, 2);
    let b = add_node_with_prio(&mut graph, &mut prop, 9);
    let c = add_node_with_prio(&mut graph, &mut prop, -4);
    graph.connect(a, b, SlotId(0), SlotId(0)).unwrap();
    graph.connect(c, a, SlotId(0), SlotId(0)).unwrap();
    prop.update(&graph, &vec![]);
    let first: Vec<(NodeId, i8, i8)> = prop
        .priorities()
        .iter()
        .map(|(id, p)| (*id, p.priority(), p.propagated_priority()))
        .collect();
    assert_eq!(first.iter().find(|e| e.0 == c).unwrap().2, 9);
    prop.update(&graph, &vec![]);
    let second: Vec<(NodeId, i8, i8)> = prop
        .priorities()
        .iter()
        .map(|(id, p)| (*id, p.priority(), p.propagated_priority()))
        .collect();
    assert_eq!(first, second);
}

#[test]
fn every_priority_settles_on_a_chain() {
    let mut graph = NodeGraph::new();
    let mut prop = PriorityPropagator::new();
    let a = add_node_with_prio(&mut graph, &mut prop, 1);
    let b = add_node_with_prio(&mut graph, &mut prop, -3);
    let c = add_node_with_prio(&mut graph, &mut prop, 7);
    let d = add_node_with_prio(&mut graph, &mut prop, 2);
    graph.connect(a, b, SlotId(0), SlotId(0)).unwrap();
    graph.connect(b, c, SlotId(0), SlotId(0)).unwrap();
    graph.connect(d, b, SlotId(0), SlotId(1)).unwrap();
    prop.update(&graph, &vec![]);
    let value = |id: NodeId| prop.priorities().iter().find(|e| e.0 == id).unwrap().1.propagated_priority();
    assert_eq!(value(c), 7);
    assert_eq!(value(b), 7);
    assert_eq!(value(a), 7);
    assert_eq!(value(d), 7);
}

#[test]
fn a_lone_node_settles_on_its_own_priority() {
    let mut graph = NodeGraph::new();
    let mut prop = PriorityPropagator::new();
    let a = add_node_with_prio(&mut graph, &mut prop, -5);
    let b = add_node_with_prio(&mut graph, &mut prop, -7);
    let c = add_node_with_prio(&mut graph, &mut prop, 3);
    graph.connect(b, c, SlotId(0), SlotId(0)).unwrap();
    prop.update(&graph, &vec![]);
    let value = |id: NodeId| prop.priorities().iter().find(|e| e.0 == id).unwrap().1.propagated_priority();
    assert_eq!(value(a), -5);
    assert_eq!(value(b), 3);
    assert_eq!(value(c), 3);
}
