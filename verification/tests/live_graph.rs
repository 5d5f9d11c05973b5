use kanter_core::edge::Edge;
use kanter_core::error::TexProError;
use kanter_core::live_graph::{LiveGraph, NodeState};
use kanter_core::node::embed::EmbeddedSlotDataId;
use kanter_core::node::mix::MixType;
use kanter_core::node::node_type::NodeType;
use kanter_core::node::{Node, Side};
use kanter_core::node_graph::{NodeId, SlotId};
use kanter_core::slot_data::{BufferRef, Size, SlotData, SlotImage};

fn value_node() -> Node {
    Node::new(NodeType::Value(0f32.to_bits()))
}

fn mix_node() -> Node {
    Node::new(NodeType::Mix(MixType::default()))
}

fn gray(node: NodeId, slot: u32, id: u64) -> SlotData {
    SlotData::new(node, SlotId(slot), SlotImage::Gray(BufferRef { id, size: Size::new(2, 2) }))
}

/// a -> b -> c, all clean.
fn clean_chain() -> (LiveGraph, NodeId, NodeId, NodeId) {
    let mut lg = LiveGraph::new();
    let a = lg.add_node(value_node()).unwrap();
    let b = lg.add_node(mix_node()).unwrap();
    let c = lg.add_node(mix_node()).unwrap();
    lg.connect(a, b, SlotId(0), SlotId(0)).unwrap();
    lg.connect(b, c, SlotId(0), SlotId(0)).unwrap();
    for id in [a, b, c] {
        lg.set_state(id, NodeState::Clean).unwrap();
    }
    lg.changed_consume();
    (lg, a, b, c)
}

#[test]
fn remove_node() {
    let mut lg = LiveGraph::new();
    let value = lg.add_node(value_node()).unwrap();
    lg.remove_node(value).unwrap();
    assert_eq!(lg.node_ids().len(), 0);
    assert_eq!(lg.node_state(value), Err(TexProError::InvalidNodeId));
}

#[test]
fn connect_invalid_slot() {
    let mut lg = LiveGraph::new();
    let value = lg.add_node(value_node()).unwrap();
    let mix = lg.add_node(mix_node()).unwrap();
    assert!(lg.connect(value, mix, SlotId(0), SlotId(0)).is_ok());
    assert!(lg.connect(value, mix, SlotId(0), SlotId(1)).is_ok());
    assert_eq!(lg.connect(value, mix, SlotId(0), SlotId(2)), Err(TexProError::InvalidSlotId));
}

#[test]
fn wrong_slot_type() {
    let mut lg = LiveGraph::new();
    let image = lg.add_node(Node::new(NodeType::Image("image.png".to_string()))).unwrap();
    let gray_out = lg.add_node(Node::new(NodeType::OutputGray("out".to_string()))).unwrap();
    assert_eq!(lg.connect(image, gray_out, SlotId(0), SlotId(0)), Err(TexProError::InvalidSlotType));
}

#[test]
fn new_nodes_start_dirty_and_changed() {
    let mut lg = LiveGraph::new();
    let a = lg.add_node(value_node()).unwrap();
    assert_eq!(lg.node_state(a), Ok(NodeState::Dirty));
    assert_eq!(lg.changed_consume(), vec![a]);
    assert_eq!(lg.changed_consume(), Vec::<NodeId>::new());
}

#[test]
fn connect_dirties_everything_below() {
    let (mut lg, a, b, c) = clean_chain();
    let x = lg.add_node(value_node()).unwrap();
    lg.set_state(x, NodeState::Clean).unwrap();
    lg.disconnect_slot(a, Side::Output, SlotId(0)).unwrap();
    for id in [a, b, c, x] {
        lg.set_state(id, NodeState::Clean).unwrap();
    }
    lg.changed_consume();
    let e = lg.connect(x, b, SlotId(0), SlotId(0)).unwrap();
    assert_eq!(e, Edge::new(x, b, SlotId(0), SlotId(0)));
    assert_eq!(lg.node_state(b), Ok(NodeState::Dirty));
    assert_eq!(lg.node_state(c), Ok(NodeState::Dirty));
    assert_eq!(lg.node_state(x), Ok(NodeState::Clean));
    assert_eq!(lg.node_state(a), Ok(NodeState::Clean));
    assert_eq!(lg.changed_consume(), vec![b, c]);
}

#[test]
fn dirtying_a_processing_node_makes_it_processing_dirty() {
    let (mut lg, a, b, c) = clean_chain();
    lg.overwrite_state(b, NodeState::Processing).unwrap();
    lg.set_state(a, NodeState::Dirty).unwrap();
    assert_eq!(lg.node_state(a), Ok(NodeState::Dirty));
    assert_eq!(lg.node_state(b), Ok(NodeState::ProcessingDirty));
    assert_eq!(lg.node_state(c), Ok(NodeState::Dirty));
    lg.force_state(b, NodeState::Dirty).unwrap();
    assert_eq!(lg.node_state(b), Ok(NodeState::Dirty));
}

#[test]
fn dirtying_stops_at_dirty_nodes() {
    let (mut lg, a, b, c) = clean_chain();
    lg.overwrite_state(b, NodeState::Dirty).unwrap();
    lg.set_state(a, NodeState::Dirty).unwrap();
    assert_eq!(lg.node_state(c), Ok(NodeState::Clean));
}

#[test]
fn request_and_prioritise() {
    let (mut lg, a, b, _c) = clean_chain();
    lg.request(a).unwrap();
    assert_eq!(lg.node_state(a), Ok(NodeState::Clean));
    lg.overwrite_state(b, NodeState::Dirty).unwrap();
    lg.request(b).unwrap();
    assert_eq!(lg.node_state(b), Ok(NodeState::Requested));
    lg.prioritise(b).unwrap();
    assert_eq!(lg.node_state(b), Ok(NodeState::Prioritised));
    assert_eq!(lg.request(NodeId(99)), Err(TexProError::InvalidNodeId));
    assert_eq!(lg.prioritise(NodeId(99)), Err(TexProError::InvalidNodeId));
    assert_eq!(lg.node_ids_with_state(NodeState::Prioritised), vec![b]);
    assert_eq!(lg.node_ids_without_state(NodeState::Prioritised), vec![a, NodeId(2)]);
}

#[test]
fn closest_processable_goes_up_through_waiting_parents() {
    let (mut lg, a, b, c) = clean_chain();
    lg.overwrite_state(a, NodeState::Dirty).unwrap();
    lg.overwrite_state(b, NodeState::Dirty).unwrap();
    lg.overwrite_state(c, NodeState::Requested).unwrap();
    assert_eq!(lg.get_closest_processable(c), vec![a]);
    lg.overwrite_state(a, NodeState::Processing).unwrap();
    assert_eq!(lg.get_closest_processable(c), Vec::<NodeId>::new());
    lg.overwrite_state(a, NodeState::Clean).unwrap();
    assert_eq!(lg.get_closest_processable(c), vec![b]);
}

#[test]
fn remove_edge_dirties_below_and_drops_outputs() {
    let (mut lg, a, b, c) = clean_chain();
    lg.add_slot_datas(vec![gray(a, 0, 1), gray(b, 0, 2), gray(c, 0, 3)]);
    let e = Edge::new(a, b, SlotId(0), SlotId(0));
    assert_eq!(lg.remove_edge(e), Ok(e));
    assert_eq!(lg.node_state(a), Ok(NodeState::Clean));
    assert_eq!(lg.node_state(b), Ok(NodeState::Dirty));
    assert_eq!(lg.node_state(c), Ok(NodeState::Dirty));
    assert!(lg.slot_data(a, SlotId(0)).is_ok());
    assert_eq!(lg.slot_data(b, SlotId(0)).err(), Some(TexProError::NoSlotData));
    assert_eq!(lg.slot_data(c, SlotId(0)).err(), Some(TexProError::NoSlotData));
    assert_eq!(lg.remove_edge(e), Err(TexProError::InvalidEdge));
    assert_eq!(lg.remove_edge(Edge::new(a, NodeId(77), SlotId(0), SlotId(0))), Err(TexProError::InvalidNodeId));
}

#[test]
fn disconnect_input_slot_dirties_the_node() {
    let (mut lg, a, b, c) = clean_chain();
    let removed = lg.disconnect_slot(b, Side::Input, SlotId(0)).unwrap();
    assert_eq!(removed, vec![Edge::new(a, b, SlotId(0), SlotId(0))]);
    assert_eq!(lg.node_state(b), Ok(NodeState::Dirty));
    assert_eq!(lg.node_state(c), Ok(NodeState::Dirty));
    assert_eq!(lg.disconnect_slot(b, Side::Input, SlotId(0)), Err(TexProError::SlotNotOccupied));
    assert_eq!(lg.disconnect_slot(NodeId(50), Side::Input, SlotId(0)), Err(TexProError::InvalidNodeId));
}

#[test]
fn disconnect_output_slot_marks_the_node_changed() {
    let (mut lg, a, b, c) = clean_chain();
    lg.disconnect_slot(a, Side::Output, SlotId(0)).unwrap();
    assert_eq!(lg.node_state(a), Ok(NodeState::Clean));
    assert_eq!(lg.node_state(b), Ok(NodeState::Clean));
    assert_eq!(lg.node_state(c), Ok(NodeState::Dirty));
    assert_eq!(lg.changed_consume(), vec![a, c]);
}

#[test]
fn remove_node_marks_fed_nodes_changed() {
    let (mut lg, a, b, c) = clean_chain();
    let edges = lg.remove_node(b).unwrap();
    assert_eq!(edges.len(), 2);
    assert_eq!(lg.changed_consume(), vec![b, c]);
    assert_eq!(lg.node_ids(), vec![a, c]);
    assert_eq!(lg.edges(), Vec::<Edge>::new());
}

#[test]
fn slot_datas_and_embedding() {
    let mut lg = LiveGraph::new();
    let a = lg.add_node(value_node()).unwrap();
    lg.add_slot_datas(vec![gray(a, 0, 10), gray(a, 1, 11), gray(a, 0, 12)]);
    let sds = lg.node_slot_datas(a).unwrap();
    let ids: Vec<u64> = sds.iter().map(|sd| sd.image.bufs()[0].id).collect();
    assert_eq!(ids, vec![10, 11, 10]);
    assert_eq!(lg.slot_data_size(a, SlotId(1)), Ok(Size::new(2, 2)));
    assert_eq!(lg.slot_data_size(a, SlotId(7)), Err(TexProError::NoSlotData));
    let id = EmbeddedSlotDataId(3);
    assert_eq!(lg.embed_slot_data_with_id(gray(a, 0, 10), id), Ok(id));
    assert_eq!(lg.embed_slot_data_with_id(gray(a, 0, 11), id), Err(TexProError::InvalidSlotId));
    assert_eq!(lg.embedded_slot_datas().len(), 1);
    lg.remove_nodes_data(a);
    assert_eq!(lg.node_slot_datas(a).unwrap().len(), 0);
}

#[test]
fn priorities_of_a_live_graph() {
    let (mut lg, a, b, c) = clean_chain();
    lg.set_priority(c, 9).unwrap();
    lg.propagate_priorities(&vec![]);
    assert_eq!(lg.priority(a).unwrap().propagated_priority(), 9);
    assert_eq!(lg.priority(b).unwrap().propagated_priority(), 9);
    assert_eq!(lg.priority(c).unwrap().priority(), 9);
    assert_eq!(lg.set_priority(NodeId(40), 1), Err(TexProError::InvalidNodeId));
}

#[test]
fn rename_and_outputs() {
    let mut lg = LiveGraph::new();
    let o1 = lg.add_node(Node::new(NodeType::OutputRgba("out".to_string()))).unwrap();
    let o2 = lg.add_node(Node::new(NodeType::OutputRgba("out".to_string()))).unwrap();
    assert_eq!(lg.output_ids(), vec![o1, o2]);
    assert_eq!(lg.node(o2).unwrap().node_type.name().unwrap().as_str(), "out_0");
    assert_eq!(lg.rename_output_node(o1, "final").unwrap().as_str(), "out");
    assert_eq!(lg.node(o1).unwrap().node_type.name().unwrap().as_str(), "final");
}

#[test]
fn ancestors_and_feeding_nodes() {
    let (mut lg, a, b, c) = clean_chain();
    let d = lg.add_node(value_node()).unwrap();
    lg.connect(d, b, SlotId(0), SlotId(1)).unwrap();
    let mut above_c = lg.get_ancestors(c);
    above_c.sort();
    above_c.dedup();
    assert_eq!(above_c, vec![a, b, d]);
    assert_eq!(lg.get_ancestors(a), Vec::<NodeId>::new());
    assert_eq!(lg.get_ancestors(b).len(), 2);
    assert_eq!(lg.get_root_ids(), vec![a, b, d]);
}

#[test]
fn slot_in_memory_checks_every_buffer() {
    let (mut lg, a, _b, _c) = clean_chain();
    lg.add_slot_datas(vec![gray(a, 0, 41)]);
    assert_eq!(lg.slot_in_memory(a, SlotId(0), &vec![41, 7]), Ok(true));
    assert_eq!(lg.slot_in_memory(a, SlotId(0), &vec![7]), Ok(false));
    assert_eq!(lg.slot_in_memory(a, SlotId(1), &vec![41]), Err(TexProError::NoSlotData));
}

#[test]
fn a_processing_node_stays_processing_dirty_when_dirtied_again() {
    // a feeds b twice (two paths into the same node) and c; b is being processed.
    let mut lg = LiveGraph::new();
    let a = lg.add_node(value_node()).unwrap();
    let b = lg.add_node(mix_node()).unwrap();
    let c = lg.add_node(mix_node()).unwrap();
    lg.connect(a, b, SlotId(0), SlotId(0)).unwrap();
    lg.connect(a, c, SlotId(0), SlotId(0)).unwrap();
    lg.connect(c, b, SlotId(0), SlotId(1)).unwrap();
    for id in [a, b, c] {
        lg.overwrite_state(id, NodeState::Clean).unwrap();
    }
    lg.overwrite_state(b, NodeState::Processing).unwrap();
    lg.set_state(a, NodeState::Dirty).unwrap();
    assert_eq!(lg.node_state(b), Ok(NodeState::ProcessingDirty));
    lg.set_state(b, NodeState::Dirty).unwrap();
    assert_eq!(lg.node_state(b), Ok(NodeState::ProcessingDirty));
}

#[test]
fn new_nodes_take_the_first_free_ids() {
    let mut lg = LiveGraph::new();
    assert_eq!(lg.add_node(value_node()), Ok(NodeId(0)));
    assert_eq!(lg.add_node(mix_node()), Ok(NodeId(1)));
    assert!(lg.node_graph().is_well_formed());
}
