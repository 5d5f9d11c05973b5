use kanter_core::engine::{collect_process_packs, handle_result, processable_nodes, requested_nodes, start_processing};
use kanter_core::error::TexProError;
use kanter_core::live_graph::{LiveGraph, NodeState};
use kanter_core::node::mix::MixType;
use kanter_core::node::node_type::NodeType;
use kanter_core::node::Node;
use kanter_core::node_graph::{NodeId, SlotId};
use kanter_core::process_pack::{PackAction, ProcessPack, ProcessPackManager};
use kanter_core::slot_data::{BufferRef, Size, SlotData, SlotImage};
use kanter_core::transient::{plan_memory, take_incoming, BufferEntry};

fn gray(node: NodeId, slot: u32, id: u64) -> SlotData {
    SlotData::new(node, SlotId(slot), SlotImage::Gray(BufferRef { id, size: Size::new(1, 1) }))
}

fn pair() -> (LiveGraph, NodeId, NodeId) {
    let mut lg = LiveGraph::new();
    let a = lg.add_node(Node::new(NodeType::Value(1f32.to_bits()))).unwrap();
    let b = lg.add_node(Node::new(NodeType::Mix(MixType::Add))).unwrap();
    lg.connect(a, b, SlotId(0), SlotId(0)).unwrap();
    (lg, a, b)
}

#[test]
fn a_finished_node_becomes_clean() {
    let (mut lg, a, _b) = pair();
    let (edges, inputs) = start_processing(&mut lg, a).unwrap();
    assert!(edges.is_empty() && inputs.is_empty());
    assert_eq!(lg.node_state(a), Ok(NodeState::Processing));
    handle_result(&mut lg, a, Ok(vec![gray(a, 0, 5)])).unwrap();
    assert_eq!(lg.node_state(a), Ok(NodeState::Clean));
    assert_eq!(lg.slot_data(a, SlotId(0)).unwrap().image.bufs()[0].id, 5);
}

#[test]
fn a_node_dirtied_while_processing_is_not_clean() {
    let (mut lg, a, _b) = pair();
    start_processing(&mut lg, a).unwrap();
    lg.set_state(a, NodeState::Dirty).unwrap();
    assert_eq!(lg.node_state(a), Ok(NodeState::ProcessingDirty));
    handle_result(&mut lg, a, Ok(vec![gray(a, 0, 5)])).unwrap();
    assert_eq!(lg.node_state(a), Ok(NodeState::Dirty));
    assert_eq!(lg.slot_data(a, SlotId(0)).err(), Some(TexProError::NoSlotData));
}

#[test]
fn a_cancelled_node_is_dirty_and_uncancelled() {
    let (mut lg, a, _b) = pair();
    start_processing(&mut lg, a).unwrap();
    lg.set_cancel(a, true).unwrap();
    handle_result(&mut lg, a, Ok(vec![gray(a, 0, 5)])).unwrap();
    assert_eq!(lg.node_state(a), Ok(NodeState::Dirty));
    assert!(!lg.node(a).unwrap().cancel);

    start_processing(&mut lg, a).unwrap();
    lg.set_cancel(a, true).unwrap();
    handle_result(&mut lg, a, Err(TexProError::Canceled)).unwrap();
    assert_eq!(lg.node_state(a), Ok(NodeState::Dirty));
    assert!(!lg.node(a).unwrap().cancel);
}

#[test]
fn other_errors_are_handed_back() {
    let (mut lg, a, _b) = pair();
    assert_eq!(handle_result(&mut lg, a, Err(TexProError::Generic)), Err(TexProError::Generic));
    assert_eq!(lg.node_state(a), Ok(NodeState::Dirty));
}

#[test]
fn parents_outputs_are_dropped_without_cache() {
    let (mut lg, a, b) = pair();
    start_processing(&mut lg, a).unwrap();
    handle_result(&mut lg, a, Ok(vec![gray(a, 0, 5)])).unwrap();
    // Connecting raised b's cancel flag; the engine lowers it before b starts.
    lg.set_cancel(b, false).unwrap();
    let (edges, inputs) = start_processing(&mut lg, b).unwrap();
    assert_eq!(edges.len(), 1);
    assert_eq!(inputs.len(), 1);
    assert_eq!(inputs[0].image.bufs()[0].id, 5);
    handle_result(&mut lg, b, Ok(vec![gray(b, 0, 6)])).unwrap();
    assert_eq!(lg.node_state(b), Ok(NodeState::Clean));
    assert_eq!(lg.slot_data(a, SlotId(0)).err(), Some(TexProError::NoSlotData));
}

#[test]
fn parents_outputs_are_kept_with_cache() {
    let (mut lg, a, b) = pair();
    lg.set_use_cache(true);
    start_processing(&mut lg, a).unwrap();
    handle_result(&mut lg, a, Ok(vec![gray(a, 0, 5)])).unwrap();
    lg.set_cancel(b, false).unwrap();
    start_processing(&mut lg, b).unwrap();
    handle_result(&mut lg, b, Ok(vec![gray(b, 0, 6)])).unwrap();
    assert_eq!(lg.node_state(b), Ok(NodeState::Clean));
    assert!(lg.slot_data(a, SlotId(0)).is_ok());
}

#[test]
fn a_missing_input_dirties_both_ends() {
    let (mut lg, a, b) = pair();
    lg.set_state(a, NodeState::Clean).unwrap();
    assert!(start_processing(&mut lg, b).is_none());
    assert_eq!(lg.node_state(a), Ok(NodeState::Dirty));
    assert_eq!(lg.node_state(b), Ok(NodeState::Dirty));
    assert!(start_processing(&mut lg, NodeId(9)).is_none());
}

#[test]
fn requested_and_processable_nodes() {
    let (mut lg, a, b) = pair();
    assert_eq!(requested_nodes(&lg), Vec::<NodeId>::new());
    lg.request(b).unwrap();
    assert_eq!(requested_nodes(&lg), vec![b]);
    assert_eq!(processable_nodes(&lg), vec![a]);
    lg.set_auto_update(true);
    assert_eq!(requested_nodes(&lg), vec![a, b]);
    let packs = collect_process_packs(&mut lg, 7, &vec![]);
    assert_eq!(packs, vec![ProcessPack { node_id: a, graph_id: 7, priority: 0 }]);
}

fn pack(n: u32, priority: i8) -> ProcessPack {
    ProcessPack { node_id: NodeId(n), graph_id: 0, priority }
}

#[test]
fn the_manager_starts_the_most_important_nodes() {
    let mut m = ProcessPackManager::with_max_count(2);
    let actions = m.update(vec![pack(1, 1), pack(2, 5), pack(3, 3)], &vec![true, true, true], &vec![]);
    assert_eq!(
        actions,
        vec![
            PackAction::Uncancel(pack(2, 5)),
            PackAction::Start(pack(2, 5)),
            PackAction::Uncancel(pack(3, 3)),
            PackAction::Start(pack(3, 3)),
        ]
    );
    assert_eq!(m.process_packs(), &vec![pack(3, 3), pack(2, 5)]);
    let current = vec![Some((NodeState::Processing, 3)), Some((NodeState::Processing, 5))];
    let actions = m.update(vec![pack(4, 9)], &vec![true], &current);
    assert_eq!(
        actions,
        vec![PackAction::Uncancel(pack(4, 9)), PackAction::Cancel(pack(3, 3)), PackAction::Start(pack(4, 9))]
    );
    assert_eq!(m.process_packs(), &vec![pack(2, 5), pack(4, 9)]);
    let current = vec![Some((NodeState::Clean, 5)), None];
    let actions = m.update(vec![], &vec![], &current);
    assert!(actions.is_empty());
    assert!(m.process_packs().is_empty());
}

#[test]
fn the_manager_uses_every_cpu() {
    let m = ProcessPackManager::new();
    assert!(m.max_count() >= 1);
}

fn entry(id: u64, bytes: usize, in_memory: bool, requested: bool, alive: bool) -> BufferEntry {
    BufferEntry { id, bytes, in_memory, requested, alive }
}

#[test]
fn the_buffer_queue_keeps_memory_under_the_threshold() {
    let queue = vec![
        entry(1, 10, true, false, true),
        entry(2, 10, false, true, true),
        entry(3, 10, true, false, false),
        entry(4, 10, true, false, true),
    ];
    let plan = plan_memory(&queue, 15);
    assert_eq!(plan.to_memory, vec![2]);
    assert_eq!(plan.to_storage, vec![1]);
    assert_eq!(
        plan.queue,
        vec![entry(1, 10, false, false, true), entry(4, 10, true, false, true), entry(2, 10, true, true, true)]
    );
}

#[test]
fn incoming_buffers_go_to_the_back_or_the_front() {
    let mut queue = vec![entry(1, 1, true, false, true)];
    take_incoming(&mut queue, vec![entry(2, 1, true, false, true), entry(3, 1, false, false, true), entry(1, 9, true, false, true)]);
    assert_eq!(queue.iter().map(|e| e.id).collect::<Vec<u64>>(), vec![3, 1, 2]);
}

#[test]
fn a_missing_input_dirties_the_node_below_it_too() {
    let mut lg = LiveGraph::new();
    let a = lg.add_node(Node::new(NodeType::Value(1f32.to_bits()))).unwrap();
    let b = lg.add_node(Node::new(NodeType::Mix(MixType::Add))).unwrap();
    let c = lg.add_node(Node::new(NodeType::Mix(MixType::Add))).unwrap();
    lg.connect(a, b, SlotId(0), SlotId(0)).unwrap();
    lg.connect(b, c, SlotId(0), SlotId(0)).unwrap();
    for id in [a, b, c] {
        lg.overwrite_state(id, NodeState::Clean).unwrap();
    }
    assert!(start_processing(&mut lg, b).is_none());
    assert_eq!(lg.node_state(a), Ok(NodeState::Dirty));
    assert_eq!(lg.node_state(b), Ok(NodeState::Dirty));
    assert_eq!(lg.node_state(c), Ok(NodeState::Dirty));
}

#[test]
fn collecting_packs_brings_priorities_up_to_date() {
    let (mut lg, a, b) = pair();
    lg.set_auto_update(true);
    lg.set_priority(b, 9).unwrap();
    let packs = collect_process_packs(&mut lg, 3, &vec![]);
    assert_eq!(packs.len(), 1);
    assert_eq!(packs[0].node_id, a);
    assert_eq!(packs[0].graph_id, 3);
    assert_eq!(packs[0].priority, 9);
}

#[test]
fn a_manager_with_no_room_and_no_candidates_does_nothing() {
    let mut manager = ProcessPackManager::with_max_count(0);
    let actions = manager.update(Vec::new(), &Vec::new(), &Vec::new());
    assert!(actions.is_empty());
    assert!(manager.process_packs().is_empty());
}

#[test]
fn started_packs_stay_and_come_most_important_first() {
    let mut manager = ProcessPackManager::with_max_count(2);
    let actions = manager.update(vec![pack(1, 3), pack(2, 7), pack(3, 5)], &vec![true, true, true], &Vec::new());
    let started: Vec<i8> = actions
        .iter()
        .filter_map(|a| match a {
            PackAction::Start(p) => Some(p.priority),
            _ => None,
        })
        .collect();
    assert_eq!(started, vec![7, 5]);
    assert_eq!(manager.process_packs().len(), 2);
    assert!(manager.process_packs().iter().all(|p| p.priority == 7 || p.priority == 5));
}

#[test]
fn candidates_whose_node_is_gone_are_passed_over() {
    let mut manager = ProcessPackManager::with_max_count(2);
    let actions = manager.update(vec![pack(1, 3), pack(2, 7), pack(3, 5)], &vec![true, false, true], &Vec::new());
    let started: Vec<u32> = actions
        .iter()
        .filter_map(|a| match a {
            PackAction::Start(p) => Some(p.node_id.0),
            _ => None,
        })
        .collect();
    assert_eq!(started, vec![3, 1]);
    assert!(manager.process_packs().iter().all(|p| p.node_id.0 != 2));
}
