//! Node-based texture processing: the graph of nodes and edges, the bookkeeping of
//! node states and priorities, and the scheduling decisions of the processing engine.

pub mod edge;
pub mod error;
pub mod node;
pub mod node_graph;
pub mod slot_data;
pub mod names;
pub mod shared;
pub mod priority;
pub mod live_graph;
pub mod process_pack;
pub mod engine;
pub mod transient;
