# kanter_core

A node-based texture processing engine: images flow through a graph of nodes (inputs,
outputs, mixes, channel splits and merges, normal maps, nested graphs), and each node is
processed on a thread of its own once its inputs are ready.

## Layout

- `src/` is the verified library, checked with Verus:
  - `node_graph.rs`, `edge.rs`, `node/`: graphs, nodes, slots and edges, and the rules for
    connecting them;
  - `live_graph.rs`: a graph being processed: node states, dirtying, outputs, requests and
    priorities;
  - `priority.rs`: how priorities spread from a node to the nodes that feed it;
  - `engine.rs`: what the engine does with a finished node and which nodes can start;
  - `process_pack.rs`: which nodes are processed at once, by priority;
  - `transient.rs`: which pixel buffers stay in memory and which go to storage;
  - `shared.rs`, `slot_data.rs`, `names.rs`: sizes, images of slots, and names.
- `app/` is the part that touches the outside world: threads, pixel arithmetic in floating
  point, image files, temporary files and graph files.
- `tests/` runs the library.
