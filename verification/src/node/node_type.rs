use vstd::prelude::*;
use vstd::string::*;
use crate::node_graph::{graph_slots, io_ids, io_names, NodeGraph, NodeId, SlotId};
use super::embed::EmbeddedSlotDataId;
use super::mix::MixType;
use super::{Node, Slot, SlotInput, SlotOutput, SlotType};

verus! {

/// What a node does. `Value` holds the bit pattern of a 32-bit float (`f32::to_bits`).
#[derive(Debug)]
pub enum NodeType {
    InputGray(String),
    InputRgba(String),
    OutputGray(String),
    OutputRgba(String),
    Graph(NodeGraph),
    Image(String),
    Embed(EmbeddedSlotDataId),
    Write(String),
    Value(u32),
    Mix(MixType),
    HeightToNormal,
    SeparateRgba,
    CombineRgba,
}

/// Two nodes are copies of each other: equal fields, and, for graph nodes, graphs whose
/// nodes are copies of each other and whose edges are equal.
pub open spec fn node_copy(a: Node, b: Node) -> bool
    decreases a, 1nat,
{
    &&& a.node_id == b.node_id
    &&& a.resize_policy == b.resize_policy
    &&& a.resize_filter == b.resize_filter
    &&& a.cancel == b.cancel
    &&& node_type_copy(a.node_type, b.node_type)
}

/// Two node types are copies of each other (see `node_copy`).
pub open spec fn node_type_copy(a: NodeType, b: NodeType) -> bool
    decreases a, 0nat,
{
    match a {
        NodeType::Graph(g) => b is Graph && graph_copy(g, b->Graph_0),
        _ => a == b,
    }
}

/// Two graphs are copies of each other (see `node_copy`).
pub open spec fn graph_copy(g: NodeGraph, h: NodeGraph) -> bool
    decreases g, 2nat,
{
    &&& g.nodes@.len() == h.nodes@.len()
    &&& forall|i: int| 0 <= i < g.nodes@.len() ==> node_copy(#[trigger] g.nodes@[i], h.nodes@[i])
    &&& g.edges@ == h.edges@
    &&& g.node_id_counter == h.node_id_counter
}

impl Clone for NodeType {
    fn clone(&self) -> (r: Self)
        ensures
            node_type_copy(*self, r),
    {
        clone_node_type(self)
    }
}

/// A copy of a node; a graph node's whole graph is copied.
pub(crate) fn clone_node(n: &Node) -> (r: Node)
    ensures
        node_copy(*n, r),
    decreases n, 0nat,
{
    Node {
        node_id: n.node_id,
        node_type: clone_node_type(&n.node_type),
        resize_policy: n.resize_policy,
        resize_filter: n.resize_filter,
        cancel: n.cancel,
    }
}

/// A copy of the nodes and edges of a graph.
pub(crate) fn clone_graph(g: &NodeGraph) -> (r: NodeGraph)
    ensures
        graph_copy(*g, r),
    decreases g, 0nat,
{
    let mut nodes: Vec<Node> = Vec::new();
    let mut i: usize = 0;
    while i < g.nodes.len()
        invariant
            i <= g.nodes.len(),
            nodes.len() == i,
            forall|k: int| 0 <= k < i ==> node_copy(#[trigger] g.nodes@[k], nodes@[k]),
        decreases g.nodes.len() - i,
    {
        proof {
            assert(decreases_to!(g => g.nodes));
            assert(decreases_to!(g.nodes => g.nodes@));
            assert(decreases_to!(g.nodes@ => g.nodes@[i as int]));
        }
        let n = clone_node(&g.nodes[i]);
        nodes.push(n);
        i = i + 1;
    }
    let edges = g.edges.clone();
    proof {
        assert(edges@ =~= g.edges@);
    }
    NodeGraph { nodes, edges, node_id_counter: g.node_id_counter }
}

/// A copy of a node type.
pub(crate) fn clone_node_type(t: &NodeType) -> (r: NodeType)
    ensures
        node_type_copy(*t, r),
    decreases t, 0nat,
{
        match t {
            NodeType::InputGray(s) => NodeType::InputGray(s.clone()),
            NodeType::InputRgba(s) => NodeType::InputRgba(s.clone()),
            NodeType::OutputGray(s) => NodeType::OutputGray(s.clone()),
            NodeType::OutputRgba(s) => NodeType::OutputRgba(s.clone()),
            NodeType::Graph(g) => NodeType::Graph(clone_graph(g)),
            NodeType::Image(s) => NodeType::Image(s.clone()),
            NodeType::Embed(id) => NodeType::Embed(*id),
            NodeType::Write(s) => NodeType::Write(s.clone()),
            NodeType::Value(v) => NodeType::Value(*v),
            NodeType::Mix(m) => NodeType::Mix(*m),
            NodeType::HeightToNormal => NodeType::HeightToNormal,
            NodeType::SeparateRgba => NodeType::SeparateRgba,
            NodeType::CombineRgba => NodeType::CombineRgba,
        }
}

/// A slot as the contracts see it: its name, id and type.
pub open spec fn slot_spec(name: Seq<char>, id: u32, t: SlotType) -> (Seq<char>, SlotId, SlotType) {
    (name, SlotId(id), t)
}


/// The slots of the input nodes (or output nodes) of `nodes` carry, in order, the names and
/// ids of those nodes.
proof fn lemma_graph_slots(nodes: Seq<Node>, inputs: bool)
    ensures
        graph_slots(nodes, inputs).len() == io_names(nodes, inputs).len(),
        graph_slots(nodes, inputs).len() == io_ids(nodes, inputs).len(),
        forall|i: int| 0 <= i < graph_slots(nodes, inputs).len() ==> (#[trigger] graph_slots(nodes, inputs)[i]).0 == io_names(nodes, inputs)[i]
            && graph_slots(nodes, inputs)[i].1 == SlotId(io_ids(nodes, inputs)[i].0),
        forall|i: int| 0 <= i < io_ids(nodes, inputs).len() ==> exists|k: int| 0 <= k < nodes.len()
            && nodes[k].node_id == #[trigger] io_ids(nodes, inputs)[i],
    decreases nodes.len(),
{
    if nodes.len() > 0 {
        let prev = nodes.drop_last();
        lemma_graph_slots(prev, inputs);
        assert forall|i: int| 0 <= i < io_ids(nodes, inputs).len() implies exists|k: int| 0 <= k < nodes.len()
            && nodes[k].node_id == #[trigger] io_ids(nodes, inputs)[i] by {
            if i < io_ids(prev, inputs).len() {
                assert(io_ids(nodes, inputs)[i] == io_ids(prev, inputs)[i]);
                let k = choose|k: int| 0 <= k < prev.len() && prev[k].node_id == io_ids(prev, inputs)[i];
                assert(nodes[k] == prev[k]);
            } else {
                assert(nodes[nodes.len() - 1].node_id == io_ids(nodes, inputs)[i]);
            }
        }
    }
}

/// With distinct node ids, the ids of the input (or output) nodes are distinct.
proof fn lemma_io_ids_distinct(nodes: Seq<Node>, inputs: bool)
    requires
        forall|i: int, j: int| 0 <= i < j < nodes.len() ==> nodes[i].node_id != nodes[j].node_id,
    ensures
        forall|i: int, j: int| 0 <= i < j < io_ids(nodes, inputs).len() ==> io_ids(nodes, inputs)[i] != io_ids(nodes, inputs)[j],
    decreases nodes.len(),
{
    if nodes.len() > 0 {
        let prev = nodes.drop_last();
        assert forall|i: int, j: int| 0 <= i < j < prev.len() implies prev[i].node_id != prev[j].node_id by {
            assert(prev[i] == nodes[i] && prev[j] == nodes[j]);
        }
        lemma_io_ids_distinct(prev, inputs);
        lemma_graph_slots(prev, inputs);
        let v = io_ids(nodes, inputs);
        let pv = io_ids(prev, inputs);
        assert forall|i: int, j: int| 0 <= i < j < v.len() implies v[i] != v[j] by {
            if j < pv.len() {
                assert(v[i] == pv[i] && v[j] == pv[j]);
            } else {
                assert(v[i] == pv[i]);
                assert(v[j] == nodes.last().node_id);
                let k = choose|k: int| 0 <= k < prev.len() && prev[k].node_id == pv[i];
                assert(nodes[k] == prev[k]);
            }
        }
    }
}

/// A node's input slots have distinct ids and distinct names, so that a slot is found by id or
/// by name at most once. A graph node needs for this that its input nodes have distinct ids and
/// distinct names.
pub proof fn law_input_slots_distinct(t: NodeType)
    requires
        t matches NodeType::Graph(g) ==> g.unique_ids()
            && forall|i: int, j: int| 0 <= i < j < io_names(g.nodes@, true).len() ==> io_names(g.nodes@, true)[i] != io_names(g.nodes@, true)[j],
    ensures
        forall|i: int, j: int| 0 <= i < j < t.spec_input_slots().len() ==>
            (#[trigger] t.spec_input_slots()[i]).1 != (#[trigger] t.spec_input_slots()[j]).1
            && t.spec_input_slots()[i].0 != t.spec_input_slots()[j].0,
{
    reveal_strlit("input");
    reveal_strlit("left");
    reveal_strlit("right");
    reveal_strlit("red");
    reveal_strlit("green");
    reveal_strlit("blue");
    reveal_strlit("alpha");
    match t {
        NodeType::Graph(g) => {
            lemma_graph_slots(g.nodes@, true);
            lemma_io_ids_distinct(g.nodes@, true);
            let sl = graph_slots(g.nodes@, true);
            assert forall|i: int, j: int| 0 <= i < j < sl.len() implies (#[trigger] sl[i]).1 != (#[trigger] sl[j]).1 && sl[i].0 != sl[j].0 by {
                assert(io_ids(g.nodes@, true)[i] != io_ids(g.nodes@, true)[j]);
                assert(sl[i].1 == SlotId(io_ids(g.nodes@, true)[i].0));
                assert(sl[j].1 == SlotId(io_ids(g.nodes@, true)[j].0));
            }
        },
        NodeType::CombineRgba => {
            assert("red"@[0] != "green"@[0]);
            assert("alpha"@[0] != "green"@[0]);
            assert("blue"@[0] != "red"@[0]);
        },
        NodeType::Mix(_) => {
            assert("left"@[0] != "right"@[0]);
        },
        _ => {},
    }
}

/// A node's output slots have distinct ids and distinct names, so that a slot is found by id or
/// by name at most once. A graph node needs for this that its output nodes have distinct ids
/// and distinct names.
pub proof fn law_output_slots_distinct(t: NodeType)
    requires
        t matches NodeType::Graph(g) ==> g.unique_ids()
            && forall|i: int, j: int| 0 <= i < j < io_names(g.nodes@, false).len() ==> io_names(g.nodes@, false)[i] != io_names(g.nodes@, false)[j],
    ensures
        forall|i: int, j: int| 0 <= i < j < t.spec_output_slots().len() ==>
            (#[trigger] t.spec_output_slots()[i]).1 != (#[trigger] t.spec_output_slots()[j]).1
            && t.spec_output_slots()[i].0 != t.spec_output_slots()[j].0,
{
    reveal_strlit("output");
    reveal_strlit("red");
    reveal_strlit("green");
    reveal_strlit("blue");
    reveal_strlit("alpha");
    match t {
        NodeType::Graph(g) => {
            lemma_graph_slots(g.nodes@, false);
            lemma_io_ids_distinct(g.nodes@, false);
            let sl = graph_slots(g.nodes@, false);
            assert forall|i: int, j: int| 0 <= i < j < sl.len() implies (#[trigger] sl[i]).1 != (#[trigger] sl[j]).1 && sl[i].0 != sl[j].0 by {
                assert(io_ids(g.nodes@, false)[i] != io_ids(g.nodes@, false)[j]);
                assert(sl[i].1 == SlotId(io_ids(g.nodes@, false)[i].0));
                assert(sl[j].1 == SlotId(io_ids(g.nodes@, false)[j].0));
            }
        },
        NodeType::SeparateRgba => {
            assert("red"@[0] != "green"@[0]);
            assert("alpha"@[0] != "green"@[0]);
            assert("blue"@[0] != "red"@[0]);
        },
        _ => {},
    }
}

impl NodeType {
    pub open spec fn spec_is_input(self) -> bool {
        self is InputGray || self is InputRgba
    }

    pub open spec fn spec_is_output(self) -> bool {
        self is OutputGray || self is OutputRgba
    }

    /// The name of an input or output node.
    pub open spec fn spec_name(self) -> Option<Seq<char>> {
        match self {
            NodeType::InputGray(n) => Some(n@),
            NodeType::InputRgba(n) => Some(n@),
            NodeType::OutputGray(n) => Some(n@),
            NodeType::OutputRgba(n) => Some(n@),
            _ => None,
        }
    }

    pub open spec fn spec_to_slot_type(self) -> Option<SlotType> {
        match self {
            NodeType::InputGray(_) | NodeType::OutputGray(_) => Some(SlotType::Gray),
            NodeType::InputRgba(_) | NodeType::OutputRgba(_) => Some(SlotType::Rgba),
            _ => None,
        }
    }

    /// Whether the slots of this node type are defined (a `Write` node has none defined).
    pub open spec fn has_slots(self) -> bool {
        !(self is Write)
    }

    /// The input slots of a node of this type.
    pub open spec fn spec_input_slots(self) -> Seq<(Seq<char>, SlotId, SlotType)> {
        match self {
            NodeType::OutputGray(_) => seq![slot_spec("input"@, 0, SlotType::Gray)],
            NodeType::OutputRgba(_) => seq![slot_spec("input"@, 0, SlotType::Rgba)],
            NodeType::Graph(g) => g.spec_input_slots(),
            NodeType::Mix(_) => seq![
                slot_spec("left"@, 0, SlotType::GrayOrRgba),
                slot_spec("right"@, 1, SlotType::GrayOrRgba),
            ],
            NodeType::HeightToNormal => seq![slot_spec("input"@, 0, SlotType::Gray)],
            NodeType::SeparateRgba => seq![slot_spec("input"@, 0, SlotType::Rgba)],
            NodeType::CombineRgba => seq![
                slot_spec("red"@, 0, SlotType::Gray),
                slot_spec("green"@, 1, SlotType::Gray),
                slot_spec("blue"@, 2, SlotType::Gray),
                slot_spec("alpha"@, 3, SlotType::Gray),
            ],
            _ => seq![],
        }
    }

    /// The output slots of a node of this type.
    pub open spec fn spec_output_slots(self) -> Seq<(Seq<char>, SlotId, SlotType)> {
        match self {
            NodeType::InputGray(_) => seq![slot_spec("output"@, 0, SlotType::Gray)],
            NodeType::InputRgba(_) => seq![slot_spec("output"@, 0, SlotType::Rgba)],
            NodeType::Graph(g) => g.spec_output_slots(),
            NodeType::Image(_) => seq![slot_spec("output"@, 0, SlotType::Rgba)],
            NodeType::Embed(_) => seq![slot_spec("output"@, 0, SlotType::Rgba)],
            NodeType::Value(_) => seq![slot_spec("output"@, 0, SlotType::Gray)],
            NodeType::Mix(_) => seq![slot_spec("output"@, 0, SlotType::GrayOrRgba)],
            NodeType::HeightToNormal => seq![slot_spec("output"@, 0, SlotType::Rgba)],
            NodeType::SeparateRgba => seq![
                slot_spec("red"@, 0, SlotType::Gray),
                slot_spec("green"@, 1, SlotType::Gray),
                slot_spec("blue"@, 2, SlotType::Gray),
                slot_spec("alpha"@, 3, SlotType::Gray),
            ],
            NodeType::CombineRgba => seq![slot_spec("output"@, 0, SlotType::Rgba)],
            _ => seq![],
        }
    }

    pub fn is_input(&self) -> (r: bool)
        ensures
            r == self.spec_is_input(),
    {
        matches!(self, Self::InputGray(_) | Self::InputRgba(_))
    }

    pub fn is_output(&self) -> (r: bool)
        ensures
            r == self.spec_is_output(),
    {
        matches!(self, Self::OutputGray(_) | Self::OutputRgba(_))
    }

    pub fn name(&self) -> (r: Option<&String>)
        ensures
            match r {
                Some(n) => self.spec_name() == Some(n@),
                None => self.spec_name() is None,
            },
    {
        match self {
            Self::InputGray(name) | Self::InputRgba(name) | Self::OutputGray(name) | Self::OutputRgba(name) => Some(name),
            _ => None,
        }
    }

    pub fn to_slot_type(&self) -> (r: Option<SlotType>)
        ensures
            r == self.spec_to_slot_type(),
    {
        match self {
            Self::InputGray(_) | Self::OutputGray(_) => Some(SlotType::Gray),
            Self::InputRgba(_) | Self::OutputRgba(_) => Some(SlotType::Rgba),
            _ => None,
        }
    }
}

fn make_slot(name: &str, id: u32, t: SlotType) -> (s: Slot)
    ensures
        s@ == slot_spec(name@, id, t),
{
    Slot::new(String::from_str(name), SlotId(id), t)
}

impl Node {
    /// The input slots of this node.
    pub fn input_slots(&self) -> (r: Vec<SlotInput>)
        requires
            self.node_type.has_slots(),
        ensures
            r.len() == self.node_type.spec_input_slots().len(),
            forall|i: int| 0 <= i < r.len() ==> #[trigger] r[i]@ == self.node_type.spec_input_slots()[i],
    {
        let mut v: Vec<Slot> = Vec::new();
        match &self.node_type {
            NodeType::OutputGray(_) | NodeType::HeightToNormal => {
                v.push(make_slot("input", 0, SlotType::Gray));
            },
            NodeType::OutputRgba(_) | NodeType::SeparateRgba => {
                v.push(make_slot("input", 0, SlotType::Rgba));
            },
            NodeType::Graph(graph) => {
                v = graph.input_slots();
            },
            NodeType::Mix(_) => {
                v.push(make_slot("left", 0, SlotType::GrayOrRgba));
                v.push(make_slot("right", 1, SlotType::GrayOrRgba));
            },
            NodeType::CombineRgba => {
                v.push(make_slot("red", 0, SlotType::Gray));
                v.push(make_slot("green", 1, SlotType::Gray));
                v.push(make_slot("blue", 2, SlotType::Gray));
                v.push(make_slot("alpha", 3, SlotType::Gray));
            },
            _ => {},
        }
        v
    }

    /// The output slots of this node.
    pub fn output_slots(&self) -> (r: Vec<SlotOutput>)
        requires
            self.node_type.has_slots(),
        ensures
            r.len() == self.node_type.spec_output_slots().len(),
            forall|i: int| 0 <= i < r.len() ==> #[trigger] r[i]@ == self.node_type.spec_output_slots()[i],
    {
        let mut v: Vec<Slot> = Vec::new();
        match &self.node_type {
            NodeType::InputGray(_) | NodeType::Value(_) => {
                v.push(make_slot("output", 0, SlotType::Gray));
            },
            NodeType::InputRgba(_) | NodeType::Image(_) | NodeType::Embed(_)
            | NodeType::HeightToNormal | NodeType::CombineRgba => {
                v.push(make_slot("output", 0, SlotType::Rgba));
            },
            NodeType::Graph(graph) => {
                v = graph.output_slots();
            },
            NodeType::Mix(_) => {
                v.push(make_slot("output", 0, SlotType::GrayOrRgba));
            },
            NodeType::SeparateRgba => {
                v.push(make_slot("red", 0, SlotType::Gray));
                v.push(make_slot("green", 1, SlotType::Gray));
                v.push(make_slot("blue", 2, SlotType::Gray));
                v.push(make_slot("alpha", 3, SlotType::Gray));
            },
            _ => {},
        }
        v
    }
}

} // verus!
