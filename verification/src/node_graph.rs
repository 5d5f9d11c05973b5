use vstd::prelude::*;
use vstd::string::*;
use crate::edge::Edge;
use crate::error::{Result, TexProError};
use crate::node::node_type::NodeType;
use crate::names::name_views;
use crate::node::{Node, Side, Slot, SlotInput, SlotOutput, SlotType};

verus! {

/// Identifies a node within a graph.
#[derive(Clone, Copy, Debug, Default, PartialEq, Eq, Hash, PartialOrd, Ord, Structural)]
pub struct NodeId(pub u32);

impl NodeId {
    pub fn as_usize(self) -> (r: usize)
        ensures
            r == self.0,
    {
        self.0 as usize
    }
}

/// Identifies a slot (an input or an output) of a node.
#[derive(Clone, Copy, Debug, Default, PartialEq, Eq, Hash, PartialOrd, Ord, Structural)]
pub struct SlotId(pub u32);

impl SlotId {
    pub fn as_usize(self) -> (r: usize)
        ensures
            r == self.0,
    {
        self.0 as usize
    }
}

/// The slot that an input or output node of a graph becomes when the graph is used as a
/// node of another graph: the node's name and type, and its id as the slot id.
pub open spec fn graph_slot_of(n: Node) -> (Seq<char>, SlotId, SlotType) {
    (n.node_type.spec_name().unwrap(), SlotId(n.node_id.0), n.node_type.spec_to_slot_type().unwrap())
}

/// The slots made by the input nodes (`inputs`) or the output nodes (`!inputs`) among
/// `nodes`, in order.
pub open spec fn graph_slots(nodes: Seq<Node>, inputs: bool) -> Seq<(Seq<char>, SlotId, SlotType)>
    decreases nodes.len(),
{
    if nodes.len() == 0 {
        seq![]
    } else {
        let prev = graph_slots(nodes.drop_last(), inputs);
        let n = nodes.last();
        if (inputs && n.node_type.spec_is_input()) || (!inputs && n.node_type.spec_is_output()) {
            prev.push(graph_slot_of(n))
        } else {
            prev
        }
    }
}

/// A graph of nodes connected by edges.
#[derive(Debug)]
pub struct NodeGraph {
    pub nodes: Vec<Node>,
    pub edges: Vec<Edge>,
    pub node_id_counter: NodeId,
}

impl Clone for NodeGraph {
    fn clone(&self) -> (r: Self)
        ensures
            crate::node::node_type::graph_copy(*self, r),
    {
        crate::node::node_type::clone_graph(self)
    }
}

impl Default for NodeGraph {
    fn default() -> (g: Self)
        ensures
            g.nodes@ == Seq::<Node>::empty(),
            g.edges@ == Seq::<Edge>::empty(),
            g.spec_counter() == 0,
    {
        Self::new()
    }
}

impl NodeGraph {
    /// The next id that `new_id` tries.
    pub open spec fn spec_counter(self) -> u32 {
        self.node_id_counter.0
    }

    pub open spec fn spec_input_slots(self) -> Seq<(Seq<char>, SlotId, SlotType)> {
        graph_slots(self.nodes@, true)
    }

    pub open spec fn spec_output_slots(self) -> Seq<(Seq<char>, SlotId, SlotType)> {
        graph_slots(self.nodes@, false)
    }

    pub fn new() -> (g: Self)
        ensures
            g.nodes@ == Seq::<Node>::empty(),
            g.edges@ == Seq::<Edge>::empty(),
            g.spec_counter() == 0,
    {
        Self { nodes: Vec::new(), edges: Vec::new(), node_id_counter: NodeId(0) }
    }

    fn graph_slots_exec(&self, inputs: bool) -> (r: Vec<Slot>)
        ensures
            r.len() == graph_slots(self.nodes@, inputs).len(),
            forall|i: int| 0 <= i < r.len() ==> #[trigger] r[i]@ == graph_slots(self.nodes@, inputs)[i],
    {
        let mut v: Vec<Slot> = Vec::new();
        let mut i: usize = 0;
        while i < self.nodes.len()
            invariant
                i <= self.nodes.len(),
                v.len() == graph_slots(self.nodes@.take(i as int), inputs).len(),
                forall|k: int| 0 <= k < v.len() ==> #[trigger] v[k]@ == graph_slots(self.nodes@.take(i as int), inputs)[k],
            decreases self.nodes.len() - i,
        {
            let node = &self.nodes[i];
            proof {
                assert(self.nodes@.take(i + 1).drop_last() =~= self.nodes@.take(i as int));
            }
            let keep = if inputs { node.node_type.is_input() } else { node.node_type.is_output() };
            if keep {
                let name = node.node_type.name().unwrap().clone();
                let slot_type = node.node_type.to_slot_type().unwrap();
                v.push(Slot { name, slot_type, slot_id: SlotId(node.node_id.0) });
            }
            i = i + 1;
        }
        proof {
            assert(self.nodes@.take(i as int) =~= self.nodes@);
        }
        v
    }

    /// One slot for each input node of the graph, in order.
    pub fn input_slots(&self) -> (r: Vec<SlotInput>)
        ensures
            r.len() == self.spec_input_slots().len(),
            forall|i: int| 0 <= i < r.len() ==> #[trigger] r[i]@ == self.spec_input_slots()[i],
    {
        self.graph_slots_exec(true)
    }

    /// One slot for each output node of the graph, in order.
    pub fn output_slots(&self) -> (r: Vec<SlotOutput>)
        ensures
            r.len() == self.spec_output_slots().len(),
            forall|i: int| 0 <= i < r.len() ==> #[trigger] r[i]@ == self.spec_output_slots()[i],
    {
        self.graph_slots_exec(false)
    }
}


/// Whether edge `e` is plugged into the given slot of node `id`.
pub open spec fn edge_at_slot(e: Edge, id: NodeId, side: Side, slot: SlotId) -> bool {
    match side {
        Side::Input => e.input_id == id && e.input_slot == slot,
        Side::Output => e.output_id == id && e.output_slot == slot,
    }
}

/// Whether edge `e` has node `id` at either end.
pub open spec fn edge_touches(e: Edge, id: NodeId) -> bool {
    e.output_id == id || e.input_id == id
}

/// The edges of `edges` that are plugged into the given slot, in order.
pub open spec fn edges_at_slot(edges: Seq<Edge>, id: NodeId, side: Side, slot: SlotId) -> Seq<Edge>
    decreases edges.len(),
{
    if edges.len() == 0 {
        seq![]
    } else {
        let prev = edges_at_slot(edges.drop_last(), id, side, slot);
        if edge_at_slot(edges.last(), id, side, slot) { prev.push(edges.last()) } else { prev }
    }
}

/// The edges of `edges` that are not plugged into the given slot, in order.
pub open spec fn edges_off_slot(edges: Seq<Edge>, id: NodeId, side: Side, slot: SlotId) -> Seq<Edge>
    decreases edges.len(),
{
    if edges.len() == 0 {
        seq![]
    } else {
        let prev = edges_off_slot(edges.drop_last(), id, side, slot);
        if edge_at_slot(edges.last(), id, side, slot) { prev } else { prev.push(edges.last()) }
    }
}

/// The positions in `edges` of the edges plugged into the given slot, ascending.
pub open spec fn slot_edge_indices(edges: Seq<Edge>, id: NodeId, side: Side, slot: SlotId) -> Seq<usize>
    decreases edges.len(),
{
    if edges.len() == 0 {
        seq![]
    } else {
        let prev = slot_edge_indices(edges.drop_last(), id, side, slot);
        if edge_at_slot(edges.last(), id, side, slot) { prev.push((edges.len() - 1) as usize) } else { prev }
    }
}

/// The edges of `edges` that have node `id` at either end, in order.
pub open spec fn edges_touching(edges: Seq<Edge>, id: NodeId) -> Seq<Edge>
    decreases edges.len(),
{
    if edges.len() == 0 {
        seq![]
    } else {
        let prev = edges_touching(edges.drop_last(), id);
        if edge_touches(edges.last(), id) { prev.push(edges.last()) } else { prev }
    }
}

/// The edges of `edges` that do not have node `id` at either end, in order.
pub open spec fn edges_not_touching(edges: Seq<Edge>, id: NodeId) -> Seq<Edge>
    decreases edges.len(),
{
    if edges.len() == 0 {
        seq![]
    } else {
        let prev = edges_not_touching(edges.drop_last(), id);
        if edge_touches(edges.last(), id) { prev } else { prev.push(edges.last()) }
    }
}

/// The positions in `edges` of the edges that have node `id` at either end, ascending.
pub open spec fn touching_edge_indices(edges: Seq<Edge>, id: NodeId) -> Seq<usize>
    decreases edges.len(),
{
    if edges.len() == 0 {
        seq![]
    } else {
        let prev = touching_edge_indices(edges.drop_last(), id);
        if edge_touches(edges.last(), id) { prev.push((edges.len() - 1) as usize) } else { prev }
    }
}

/// The edges of `edges` whose input end is node `id`, in order.
pub open spec fn edges_into(edges: Seq<Edge>, id: NodeId) -> Seq<Edge>
    decreases edges.len(),
{
    if edges.len() == 0 {
        seq![]
    } else {
        let prev = edges_into(edges.drop_last(), id);
        if edges.last().input_id == id { prev.push(edges.last()) } else { prev }
    }
}

/// The ids of the nodes among `nodes` that are inputs (`inputs`) or outputs (`!inputs`).
pub open spec fn io_ids(nodes: Seq<Node>, inputs: bool) -> Seq<NodeId>
    decreases nodes.len(),
{
    if nodes.len() == 0 {
        seq![]
    } else {
        let prev = io_ids(nodes.drop_last(), inputs);
        let n = nodes.last();
        if (inputs && n.node_type.spec_is_input()) || (!inputs && n.node_type.spec_is_output()) {
            prev.push(n.node_id)
        } else {
            prev
        }
    }
}

/// Whether `s` is sorted by id, strictly ascending (so without repeats).
pub open spec fn strictly_ascending(s: Seq<NodeId>) -> bool {
    forall|i: int, j: int| 0 <= i < j < s.len() ==> s[i].0 < s[j].0
}

impl NodeGraph {
    /// Whether the graph has a node with this id.
    pub open spec fn has_node(self, id: NodeId) -> bool {
        exists|i: int| 0 <= i < self.nodes@.len() && self.nodes@[i].node_id == id
    }

    /// Whether `i` is the position of the first node with this id.
    pub open spec fn is_first_index(self, id: NodeId, i: int) -> bool {
        &&& 0 <= i < self.nodes@.len()
        &&& self.nodes@[i].node_id == id
        &&& forall|j: int| 0 <= j < i ==> self.nodes@[j].node_id != id
    }

    /// The position of the first node with this id (meaningful when `has_node(id)`).
    pub open spec fn index_of(self, id: NodeId) -> int {
        choose|i: int| self.is_first_index(id, i)
    }

    /// The first node with this id (meaningful when `has_node(id)`).
    pub open spec fn node_at(self, id: NodeId) -> Node {
        self.nodes@[self.index_of(id)]
    }

    /// The ids of all nodes, in order.
    pub open spec fn ids(self) -> Seq<NodeId> {
        self.nodes@.map_values(|n: Node| n.node_id)
    }

    /// Whether the slots of the node with this id, if there is one, are defined.
    pub open spec fn slots_known(self, id: NodeId) -> bool {
        self.has_node(id) ==> self.node_at(id).node_type.has_slots()
    }

    /// Whether no two nodes share an id.
    pub open spec fn unique_ids(self) -> bool {
        forall|i: int, j: int| 0 <= i < j < self.nodes@.len() ==> self.nodes@[i].node_id != self.nodes@[j].node_id
    }

    /// Whether both ends of every edge are nodes of the graph.
    pub open spec fn edges_valid(self) -> bool {
        forall|k: int| 0 <= k < self.edges@.len() ==>
            self.has_node(#[trigger] self.edges@[k].output_id) && self.has_node(self.edges@[k].input_id)
    }

    /// Whether every input slot has at most one edge plugged into it.
    pub open spec fn inputs_single(self) -> bool {
        forall|k: int, l: int| 0 <= k < l < self.edges@.len() ==>
            !(#[trigger] self.edges@[k].input_id == #[trigger] self.edges@[l].input_id
              && self.edges@[k].input_slot == self.edges@[l].input_slot)
    }

    /// The invariant that the graph's own operations keep: unique node ids, edges between
    /// existing nodes, and at most one edge into each input slot.
    pub open spec fn wf(self) -> bool {
        &&& self.unique_ids()
        &&& self.edges_valid()
        &&& self.inputs_single()
    }

    /// Whether the counter, counting up, is sure to meet a free id before it overflows: the
    /// counter plus the number of nodes stays below `u32::MAX`.
    pub open spec fn id_space_left(self) -> bool {
        self.node_id_counter.0 + self.nodes@.len() < u32::MAX
    }

    /// Whether some id from the counter up to `u32::MAX - 1` is free, so that `new_id` finds
    /// one without the counter overflowing.
    pub open spec fn has_free_id(self) -> bool {
        exists|x: u32| self.node_id_counter.0 <= x < u32::MAX && !self.has_node(NodeId(x))
    }

    /// The sorted ids of the nodes that edges from `id` lead into.
    pub open spec fn children_set(self, id: NodeId) -> Set<NodeId> {
        Set::new(|c: NodeId| exists|k: int| 0 <= k < self.edges@.len()
            && self.edges@[k].output_id == id && self.edges@[k].input_id == c)
    }

    /// The ids of the nodes that have an edge into `id`.
    pub open spec fn parents_set(self, id: NodeId) -> Set<NodeId> {
        Set::new(|p: NodeId| exists|k: int| 0 <= k < self.edges@.len()
            && self.edges@[k].input_id == id && self.edges@[k].output_id == p)
    }
}

/// The first position with a given id is unique.
pub proof fn lemma_first_index_unique(g: NodeGraph, id: NodeId, i: int)
    requires
        g.is_first_index(id, i),
    ensures
        g.index_of(id) == i,
        g.has_node(id),
{
    let k = choose|k: int| g.is_first_index(id, k);
    assert(g.is_first_index(id, k));
    if k < i {
        assert(g.nodes@[k].node_id != id);
    } else if k > i {
        assert(g.nodes@[i].node_id != id);
    }
}

impl NodeGraph {
    fn index_of_node(&self, node_id: NodeId) -> (r: Option<usize>)
        ensures
            match r {
                Some(i) => self.is_first_index(node_id, i as int) && self.index_of(node_id) == i
                    && self.has_node(node_id),
                None => !self.has_node(node_id),
            },
    {
        let mut i: usize = 0;
        while i < self.nodes.len()
            invariant
                i <= self.nodes.len(),
                forall|j: int| 0 <= j < i ==> self.nodes@[j].node_id != node_id,
            decreases self.nodes.len() - i,
        {
            if self.nodes[i].node_id == node_id {
                proof {
                    lemma_first_index_unique(*self, node_id, i as int);
                }
                return Some(i);
            }
            i = i + 1;
        }
        None
    }

    /// `Ok` when the graph has a node with this id.
    pub fn has_node_with_id(&self, node_id: NodeId) -> (r: Result<()>)
        ensures
            r is Ok <==> self.has_node(node_id),
            r is Err ==> r == Err::<(), TexProError>(TexProError::InvalidNodeId),
    {
        if self.index_of_node(node_id).is_some() {
            Ok(())
        } else {
            Err(TexProError::InvalidNodeId)
        }
    }

    /// Whether the graph is well formed (see `wf`): distinct node ids, edges between nodes of
    /// the graph, and at most one edge into each input slot.
    pub fn is_well_formed(&self) -> (r: bool)
        ensures
            r == self.wf(),
    {
        let mut i: usize = 0;
        while i < self.nodes.len()
            invariant
                i <= self.nodes.len(),
                forall|a: int, b: int| 0 <= a < b < self.nodes@.len() && a < i ==> self.nodes@[a].node_id != self.nodes@[b].node_id,
            decreases self.nodes.len() - i,
        {
            let mut j: usize = i + 1;
            while j < self.nodes.len()
                invariant
                    i < self.nodes.len(),
                    i + 1 <= j <= self.nodes.len(),
                    forall|a: int, b: int| 0 <= a < b < self.nodes@.len() && a < i ==> self.nodes@[a].node_id != self.nodes@[b].node_id,
                    forall|b: int| i < b < j ==> self.nodes@[i as int].node_id != self.nodes@[b].node_id,
                decreases self.nodes.len() - j,
            {
                if self.nodes[i].node_id == self.nodes[j].node_id {
                    proof {
                        assert(!self.unique_ids());
                    }
                    return false;
                }
                j = j + 1;
            }
            i = i + 1;
        }
        let mut k: usize = 0;
        while k < self.edges.len()
            invariant
                k <= self.edges.len(),
                self.unique_ids(),
                forall|m: int| 0 <= m < k ==> self.has_node(#[trigger] self.edges@[m].output_id) && self.has_node(self.edges@[m].input_id),
            decreases self.edges.len() - k,
        {
            if self.has_node_with_id(self.edges[k].output_id).is_err() || self.has_node_with_id(self.edges[k].input_id).is_err() {
                proof {
                    assert(!self.edges_valid());
                }
                return false;
            }
            k = k + 1;
        }
        let mut k: usize = 0;
        while k < self.edges.len()
            invariant
                k <= self.edges.len(),
                self.unique_ids(),
                self.edges_valid(),
                forall|a: int, b: int| 0 <= a < b < self.edges@.len() && a < k ==>
                    !(self.edges@[a].input_id == self.edges@[b].input_id && self.edges@[a].input_slot == self.edges@[b].input_slot),
            decreases self.edges.len() - k,
        {
            let mut l: usize = k + 1;
            while l < self.edges.len()
                invariant
                    k < self.edges.len(),
                    k + 1 <= l <= self.edges.len(),
                    forall|a: int, b: int| 0 <= a < b < self.edges@.len() && a < k ==>
                        !(self.edges@[a].input_id == self.edges@[b].input_id && self.edges@[a].input_slot == self.edges@[b].input_slot),
                    forall|b: int| k < b < l ==>
                        !(self.edges@[k as int].input_id == self.edges@[b].input_id && self.edges@[k as int].input_slot == self.edges@[b].input_slot),
                decreases self.edges.len() - l,
            {
                if self.edges[k].input_id == self.edges[l].input_id && self.edges[k].input_slot == self.edges[l].input_slot {
                    proof {
                        assert(self.edges@[k as int].input_id == self.edges@[l as int].input_id
                            && self.edges@[k as int].input_slot == self.edges@[l as int].input_slot);
                        assert(!self.inputs_single());
                    }
                    return false;
                }
                l = l + 1;
            }
            k = k + 1;
        }
        true
    }

    pub fn nodes(&self) -> (r: &Vec<Node>)
        ensures
            r == &self.nodes,
    {
        &self.nodes
    }

    /// The ids of all nodes, in order.
    pub fn node_ids(&self) -> (r: Vec<NodeId>)
        ensures
            r@ == self.ids(),
    {
        let mut v: Vec<NodeId> = Vec::new();
        let mut i: usize = 0;
        while i < self.nodes.len()
            invariant
                i <= self.nodes.len(),
                v@ =~= self.nodes@.take(i as int).map_values(|n: Node| n.node_id),
            decreases self.nodes.len() - i,
        {
            v.push(self.nodes[i].node_id);
            i = i + 1;
            proof {
                assert(v@ =~= self.nodes@.take(i as int).map_values(|n: Node| n.node_id));
            }
        }
        proof {
            assert(self.nodes@.take(i as int) =~= self.nodes@);
        }
        v
    }

    /// A reference to the first node with this id.
    fn node_ref(&self, node_id: NodeId) -> (r: Result<&Node>)
        ensures
            match r {
                Ok(n) => self.has_node(node_id) && *n == self.node_at(node_id),
                Err(e) => !self.has_node(node_id) && e == TexProError::InvalidNodeId,
            },
    {
        match self.index_of_node(node_id) {
            Some(i) => Ok(&self.nodes[i]),
            None => Err(TexProError::InvalidNodeId),
        }
    }

    /// A copy of the first node with this id.
    pub fn node(&self, node_id: NodeId) -> (r: Result<Node>)
        ensures
            match r {
                Ok(n) => self.has_node(node_id) && crate::node::node_type::node_copy(self.node_at(node_id), n),
                Err(e) => !self.has_node(node_id) && e == TexProError::InvalidNodeId,
            },
    {
        match self.node_ref(node_id) {
            Ok(n) => Ok(n.clone()),
            Err(e) => Err(e),
        }
    }

    fn io_ids_exec(&self, inputs: bool) -> (r: Vec<NodeId>)
        ensures
            r@ == io_ids(self.nodes@, inputs),
    {
        let mut v: Vec<NodeId> = Vec::new();
        let mut i: usize = 0;
        while i < self.nodes.len()
            invariant
                i <= self.nodes.len(),
                v@ == io_ids(self.nodes@.take(i as int), inputs),
            decreases self.nodes.len() - i,
        {
            proof {
                assert(self.nodes@.take(i + 1).drop_last() =~= self.nodes@.take(i as int));
            }
            let keep = if inputs { self.nodes[i].node_type.is_input() } else { self.nodes[i].node_type.is_output() };
            if keep {
                v.push(self.nodes[i].node_id);
            }
            i = i + 1;
        }
        proof {
            assert(self.nodes@.take(i as int) =~= self.nodes@);
        }
        v
    }

    /// The ids of all output nodes (`OutputRgba` or `OutputGray`), in order.
    pub fn output_ids(&self) -> (r: Vec<NodeId>)
        ensures
            r@ == io_ids(self.nodes@, false),
    {
        self.io_ids_exec(false)
    }

    /// The ids of all input nodes (`InputRgba` or `InputGray`), in order.
    pub fn input_ids(&self) -> (r: Vec<NodeId>)
        ensures
            r@ == io_ids(self.nodes@, true),
    {
        self.io_ids_exec(true)
    }

    /// Whether any edge is plugged into the given slot.
    pub fn slot_occupied(&self, id: NodeId, side: Side, slot: SlotId) -> (r: bool)
        ensures
            r == exists|k: int| 0 <= k < self.edges@.len() && edge_at_slot(#[trigger] self.edges@[k], id, side, slot),
    {
        let mut i: usize = 0;
        while i < self.edges.len()
            invariant
                i <= self.edges.len(),
                forall|k: int| 0 <= k < i ==> !edge_at_slot(#[trigger] self.edges@[k], id, side, slot),
            decreases self.edges.len() - i,
        {
            let e = self.edges[i];
            let hit = match side {
                Side::Input => e.input_id == id && e.input_slot == slot,
                Side::Output => e.output_id == id && e.output_slot == slot,
            };
            if hit {
                return true;
            }
            i = i + 1;
        }
        false
    }

    /// The positions of the edges plugged into the given slot, ascending.
    pub fn edge_indices_slot(&self, node_id: NodeId, side: Side, slot_id: SlotId) -> (r: Vec<usize>)
        ensures
            r@ == slot_edge_indices(self.edges@, node_id, side, slot_id),
    {
        let mut v: Vec<usize> = Vec::new();
        let mut i: usize = 0;
        while i < self.edges.len()
            invariant
                i <= self.edges.len(),
                v@ == slot_edge_indices(self.edges@.take(i as int), node_id, side, slot_id),
            decreases self.edges.len() - i,
        {
            proof {
                assert(self.edges@.take(i + 1).drop_last() =~= self.edges@.take(i as int));
            }
            let e = self.edges[i];
            let hit = match side {
                Side::Input => e.input_id == node_id && e.input_slot == slot_id,
                Side::Output => e.output_id == node_id && e.output_slot == slot_id,
            };
            if hit {
                v.push(i);
            }
            i = i + 1;
        }
        proof {
            assert(self.edges@.take(i as int) =~= self.edges@);
        }
        v
    }

    /// The positions of the edges connected to the given node, ascending.
    pub fn edge_indices_node(&mut self, node_id: NodeId) -> (r: Result<Vec<usize>>)
        ensures
            *final(self) == *old(self),
            match r {
                Ok(v) => old(self).has_node(node_id) && v@ == touching_edge_indices(old(self).edges@, node_id),
                Err(e) => !old(self).has_node(node_id) && e == TexProError::InvalidNodeId,
            },
    {
        self.has_node_with_id(node_id)?;
        let mut v: Vec<usize> = Vec::new();
        let mut i: usize = 0;
        while i < self.edges.len()
            invariant
                i <= self.edges.len(),
                *self == *old(self),
                v@ == touching_edge_indices(self.edges@.take(i as int), node_id),
            decreases self.edges.len() - i,
        {
            proof {
                assert(self.edges@.take(i + 1).drop_last() =~= self.edges@.take(i as int));
            }
            let e = self.edges[i];
            if e.output_id == node_id || e.input_id == node_id {
                v.push(i);
            }
            i = i + 1;
        }
        proof {
            assert(self.edges@.take(i as int) =~= self.edges@);
        }
        Ok(v)
    }

    /// The edges plugged into the given slot of an existing node; `SlotNotOccupied` when
    /// there are none.
    pub fn connected_edges(&self, node_id: NodeId, side: Side, slot_id: SlotId) -> (r: Result<Vec<Edge>>)
        ensures
            match r {
                Ok(v) => self.has_node(node_id) && v@ == edges_at_slot(self.edges@, node_id, side, slot_id)
                    && v@.len() > 0,
                Err(e) => if !self.has_node(node_id) {
                    e == TexProError::InvalidNodeId
                } else {
                    e == TexProError::SlotNotOccupied && edges_at_slot(self.edges@, node_id, side, slot_id).len() == 0
                },
            },
    {
        self.has_node_with_id(node_id)?;
        let mut v: Vec<Edge> = Vec::new();
        let mut i: usize = 0;
        while i < self.edges.len()
            invariant
                i <= self.edges.len(),
                v@ == edges_at_slot(self.edges@.take(i as int), node_id, side, slot_id),
            decreases self.edges.len() - i,
        {
            proof {
                assert(self.edges@.take(i + 1).drop_last() =~= self.edges@.take(i as int));
            }
            let e = self.edges[i];
            let hit = match side {
                Side::Input => e.input_id == node_id && e.input_slot == slot_id,
                Side::Output => e.output_id == node_id && e.output_slot == slot_id,
            };
            if hit {
                v.push(e);
            }
            i = i + 1;
        }
        proof {
            assert(self.edges@.take(i as int) =~= self.edges@);
        }
        if v.len() == 0 {
            Err(TexProError::SlotNotOccupied)
        } else {
            Ok(v)
        }
    }

    /// All edges connected to input slots of the given node, in order.
    pub fn input_edges(&self, node_id: NodeId) -> (r: Vec<Edge>)
        ensures
            r@ == edges_into(self.edges@, node_id),
    {
        let mut v: Vec<Edge> = Vec::new();
        let mut i: usize = 0;
        while i < self.edges.len()
            invariant
                i <= self.edges.len(),
                v@ == edges_into(self.edges@.take(i as int), node_id),
            decreases self.edges.len() - i,
        {
            proof {
                assert(self.edges@.take(i + 1).drop_last() =~= self.edges@.take(i as int));
            }
            if self.edges[i].input_id == node_id {
                v.push(self.edges[i]);
            }
            i = i + 1;
        }
        proof {
            assert(self.edges@.take(i as int) =~= self.edges@);
        }
        v
    }
}


/// A node with its cancel flag raised.
pub open spec fn cancelled(n: Node) -> Node {
    Node { cancel: true, ..n }
}

/// Whether no two edges of `s` are plugged into the same input slot.
pub open spec fn pairwise_single(s: Seq<Edge>) -> bool {
    forall|k: int, l: int| 0 <= k < l < s.len() ==>
        !(#[trigger] s[k].input_id == #[trigger] s[l].input_id && s[k].input_slot == s[l].input_slot)
}

/// What the filters over slots keep and drop.
pub proof fn lemma_slot_filters(edges: Seq<Edge>, id: NodeId, side: Side, slot: SlotId)
    ensures
        forall|k: int| 0 <= k < edges_off_slot(edges, id, side, slot).len() ==>
            edges.contains(#[trigger] edges_off_slot(edges, id, side, slot)[k])
            && !edge_at_slot(edges_off_slot(edges, id, side, slot)[k], id, side, slot),
        forall|k: int| 0 <= k < edges_at_slot(edges, id, side, slot).len() ==>
            edges.contains(#[trigger] edges_at_slot(edges, id, side, slot)[k])
            && edge_at_slot(edges_at_slot(edges, id, side, slot)[k], id, side, slot),
        forall|j: int| 0 <= j < edges.len() && !edge_at_slot(#[trigger] edges[j], id, side, slot)
            ==> edges_off_slot(edges, id, side, slot).contains(edges[j]),
        forall|j: int| 0 <= j < edges.len() && edge_at_slot(#[trigger] edges[j], id, side, slot)
            ==> edges_at_slot(edges, id, side, slot).contains(edges[j]),
        pairwise_single(edges) ==> pairwise_single(edges_off_slot(edges, id, side, slot)),
        edges_off_slot(edges, id, side, slot).len() + edges_at_slot(edges, id, side, slot).len() == edges.len(),
    decreases edges.len(),
{
    if edges.len() > 0 {
        let d = edges.drop_last();
        lemma_slot_filters(d, id, side, slot);
        let off = edges_off_slot(edges, id, side, slot);
        let at = edges_at_slot(edges, id, side, slot);
        assert forall|k: int| 0 <= k < off.len() implies
            edges.contains(#[trigger] off[k]) && !edge_at_slot(off[k], id, side, slot) by {
            if k < edges_off_slot(d, id, side, slot).len() {
                let x = off[k];
                assert(d.contains(x));
                let j = choose|j: int| 0 <= j < d.len() && d[j] == x;
                assert(edges[j] == x);
            } else {
                assert(off[k] == edges[edges.len() - 1]);
            }
        }
        assert forall|k: int| 0 <= k < at.len() implies
            edges.contains(#[trigger] at[k]) && edge_at_slot(at[k], id, side, slot) by {
            if k < edges_at_slot(d, id, side, slot).len() {
                let x = at[k];
                assert(d.contains(x));
                let j = choose|j: int| 0 <= j < d.len() && d[j] == x;
                assert(edges[j] == x);
            } else {
                assert(at[k] == edges[edges.len() - 1]);
            }
        }
        assert forall|j: int| 0 <= j < edges.len() && !edge_at_slot(#[trigger] edges[j], id, side, slot)
            implies off.contains(edges[j]) by {
            if j < edges.len() - 1 {
                assert(d[j] == edges[j]);
                let k = choose|k: int| 0 <= k < edges_off_slot(d, id, side, slot).len()
                    && edges_off_slot(d, id, side, slot)[k] == d[j];
                assert(off[k] == edges[j]);
            } else {
                assert(off[off.len() - 1] == edges[j]);
            }
        }
        assert forall|j: int| 0 <= j < edges.len() && edge_at_slot(#[trigger] edges[j], id, side, slot)
            implies at.contains(edges[j]) by {
            if j < edges.len() - 1 {
                assert(d[j] == edges[j]);
                let k = choose|k: int| 0 <= k < edges_at_slot(d, id, side, slot).len()
                    && edges_at_slot(d, id, side, slot)[k] == d[j];
                assert(at[k] == edges[j]);
            } else {
                assert(at[at.len() - 1] == edges[j]);
            }
        }
        if pairwise_single(edges) {
            assert(pairwise_single(d));
            let od = edges_off_slot(d, id, side, slot);
            if !edge_at_slot(edges.last(), id, side, slot) {
                assert forall|k: int, l: int| 0 <= k < l < off.len() implies
                    !(#[trigger] off[k].input_id == #[trigger] off[l].input_id && off[k].input_slot == off[l].input_slot) by {
                    if l < od.len() {
                        assert(off[k] == od[k] && off[l] == od[l]);
                    } else {
                        assert(off[l] == edges.last());
                        assert(d.contains(od[k]));
                        let j = choose|j: int| 0 <= j < d.len() && d[j] == od[k];
                        assert(edges[j] == od[k]);
                        assert(off[k] == od[k]);
                    }
                }
            }
        }
    }
}

/// What the filters over the edges of a node keep and drop.
pub proof fn lemma_touch_filters(edges: Seq<Edge>, id: NodeId)
    ensures
        forall|k: int| 0 <= k < edges_not_touching(edges, id).len() ==>
            edges.contains(#[trigger] edges_not_touching(edges, id)[k])
            && !edge_touches(edges_not_touching(edges, id)[k], id),
        forall|j: int| 0 <= j < edges.len() && !edge_touches(#[trigger] edges[j], id)
            ==> edges_not_touching(edges, id).contains(edges[j]),
        forall|k: int| 0 <= k < edges_touching(edges, id).len() ==>
            edge_touches(#[trigger] edges_touching(edges, id)[k], id),
        pairwise_single(edges) ==> pairwise_single(edges_not_touching(edges, id)),
    decreases edges.len(),
{
    if edges.len() > 0 {
        let d = edges.drop_last();
        lemma_touch_filters(d, id);
        let off = edges_not_touching(edges, id);
        let od = edges_not_touching(d, id);
        let t = edges_touching(edges, id);
        assert forall|k: int| 0 <= k < t.len() implies edge_touches(#[trigger] t[k], id) by {
            if k < edges_touching(d, id).len() {
                assert(t[k] == edges_touching(d, id)[k]);
            }
        }
        assert forall|k: int| 0 <= k < off.len() implies
            edges.contains(#[trigger] off[k]) && !edge_touches(off[k], id) by {
            if k < od.len() {
                let x = off[k];
                assert(d.contains(x));
                let j = choose|j: int| 0 <= j < d.len() && d[j] == x;
                assert(edges[j] == x);
            } else {
                assert(off[k] == edges[edges.len() - 1]);
            }
        }
        assert forall|j: int| 0 <= j < edges.len() && !edge_touches(#[trigger] edges[j], id)
            implies off.contains(edges[j]) by {
            if j < edges.len() - 1 {
                assert(d[j] == edges[j]);
                let k = choose|k: int| 0 <= k < od.len() && od[k] == d[j];
                assert(off[k] == edges[j]);
            } else {
                assert(off[off.len() - 1] == edges[j]);
            }
        }
        if pairwise_single(edges) {
            assert(pairwise_single(d));
            if !edge_touches(edges.last(), id) {
                assert forall|k: int, l: int| 0 <= k < l < off.len() implies
                    !(#[trigger] off[k].input_id == #[trigger] off[l].input_id && off[k].input_slot == off[l].input_slot) by {
                    if l < od.len() {
                        assert(off[k] == od[k] && off[l] == od[l]);
                    } else {
                        assert(off[l] == edges.last());
                        assert(d.contains(od[k]));
                        let j = choose|j: int| 0 <= j < d.len() && d[j] == od[k];
                        assert(edges[j] == od[k]);
                        assert(off[k] == od[k]);
                    }
                }
            }
        }
    }
}

impl NodeGraph {
    /// Whether `p` is the position of the first edge equal to `e`.
    pub open spec fn is_first_edge_pos(self, e: Edge, p: int) -> bool {
        &&& 0 <= p < self.edges@.len()
        &&& self.edges@[p] == e
        &&& forall|j: int| 0 <= j < p ==> self.edges@[j] != e
    }

    /// The position of the first edge equal to `e` (meaningful when `self.edges@.contains(e)`).
    pub open spec fn edge_pos(self, e: Edge) -> int {
        choose|p: int| self.is_first_edge_pos(e, p)
    }

    /// Why connecting two slots with `can_connect` or `try_connect` is refused, if it is.
    pub open spec fn can_connect_error(self, o: NodeId, i: NodeId, os: SlotId, is: SlotId) -> Option<TexProError> {
        if !self.has_node(o) {
            Some(TexProError::InvalidNodeId)
        } else if crate::node::slot_with_id(self.node_at(o).node_type.spec_output_slots(), os) is None {
            Some(TexProError::InvalidSlotId)
        } else if !self.has_node(i) {
            Some(TexProError::InvalidNodeId)
        } else if crate::node::slot_with_id(self.node_at(i).node_type.spec_input_slots(), is) is None {
            Some(TexProError::InvalidSlotId)
        } else if exists|k: int| 0 <= k < self.edges@.len() && edge_at_slot(#[trigger] self.edges@[k], i, Side::Input, is) {
            Some(TexProError::SlotOccupied)
        } else {
            None
        }
    }

    /// Why `connect` refuses to connect two slots, if it does.
    pub open spec fn connect_error(self, o: NodeId, i: NodeId, os: SlotId, is: SlotId) -> Option<TexProError> {
        if !self.has_node(o) || !self.has_node(i) {
            Some(TexProError::InvalidNodeId)
        } else if crate::node::slot_with_id(self.node_at(o).node_type.spec_output_slots(), os) is None
            || crate::node::slot_with_id(self.node_at(i).node_type.spec_input_slots(), is) is None {
            Some(TexProError::InvalidSlotId)
        } else if !crate::node::slot_type_fits(
            crate::node::slot_with_id(self.node_at(o).node_type.spec_output_slots(), os).unwrap().2,
            crate::node::slot_with_id(self.node_at(i).node_type.spec_input_slots(), is).unwrap().2,
        ) {
            Some(TexProError::InvalidSlotType)
        } else {
            None
        }
    }

    /// Raises the cancel flag of the node at position `i`.
    fn cancel_at(&mut self, i: usize)
        requires
            i < old(self).nodes@.len(),
        ensures
            final(self).nodes@ == old(self).nodes@.update(i as int, cancelled(old(self).nodes@[i as int])),
            final(self).edges == old(self).edges,
            final(self).node_id_counter == old(self).node_id_counter,
    {
        let mut n = self.nodes.remove(i);
        n.cancel = true;
        self.nodes.insert(i, n);
        proof {
            assert(self.nodes@ =~= old(self).nodes@.update(i as int, cancelled(old(self).nodes@[i as int])));
        }
    }
}

/// Raising a cancel flag changes no node id.
pub proof fn lemma_cancel_keeps_ids(g: NodeGraph, h: NodeGraph, i: int)
    requires
        0 <= i < g.nodes@.len(),
        h.nodes@ == g.nodes@.update(i, cancelled(g.nodes@[i])),
    ensures
        forall|id: NodeId| g.has_node(id) == h.has_node(id),
        forall|id: NodeId| #[trigger] g.has_node(id) ==> g.index_of(id) == h.index_of(id),
        g.unique_ids() == h.unique_ids(),
        h.ids() == g.ids(),
        forall|id: NodeId| #[trigger] g.has_node(id) ==> h.node_at(id).node_type == g.node_at(id).node_type,
{
    assert forall|id: NodeId| g.has_node(id) == h.has_node(id) by {
        if g.has_node(id) {
            let j = choose|j: int| 0 <= j < g.nodes@.len() && g.nodes@[j].node_id == id;
            assert(h.nodes@[j].node_id == id);
        }
        if h.has_node(id) {
            let j = choose|j: int| 0 <= j < h.nodes@.len() && h.nodes@[j].node_id == id;
            assert(g.nodes@[j].node_id == id);
        }
    }
    assert forall|id: NodeId| #[trigger] g.has_node(id) implies g.index_of(id) == h.index_of(id) by {
        let j = g.index_of(id);
        assert(g.is_first_index(id, j)) by {
            lemma_has_first_index(g, id);
        }
        assert(h.is_first_index(id, j));
        lemma_first_index_unique(h, id, j);
    }
    assert(h.ids() =~= g.ids());
    assert(g.unique_ids() == h.unique_ids()) by {
        if g.unique_ids() {
            assert forall|a: int, b: int| 0 <= a < b < h.nodes@.len() implies h.nodes@[a].node_id != h.nodes@[b].node_id by {
                assert(g.nodes@[a].node_id == h.nodes@[a].node_id);
                assert(g.nodes@[b].node_id == h.nodes@[b].node_id);
            }
        }
        if h.unique_ids() {
            assert forall|a: int, b: int| 0 <= a < b < g.nodes@.len() implies g.nodes@[a].node_id != g.nodes@[b].node_id by {
                assert(g.nodes@[a].node_id == h.nodes@[a].node_id);
                assert(g.nodes@[b].node_id == h.nodes@[b].node_id);
            }
        }
    }
    assert forall|id: NodeId| #[trigger] g.has_node(id) implies h.node_at(id).node_type == g.node_at(id).node_type by {
        let j = g.index_of(id);
        lemma_has_first_index(g, id);
        assert(g.index_of(id) == h.index_of(id));
        assert(h.nodes@[j].node_type == g.nodes@[j].node_type);
    }
}

/// Two graphs whose nodes have the same ids, position by position, and the same edges have
/// the same nodes by id and are equally well formed.
pub proof fn lemma_same_ids(g: NodeGraph, h: NodeGraph)
    requires
        g.nodes@.len() == h.nodes@.len(),
        forall|i: int| 0 <= i < g.nodes@.len() ==> (#[trigger] g.nodes@[i]).node_id == h.nodes@[i].node_id,
        g.edges == h.edges,
    ensures
        forall|id: NodeId| g.has_node(id) == h.has_node(id),
        g.wf() ==> h.wf(),
        h.ids() == g.ids(),
{
    assert forall|id: NodeId| g.has_node(id) == h.has_node(id) by {
        if g.has_node(id) {
            let j = choose|j: int| 0 <= j < g.nodes@.len() && g.nodes@[j].node_id == id;
            assert(h.nodes@[j].node_id == id);
        }
        if h.has_node(id) {
            let j = choose|j: int| 0 <= j < h.nodes@.len() && h.nodes@[j].node_id == id;
            assert(g.nodes@[j].node_id == id);
        }
    }
    if g.wf() {
        assert forall|a: int, b: int| 0 <= a < b < h.nodes@.len() implies h.nodes@[a].node_id != h.nodes@[b].node_id by {
            assert(g.nodes@[a].node_id == h.nodes@[a].node_id);
            assert(g.nodes@[b].node_id == h.nodes@[b].node_id);
        }
        assert forall|k: int| 0 <= k < h.edges@.len() implies
            h.has_node(#[trigger] h.edges@[k].output_id) && h.has_node(h.edges@[k].input_id) by {
            assert(g.has_node(g.edges@[k].output_id) && g.has_node(g.edges@[k].input_id));
        }
    }
    assert(h.ids() =~= g.ids());
}

/// The edges into a node of a graph are edges of the graph.
pub proof fn lemma_edges_into_valid(g: NodeGraph, id: NodeId, e: Edge)
    requires
        edges_into(g.edges@, id).contains(e),
    ensures
        g.edges@.contains(e),
        e.input_id == id,
{
    lemma_edges_into_sub(g.edges@, id, e);
}

proof fn lemma_edges_into_sub(edges: Seq<Edge>, id: NodeId, e: Edge)
    requires
        edges_into(edges, id).contains(e),
    ensures
        edges.contains(e),
        e.input_id == id,
    decreases edges.len(),
{
    if edges.len() > 0 {
        let prev = edges_into(edges.drop_last(), id);
        if prev.contains(e) {
            lemma_edges_into_sub(edges.drop_last(), id, e);
            let k = choose|k: int| 0 <= k < edges.drop_last().len() && edges.drop_last()[k] == e;
            assert(edges[k] == e);
        } else {
            assert(e == edges.last());
            assert(edges[edges.len() - 1] == e);
        }
    }
}

/// After a successful `connect`, the new edge is the only edge plugged into its input slot:
/// the edges are those that were plugged elsewhere, and the new one.
pub proof fn law_connect_takes_slot(before: Seq<Edge>, after: Seq<Edge>, e: Edge)
    requires
        after == edges_off_slot(before, e.input_id, Side::Input, e.input_slot).push(e),
    ensures
        after.contains(e),
        forall|k: int| 0 <= k < after.len() && edge_at_slot(#[trigger] after[k], e.input_id, Side::Input, e.input_slot)
            ==> after[k] == e,
        forall|k: int| 0 <= k < before.len() && !edge_at_slot(#[trigger] before[k], e.input_id, Side::Input, e.input_slot)
            ==> after.contains(before[k]),
{
    lemma_slot_filters(before, e.input_id, Side::Input, e.input_slot);
    let off = edges_off_slot(before, e.input_id, Side::Input, e.input_slot);
    assert(after[after.len() - 1] == e);
    assert forall|k: int| 0 <= k < after.len() && edge_at_slot(#[trigger] after[k], e.input_id, Side::Input, e.input_slot)
        implies after[k] == e by {
        if k < off.len() {
            assert(after[k] == off[k]);
        }
    }
    assert forall|k: int| 0 <= k < before.len() && !edge_at_slot(#[trigger] before[k], e.input_id, Side::Input, e.input_slot)
        implies after.contains(before[k]) by {
        assert(off.contains(before[k]));
        let j = choose|j: int| 0 <= j < off.len() && off[j] == before[k];
        assert(after[j] == off[j]);
    }
}

/// After `remove_node`, no edge has the removed node at either end, and every edge that did
/// not touch it is still there.
pub proof fn law_remove_node_drops_its_edges(before: Seq<Edge>, after: Seq<Edge>, id: NodeId)
    requires
        after == edges_not_touching(before, id),
    ensures
        forall|k: int| 0 <= k < after.len() ==> (#[trigger] after[k]).output_id != id && after[k].input_id != id,
        forall|j: int| 0 <= j < before.len() && !edge_touches(#[trigger] before[j], id) ==> after.contains(before[j]),
{
    lemma_touch_filters(before, id);
    assert forall|k: int| 0 <= k < after.len() implies (#[trigger] after[k]).output_id != id && after[k].input_id != id by {
        assert(!edge_touches(after[k], id));
    }
}

/// A graph that has a node with some id has a first position for it.
pub proof fn lemma_has_first_index(g: NodeGraph, id: NodeId)
    requires
        g.has_node(id),
    ensures
        g.is_first_index(id, g.index_of(id)),
{
    let w = choose|j: int| 0 <= j < g.nodes@.len() && g.nodes@[j].node_id == id;
    lemma_first_below(g, id, w);
}

proof fn lemma_first_below(g: NodeGraph, id: NodeId, w: int)
    requires
        0 <= w < g.nodes@.len(),
        g.nodes@[w].node_id == id,
    ensures
        g.is_first_index(id, g.index_of(id)),
    decreases w,
{
    if exists|j: int| 0 <= j < w && g.nodes@[j].node_id == id {
        let j = choose|j: int| 0 <= j < w && g.nodes@[j].node_id == id;
        lemma_first_below(g, id, j);
    } else {
        lemma_first_index_unique(g, id, w);
    }
}


impl NodeGraph {
    /// Removes the edges plugged into the given slot and returns them, keeping the order of
    /// the rest. Raises the node's cancel flag; `SlotNotOccupied` (after raising it) when no
    /// edge was plugged in.
    pub fn disconnect_slot(&mut self, node_id: NodeId, side: Side, slot_id: SlotId) -> (r: Result<Vec<Edge>>)
        ensures
            !old(self).has_node(node_id) ==> r == Err::<Vec<Edge>, TexProError>(TexProError::InvalidNodeId)
                && *final(self) == *old(self),
            old(self).has_node(node_id) ==> {
                &&& final(self).nodes@ == old(self).nodes@.update(old(self).index_of(node_id),
                    cancelled(old(self).node_at(node_id)))
                &&& final(self).edges@ == edges_off_slot(old(self).edges@, node_id, side, slot_id)
                &&& final(self).node_id_counter == old(self).node_id_counter
                &&& match r {
                    Ok(v) => v@ == edges_at_slot(old(self).edges@, node_id, side, slot_id) && v@.len() > 0,
                    Err(e) => e == TexProError::SlotNotOccupied
                        && edges_at_slot(old(self).edges@, node_id, side, slot_id).len() == 0,
                }
            },
            old(self).wf() ==> final(self).wf(),
    {
        let idx = match self.index_of_node(node_id) {
            Some(i) => i,
            None => return Err(TexProError::InvalidNodeId),
        };
        self.cancel_at(idx);
        let ghost mid = *self;
        let mut keep: Vec<Edge> = Vec::new();
        let mut removed: Vec<Edge> = Vec::new();
        let mut i: usize = 0;
        while i < self.edges.len()
            invariant
                *self == mid,
                i <= self.edges.len(),
                keep@ == edges_off_slot(self.edges@.take(i as int), node_id, side, slot_id),
                removed@ == edges_at_slot(self.edges@.take(i as int), node_id, side, slot_id),
            decreases self.edges.len() - i,
        {
            proof {
                assert(self.edges@.take(i + 1).drop_last() =~= self.edges@.take(i as int));
            }
            let e = self.edges[i];
            let hit = match side {
                Side::Input => e.input_id == node_id && e.input_slot == slot_id,
                Side::Output => e.output_id == node_id && e.output_slot == slot_id,
            };
            if hit {
                removed.push(e);
            } else {
                keep.push(e);
            }
            i = i + 1;
        }
        proof {
            assert(self.edges@.take(i as int) =~= self.edges@);
        }
        self.edges = keep;
        proof {
            lemma_cancel_keeps_ids(*old(self), mid, idx as int);
            lemma_slot_filters(old(self).edges@, node_id, side, slot_id);
            if old(self).wf() {
                assert forall|k: int| 0 <= k < self.edges@.len() implies
                    self.has_node(#[trigger] self.edges@[k].output_id) && self.has_node(self.edges@[k].input_id) by {
                    let x = self.edges@[k];
                    assert(old(self).edges@.contains(x));
                    let j = choose|j: int| 0 <= j < old(self).edges@.len() && old(self).edges@[j] == x;
                    assert(old(self).has_node(old(self).edges@[j].output_id));
                    assert(old(self).has_node(old(self).edges@[j].input_id));
                }
                assert(pairwise_single(old(self).edges@));
            }
        }
        if removed.len() == 0 {
            Err(TexProError::SlotNotOccupied)
        } else {
            Ok(removed)
        }
    }

    fn position_of_edge(&self, edge: Edge) -> (r: Option<usize>)
        ensures
            match r {
                Some(p) => self.is_first_edge_pos(edge, p as int) && self.edge_pos(edge) == p
                    && self.edges@.contains(edge),
                None => !self.edges@.contains(edge),
            },
    {
        let mut p: usize = 0;
        while p < self.edges.len()
            invariant
                p <= self.edges.len(),
                forall|j: int| 0 <= j < p ==> self.edges@[j] != edge,
            decreases self.edges.len() - p,
        {
            if self.edges[p] == edge {
                proof {
                    assert(self.is_first_edge_pos(edge, p as int));
                    let q = choose|q: int| self.is_first_edge_pos(edge, q);
                    if q < p as int {
                        assert(self.edges@[q] != edge);
                    } else if q > p as int {
                        assert(self.edges@[p as int] != edge);
                    }
                }
                return Some(p);
            }
            p = p + 1;
        }
        None
    }

    /// Removes the first edge equal to `edge` and returns it, raising the cancel flag of the
    /// node at its input end.
    pub fn remove_edge(&mut self, edge: Edge) -> (r: Result<Edge>)
        ensures
            !old(self).edges@.contains(edge) ==> r == Err::<Edge, TexProError>(TexProError::InvalidEdge)
                && *final(self) == *old(self),
            old(self).edges@.contains(edge) && !old(self).has_node(edge.input_id) ==>
                r == Err::<Edge, TexProError>(TexProError::InvalidNodeId) && *final(self) == *old(self),
            old(self).edges@.contains(edge) && old(self).has_node(edge.input_id) ==> {
                &&& r == Ok::<Edge, TexProError>(edge)
                &&& final(self).edges@ == old(self).edges@.remove(old(self).edge_pos(edge))
                &&& final(self).nodes@ == old(self).nodes@.update(old(self).index_of(edge.input_id),
                    cancelled(old(self).node_at(edge.input_id)))
                &&& final(self).node_id_counter == old(self).node_id_counter
            },
            old(self).wf() ==> final(self).wf(),
    {
        let p = match self.position_of_edge(edge) {
            Some(p) => p,
            None => return Err(TexProError::InvalidEdge),
        };
        let idx = match self.index_of_node(edge.input_id) {
            Some(i) => i,
            None => return Err(TexProError::InvalidNodeId),
        };
        self.cancel_at(idx);
        let ghost mid = *self;
        let removed = self.edges.remove(p);
        proof {
            lemma_cancel_keeps_ids(*old(self), mid, idx as int);
            if old(self).wf() {
                assert forall|k: int| 0 <= k < self.edges@.len() implies
                    self.has_node(#[trigger] self.edges@[k].output_id) && self.has_node(self.edges@[k].input_id) by {
                    if k < p {
                        assert(self.edges@[k] == old(self).edges@[k]);
                    } else {
                        assert(self.edges@[k] == old(self).edges@[k + 1]);
                    }
                }
                assert forall|k: int, l: int| 0 <= k < l < self.edges@.len() implies
                    !(#[trigger] self.edges@[k].input_id == #[trigger] self.edges@[l].input_id
                      && self.edges@[k].input_slot == self.edges@[l].input_slot) by {
                    let k2 = if k < p { k } else { k + 1 };
                    let l2 = if l < p { l } else { l + 1 };
                    assert(self.edges@[k] == old(self).edges@[k2]);
                    assert(self.edges@[l] == old(self).edges@[l2]);
                }
            }
        }
        Ok(removed)
    }

    /// Removes every edge connected to the node and returns them, last first.
    fn disconnect_node(&mut self, node_id: NodeId) -> (r: Result<Vec<Edge>>)
        ensures
            !old(self).has_node(node_id) ==> r == Err::<Vec<Edge>, TexProError>(TexProError::InvalidNodeId)
                && *final(self) == *old(self),
            old(self).has_node(node_id) ==> {
                &&& final(self).nodes@ == old(self).nodes@.update(old(self).index_of(node_id),
                    cancelled(old(self).node_at(node_id)))
                &&& final(self).edges@ == edges_not_touching(old(self).edges@, node_id)
                &&& final(self).node_id_counter == old(self).node_id_counter
                &&& r matches Ok(v) && v@ == edges_touching(old(self).edges@, node_id).reverse()
            },
    {
        let idx = match self.index_of_node(node_id) {
            Some(i) => i,
            None => return Err(TexProError::InvalidNodeId),
        };
        self.cancel_at(idx);
        let ghost mid = *self;
        let mut keep: Vec<Edge> = Vec::new();
        let mut touching: Vec<Edge> = Vec::new();
        let mut i: usize = 0;
        while i < self.edges.len()
            invariant
                *self == mid,
                i <= self.edges.len(),
                keep@ == edges_not_touching(self.edges@.take(i as int), node_id),
                touching@ == edges_touching(self.edges@.take(i as int), node_id),
            decreases self.edges.len() - i,
        {
            proof {
                assert(self.edges@.take(i + 1).drop_last() =~= self.edges@.take(i as int));
            }
            let e = self.edges[i];
            if e.output_id == node_id || e.input_id == node_id {
                touching.push(e);
            } else {
                keep.push(e);
            }
            i = i + 1;
        }
        proof {
            assert(self.edges@.take(i as int) =~= self.edges@);
        }
        self.edges = keep;
        let mut removed: Vec<Edge> = Vec::new();
        let mut k: usize = touching.len();
        while k > 0
            invariant
                k <= touching.len(),
                removed@ =~= touching@.subrange(k as int, touching@.len() as int).reverse(),
            decreases k,
        {
            k = k - 1;
            removed.push(touching[k]);
            proof {
                assert(removed@ =~= touching@.subrange(k as int, touching@.len() as int).reverse());
            }
        }
        proof {
            assert(touching@.subrange(0, touching@.len() as int) =~= touching@);
        }
        Ok(removed)
    }

    /// Removes the node and every edge connected to it; returns the node (with its cancel
    /// flag raised) and the removed edges, last first.
    pub fn remove_node(&mut self, node_id: NodeId) -> (r: Result<(Node, Vec<Edge>)>)
        ensures
            !old(self).has_node(node_id) ==> r is Err && *final(self) == *old(self)
                && r == Err::<(Node, Vec<Edge>), TexProError>(TexProError::InvalidNodeId),
            old(self).has_node(node_id) ==> {
                &&& final(self).nodes@ == old(self).nodes@.remove(old(self).index_of(node_id))
                &&& final(self).edges@ == edges_not_touching(old(self).edges@, node_id)
                &&& final(self).node_id_counter == old(self).node_id_counter
                &&& r matches Ok((n, v)) && n == cancelled(old(self).node_at(node_id))
                    && v@ == edges_touching(old(self).edges@, node_id).reverse()
            },
            old(self).wf() ==> final(self).wf() && !final(self).has_node(node_id),
    {
        let removed_edges = self.disconnect_node(node_id)?;
        let ghost mid = *self;
        proof {
            lemma_has_first_index(*old(self), node_id);
            lemma_cancel_keeps_ids(*old(self), mid, old(self).index_of(node_id));
        }
        let idx = match self.index_of_node(node_id) {
            Some(i) => i,
            None => return Err(TexProError::InvalidNodeId),
        };
        let n = self.nodes.remove(idx);
        proof {
            lemma_touch_filters(old(self).edges@, node_id);
            let i0 = old(self).index_of(node_id);
            assert(idx == i0);
            if old(self).wf() {
                assert forall|a: int, b: int| 0 <= a < b < self.nodes@.len() implies
                    self.nodes@[a].node_id != self.nodes@[b].node_id by {
                    let a2 = if a < idx { a } else { a + 1 };
                    let b2 = if b < idx { b } else { b + 1 };
                    assert(self.nodes@[a] == mid.nodes@[a2]);
                    assert(self.nodes@[b] == mid.nodes@[b2]);
                    assert(old(self).nodes@[a2].node_id == mid.nodes@[a2].node_id);
                    assert(old(self).nodes@[b2].node_id == mid.nodes@[b2].node_id);
                }
                assert forall|x: NodeId| #[trigger] old(self).has_node(x) && x != node_id implies self.has_node(x) by {
                    let j = choose|j: int| 0 <= j < old(self).nodes@.len() && old(self).nodes@[j].node_id == x;
                    assert(j != idx);
                    let j2 = if j < idx { j } else { j - 1 };
                    assert(self.nodes@[j2] == mid.nodes@[j]);
                    assert(mid.nodes@[j].node_id == old(self).nodes@[j].node_id);
                }
                assert forall|k: int| 0 <= k < self.edges@.len() implies
                    self.has_node(#[trigger] self.edges@[k].output_id) && self.has_node(self.edges@[k].input_id) by {
                    let x = self.edges@[k];
                    assert(old(self).edges@.contains(x));
                    let j = choose|j: int| 0 <= j < old(self).edges@.len() && old(self).edges@[j] == x;
                    assert(old(self).has_node(old(self).edges@[j].output_id));
                    assert(old(self).has_node(old(self).edges@[j].input_id));
                    assert(!edge_touches(x, node_id));
                }
                assert(pairwise_single(old(self).edges@));
                assert(!self.has_node(node_id)) by {
                    if self.has_node(node_id) {
                        let j = choose|j: int| 0 <= j < self.nodes@.len() && self.nodes@[j].node_id == node_id;
                        let j2 = if j < idx { j } else { j + 1 };
                        assert(self.nodes@[j] == mid.nodes@[j2]);
                        assert(mid.nodes@[j2].node_id == old(self).nodes@[j2].node_id);
                        assert(old(self).nodes@[idx as int].node_id == node_id);
                    }
                }
            }
            assert(n == mid.nodes@[idx as int]);
        }
        Ok((n, removed_edges))
    }
}


impl NodeGraph {
    /// `Ok` when the output slot of one node may be connected to the free input slot of
    /// another; otherwise the first problem found.
    pub fn can_connect(&self, output_node_id: NodeId, input_node_id: NodeId, output_slot_id: SlotId, input_slot_id: SlotId) -> (r: Result<()>)
        requires
            self.slots_known(output_node_id),
            self.slots_known(input_node_id),
        ensures
            match r {
                Ok(_) => self.can_connect_error(output_node_id, input_node_id, output_slot_id, input_slot_id) is None,
                Err(e) => self.can_connect_error(output_node_id, input_node_id, output_slot_id, input_slot_id) == Some(e),
            },
    {
        self.node_ref(output_node_id)?.output_slot_with_id(output_slot_id)?;
        self.node_ref(input_node_id)?.input_slot_with_id(input_slot_id)?;
        if self.slot_occupied(input_node_id, Side::Input, input_slot_id) {
            return Err(TexProError::SlotOccupied);
        }
        Ok(())
    }

    /// Adds an edge if `can_connect` allows it; an occupied input slot is left as it is.
    pub fn try_connect(&mut self, output_node_id: NodeId, input_node_id: NodeId, output_slot_id: SlotId, input_slot_id: SlotId) -> (r: Result<()>)
        requires
            old(self).slots_known(output_node_id),
            old(self).slots_known(input_node_id),
        ensures
            match r {
                Ok(_) => old(self).can_connect_error(output_node_id, input_node_id, output_slot_id, input_slot_id) is None
                    && final(self).edges@ == old(self).edges@.push((Edge { output_id: output_node_id, input_id: input_node_id, output_slot: output_slot_id, input_slot: input_slot_id })),
                Err(e) => old(self).can_connect_error(output_node_id, input_node_id, output_slot_id, input_slot_id) == Some(e)
                    && final(self).edges == old(self).edges,
            },
            final(self).nodes == old(self).nodes,
            final(self).node_id_counter == old(self).node_id_counter,
            old(self).wf() ==> final(self).wf(),
    {
        self.can_connect(output_node_id, input_node_id, output_slot_id, input_slot_id)?;
        self.edges.push((Edge { output_id: output_node_id, input_id: input_node_id, output_slot: output_slot_id, input_slot: input_slot_id }));
        proof {
            if old(self).wf() {
                let n = self.edges@.len() - 1;
                assert forall|k: int, l: int| 0 <= k < l < self.edges@.len() implies
                    !(#[trigger] self.edges@[k].input_id == #[trigger] self.edges@[l].input_id
                      && self.edges@[k].input_slot == self.edges@[l].input_slot) by {
                    if l == n {
                        assert(self.edges@[k] == old(self).edges@[k]);
                        assert(!edge_at_slot(old(self).edges@[k], input_node_id, Side::Input, input_slot_id));
                    } else {
                        assert(self.edges@[k] == old(self).edges@[k]);
                        assert(self.edges@[l] == old(self).edges@[l]);
                    }
                }
                assert forall|k: int| 0 <= k < self.edges@.len() implies
                    self.has_node(#[trigger] self.edges@[k].output_id) && self.has_node(self.edges@[k].input_id) by {
                    if k < n {
                        assert(self.edges@[k] == old(self).edges@[k]);
                    }
                }
            }
        }
        Ok(())
    }

    /// Connects an output slot to an input slot, first removing whatever edges were plugged
    /// into that input slot (and raising the input node's cancel flag). Returns the new edge.
    pub fn connect(&mut self, output_node_id: NodeId, input_node_id: NodeId, output_slot_id: SlotId, input_slot_id: SlotId) -> (r: Result<Edge>)
        requires
            old(self).slots_known(output_node_id),
            old(self).slots_known(input_node_id),
        ensures
            match r {
                Ok(e) => {
                    &&& old(self).connect_error(output_node_id, input_node_id, output_slot_id, input_slot_id) is None
                    &&& e == (Edge { output_id: output_node_id, input_id: input_node_id, output_slot: output_slot_id, input_slot: input_slot_id })
                    &&& final(self).edges@ == edges_off_slot(old(self).edges@, input_node_id, Side::Input, input_slot_id).push(e)
                    &&& final(self).nodes@ == old(self).nodes@.update(old(self).index_of(input_node_id),
                        cancelled(old(self).node_at(input_node_id)))
                },
                Err(e) => old(self).connect_error(output_node_id, input_node_id, output_slot_id, input_slot_id) == Some(e)
                    && *final(self) == *old(self),
            },
            final(self).node_id_counter == old(self).node_id_counter,
            old(self).wf() ==> final(self).wf(),
    {
        let new_edge = Edge::new(output_node_id, input_node_id, output_slot_id, input_slot_id);
        let output_node = self.node_ref(output_node_id)?;
        let input_node = self.node_ref(input_node_id)?;
        let output_slot_type = output_node.output_slot_with_id(output_slot_id)?.slot_type;
        let input_slot_type = input_node.input_slot_with_id(input_slot_id)?.slot_type;
        output_slot_type.fits(input_slot_type)?;
        let _ = self.disconnect_slot(input_node_id, Side::Input, input_slot_id);
        let ghost mid = *self;
        proof {
            lemma_slot_filters(old(self).edges@, input_node_id, Side::Input, input_slot_id);
        }
        let mut k: usize = 0;
        while k < self.edges.len()
            invariant
                *self == mid,
                new_edge == (Edge { output_id: output_node_id, input_id: input_node_id, output_slot: output_slot_id, input_slot: input_slot_id }),
                k <= self.edges.len(),
                forall|j: int| 0 <= j < self.edges@.len() ==> !edge_at_slot(#[trigger] self.edges@[j], input_node_id, Side::Input, input_slot_id),
            decreases self.edges.len() - k,
        {
            proof {
                assert(!edge_at_slot(self.edges@[k as int], input_node_id, Side::Input, input_slot_id));
                assert(self.edges@[k as int] != new_edge);
            }
            if self.edges[k] == new_edge {
                return Err(TexProError::InvalidEdge);
            }
            k = k + 1;
        }
        self.edges.push(new_edge);
        proof {
            let i0 = old(self).index_of(input_node_id);
            lemma_has_first_index(*old(self), input_node_id);
            lemma_cancel_keeps_ids(*old(self), mid, i0);
            if old(self).wf() {
                assert(mid.wf());
                let n = self.edges@.len() - 1;
                assert forall|a: int, b: int| 0 <= a < b < self.edges@.len() implies
                    !(#[trigger] self.edges@[a].input_id == #[trigger] self.edges@[b].input_id
                      && self.edges@[a].input_slot == self.edges@[b].input_slot) by {
                    if b == n {
                        assert(self.edges@[a] == mid.edges@[a]);
                        assert(!edge_at_slot(mid.edges@[a], input_node_id, Side::Input, input_slot_id));
                    } else {
                        assert(self.edges@[a] == mid.edges@[a]);
                        assert(self.edges@[b] == mid.edges@[b]);
                    }
                }
                assert forall|a: int| 0 <= a < self.edges@.len() implies
                    self.has_node(#[trigger] self.edges@[a].output_id) && self.has_node(self.edges@[a].input_id) by {
                    if a < n {
                        assert(self.edges@[a] == mid.edges@[a]);
                    }
                }
            }
        }
        Ok(new_edge)
    }
}


/// The id values of the nodes, as integers.
pub open spec fn id_values(nodes: Seq<Node>) -> Seq<int> {
    nodes.map_values(|n: Node| n.node_id.0 as int)
}

/// If every id in `lo..hi` is taken, there are at least `hi - lo` nodes.
pub proof fn lemma_taken_range_bound(g: NodeGraph, lo: int, hi: int)
    requires
        0 <= lo <= hi <= u32::MAX + 1,
        forall|x: int| lo <= x < hi ==> #[trigger] g.has_node(NodeId(x as u32)),
    ensures
        hi - lo <= g.nodes@.len(),
{
    let ids = id_values(g.nodes@);
    let range = vstd::set_lib::set_int_range(lo, hi);
    assert forall|x: int| range.contains(x) implies ids.to_set().contains(x) by {
        assert(g.has_node(NodeId(x as u32)));
        let j = choose|j: int| 0 <= j < g.nodes@.len() && g.nodes@[j].node_id == NodeId(x as u32);
        assert(ids[j] == x);
    }
    vstd::set_lib::lemma_int_range(lo, hi);
    ids.lemma_cardinality_of_set();
    vstd::seq_lib::seq_to_set_is_finite(ids);
    vstd::set_lib::lemma_len_subset(range, ids.to_set());
}

impl NodeGraph {
    /// Generates a new unique `NodeId`: the first id from the counter on that no node has.
    pub fn new_id(&mut self) -> (r: NodeId)
        requires
            old(self).has_free_id(),
        ensures
            !final(self).has_node(r),
            old(self).node_id_counter.0 <= r.0,
            forall|x: u32| old(self).node_id_counter.0 <= x < r.0 ==> #[trigger] old(self).has_node(NodeId(x)),
            final(self).node_id_counter.0 == r.0 + 1,
            final(self).nodes == old(self).nodes,
            final(self).edges == old(self).edges,
    {
        let ghost c0 = self.node_id_counter.0 as int;
        let mut output = self.node_id_counter;
        self.node_id_counter.0 = self.node_id_counter.0 + 1;
        loop
            invariant
                self.nodes == old(self).nodes,
                self.edges == old(self).edges,
                c0 == old(self).node_id_counter.0,
                c0 <= output.0,
                self.node_id_counter.0 == output.0 + 1,
                exists|x: u32| output.0 <= x < u32::MAX && !old(self).has_node(NodeId(x)),
                forall|x: int| c0 <= x < output.0 ==> #[trigger] old(self).has_node(NodeId(x as u32)),
            decreases u32::MAX - output.0,
        {
            if self.has_node_with_id(output).is_err() {
                proof {
                    assert forall|x: u32| old(self).node_id_counter.0 <= x < output.0 implies
                        #[trigger] old(self).has_node(NodeId(x)) by {
                        assert(old(self).has_node(NodeId((x as int) as u32)));
                    }
                }
                return output;
            }
            proof {
                assert forall|x: int| c0 <= x < output.0 + 1 implies #[trigger] old(self).has_node(NodeId(x as u32)) by {
                    if x == output.0 {
                        assert(NodeId(x as u32) == output);
                    }
                }
                let x = choose|x: u32| output.0 <= x < u32::MAX && !old(self).has_node(NodeId(x));
                if x == output.0 {
                    assert(NodeId(x) == output);
                }
                assert(output.0 + 1 <= x);
            }
            output = self.node_id_counter;
            self.node_id_counter.0 = self.node_id_counter.0 + 1;
        }
    }

    /// With room for the counter, some id is free (by counting: the ids from the counter on
    /// cannot all be taken by the nodes).
    pub proof fn lemma_space_left_has_free_id(self)
        requires
            self.id_space_left(),
        ensures
            self.has_free_id(),
    {
        let c0 = self.node_id_counter.0 as int;
        let hi = c0 + self.nodes@.len() + 1;
        if forall|x: int| c0 <= x < hi ==> #[trigger] self.has_node(NodeId(x as u32)) {
            lemma_taken_range_bound(self, c0, hi);
        } else {
            let x = choose|x: int| c0 <= x < hi && !#[trigger] self.has_node(NodeId(x as u32));
            assert(!self.has_node(NodeId(x as u32)) && c0 <= (x as u32) < u32::MAX);
        }
    }

    /// Whether some id from the counter up to `u32::MAX - 1` is free (see `has_free_id`).
    pub fn free_id_left(&self) -> (r: bool)
        ensures
            r == self.has_free_id(),
    {
        let mut x: u32 = self.node_id_counter.0;
        while x < u32::MAX
            invariant
                self.node_id_counter.0 <= x <= u32::MAX,
                forall|y: u32| self.node_id_counter.0 <= y < x ==> #[trigger] self.has_node(NodeId(y)),
            decreases u32::MAX - x,
        {
            if self.has_node_with_id(NodeId(x)).is_err() {
                return true;
            }
            x = x + 1;
        }
        false
    }

    /// Resets the id counter to one past the largest node id (or zero for an empty graph),
    /// as done after a graph is loaded.
    pub fn restore_id_counter(&mut self)
        requires
            forall|i: int| 0 <= i < old(self).nodes@.len() ==> (#[trigger] old(self).nodes@[i]).node_id.0 < u32::MAX,
        ensures
            final(self).nodes == old(self).nodes,
            final(self).edges == old(self).edges,
            old(self).nodes@.len() == 0 ==> final(self).node_id_counter.0 == 0,
            old(self).nodes@.len() > 0 ==> {
                &&& forall|i: int| 0 <= i < old(self).nodes@.len() ==> (#[trigger] old(self).nodes@[i]).node_id.0 < final(self).node_id_counter.0
                &&& exists|i: int| 0 <= i < old(self).nodes@.len() && (#[trigger] old(self).nodes@[i]).node_id.0 + 1 == final(self).node_id_counter.0
            },
    {
        if self.nodes.len() == 0 {
            self.node_id_counter = NodeId(0);
            return;
        }
        let mut max = self.nodes[0].node_id.0;
        let mut i: usize = 1;
        while i < self.nodes.len()
            invariant
                1 <= i <= self.nodes.len(),
                self.nodes == old(self).nodes,
                forall|j: int| 0 <= j < i ==> (#[trigger] self.nodes@[j]).node_id.0 <= max,
                exists|j: int| 0 <= j < i && (#[trigger] self.nodes@[j]).node_id.0 == max,
                forall|j: int| 0 <= j < self.nodes@.len() ==> (#[trigger] self.nodes@[j]).node_id.0 < u32::MAX,
            decreases self.nodes.len() - i,
        {
            if self.nodes[i].node_id.0 > max {
                max = self.nodes[i].node_id.0;
            }
            i = i + 1;
        }
        self.node_id_counter = NodeId(max + 1);
    }
}


/// Inserts `x` into a strictly ascending vector, keeping it strictly ascending.
pub(crate) fn insert_sorted_unique(v: &mut Vec<NodeId>, x: NodeId)
    requires
        strictly_ascending(old(v)@),
    ensures
        strictly_ascending(final(v)@),
        forall|y: NodeId| final(v)@.contains(y) <==> (old(v)@.contains(y) || y == x),
{
    let mut i: usize = 0;
    while i < v.len() && v[i].0 < x.0
        invariant
            i <= v.len(),
            v@ == old(v)@,
            strictly_ascending(v@),
            forall|j: int| 0 <= j < i ==> (#[trigger] v@[j]).0 < x.0,
        decreases v.len() - i,
    {
        i = i + 1;
    }
    if i < v.len() && v[i].0 == x.0 {
        proof {
            assert(v@[i as int] == x);
        }
        return;
    }
    proof {
        assert forall|j: int| i <= j < v@.len() implies (#[trigger] v@[j]).0 > x.0 by {
            assert(v@[i as int].0 > x.0);
            if j > i {
                assert(v@[i as int].0 < v@[j].0);
            }
        }
    }
    v.insert(i, x);
    proof {
        assert forall|y: NodeId| v@.contains(y) <==> (old(v)@.contains(y) || y == x) by {
            if v@.contains(y) {
                let j = choose|j: int| 0 <= j < v@.len() && v@[j] == y;
                if j < i {
                    assert(old(v)@[j] == y);
                } else if j > i {
                    assert(old(v)@[j - 1] == y);
                }
            }
            if old(v)@.contains(y) {
                let j = choose|j: int| 0 <= j < old(v)@.len() && old(v)@[j] == y;
                if j < i {
                    assert(v@[j] == y);
                } else {
                    assert(v@[j + 1] == y);
                }
            }
            if y == x {
                assert(v@[i as int] == x);
            }
        }
    }
}

impl NodeGraph {
    /// Whether consecutive ids of `p` are joined by edges.
    pub open spec fn is_walk(self, p: Seq<NodeId>) -> bool {
        forall|i: int| 0 <= i < p.len() - 1 ==> self.children_set(#[trigger] p[i]).contains(p[i + 1])
    }

    /// Whether `x` is reachable from `id` by following between one and `fuel` edges.
    pub open spec fn reaches(self, id: NodeId, x: NodeId, fuel: nat) -> bool {
        exists|p: Seq<NodeId>| 2 <= p.len() <= fuel + 1 && p[0] == id && p.last() == x && #[trigger] self.is_walk(p)
    }

    /// The ids of the nodes that edges from `node_id` lead into, ascending and without
    /// repeats.
    pub fn get_children(&self, node_id: NodeId) -> (r: Result<Vec<NodeId>>)
        ensures
            match r {
                Ok(v) => self.has_node(node_id) && strictly_ascending(v@)
                    && forall|c: NodeId| v@.contains(c) <==> self.children_set(node_id).contains(c),
                Err(e) => !self.has_node(node_id) && e == TexProError::InvalidNodeId,
            },
    {
        self.has_node_with_id(node_id)?;
        let mut v: Vec<NodeId> = Vec::new();
        let mut i: usize = 0;
        while i < self.edges.len()
            invariant
                i <= self.edges.len(),
                strictly_ascending(v@),
                forall|c: NodeId| v@.contains(c) <==> exists|k: int| 0 <= k < i
                    && (#[trigger] self.edges@[k]).output_id == node_id && self.edges@[k].input_id == c,
            decreases self.edges.len() - i,
        {
            if self.edges[i].output_id == node_id {
                insert_sorted_unique(&mut v, self.edges[i].input_id);
            }
            proof {
                assert forall|c: NodeId| v@.contains(c) <==> exists|k: int| 0 <= k < i + 1
                    && (#[trigger] self.edges@[k]).output_id == node_id && self.edges@[k].input_id == c by {
                    if exists|k: int| 0 <= k < i + 1 && (#[trigger] self.edges@[k]).output_id == node_id && self.edges@[k].input_id == c {
                        let k = choose|k: int| 0 <= k < i + 1 && (#[trigger] self.edges@[k]).output_id == node_id && self.edges@[k].input_id == c;
                        if k < i {
                        }
                    }
                }
            }
            i = i + 1;
        }
        Ok(v)
    }

    /// The ids of the nodes that have an edge into `node_id`, ascending and without repeats.
    pub fn get_parents(&self, node_id: NodeId) -> (r: Vec<NodeId>)
        ensures
            strictly_ascending(r@),
            forall|p: NodeId| r@.contains(p) <==> self.parents_set(node_id).contains(p),
    {
        let mut v: Vec<NodeId> = Vec::new();
        let mut i: usize = 0;
        while i < self.edges.len()
            invariant
                i <= self.edges.len(),
                strictly_ascending(v@),
                forall|p: NodeId| v@.contains(p) <==> exists|k: int| 0 <= k < i
                    && (#[trigger] self.edges@[k]).input_id == node_id && self.edges@[k].output_id == p,
            decreases self.edges.len() - i,
        {
            if self.edges[i].input_id == node_id {
                insert_sorted_unique(&mut v, self.edges[i].output_id);
            }
            proof {
                assert forall|p: NodeId| v@.contains(p) <==> exists|k: int| 0 <= k < i + 1
                    && (#[trigger] self.edges@[k]).input_id == node_id && self.edges@[k].output_id == p by {
                    if exists|k: int| 0 <= k < i + 1 && (#[trigger] self.edges@[k]).input_id == node_id && self.edges@[k].output_id == p {
                        let k = choose|k: int| 0 <= k < i + 1 && (#[trigger] self.edges@[k]).input_id == node_id && self.edges@[k].output_id == p;
                        if k < i {
                        }
                    }
                }
            }
            i = i + 1;
        }
        v
    }

    /// One step of `reaches`.
    pub proof fn lemma_reaches_unfold(self, id: NodeId, x: NodeId, fuel: nat)
        requires
            fuel > 0,
        ensures
            self.reaches(id, x, fuel) <==> (self.children_set(id).contains(x)
                || exists|c: NodeId| self.children_set(id).contains(c) && #[trigger] self.reaches(c, x, (fuel - 1) as nat)),
    {
        if self.reaches(id, x, fuel) {
            let p = choose|p: Seq<NodeId>| 2 <= p.len() <= fuel + 1 && p[0] == id && p.last() == x && #[trigger] self.is_walk(p);
            assert(self.children_set(p[0]).contains(p[1]));
            if p.len() > 2 {
                let q = p.drop_first();
                assert(self.is_walk(q)) by {
                    assert forall|i: int| 0 <= i < q.len() - 1 implies self.children_set(#[trigger] q[i]).contains(q[i + 1]) by {
                        assert(q[i] == p[i + 1] && q[i + 1] == p[i + 2]);
                    }
                }
                assert(self.reaches(p[1], x, (fuel - 1) as nat));
            }
        }
        if self.children_set(id).contains(x) {
            let p = seq![id, x];
            assert(self.is_walk(p));
        }
        if exists|c: NodeId| self.children_set(id).contains(c) && #[trigger] self.reaches(c, x, (fuel - 1) as nat) {
            let c = choose|c: NodeId| self.children_set(id).contains(c) && #[trigger] self.reaches(c, x, (fuel - 1) as nat);
            let q = choose|q: Seq<NodeId>| 2 <= q.len() <= (fuel - 1) + 1 && q[0] == c && q.last() == x && #[trigger] self.is_walk(q);
            let p = seq![id] + q;
            assert(self.is_walk(p)) by {
                assert forall|i: int| 0 <= i < p.len() - 1 implies self.children_set(#[trigger] p[i]).contains(p[i + 1]) by {
                    if i > 0 {
                        assert(p[i] == q[i - 1] && p[i + 1] == q[i]);
                    }
                }
            }
            assert(p.last() == x);
        }
    }

    /// `id` is reachable from `x` within `fuel` edges exactly when `x` is a parent of `id`, or
    /// reaches a parent of `id` within one edge fewer.
    pub proof fn lemma_reaches_unfold_back(self, x: NodeId, id: NodeId, fuel: nat)
        requires
            fuel > 0,
        ensures
            self.reaches(x, id, fuel) <==> (self.parents_set(id).contains(x)
                || exists|p: NodeId| self.parents_set(id).contains(p) && #[trigger] self.reaches(x, p, (fuel - 1) as nat)),
    {
        if self.reaches(x, id, fuel) {
            let w = choose|w: Seq<NodeId>| 2 <= w.len() <= fuel + 1 && w[0] == x && w.last() == id && #[trigger] self.is_walk(w);
            let n = w.len() as int;
            assert(self.children_set(w[n - 2]).contains(w[n - 1]));
            let k = choose|k: int| 0 <= k < self.edges@.len() && self.edges@[k].output_id == w[n - 2] && self.edges@[k].input_id == w[n - 1];
            assert(self.parents_set(id).contains(w[n - 2]));
            if n > 2 {
                let q = w.drop_last();
                assert(self.is_walk(q)) by {
                    assert forall|i: int| 0 <= i < q.len() - 1 implies self.children_set(#[trigger] q[i]).contains(q[i + 1]) by {
                        assert(q[i] == w[i] && q[i + 1] == w[i + 1]);
                    }
                }
                assert(q.last() == w[n - 2]);
                assert(self.reaches(x, w[n - 2], (fuel - 1) as nat));
            }
        }
        if self.parents_set(id).contains(x) {
            let k = choose|k: int| 0 <= k < self.edges@.len() && self.edges@[k].input_id == id && self.edges@[k].output_id == x;
            let w = seq![x, id];
            assert(self.children_set(x).contains(id));
            assert(self.is_walk(w));
        }
        if exists|p: NodeId| self.parents_set(id).contains(p) && #[trigger] self.reaches(x, p, (fuel - 1) as nat) {
            let p = choose|p: NodeId| self.parents_set(id).contains(p) && #[trigger] self.reaches(x, p, (fuel - 1) as nat);
            let q = choose|q: Seq<NodeId>| 2 <= q.len() <= (fuel - 1) + 1 && q[0] == x && q.last() == p && #[trigger] self.is_walk(q);
            let k = choose|k: int| 0 <= k < self.edges@.len() && self.edges@[k].input_id == id && self.edges@[k].output_id == p;
            assert(self.children_set(p).contains(id));
            let w = q.push(id);
            assert(self.is_walk(w)) by {
                assert forall|i: int| 0 <= i < w.len() - 1 implies self.children_set(#[trigger] w[i]).contains(w[i + 1]) by {
                    if i < q.len() - 1 {
                        assert(w[i] == q[i] && w[i + 1] == q[i + 1]);
                    } else {
                        assert(w[i] == p && w[i + 1] == id);
                    }
                }
            }
            assert(w.last() == id);
        }
    }

    /// The nodes that reach `node_id` within `fuel` edges: its parents, their parents, and so
    /// on, each as often as it is reached.
    pub(crate) fn ancestors_within(&self, node_id: NodeId, fuel: usize) -> (r: Vec<NodeId>)
        ensures
            forall|x: NodeId| r@.contains(x) <==> self.reaches(x, node_id, fuel as nat),
        decreases fuel,
    {
        if fuel == 0 {
            let empty: Vec<NodeId> = Vec::new();
            proof {
                assert forall|x: NodeId| !self.reaches(x, node_id, 0) by {
                    self.lemma_reaches_zero(x, node_id);
                }
            }
            return empty;
        }
        let parents = self.get_parents(node_id);
        let mut output = parents.clone();
        proof {
            assert(output@ =~= parents@);
        }
        let mut i: usize = 0;
        while i < parents.len()
            invariant
                i <= parents.len(),
                fuel > 0,
                forall|p: NodeId| parents@.contains(p) <==> self.parents_set(node_id).contains(p),
                forall|x: NodeId| output@.contains(x) <==> (self.parents_set(node_id).contains(x)
                    || exists|j: int| 0 <= j < i && #[trigger] self.reaches(x, parents@[j], (fuel - 1) as nat)),
            decreases parents.len() - i,
        {
            let mut sub = self.ancestors_within(parents[i], fuel - 1);
            let ghost before = output@;
            let ghost subv = sub@;
            output.append(&mut sub);
            proof {
                assert forall|x: NodeId| output@.contains(x) <==> (self.parents_set(node_id).contains(x)
                    || exists|j: int| 0 <= j < i + 1 && #[trigger] self.reaches(x, parents@[j], (fuel - 1) as nat)) by {
                    if output@.contains(x) {
                        let k = choose|k: int| 0 <= k < output@.len() && output@[k] == x;
                        if k >= before.len() {
                            assert(output@[k] == subv[k - before.len()]);
                            assert(subv.contains(x));
                            assert(self.reaches(x, parents@[i as int], (fuel - 1) as nat));
                        } else {
                            assert(before[k] == output@[k]);
                            assert(before.contains(x));
                            if !self.parents_set(node_id).contains(x) {
                                let j = choose|j: int| 0 <= j < i && #[trigger] self.reaches(x, parents@[j], (fuel - 1) as nat);
                                assert(0 <= j < i + 1 && self.reaches(x, parents@[j], (fuel - 1) as nat));
                            }
                        }
                    }
                    if exists|j: int| 0 <= j < i + 1 && #[trigger] self.reaches(x, parents@[j], (fuel - 1) as nat) {
                        let j = choose|j: int| 0 <= j < i + 1 && #[trigger] self.reaches(x, parents@[j], (fuel - 1) as nat);
                        if j == i {
                            assert(subv.contains(x));
                            let k = choose|k: int| 0 <= k < subv.len() && subv[k] == x;
                            assert(output@[before.len() + k] == x);
                        } else {
                            assert(0 <= j < i && self.reaches(x, parents@[j], (fuel - 1) as nat));
                            assert(before.contains(x));
                            let k = choose|k: int| 0 <= k < before.len() && before[k] == x;
                            assert(output@[k] == x);
                        }
                    }
                    if self.parents_set(node_id).contains(x) {
                        assert(before.contains(x));
                        let k = choose|k: int| 0 <= k < before.len() && before[k] == x;
                        assert(output@[k] == x);
                    }
                }
            }
            i = i + 1;
        }
        proof {
            assert forall|x: NodeId| output@.contains(x) <==> self.reaches(x, node_id, fuel as nat) by {
                self.lemma_reaches_unfold_back(x, node_id, fuel as nat);
                if exists|j: int| 0 <= j < i && #[trigger] self.reaches(x, parents@[j], (fuel - 1) as nat) {
                    let j = choose|j: int| 0 <= j < i && #[trigger] self.reaches(x, parents@[j], (fuel - 1) as nat);
                    assert(parents@.contains(parents@[j]));
                }
                if self.reaches(x, node_id, fuel as nat) && !self.parents_set(node_id).contains(x) {
                    let p = choose|p: NodeId| self.parents_set(node_id).contains(p) && #[trigger] self.reaches(x, p, (fuel - 1) as nat);
                    assert(parents@.contains(p));
                    let j = choose|j: int| 0 <= j < parents@.len() && parents@[j] == p;
                    assert(self.reaches(x, parents@[j], (fuel - 1) as nat));
                }
            }
        }
        output
    }

    /// Nothing is reachable in zero steps.
    pub proof fn lemma_reaches_zero(self, id: NodeId, x: NodeId)
        ensures
            !self.reaches(id, x, 0),
    {
    }

    fn children_recursive_within(&self, node_id: NodeId, fuel: usize) -> (r: Result<Vec<NodeId>>)
        ensures
            !self.has_node(node_id) ==> r == Err::<Vec<NodeId>, TexProError>(TexProError::InvalidNodeId),
            self.wf() && self.has_node(node_id) ==> r is Ok,
            r matches Ok(v) ==> forall|x: NodeId| v@.contains(x) <==> self.reaches(node_id, x, fuel as nat),
        decreases fuel,
    {
        let children = self.get_children(node_id)?;
        if fuel == 0 {
            let empty: Vec<NodeId> = Vec::new();
            proof {
                assert forall|x: NodeId| !self.reaches(node_id, x, 0) by {
                    self.lemma_reaches_zero(node_id, x);
                }
            }
            return Ok(empty);
        }
        let mut output = children.clone();
        proof {
            assert(output@ =~= children@);
        }
        let mut i: usize = 0;
        while i < children.len()
            invariant
                i <= children.len(),
                fuel > 0,
                self.has_node(node_id),
                forall|c: NodeId| children@.contains(c) <==> self.children_set(node_id).contains(c),
                self.wf() ==> forall|c: NodeId| #[trigger] self.children_set(node_id).contains(c) ==> self.has_node(c),
                forall|x: NodeId| output@.contains(x) <==> (self.children_set(node_id).contains(x)
                    || exists|j: int| 0 <= j < i && #[trigger] self.reaches(children@[j], x, (fuel - 1) as nat)),
            decreases children.len() - i,
        {
            proof {
                assert(children@.contains(children@[i as int]));
            }
            let mut sub = self.children_recursive_within(children[i], fuel - 1)?;
            let ghost before = output@;
            let ghost subv = sub@;
            output.append(&mut sub);
            proof {
                assert forall|x: NodeId| output@.contains(x) <==> (self.children_set(node_id).contains(x)
                    || exists|j: int| 0 <= j < i + 1 && #[trigger] self.reaches(children@[j], x, (fuel - 1) as nat)) by {
                    if output@.contains(x) {
                        let k = choose|k: int| 0 <= k < output@.len() && output@[k] == x;
                        if k >= before.len() {
                            assert(output@[k] == subv[k - before.len()]);
                            assert(subv.contains(x));
                            assert(self.reaches(children@[i as int], x, (fuel - 1) as nat));
                        } else {
                            assert(before[k] == output@[k]);
                            assert(before.contains(x));
                            if !self.children_set(node_id).contains(x) {
                                let j = choose|j: int| 0 <= j < i && #[trigger] self.reaches(children@[j], x, (fuel - 1) as nat);
                                assert(0 <= j < i + 1 && self.reaches(children@[j], x, (fuel - 1) as nat));
                            }
                        }
                    }
                    if exists|j: int| 0 <= j < i + 1 && #[trigger] self.reaches(children@[j], x, (fuel - 1) as nat) {
                        let j = choose|j: int| 0 <= j < i + 1 && #[trigger] self.reaches(children@[j], x, (fuel - 1) as nat);
                        if j == i {
                            assert(self.reaches(children@[i as int], x, (fuel - 1) as nat));
                            assert(subv.contains(x));
                            let k = choose|k: int| 0 <= k < subv.len() && subv[k] == x;
                            assert(output@[before.len() + k] == x);
                        } else {
                            assert(0 <= j < i && self.reaches(children@[j], x, (fuel - 1) as nat));
                            assert(before.contains(x));
                            let k = choose|k: int| 0 <= k < before.len() && before[k] == x;
                            assert(output@[k] == x);
                        }
                    }
                    if self.children_set(node_id).contains(x) {
                        assert(before.contains(x));
                        let k = choose|k: int| 0 <= k < before.len() && before[k] == x;
                        assert(output@[k] == x);
                    }
                }
            }
            i = i + 1;
        }
        proof {
            assert forall|x: NodeId| output@.contains(x) <==> self.reaches(node_id, x, fuel as nat) by {
                self.lemma_reaches_unfold(node_id, x, fuel as nat);
                if exists|j: int| 0 <= j < i && #[trigger] self.reaches(children@[j], x, (fuel - 1) as nat) {
                    let j = choose|j: int| 0 <= j < i && #[trigger] self.reaches(children@[j], x, (fuel - 1) as nat);
                    assert(children@.contains(children@[j]));
                }
                if self.reaches(node_id, x, fuel as nat) && !self.children_set(node_id).contains(x) {
                    let c = choose|c: NodeId| self.children_set(node_id).contains(c) && #[trigger] self.reaches(c, x, (fuel - 1) as nat);
                    assert(children@.contains(c));
                    let j = choose|j: int| 0 <= j < children@.len() && children@[j] == c;
                    assert(self.reaches(children@[j], x, (fuel - 1) as nat));
                }
            }
        }
        Ok(output)
    }

    /// All nodes below `node_id`: its children, their children, and so on, following at most
    /// as many edges as the graph has nodes (which reaches every descendant in a graph
    /// without cycles).
    pub fn get_children_recursive(&self, node_id: NodeId) -> (r: Result<Vec<NodeId>>)
        ensures
            !self.has_node(node_id) ==> r == Err::<Vec<NodeId>, TexProError>(TexProError::InvalidNodeId),
            self.wf() && self.has_node(node_id) ==> r is Ok,
            r matches Ok(v) ==> forall|x: NodeId| v@.contains(x) <==> self.reaches(node_id, x, self.nodes@.len()),
    {
        self.children_recursive_within(node_id, self.nodes.len())
    }
}


/// The input nodes (`inputs`) or output nodes (`!inputs`) among `nodes`, in order.
pub open spec fn io_nodes(nodes: Seq<Node>, inputs: bool) -> Seq<Node>
    decreases nodes.len(),
{
    if nodes.len() == 0 {
        seq![]
    } else {
        let prev = io_nodes(nodes.drop_last(), inputs);
        let n = nodes.last();
        if (inputs && n.node_type.spec_is_input()) || (!inputs && n.node_type.spec_is_output()) {
            prev.push(n)
        } else {
            prev
        }
    }
}

/// The names of the input nodes (`inputs`) or output nodes (`!inputs`) among `nodes`, in order.
pub open spec fn io_names(nodes: Seq<Node>, inputs: bool) -> Seq<Seq<char>>
    decreases nodes.len(),
{
    if nodes.len() == 0 {
        seq![]
    } else {
        let prev = io_names(nodes.drop_last(), inputs);
        let n = nodes.last();
        if (inputs && n.node_type.spec_is_input()) || (!inputs && n.node_type.spec_is_output()) {
            prev.push(n.node_type.spec_name().unwrap())
        } else {
            prev
        }
    }
}

/// The nodes behind a sequence of references.
pub open spec fn deref_nodes(s: Seq<&Node>) -> Seq<Node> {
    s.map_values(|n: &Node| *n)
}


impl NodeGraph {
    fn io_nodes_exec(&self, inputs: bool) -> (r: Vec<&Node>)
        ensures
            deref_nodes(r@) == io_nodes(self.nodes@, inputs),
    {
        let mut v: Vec<&Node> = Vec::new();
        let mut i: usize = 0;
        while i < self.nodes.len()
            invariant
                i <= self.nodes.len(),
                deref_nodes(v@) == io_nodes(self.nodes@.take(i as int), inputs),
            decreases self.nodes.len() - i,
        {
            proof {
                assert(self.nodes@.take(i + 1).drop_last() =~= self.nodes@.take(i as int));
            }
            let n = &self.nodes[i];
            let keep = if inputs { n.node_type.is_input() } else { n.node_type.is_output() };
            if keep {
                let ghost before = v@;
                v.push(n);
                proof {
                    assert(deref_nodes(v@) =~= deref_nodes(before).push(*n));
                }
            }
            i = i + 1;
        }
        proof {
            assert(self.nodes@.take(i as int) =~= self.nodes@);
        }
        v
    }

    /// The input nodes, in order.
    pub fn input_nodes(&self) -> (r: Vec<&Node>)
        ensures
            deref_nodes(r@) == io_nodes(self.nodes@, true),
    {
        self.io_nodes_exec(true)
    }

    /// The output nodes, in order.
    pub fn output_nodes(&self) -> (r: Vec<&Node>)
        ensures
            deref_nodes(r@) == io_nodes(self.nodes@, false),
    {
        self.io_nodes_exec(false)
    }

    fn io_names_exec(&self, inputs: bool) -> (r: Vec<&String>)
        ensures
            name_views(r@) == io_names(self.nodes@, inputs),
    {
        let mut v: Vec<&String> = Vec::new();
        let mut i: usize = 0;
        while i < self.nodes.len()
            invariant
                i <= self.nodes.len(),
                name_views(v@) == io_names(self.nodes@.take(i as int), inputs),
            decreases self.nodes.len() - i,
        {
            proof {
                assert(self.nodes@.take(i + 1).drop_last() =~= self.nodes@.take(i as int));
            }
            let n = &self.nodes[i];
            let keep = if inputs { n.node_type.is_input() } else { n.node_type.is_output() };
            if keep {
                let ghost before = v@;
                v.push(n.node_type.name().unwrap());
                proof {
                    assert(name_views(v@) =~= name_views(before).push(n.node_type.spec_name().unwrap()));
                }
            }
            i = i + 1;
        }
        proof {
            assert(self.nodes@.take(i as int) =~= self.nodes@);
        }
        v
    }

    /// The names of the input nodes, in order.
    pub fn input_names(&self) -> (r: Vec<&String>)
        ensures
            name_views(r@) == io_names(self.nodes@, true),
    {
        self.io_names_exec(true)
    }

    /// The names of the output nodes, in order.
    pub fn output_names(&self) -> (r: Vec<&String>)
        ensures
            name_views(r@) == io_names(self.nodes@, false),
    {
        self.io_names_exec(false)
    }

    fn slot_id_with_name_exec(&self, name: &str, inputs: bool) -> (r: Option<SlotId>)
        ensures
            match r {
                Some(s) => exists|i: int| 0 <= i < io_nodes(self.nodes@, inputs).len()
                    && io_nodes(self.nodes@, inputs)[i].node_type.spec_name() == Some(name@)
                    && s == SlotId(io_nodes(self.nodes@, inputs)[i].node_id.0)
                    && forall|j: int| 0 <= j < i ==> io_nodes(self.nodes@, inputs)[j].node_type.spec_name() != Some(name@),
                None => forall|i: int| 0 <= i < io_nodes(self.nodes@, inputs).len() ==>
                    io_nodes(self.nodes@, inputs)[i].node_type.spec_name() != Some(name@),
            },
    {
        let nodes = self.io_nodes_exec(inputs);
        let wanted = String::from_str(name);
        let mut i: usize = 0;
        while i < nodes.len()
            invariant
                i <= nodes.len(),
                deref_nodes(nodes@) == io_nodes(self.nodes@, inputs),
                wanted@ == name@,
                forall|j: int| 0 <= j < i ==> io_nodes(self.nodes@, inputs)[j].node_type.spec_name() != Some(name@),
            decreases nodes.len() - i,
        {
            proof {
                assert(deref_nodes(nodes@)[i as int] == *nodes@[i as int]);
            }
            match nodes[i].node_type.name() {
                Some(n) => {
                    if *n == wanted {
                        return Some(SlotId(nodes[i].node_id.0));
                    }
                },
                None => {},
            }
            i = i + 1;
        }
        None
    }

    /// The slot id (the node id) of the first input node with the given name.
    pub fn input_slot_id_with_name(&self, name: &str) -> (r: Option<SlotId>)
        ensures
            match r {
                Some(s) => exists|i: int| 0 <= i < io_nodes(self.nodes@, true).len()
                    && io_nodes(self.nodes@, true)[i].node_type.spec_name() == Some(name@)
                    && s == SlotId(io_nodes(self.nodes@, true)[i].node_id.0)
                    && forall|j: int| 0 <= j < i ==> io_nodes(self.nodes@, true)[j].node_type.spec_name() != Some(name@),
                None => forall|i: int| 0 <= i < io_nodes(self.nodes@, true).len() ==>
                    io_nodes(self.nodes@, true)[i].node_type.spec_name() != Some(name@),
            },
    {
        self.slot_id_with_name_exec(name, true)
    }

    /// The slot id (the node id) of the first output node with the given name.
    pub fn output_slot_id_with_name(&self, name: &str) -> (r: Option<SlotId>)
        ensures
            match r {
                Some(s) => exists|i: int| 0 <= i < io_nodes(self.nodes@, false).len()
                    && io_nodes(self.nodes@, false)[i].node_type.spec_name() == Some(name@)
                    && s == SlotId(io_nodes(self.nodes@, false)[i].node_id.0)
                    && forall|j: int| 0 <= j < i ==> io_nodes(self.nodes@, false)[j].node_type.spec_name() != Some(name@),
                None => forall|i: int| 0 <= i < io_nodes(self.nodes@, false).len() ==>
                    io_nodes(self.nodes@, false)[i].node_type.spec_name() != Some(name@),
            },
    {
        self.slot_id_with_name_exec(name, false)
    }
}


/// Whether `t` is `s` with its name (an input's or an output's) replaced by `name`.
pub open spec fn renamed(s: NodeType, t: NodeType, name: Seq<char>) -> bool {
    match s {
        NodeType::InputGray(_) => t is InputGray && t.spec_name() == Some(name),
        NodeType::InputRgba(_) => t is InputRgba && t.spec_name() == Some(name),
        NodeType::OutputGray(_) => t is OutputGray && t.spec_name() == Some(name),
        NodeType::OutputRgba(_) => t is OutputRgba && t.spec_name() == Some(name),
        _ => t == s,
    }
}

/// Whether `r` is the name that a name `name` becomes among the taken names `taken`: the
/// first of `nth_name(name, k)` that is not taken.
pub open spec fn free_name(taken: Seq<Seq<char>>, name: Seq<char>, r: Seq<char>) -> bool {
    &&& exists|k: nat| r == crate::names::nth_name(name, k) && forall|j: nat| j < k ==>
            taken.contains(#[trigger] crate::names::nth_name(name, j))
    &&& !taken.contains(r)
}

/// The name an input or output node starts from: its own, or `untitled` when empty.
pub open spec fn start_name(t: NodeType) -> Seq<char> {
    if t.spec_name().unwrap().len() == 0 { "untitled"@ } else { t.spec_name().unwrap() }
}

/// Whether `n` is `node` as `add_node_internal` stores it under `id` in `g`.
pub open spec fn added_node(g: NodeGraph, node: Node, id: NodeId, n: Node) -> bool {
    &&& n.node_id == id
    &&& n.resize_policy == node.resize_policy
    &&& n.resize_filter == node.resize_filter
    &&& n.cancel == node.cancel
    &&& if node.node_type.spec_is_input() || node.node_type.spec_is_output() {
            exists|r: Seq<char>| renamed(node.node_type, n.node_type, r)
                && free_name(io_names(g.nodes@, node.node_type.spec_is_input()), start_name(node.node_type), r)
        } else {
            n.node_type == node.node_type
        }
}

/// The same kind of node type, with the given name.
fn with_name(t: NodeType, name: String) -> (r: NodeType)
    requires
        t.spec_is_input() || t.spec_is_output(),
    ensures
        renamed(t, r, name@),
{
    match t {
        NodeType::InputGray(_) => NodeType::InputGray(name),
        NodeType::InputRgba(_) => NodeType::InputRgba(name),
        NodeType::OutputGray(_) => NodeType::OutputGray(name),
        _ => NodeType::OutputRgba(name),
    }
}

/// The number of input or output names is at most the number of nodes.
pub proof fn lemma_io_names_len(nodes: Seq<Node>, inputs: bool)
    ensures
        io_names(nodes, inputs).len() <= nodes.len(),
    decreases nodes.len(),
{
    if nodes.len() > 0 {
        lemma_io_names_len(nodes.drop_last(), inputs);
    }
}

impl NodeGraph {
    fn add_node_internal(&mut self, node: Node, node_id: NodeId) -> (r: Result<NodeId>)
        requires
            old(self).nodes@.len() < u32::MAX,
        ensures
            r == Ok::<NodeId, TexProError>(node_id),
            final(self).nodes@.len() == old(self).nodes@.len() + 1,
            final(self).nodes@.drop_last() == old(self).nodes@,
            added_node(*old(self), node, node_id, final(self).nodes@.last()),
            final(self).edges == old(self).edges,
            final(self).node_id_counter == old(self).node_id_counter,
    {
        let mut node = node;
        let ghost orig = node;
        if node.node_type.is_input() || node.node_type.is_output() {
            let inputs = node.node_type.is_input();
            let mut name = node.node_type.name().unwrap().clone();
            if name.as_str().unicode_len() == 0 {
                name = String::from_str("untitled");
            }
            let taken = if inputs { self.input_names() } else { self.output_names() };
            proof {
                lemma_io_names_len(self.nodes@, inputs);
            }
            let fresh = crate::names::avoid_name_collision(taken, name.as_str());
            let t = with_name(node.node_type, fresh);
            node.node_type = t;
        }
        node.node_id = node_id;
        self.nodes.push(node);
        proof {
            assert(self.nodes@.drop_last() =~= old(self).nodes@);
        }
        Ok(node_id)
    }

    /// Adds a node under a new unique id (see `new_id`); an input or output node gets a name
    /// that no other input, or output, node has. Returns the id.
    pub fn add_node(&mut self, node: Node) -> (r: Result<NodeId>)
        requires
            old(self).has_free_id(),
            old(self).nodes@.len() < u32::MAX,
        ensures
            r matches Ok(id) && {
                &&& !old(self).has_node(id)
                &&& final(self).nodes@.len() == old(self).nodes@.len() + 1
                &&& final(self).nodes@.drop_last() == old(self).nodes@
                &&& added_node(*old(self), node, id, final(self).nodes@.last())
                &&& final(self).node_id_counter.0 == id.0 + 1
                &&& old(self).node_id_counter.0 <= id.0
                &&& forall|x: u32| old(self).node_id_counter.0 <= x < id.0 ==> #[trigger] old(self).has_node(NodeId(x))
                &&& !old(self).has_node(old(self).node_id_counter) ==> id == old(self).node_id_counter
            },
            final(self).edges == old(self).edges,
            old(self).wf() ==> final(self).wf(),
    {
        let node_id = self.new_id();
        proof {
            let c0 = old(self).node_id_counter;
            if node_id.0 > c0.0 {
                assert(old(self).has_node(NodeId(c0.0)));
                assert(NodeId(c0.0) == c0);
            }
        }
        let ghost mid = *self;
        self.add_node_internal(node, node_id)?;
        proof {
            self.lemma_push_keeps(mid, node_id);
        }
        Ok(node_id)
    }

    /// Adds a node under its own id, unless a node with that id exists (`InvalidNodeId`).
    pub fn add_node_with_id(&mut self, node: Node) -> (r: Result<()>)
        requires
            old(self).nodes@.len() < u32::MAX,
        ensures
            old(self).has_node(node.node_id) ==> r == Err::<(), TexProError>(TexProError::InvalidNodeId)
                && *final(self) == *old(self),
            !old(self).has_node(node.node_id) ==> {
                &&& r is Ok
                &&& final(self).nodes@.len() == old(self).nodes@.len() + 1
                &&& final(self).nodes@.drop_last() == old(self).nodes@
                &&& added_node(*old(self), node, node.node_id, final(self).nodes@.last())
                &&& final(self).node_id_counter == old(self).node_id_counter
            },
            final(self).edges == old(self).edges,
            old(self).wf() ==> final(self).wf(),
    {
        if self.index_of_node(node.node_id).is_none() {
            let node_id = node.node_id;
            let ghost mid = *self;
            self.add_node_internal(node, node_id)?;
            proof {
                self.lemma_push_keeps(mid, node_id);
            }
            Ok(())
        } else {
            Err(TexProError::InvalidNodeId)
        }
    }

    /// Pushing a node with a fresh id keeps the graph well formed.
    proof fn lemma_push_keeps(self, before: NodeGraph, id: NodeId)
        requires
            !before.has_node(id),
            self.nodes@.len() == before.nodes@.len() + 1,
            self.nodes@.drop_last() == before.nodes@,
            self.nodes@.last().node_id == id,
            self.edges == before.edges,
        ensures
            before.wf() ==> self.wf(),
            forall|x: NodeId| before.has_node(x) ==> #[trigger] self.has_node(x),
    {
        assert forall|x: NodeId| before.has_node(x) implies #[trigger] self.has_node(x) by {
            let j = choose|j: int| 0 <= j < before.nodes@.len() && before.nodes@[j].node_id == x;
            assert(self.nodes@[j] == before.nodes@[j]);
        }
        if before.wf() {
            assert forall|a: int, b: int| 0 <= a < b < self.nodes@.len() implies
                self.nodes@[a].node_id != self.nodes@[b].node_id by {
                assert(self.nodes@[a] == before.nodes@[a]);
                if b < before.nodes@.len() {
                    assert(self.nodes@[b] == before.nodes@[b]);
                }
            }
            assert forall|k: int| 0 <= k < self.edges@.len() implies
                self.has_node(#[trigger] self.edges@[k].output_id) && self.has_node(self.edges@[k].input_id) by {
                assert(before.has_node(self.edges@[k].output_id));
                assert(before.has_node(self.edges@[k].input_id));
            }
        }
    }

    /// Replaces the node type at position `i`.
    fn set_type_at(&mut self, i: usize, t: NodeType)
        requires
            i < old(self).nodes@.len(),
        ensures
            final(self).nodes@ == old(self).nodes@.update(i as int, Node { node_type: t, ..old(self).nodes@[i as int] }),
            final(self).edges == old(self).edges,
            final(self).node_id_counter == old(self).node_id_counter,
    {
        let mut n = self.nodes.remove(i);
        n.node_type = t;
        self.nodes.insert(i, n);
        proof {
            assert(self.nodes@ =~= old(self).nodes@.update(i as int, Node { node_type: t, ..old(self).nodes@[i as int] }));
        }
    }

    /// Sets the mix type of a mix node (`InvalidNodeId` for a missing node or another kind).
    pub fn set_mix_type(&mut self, node_id: NodeId, mix_type: crate::node::mix::MixType) -> (r: Result<()>)
        ensures
            (old(self).has_node(node_id) && old(self).node_at(node_id).node_type is Mix) ==> {
                &&& r is Ok
                &&& final(self).nodes@ == old(self).nodes@.update(old(self).index_of(node_id),
                    Node { node_type: NodeType::Mix(mix_type), ..old(self).node_at(node_id) })
                &&& final(self).edges == old(self).edges
                &&& final(self).node_id_counter == old(self).node_id_counter
            },
            !(old(self).has_node(node_id) && old(self).node_at(node_id).node_type is Mix) ==>
                r == Err::<(), TexProError>(TexProError::InvalidNodeId) && *final(self) == *old(self),
    {
        if let Some(i) = self.index_of_node(node_id) {
            if let NodeType::Mix(_) = self.nodes[i].node_type {
                self.set_type_at(i, NodeType::Mix(mix_type));
                Ok(())
            } else {
                Err(TexProError::InvalidNodeId)
            }
        } else {
            Err(TexProError::InvalidNodeId)
        }
    }

    /// Sets the cancel flag of the first node with this id and returns what it was
    /// (`InvalidNodeId` when there is no such node).
    pub fn set_cancel(&mut self, node_id: NodeId, cancel: bool) -> (r: Result<bool>)
        ensures
            old(self).has_node(node_id) ==> r == Ok::<bool, TexProError>(old(self).node_at(node_id).cancel)
                && final(self).nodes@ == old(self).nodes@.update(old(self).index_of(node_id), Node { cancel: cancel, ..old(self).node_at(node_id) })
                && final(self).node_at(node_id).cancel == cancel,
            !old(self).has_node(node_id) ==> r == Err::<bool, TexProError>(TexProError::InvalidNodeId) && *final(self) == *old(self),
            final(self).edges == old(self).edges,
            final(self).node_id_counter == old(self).node_id_counter,
            forall|id: NodeId| final(self).has_node(id) <==> old(self).has_node(id),
            forall|id: NodeId| #[trigger] old(self).has_node(id) ==> final(self).node_at(id).node_type == old(self).node_at(id).node_type,
            old(self).wf() ==> final(self).wf(),
    {
        match self.index_of_node(node_id) {
            Some(i) => {
                let mut n = self.nodes.remove(i);
                let was = n.cancel;
                n.cancel = cancel;
                self.nodes.insert(i, n);
                proof {
                    assert(self.nodes@ =~= old(self).nodes@.update(i as int, Node { cancel: cancel, ..old(self).nodes@[i as int] }));
                    lemma_same_ids(*old(self), *self);
                    assert forall|id: NodeId| #[trigger] old(self).has_node(id) implies self.node_at(id).node_type == old(self).node_at(id).node_type by {
                        lemma_has_first_index(*old(self), id);
                        let j = old(self).index_of(id);
                        assert(self.is_first_index(id, j));
                        lemma_first_index_unique(*self, id, j);
                    }
                    lemma_has_first_index(*old(self), node_id);
                    assert(self.is_first_index(node_id, i as int));
                    lemma_first_index_unique(*self, node_id, i as int);
                }
                Ok(was)
            }
            None => Err(TexProError::InvalidNodeId),
        }
    }

    /// Replaces the first node with this id by `node`, which has the same id
    /// (`InvalidNodeId` when there is no such node).
    pub fn replace_node(&mut self, node_id: NodeId, node: Node) -> (r: Result<()>)
        requires
            node.node_id == node_id,
        ensures
            old(self).has_node(node_id) ==> r is Ok
                && final(self).nodes@ == old(self).nodes@.update(old(self).index_of(node_id), node),
            !old(self).has_node(node_id) ==> r == Err::<(), TexProError>(TexProError::InvalidNodeId) && *final(self) == *old(self),
            final(self).edges == old(self).edges,
            final(self).node_id_counter == old(self).node_id_counter,
            forall|id: NodeId| final(self).has_node(id) <==> old(self).has_node(id),
            old(self).wf() ==> final(self).wf(),
    {
        match self.index_of_node(node_id) {
            Some(i) => {
                self.nodes.remove(i);
                self.nodes.insert(i, node);
                proof {
                    assert(self.nodes@ =~= old(self).nodes@.update(i as int, node));
                    lemma_same_ids(*old(self), *self);
                }
                Ok(())
            }
            None => Err(TexProError::InvalidNodeId),
        }
    }

    /// Sets the path of an image node (`InvalidNodeId` for a missing node or another kind).
    pub fn set_image_node_path(&mut self, node_id: NodeId, path: String) -> (r: Result<()>)
        ensures
            (old(self).has_node(node_id) && old(self).node_at(node_id).node_type is Image) ==> {
                &&& r is Ok
                &&& final(self).nodes@ == old(self).nodes@.update(old(self).index_of(node_id),
                    Node { node_type: NodeType::Image(path), ..old(self).node_at(node_id) })
                &&& final(self).edges == old(self).edges
                &&& final(self).node_id_counter == old(self).node_id_counter
            },
            !(old(self).has_node(node_id) && old(self).node_at(node_id).node_type is Image) ==>
                r == Err::<(), TexProError>(TexProError::InvalidNodeId) && *final(self) == *old(self),
    {
        if let Some(i) = self.index_of_node(node_id) {
            if let NodeType::Image(_) = self.nodes[i].node_type {
                self.set_type_at(i, NodeType::Image(path));
                Ok(())
            } else {
                Err(TexProError::InvalidNodeId)
            }
        } else {
            Err(TexProError::InvalidNodeId)
        }
    }
}


/// `names` without its first occurrence of `x`.
pub open spec fn without_first(names: Seq<Seq<char>>, x: Seq<char>) -> Seq<Seq<char>> {
    names.remove(choose|p: int| 0 <= p < names.len() && names[p] == x && forall|q: int| 0 <= q < p ==> names[q] != x)
}

/// The name of every output (or input) node is among the output (or input) names.
pub proof fn lemma_io_name_listed(nodes: Seq<Node>, inputs: bool, i: int)
    requires
        0 <= i < nodes.len(),
        (inputs && nodes[i].node_type.spec_is_input()) || (!inputs && nodes[i].node_type.spec_is_output()),
    ensures
        io_names(nodes, inputs).contains(nodes[i].node_type.spec_name().unwrap()),
    decreases nodes.len(),
{
    if i == nodes.len() - 1 {
        let prev = io_names(nodes.drop_last(), inputs);
        assert(io_names(nodes, inputs)[prev.len() as int] == nodes[i].node_type.spec_name().unwrap());
    } else {
        lemma_io_name_listed(nodes.drop_last(), inputs, i);
        let prev = io_names(nodes.drop_last(), inputs);
        let k = choose|k: int| 0 <= k < prev.len() && prev[k] == nodes[i].node_type.spec_name().unwrap();
        assert(io_names(nodes, inputs)[k] == prev[k]);
    }
}

impl NodeGraph {
    /// Gives an output node a new name, one that no other output node has; returns the old
    /// name.
    pub fn rename_output_node(&mut self, node_id: NodeId, new_name: &str) -> (r: Result<String>)
        requires
            old(self).nodes@.len() < u32::MAX,
        ensures
            !old(self).has_node(node_id) ==> r == Err::<String, TexProError>(TexProError::InvalidNodeId)
                && *final(self) == *old(self),
            old(self).has_node(node_id) && !old(self).node_at(node_id).node_type.spec_is_output() ==>
                r == Err::<String, TexProError>(TexProError::InvalidNodeType) && *final(self) == *old(self),
            old(self).has_node(node_id) && old(self).node_at(node_id).node_type.spec_is_output() ==> {
                &&& r matches Ok(old_name) && Some(old_name@) == old(self).node_at(node_id).node_type.spec_name()
                &&& exists|t: NodeType, name: Seq<char>| {
                    &&& final(self).nodes@ == old(self).nodes@.update(old(self).index_of(node_id),
                        Node { node_type: t, ..old(self).node_at(node_id) })
                    &&& renamed(old(self).node_at(node_id).node_type, t, name)
                    &&& free_name(without_first(io_names(old(self).nodes@, false),
                        old(self).node_at(node_id).node_type.spec_name().unwrap()), new_name@, name)
                }
                &&& final(self).edges == old(self).edges
                &&& final(self).node_id_counter == old(self).node_id_counter
            },
    {
        let idx = match self.index_of_node(node_id) {
            Some(idx) => idx,
            None => return Err(TexProError::InvalidNodeId),
        };
        let old_name = match &self.nodes[idx].node_type {
            NodeType::OutputRgba(n) | NodeType::OutputGray(n) => n.clone(),
            _ => return Err(TexProError::InvalidNodeType),
        };
        proof {
            lemma_io_name_listed(self.nodes@, false, idx as int);
            lemma_io_names_len(self.nodes@, false);
        }
        let fresh = {
            let names = self.output_names();
            let others = skip_first(names, &old_name);
            crate::names::avoid_name_collision(others, new_name)
        };
        let t = with_name(self.nodes[idx].node_type.clone(), fresh);
        self.set_type_at(idx, t);
        Ok(old_name)
    }
}

/// `names` without the first entry equal to `x`, which must be there.
fn skip_first<'a>(names: Vec<&'a String>, x: &String) -> (r: Vec<&'a String>)
    requires
        name_views(names@).contains(x@),
    ensures
        name_views(r@) == without_first(name_views(names@), x@),
        r.len() + 1 == names.len(),
{
    let ghost v = name_views(names@);
    let mut pos: usize = 0;
    while pos < names.len() && *names[pos] != *x
        invariant
            pos <= names.len(),
            v == name_views(names@),
            forall|j: int| 0 <= j < pos ==> v[j] != x@,
            v.contains(x@),
        decreases names.len() - pos,
    {
        pos = pos + 1;
    }
    proof {
        if pos == names.len() {
            let j = choose|j: int| 0 <= j < v.len() && v[j] == x@;
            assert(false);
        }
        assert(v[pos as int] == x@);
        let p = choose|p: int| 0 <= p < v.len() && v[p] == x@ && forall|q: int| 0 <= q < p ==> v[q] != x@;
        assert(p == pos as int) by {
            if p > pos {
                assert(v[pos as int] == x@);
            }
        }
    }
    let mut r: Vec<&'a String> = Vec::new();
    let mut j: usize = 0;
    while j < names.len()
        invariant
            pos < names.len(),
            j <= names.len(),
            v == name_views(names@),
            name_views(r@) =~= if j <= pos { v.subrange(0, j as int) } else { v.subrange(0, pos as int) + v.subrange(pos + 1, j as int) },
        decreases names.len() - j,
    {
        if j != pos {
            let ghost before = r@;
            r.push(names[j]);
            proof {
                assert(name_views(r@) =~= name_views(before).push(names@[j as int]@));
            }
        }
        j = j + 1;
    }
    proof {
        assert(v.remove(pos as int) =~= v.subrange(0, pos as int) + v.subrange(pos + 1, v.len() as int));
    }
    r
}

} // verus!
