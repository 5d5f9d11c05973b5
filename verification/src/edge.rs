use vstd::prelude::*;
use crate::error::{Result, TexProError};
use crate::node::Side;
use crate::node_graph::{NodeId, SlotId};

verus! {

/// A connection from an output slot of one node to an input slot of another.
#[derive(Clone, Copy, Debug, PartialEq, Eq, Structural)]
pub struct Edge {
    pub output_id: NodeId,
    pub input_id: NodeId,
    pub output_slot: SlotId,
    pub input_slot: SlotId,
}

impl Edge {
    pub fn new(output_id: NodeId, input_id: NodeId, output_slot: SlotId, input_slot: SlotId) -> (e: Self)
        ensures
            e == (Edge { output_id, input_id, output_slot, input_slot }),
    {
        Self { output_id, input_id, output_slot, input_slot }
    }

    /// Builds an edge from two slot ends given in any order: the end on the `Output` side
    /// becomes the edge's output.
    pub fn from_arbitrary(
        a_node: NodeId,
        a_side: Side,
        a_slot: SlotId,
        b_node: NodeId,
        b_side: Side,
        b_slot: SlotId,
    ) -> (r: Result<Self>)
        ensures
            (a_node == b_node || a_side == b_side) <==> r is Err,
            r is Err ==> r == Err::<Edge, TexProError>(TexProError::Generic),
            r matches Ok(e) ==> (if a_side == Side::Input {
                e == (Edge { output_id: b_node, input_id: a_node, output_slot: b_slot, input_slot: a_slot })
            } else {
                e == (Edge { output_id: a_node, input_id: b_node, output_slot: a_slot, input_slot: b_slot })
            }),
    {
        if a_node == b_node || a_side == b_side {
            return Err(TexProError::Generic);
        }
        Ok(match a_side {
            Side::Input => Self { output_id: b_node, input_id: a_node, output_slot: b_slot, input_slot: a_slot },
            Side::Output => Self { output_id: a_node, input_id: b_node, output_slot: a_slot, input_slot: b_slot },
        })
    }

    pub fn output_id(&self) -> (r: NodeId)
        ensures r == self.output_id,
    {
        self.output_id
    }

    pub fn input_id(&self) -> (r: NodeId)
        ensures r == self.input_id,
    {
        self.input_id
    }

    pub fn output_slot(&self) -> (r: SlotId)
        ensures r == self.output_slot,
    {
        self.output_slot
    }

    pub fn input_slot(&self) -> (r: SlotId)
        ensures r == self.input_slot,
    {
        self.input_slot
    }
}

} // verus!
