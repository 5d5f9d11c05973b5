use vstd::prelude::*;
use crate::error::{Result, TexProError};
use crate::node::Node;
use crate::node_graph::SlotId;
use crate::slot_data::{Size, SlotData, SlotImage};

verus! {

/// Identifies a `SlotData` embedded in a live graph.
#[derive(Clone, Copy, Debug, PartialEq, Eq, PartialOrd, Structural)]
pub struct EmbeddedSlotDataId(pub u32);

/// An output of a node, kept under an id so that an `Embed` node can use it.
#[derive(Clone, Copy, Debug)]
pub struct EmbeddedSlotData {
    pub slot_data_id: EmbeddedSlotDataId,
    pub slot_id: SlotId,
    pub size: Size,
    pub image: SlotImage,
}

impl EmbeddedSlotData {
    pub fn from_slot_data(slot_data: SlotData, slot_data_id: EmbeddedSlotDataId) -> (e: Self)
        ensures
            e.slot_data_id == slot_data_id,
            e.slot_id == slot_data.slot_id,
            e.size == slot_data.image.spec_size(),
            e.image == slot_data.image,
    {
        Self { slot_data_id, slot_id: slot_data.slot_id, size: slot_data.image.size(), image: slot_data.image }
    }
}

/// Whether `i` is the first position of an embedded output with this id.
pub open spec fn is_first_embedded(es: Seq<EmbeddedSlotData>, id: EmbeddedSlotDataId, i: int) -> bool {
    &&& 0 <= i < es.len()
    &&& es[i].slot_data_id == id
    &&& forall|j: int| 0 <= j < i ==> (#[trigger] es[j]).slot_data_id != id
}

/// The output of an `Embed` node: the first embedded output with the given id, as slot 0 of
/// the node (`NodeProcessing` when no output has that id).
pub fn process(node: &Node, embedded_slot_datas: &[EmbeddedSlotData], embedded_slot_data_id: EmbeddedSlotDataId) -> (r: Result<Vec<SlotData>>)
    ensures
        match r {
            Ok(v) => exists|i: int| is_first_embedded(embedded_slot_datas@, embedded_slot_data_id, i)
                && v@ == seq![SlotData { node_id: node.node_id, slot_id: SlotId(0), image: embedded_slot_datas@[i].image }],
            Err(e) => e == TexProError::NodeProcessing
                && forall|j: int| 0 <= j < embedded_slot_datas@.len() ==> (#[trigger] embedded_slot_datas@[j]).slot_data_id != embedded_slot_data_id,
        },
{
    let mut i: usize = 0;
    while i < embedded_slot_datas.len()
        invariant
            i <= embedded_slot_datas.len(),
            forall|j: int| 0 <= j < i ==> (#[trigger] embedded_slot_datas@[j]).slot_data_id != embedded_slot_data_id,
        decreases embedded_slot_datas.len() - i,
    {
        if embedded_slot_datas[i].slot_data_id == embedded_slot_data_id {
            let out = vec![SlotData::new(node.node_id, SlotId(0), embedded_slot_datas[i].image)];
            proof {
                assert(is_first_embedded(embedded_slot_datas@, embedded_slot_data_id, i as int));
                assert(out@ =~= seq![SlotData { node_id: node.node_id, slot_id: SlotId(0), image: embedded_slot_datas@[i as int].image }]);
            }
            return Ok(out);
        }
        i = i + 1;
    }
    Err(TexProError::NodeProcessing)
}

} // verus!
