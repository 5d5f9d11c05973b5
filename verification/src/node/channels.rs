use vstd::prelude::*;
use crate::error::{Result, TexProError};
use crate::node::node_type::NodeType;
use crate::node::Node;
use crate::node_graph::{NodeId, SlotId};
use crate::slot_data::{BufferRef, SlotData, SlotImage};

verus! {

/// The output of a `SeparateRgba` node: the red, green, blue and alpha channels of its first
/// input, as gray slots 0 to 3; `defaults` when there is no input or it is gray.
pub fn separate_rgba(slot_datas: &[SlotData], node: &Node, defaults: [BufferRef; 4]) -> (r: Vec<SlotData>)
    ensures
        r@.len() == 4,
        forall|k: int| 0 <= k < 4 ==> (#[trigger] r@[k]).node_id == node.node_id && r@[k].slot_id == SlotId(k as u32),
        forall|k: int| 0 <= k < 4 ==> #[trigger] r@[k].image == SlotImage::Gray(
            if slot_datas@.len() > 0 && slot_datas@[0].image is Rgba {
                match slot_datas@[0].image { SlotImage::Rgba(bs) => bs[k], _ => defaults[k] }
            } else {
                defaults[k]
            }),
{
    let bufs: [BufferRef; 4] = if slot_datas.len() > 0 {
        match slot_datas[0].image {
            SlotImage::Rgba(bs) => bs,
            SlotImage::Gray(_) => defaults,
        }
    } else {
        defaults
    };
    let out = vec![
        SlotData::new(node.node_id, SlotId(0), SlotImage::Gray(bufs[0])),
        SlotData::new(node.node_id, SlotId(1), SlotImage::Gray(bufs[1])),
        SlotData::new(node.node_id, SlotId(2), SlotImage::Gray(bufs[2])),
        SlotData::new(node.node_id, SlotId(3), SlotImage::Gray(bufs[3])),
    ];
    proof {
        assert forall|k: int| 0 <= k < 4 implies (#[trigger] out@[k]).node_id == node.node_id && out@[k].slot_id == SlotId(k as u32) by {
            if k == 0 {} else if k == 1 {} else if k == 2 {} else {}
        }
    }
    out
}

/// Whether every input is a gray image.
pub open spec fn all_gray(slot_datas: Seq<SlotData>) -> bool {
    forall|k: int| 0 <= k < slot_datas.len() ==> (#[trigger] slot_datas[k]).image is Gray
}

/// The channel a `CombineRgba` node takes from its `k`th input: the input's buffer, or, when
/// there are fewer inputs, `zero` (`one` for alpha).
pub open spec fn combined_channel(slot_datas: Seq<SlotData>, k: int, zero: BufferRef, one: BufferRef) -> BufferRef {
    if k < slot_datas.len() {
        match slot_datas[k].image { SlotImage::Gray(b) => b, _ => zero }
    } else if k == 3 {
        one
    } else {
        zero
    }
}

/// Combining gray inputs takes the `k`th input's buffer as channel `k`; a missing alpha channel
/// is the `one` buffer (opaque) and a missing red, green or blue channel the `zero` buffer.
pub proof fn law_combined_channels(slot_datas: Seq<SlotData>, zero: BufferRef, one: BufferRef)
    requires
        all_gray(slot_datas),
    ensures
        forall|k: int| 0 <= k < 4 && k < slot_datas.len() ==>
            slot_datas[k].image == SlotImage::Gray(#[trigger] combined_channel(slot_datas, k, zero, one)),
        slot_datas.len() < 4 ==> combined_channel(slot_datas, 3, zero, one) == one,
        forall|k: int| 0 <= k < 3 && slot_datas.len() <= k ==> #[trigger] combined_channel(slot_datas, k, zero, one) == zero,
{
    assert forall|k: int| 0 <= k < 4 && k < slot_datas.len() implies
        slot_datas[k].image == SlotImage::Gray(#[trigger] combined_channel(slot_datas, k, zero, one)) by {
        assert(slot_datas[k].image is Gray);
    }
}

/// The output of a `CombineRgba` node: one RGBA image of its gray inputs, in order, as slot 0;
/// nothing without inputs.
pub fn combine_rgba(slot_datas: &[SlotData], node: &Node, zero: BufferRef, one: BufferRef) -> (r: Vec<SlotData>)
    requires
        all_gray(slot_datas@),
    ensures
        slot_datas@.len() == 0 ==> r@.len() == 0,
        slot_datas@.len() > 0 ==> r@ == seq![SlotData {
            node_id: node.node_id,
            slot_id: SlotId(0),
            image: SlotImage::Rgba([
                combined_channel(slot_datas@, 0, zero, one),
                combined_channel(slot_datas@, 1, zero, one),
                combined_channel(slot_datas@, 2, zero, one),
                combined_channel(slot_datas@, 3, zero, one),
            ]),
        }],
        slot_datas@.len() > 0 ==> r@.len() == 1 && (r@[0].image matches SlotImage::Rgba(bs) && {
            &&& forall|k: int| 0 <= k < 4 && k < slot_datas@.len() ==> #[trigger] slot_datas@[k].image == SlotImage::Gray(bs[k])
            &&& slot_datas@.len() < 4 ==> bs[3] == one
            &&& forall|k: int| 0 <= k < 3 && slot_datas@.len() <= k ==> #[trigger] bs[k] == zero
        }),
{
    proof {
        law_combined_channels(slot_datas@, zero, one);
    }
    if slot_datas.len() == 0 {
        return Vec::new();
    }
    let c0 = channel_or(slot_datas, 0, zero);
    let c1 = channel_or(slot_datas, 1, zero);
    let c2 = channel_or(slot_datas, 2, zero);
    let c3 = channel_or(slot_datas, 3, one);
    let out = vec![SlotData::new(node.node_id, SlotId(0), SlotImage::Rgba([c0, c1, c2, c3]))];
    proof {
        assert(out@ =~= seq![SlotData {
            node_id: node.node_id,
            slot_id: SlotId(0),
            image: SlotImage::Rgba([
                combined_channel(slot_datas@, 0, zero, one),
                combined_channel(slot_datas@, 1, zero, one),
                combined_channel(slot_datas@, 2, zero, one),
                combined_channel(slot_datas@, 3, zero, one),
            ]),
        }]);
    }
    out
}

fn channel_or(slot_datas: &[SlotData], k: usize, default: BufferRef) -> (r: BufferRef)
    requires
        all_gray(slot_datas@),
    ensures
        k < slot_datas@.len() ==> slot_datas@[k as int].image == SlotImage::Gray(r),
        k >= slot_datas@.len() ==> r == default,
{
    if k < slot_datas.len() {
        match slot_datas[k].image {
            SlotImage::Gray(b) => b,
            SlotImage::Rgba(_) => {
                proof {
                    assert(slot_datas@[k as int].image is Gray);
                }
                default
            }
        }
    } else {
        default
    }
}

/// The output of an output node: its first input, as slot 0 of the node; `default` when there
/// is no input.
pub fn output(slot_datas: &[SlotData], node: &Node, default: SlotImage) -> (r: Vec<SlotData>)
    ensures
        r@ == seq![SlotData {
            node_id: node.node_id,
            slot_id: SlotId(0),
            image: if slot_datas@.len() > 0 { slot_datas@[0].image } else { default },
        }],
{
    let image = if slot_datas.len() > 0 { slot_datas[0].image } else { default };
    let out = vec![SlotData::new(node.node_id, SlotId(0), image)];
    proof {
        assert(out@ =~= seq![SlotData { node_id: node.node_id, slot_id: SlotId(0), image: image }]);
    }
    out
}

/// The inputs of a graph node as the input slots of the inner graph see them: each arrives at
/// slot 0 of the inner input node whose id is the slot it came in by.
pub fn graph_inputs(slot_datas: &[SlotData]) -> (r: Vec<SlotData>)
    ensures
        r@.len() == slot_datas@.len(),
        forall|k: int| 0 <= k < r@.len() ==> #[trigger] r@[k] == (SlotData {
            node_id: NodeId(slot_datas@[k].slot_id.0),
            slot_id: SlotId(0),
            image: slot_datas@[k].image,
        }),
{
    let mut out: Vec<SlotData> = Vec::new();
    let mut k: usize = 0;
    while k < slot_datas.len()
        invariant
            k <= slot_datas.len(),
            out@.len() == k,
            forall|j: int| 0 <= j < k ==> #[trigger] out@[j] == (SlotData {
                node_id: NodeId(slot_datas@[j].slot_id.0),
                slot_id: SlotId(0),
                image: slot_datas@[j].image,
            }),
        decreases slot_datas.len() - k,
    {
        out.push(SlotData::new(NodeId(slot_datas[k].slot_id.0), SlotId(0), slot_datas[k].image));
        k = k + 1;
    }
    out
}

/// The outputs of an inner graph's output node as outputs of the graph node: each goes to the
/// slot whose id is the output node's id.
pub fn graph_outputs(node: &Node, output_node_id: NodeId, slot_datas: &[SlotData]) -> (r: Vec<SlotData>)
    ensures
        r@.len() == slot_datas@.len(),
        forall|k: int| 0 <= k < r@.len() ==> #[trigger] r@[k] == (SlotData {
            node_id: node.node_id,
            slot_id: SlotId(output_node_id.0),
            image: slot_datas@[k].image,
        }),
{
    let mut out: Vec<SlotData> = Vec::new();
    let mut k: usize = 0;
    while k < slot_datas.len()
        invariant
            k <= slot_datas.len(),
            out@.len() == k,
            forall|j: int| 0 <= j < k ==> #[trigger] out@[j] == (SlotData {
                node_id: node.node_id,
                slot_id: SlotId(output_node_id.0),
                image: slot_datas@[j].image,
            }),
        decreases slot_datas.len() - k,
    {
        out.push(SlotData::new(node.node_id, SlotId(output_node_id.0), slot_datas[k].image));
        k = k + 1;
    }
    out
}

/// A node's outputs, checked: apart from output nodes, a node must produce one output for
/// each of its output slots (`InvalidBufferCount` otherwise).
pub fn check_output_count(node: &Node, outputs: Vec<SlotData>) -> (r: Result<Vec<SlotData>>)
    requires
        node.node_type.has_slots(),
    ensures
        (node.node_type.spec_is_output() || outputs@.len() == node.node_type.spec_output_slots().len())
            ==> r == Ok::<Vec<SlotData>, TexProError>(outputs),
        !(node.node_type.spec_is_output() || outputs@.len() == node.node_type.spec_output_slots().len())
            ==> r == Err::<Vec<SlotData>, TexProError>(TexProError::InvalidBufferCount),
{
    if node.node_type.is_output() {
        return Ok(outputs);
    }
    let slots = node.output_slots();
    if outputs.len() == slots.len() {
        Ok(outputs)
    } else {
        Err(TexProError::InvalidBufferCount)
    }
}

} // verus!
