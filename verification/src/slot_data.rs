use vstd::prelude::*;
use crate::error::{Result, TexProError};
use crate::edge::Edge;
use crate::node::ResizePolicy;
use crate::node_graph::{NodeId, SlotId};

verus! {

/// Width and height of an image, in pixels.
#[derive(Debug, Copy, Clone, PartialEq, Eq, Structural)]
pub struct Size {
    pub width: u32,
    pub height: u32,
}

impl Size {
    pub fn new(width: u32, height: u32) -> (s: Self)
        ensures
            s.width == width,
            s.height == height,
    {
        Size { width, height }
    }

    /// The number of pixels, `width * height`.
    pub fn pixel_count(self) -> (r: usize)
        requires
            self.width * self.height <= u32::MAX,
        ensures
            r == self.width * self.height,
    {
        (self.width * self.height) as usize
    }
}

/// One channel of pixels, kept by the application under `id`, and its size.
#[derive(Debug, Copy, Clone, PartialEq, Eq, Structural)]
pub struct BufferRef {
    pub id: u64,
    pub size: Size,
}

/// The image in a slot: one gray channel, or red, green, blue and alpha channels.
#[derive(Debug, Copy, Clone)]
pub enum SlotImage {
    Gray(BufferRef),
    Rgba([BufferRef; 4]),
}

impl SlotImage {
    /// The size of the image: that of its (first) channel.
    pub open spec fn spec_size(self) -> Size {
        match self {
            SlotImage::Gray(b) => b.size,
            SlotImage::Rgba(bs) => bs[0].size,
        }
    }

    pub fn size(&self) -> (r: Size)
        ensures
            r == self.spec_size(),
    {
        match self {
            SlotImage::Gray(b) => b.size,
            SlotImage::Rgba(bs) => bs[0].size,
        }
    }

    pub fn is_rgba(&self) -> (r: bool)
        ensures
            r == (*self is Rgba),
    {
        matches!(self, SlotImage::Rgba(_))
    }

    /// The channels of the image, in order.
    pub open spec fn spec_bufs(self) -> Seq<BufferRef> {
        match self {
            SlotImage::Gray(b) => seq![b],
            SlotImage::Rgba(bs) => seq![bs[0], bs[1], bs[2], bs[3]],
        }
    }

    /// The channels of the image.
    pub fn bufs(&self) -> (r: Vec<BufferRef>)
        ensures
            r@ == self.spec_bufs(),
    {
        let mut v: Vec<BufferRef> = Vec::new();
        match self {
            SlotImage::Gray(b) => {
                v.push(*b);
            },
            SlotImage::Rgba(bs) => {
                v.push(bs[0]);
                v.push(bs[1]);
                v.push(bs[2]);
                v.push(bs[3]);
            },
        }
        proof {
            match *self {
                SlotImage::Gray(b) => assert(v@ =~= seq![b]),
                SlotImage::Rgba(bs) => assert(v@ =~= seq![bs[0], bs[1], bs[2], bs[3]]),
            }
        }
        v
    }
}

/// The image produced in one slot of one node.
#[derive(Debug, Copy, Clone)]
pub struct SlotData {
    pub node_id: NodeId,
    pub slot_id: SlotId,
    pub image: SlotImage,
}

impl SlotData {
    pub fn new(node_id: NodeId, slot_id: SlotId, image: SlotImage) -> (s: Self)
        ensures
            s.node_id == node_id,
            s.slot_id == slot_id,
            s.image == image,
    {
        Self { node_id, slot_id, image }
    }

    /// A new `SlotData` for the same node, slot and image.
    pub fn from_self(&self) -> (s: Self)
        ensures
            s == *self,
    {
        Self::new(self.node_id, self.slot_id, self.image)
    }

    /// Whether every channel of the image is in memory, given the ids of the buffers that are.
    pub fn in_memory(&self, resident: &Vec<u64>) -> (r: Result<bool>)
        ensures
            r matches Ok(b) && b == (forall|k: int| 0 <= k < self.image.spec_bufs().len()
                ==> resident@.contains(#[trigger] self.image.spec_bufs()[k].id)),
    {
        let bufs = self.image.bufs();
        let mut k: usize = 0;
        while k < bufs.len()
            invariant
                k <= bufs.len(),
                bufs@ == self.image.spec_bufs(),
                forall|j: int| 0 <= j < k ==> resident@.contains(#[trigger] bufs@[j].id),
            decreases bufs.len() - k,
        {
            let id = bufs[k].id;
            let mut found = false;
            let mut i: usize = 0;
            while i < resident.len()
                invariant
                    i <= resident.len(),
                    found <==> exists|j: int| 0 <= j < i && resident@[j] == id,
                decreases resident.len() - i,
            {
                if resident[i] == id {
                    found = true;
                }
                i = i + 1;
            }
            if !found {
                proof {
                    assert(!resident@.contains(bufs@[k as int].id));
                }
                return Ok(false);
            }
            k = k + 1;
        }
        Ok(true)
    }

    /// The size of the image.
    pub fn size(&self) -> (r: Result<Size>)
        ensures
            r == Ok::<Size, TexProError>(self.image.spec_size()),
    {
        Ok(self.image.size())
    }
}

/// The number of pixels of a slot's image.
pub open spec fn pixels(s: SlotData) -> int {
    s.image.spec_size().width * s.image.spec_size().height
}

/// Whether every image in `sds` has a pixel count that fits in a `u32`.
pub open spec fn pixel_counts_fit(sds: Seq<SlotData>) -> bool {
    forall|i: int| 0 <= i < sds.len() ==> #[trigger] pixels(sds[i]) <= u32::MAX
}

/// Whether `i` is the first position in `sds` of the slot data of the given node and slot.
pub open spec fn is_first_slot_data(sds: Seq<SlotData>, node_id: NodeId, slot_id: SlotId, i: int) -> bool {
    &&& 0 <= i < sds.len()
    &&& sds[i].node_id == node_id && sds[i].slot_id == slot_id
    &&& forall|j: int| 0 <= j < i ==> !(sds[j].node_id == node_id && sds[j].slot_id == slot_id)
}

/// Whether some slot data in `sds` belongs to the given node and slot.
pub open spec fn has_slot_data(sds: Seq<SlotData>, node_id: NodeId, slot_id: SlotId) -> bool {
    exists|i: int| 0 <= i < sds.len() && sds[i].node_id == node_id && sds[i].slot_id == slot_id
}

/// The first slot data of the given node and slot (meaningful when there is one).
pub open spec fn slot_data_of(sds: Seq<SlotData>, node_id: NodeId, slot_id: SlotId) -> SlotData {
    sds[choose|i: int| is_first_slot_data(sds, node_id, slot_id, i)]
}

/// The position of the first slot data of the given node and slot.
pub fn find_slot_data(sds: &[SlotData], node_id: NodeId, slot_id: SlotId) -> (r: Option<usize>)
    ensures
        match r {
            Some(i) => is_first_slot_data(sds@, node_id, slot_id, i as int)
                && slot_data_of(sds@, node_id, slot_id) == sds@[i as int],
            None => !has_slot_data(sds@, node_id, slot_id),
        },
{
    let mut i: usize = 0;
    while i < sds.len()
        invariant
            i <= sds.len(),
            forall|j: int| 0 <= j < i ==> !(sds@[j].node_id == node_id && sds@[j].slot_id == slot_id),
        decreases sds.len() - i,
    {
        if sds[i].node_id == node_id && sds[i].slot_id == slot_id {
            proof {
                assert(is_first_slot_data(sds@, node_id, slot_id, i as int));
                let k = choose|k: int| is_first_slot_data(sds@, node_id, slot_id, k);
                assert(k == i as int) by {
                    if k < i {
                    } else if k > i {
                        assert(!(sds@[i as int].node_id == node_id && sds@[i as int].slot_id == slot_id));
                    }
                }
            }
            return Some(i);
        }
        i = i + 1;
    }
    None
}

/// For each edge, in order, the image of the slot data at the edge's output end, placed at
/// the edge's input end.
pub fn assign_slot_ids(slot_datas: &[SlotData], edges: &[Edge]) -> (r: Vec<SlotData>)
    requires
        forall|k: int| 0 <= k < edges@.len() ==>
            has_slot_data(slot_datas@, #[trigger] edges@[k].output_id, edges@[k].output_slot),
    ensures
        r.len() == edges.len(),
        forall|k: int| 0 <= k < edges@.len() ==> #[trigger] r@[k] == (SlotData {
            node_id: edges@[k].input_id,
            slot_id: edges@[k].input_slot,
            image: slot_data_of(slot_datas@, edges@[k].output_id, edges@[k].output_slot).image,
        }),
{
    let mut v: Vec<SlotData> = Vec::new();
    let mut k: usize = 0;
    while k < edges.len()
        invariant
            k <= edges.len(),
            v.len() == k,
            forall|k: int| 0 <= k < edges@.len() ==>
                has_slot_data(slot_datas@, #[trigger] edges@[k].output_id, edges@[k].output_slot),
            forall|j: int| 0 <= j < k ==> #[trigger] v@[j] == (SlotData {
                node_id: edges@[j].input_id,
                slot_id: edges@[j].input_slot,
                image: slot_data_of(slot_datas@, edges@[j].output_id, edges@[j].output_slot).image,
            }),
        decreases edges.len() - k,
    {
        let e = edges[k];
        let i = match find_slot_data(slot_datas, e.output_id, e.output_slot) {
            Some(i) => i,
            None => {
                proof {
                    assert(has_slot_data(slot_datas@, edges@[k as int].output_id, edges@[k as int].output_slot));
                }
                return v;
            },
        };
        v.push(SlotData::new(e.input_id, e.input_slot, slot_datas[i].image));
        k = k + 1;
    }
    v
}

/// The first slot data with the given slot id, if any.
pub fn slot_data_with_slot_id(slot_datas: &[SlotData], slot_id: SlotId) -> (r: Option<SlotData>)
    ensures
        match r {
            Some(s) => exists|i: int| 0 <= i < slot_datas@.len() && slot_datas@[i] == s && s.slot_id == slot_id
                && forall|j: int| 0 <= j < i ==> slot_datas@[j].slot_id != slot_id,
            None => forall|i: int| 0 <= i < slot_datas@.len() ==> slot_datas@[i].slot_id != slot_id,
        },
{
    let mut i: usize = 0;
    while i < slot_datas.len()
        invariant
            i <= slot_datas.len(),
            forall|j: int| 0 <= j < i ==> slot_datas@[j].slot_id != slot_id,
        decreases slot_datas.len() - i,
    {
        if slot_datas[i].slot_id == slot_id {
            return Some(slot_datas[i]);
        }
        i = i + 1;
    }
    None
}

} // verus!
