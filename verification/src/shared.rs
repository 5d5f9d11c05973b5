use vstd::prelude::*;
use crate::edge::Edge;
use crate::node::ResizePolicy;
use crate::node_graph::SlotId;
use crate::error::{Result, TexProError};
use crate::slot_data::{find_slot_data, has_slot_data, pixel_counts_fit, pixels, slot_data_of, BufferRef, Size, SlotData, SlotImage};

verus! {

/// Whether some edge of `edges` is plugged into input slot `slot`.
pub open spec fn has_input_slot(edges: Seq<Edge>, slot: SlotId) -> bool {
    exists|k: int| 0 <= k < edges.len() && edges[k].input_slot == slot
}

/// The smallest input slot among `edges` (meaningful when there is an edge).
pub open spec fn min_input_slot(edges: Seq<Edge>) -> SlotId {
    choose|s: SlotId| has_input_slot(edges, s) && forall|k: int| 0 <= k < edges.len() ==> s.0 <= #[trigger] edges[k].input_slot.0
}

/// The input slot whose incoming image decides the size under `SpecificSlot(slot)`: `slot`
/// itself if an edge is plugged into it, otherwise the smallest occupied input slot.
pub open spec fn deciding_slot(edges: Seq<Edge>, slot: SlotId) -> SlotId {
    if has_input_slot(edges, slot) { slot } else { min_input_slot(edges) }
}

/// What `calculate_size` needs of its inputs to run to the end.
pub open spec fn size_inputs_ok(sds: Seq<SlotData>, edges: Seq<Edge>, policy: ResizePolicy) -> bool {
    &&& forall|k: int| 0 <= k < edges.len() ==> #[trigger] edges[k].input_id == edges[0].input_id
    &&& (policy is MostPixels || policy is LeastPixels) && sds.len() >= 2 ==> pixel_counts_fit(sds)
    &&& policy is LeastPixels ==> sds.len() >= 1
    &&& policy matches ResizePolicy::SpecificSlot(s) ==> forall|k: int| 0 <= k < edges.len()
        && #[trigger] edges[k].input_slot == deciding_slot(edges, s)
        ==> has_slot_data(sds, edges[k].output_id, edges[k].output_slot)
}

/// The size that a node's inputs are resized to before it processes them.
///
/// `edges` are the edges into the node's input slots and `slot_datas` the images arriving
/// over them.
pub fn calculate_size(slot_datas: &[SlotData], edges: &[Edge], policy: ResizePolicy) -> (r: Size)
    requires
        size_inputs_ok(slot_datas@, edges@, policy),
    ensures
        match policy {
            ResizePolicy::MostPixels => if slot_datas@.len() == 0 {
                r == Size { width: 1, height: 1 }
            } else {
                exists|i: int| 0 <= i < slot_datas@.len() && r == slot_datas@[i].image.spec_size()
                    && (forall|j: int| 0 <= j < slot_datas@.len() ==> pixels(#[trigger] slot_datas@[j]) <= pixels(slot_datas@[i]))
                    && (forall|j: int| i < j < slot_datas@.len() ==> pixels(#[trigger] slot_datas@[j]) < pixels(slot_datas@[i]))
            },
            ResizePolicy::LeastPixels =>
                exists|i: int| 0 <= i < slot_datas@.len() && r == slot_datas@[i].image.spec_size()
                    && (forall|j: int| 0 <= j < slot_datas@.len() ==> pixels(slot_datas@[i]) <= pixels(#[trigger] slot_datas@[j]))
                    && (forall|j: int| 0 <= j < i ==> pixels(slot_datas@[i]) < pixels(#[trigger] slot_datas@[j])),
            ResizePolicy::LargestAxes => {
                &&& forall|j: int| 0 <= j < slot_datas@.len() ==> (#[trigger] slot_datas@[j]).image.spec_size().width <= r.width
                    && slot_datas@[j].image.spec_size().height <= r.height
                &&& r.width == 0 || exists|j: int| 0 <= j < slot_datas@.len() && (#[trigger] slot_datas@[j]).image.spec_size().width == r.width
                &&& r.height == 0 || exists|j: int| 0 <= j < slot_datas@.len() && (#[trigger] slot_datas@[j]).image.spec_size().height == r.height
            },
            ResizePolicy::SmallestAxes => {
                &&& forall|j: int| 0 <= j < slot_datas@.len() ==> r.width <= (#[trigger] slot_datas@[j]).image.spec_size().width
                    && r.height <= slot_datas@[j].image.spec_size().height
                &&& r.width == u32::MAX || exists|j: int| 0 <= j < slot_datas@.len() && (#[trigger] slot_datas@[j]).image.spec_size().width == r.width
                &&& r.height == u32::MAX || exists|j: int| 0 <= j < slot_datas@.len() && (#[trigger] slot_datas@[j]).image.spec_size().height == r.height
            },
            ResizePolicy::SpecificSlot(s) => if edges@.len() == 0 {
                r == Size { width: 1, height: 1 }
            } else {
                exists|k: int| 0 <= k < edges@.len() && #[trigger] edges@[k].input_slot == deciding_slot(edges@, s)
                    && r == slot_data_of(slot_datas@, edges@[k].output_id, edges@[k].output_slot).image.spec_size()
            },
            ResizePolicy::SpecificSize(size) => r == size,
        },
{
    match policy {
        ResizePolicy::MostPixels => {
            if slot_datas.len() == 0 {
                return Size::new(1, 1);
            }
            let mut best: usize = 0;
            let mut i: usize = 1;
            while i < slot_datas.len()
                invariant
                    1 <= i <= slot_datas.len(),
                    best < i,
                    slot_datas@.len() >= 2 ==> pixel_counts_fit(slot_datas@),
                    forall|j: int| 0 <= j < i ==> pixels(#[trigger] slot_datas@[j]) <= pixels(slot_datas@[best as int]),
                    forall|j: int| best < j < i ==> pixels(#[trigger] slot_datas@[j]) < pixels(slot_datas@[best as int]),
                decreases slot_datas.len() - i,
            {
                proof {
                    assert(pixels(slot_datas@[i as int]) <= u32::MAX);
                    assert(pixels(slot_datas@[best as int]) <= u32::MAX);
                }
                if slot_datas[i].image.size().pixel_count() >= slot_datas[best].image.size().pixel_count() {
                    best = i;
                }
                i = i + 1;
            }
            slot_datas[best].image.size()
        },
        ResizePolicy::LeastPixels => {
            let mut best: usize = 0;
            let mut i: usize = 1;
            while i < slot_datas.len()
                invariant
                    1 <= i <= slot_datas.len(),
                    best < i,
                    slot_datas@.len() >= 2 ==> pixel_counts_fit(slot_datas@),
                    forall|j: int| 0 <= j < i ==> pixels(slot_datas@[best as int]) <= pixels(#[trigger] slot_datas@[j]),
                    forall|j: int| 0 <= j < best ==> pixels(slot_datas@[best as int]) < pixels(#[trigger] slot_datas@[j]),
                decreases slot_datas.len() - i,
            {
                proof {
                    assert(pixels(slot_datas@[i as int]) <= u32::MAX);
                    assert(pixels(slot_datas@[best as int]) <= u32::MAX);
                }
                if slot_datas[i].image.size().pixel_count() < slot_datas[best].image.size().pixel_count() {
                    best = i;
                }
                i = i + 1;
            }
            slot_datas[best].image.size()
        },
        ResizePolicy::LargestAxes => {
            let mut w: u32 = 0;
            let mut h: u32 = 0;
            let mut i: usize = 0;
            while i < slot_datas.len()
                invariant
                    i <= slot_datas.len(),
                    forall|j: int| 0 <= j < i ==> (#[trigger] slot_datas@[j]).image.spec_size().width <= w
                        && slot_datas@[j].image.spec_size().height <= h,
                    w == 0 || exists|j: int| 0 <= j < i && (#[trigger] slot_datas@[j]).image.spec_size().width == w,
                    h == 0 || exists|j: int| 0 <= j < i && (#[trigger] slot_datas@[j]).image.spec_size().height == h,
                decreases slot_datas.len() - i,
            {
                let s = slot_datas[i].image.size();
                if s.width > w {
                    w = s.width;
                }
                if s.height > h {
                    h = s.height;
                }
                i = i + 1;
            }
            Size::new(w, h)
        },
        ResizePolicy::SmallestAxes => {
            let mut w: u32 = u32::MAX;
            let mut h: u32 = u32::MAX;
            let mut i: usize = 0;
            while i < slot_datas.len()
                invariant
                    i <= slot_datas.len(),
                    forall|j: int| 0 <= j < i ==> w <= (#[trigger] slot_datas@[j]).image.spec_size().width
                        && h <= slot_datas@[j].image.spec_size().height,
                    w == u32::MAX || exists|j: int| 0 <= j < i && (#[trigger] slot_datas@[j]).image.spec_size().width == w,
                    h == u32::MAX || exists|j: int| 0 <= j < i && (#[trigger] slot_datas@[j]).image.spec_size().height == h,
                decreases slot_datas.len() - i,
            {
                let s = slot_datas[i].image.size();
                if s.width < w {
                    w = s.width;
                }
                if s.height < h {
                    h = s.height;
                }
                i = i + 1;
            }
            Size::new(w, h)
        },
        ResizePolicy::SpecificSlot(slot_id) => {
            if edges.len() == 0 {
                return Size::new(1, 1);
            }
            let k = deciding_edge(edges, slot_id);
            let e = edges[k];
            match find_slot_data(slot_datas, e.output_id, e.output_slot) {
                Some(i) => slot_datas[i].image.size(),
                None => {
                    proof {
                        assert(edges@[k as int].input_slot == deciding_slot(edges@, slot_id));
                    }
                    Size::new(1, 1)
                },
            }
        },
        ResizePolicy::SpecificSize(size) => size,
    }
}

/// The position of an edge plugged into the slot that decides the size under
/// `SpecificSlot(slot)`.
fn deciding_edge(edges: &[Edge], slot: SlotId) -> (k: usize)
    requires
        edges@.len() > 0,
    ensures
        k < edges@.len(),
        edges@[k as int].input_slot == deciding_slot(edges@, slot),
{
    let mut i: usize = 0;
    while i < edges.len()
        invariant
            i <= edges.len(),
            forall|j: int| 0 <= j < i ==> edges@[j].input_slot != slot,
        decreases edges.len() - i,
    {
        if edges[i].input_slot == slot {
            return i;
        }
        i = i + 1;
    }
    proof {
        assert(!has_input_slot(edges@, slot));
    }
    let mut best: usize = 0;
    let mut j: usize = 1;
    while j < edges.len()
        invariant
            1 <= j <= edges.len(),
            best < j,
            forall|t: int| 0 <= t < j ==> edges@[best as int].input_slot.0 <= #[trigger] edges@[t].input_slot.0,
        decreases edges.len() - j,
    {
        if edges[j].input_slot.0 < edges[best].input_slot.0 {
            best = j;
        }
        j = j + 1;
    }
    proof {
        let m = edges@[best as int].input_slot;
        assert(has_input_slot(edges@, m));
        let c = min_input_slot(edges@);
        assert(has_input_slot(edges@, c) && forall|k: int| 0 <= k < edges@.len() ==> c.0 <= #[trigger] edges@[k].input_slot.0);
        let kc = choose|k: int| 0 <= k < edges@.len() && edges@[k].input_slot == c;
        assert(c.0 <= m.0 && m.0 <= edges@[kc].input_slot.0);
        assert(c == m);
    }
    best
}

/// The edges ordered by input slot (ties in any order).
pub fn sort_edges_by_input_slot(edges: &[Edge]) -> (r: Vec<Edge>)
    ensures
        r@.to_multiset() == edges@.to_multiset(),
        forall|i: int, j: int| 0 <= i < j < r@.len() ==> r@[i].input_slot.0 <= r@[j].input_slot.0,
{
    let mut v: Vec<Edge> = Vec::new();
    let mut i: usize = 0;
    proof {
        broadcast use vstd::seq_lib::group_to_multiset_ensures;
        assert(edges@.take(0) =~= Seq::<Edge>::empty());
        assert(v@ =~= Seq::<Edge>::empty());
    }
    while i < edges.len()
        invariant
            i <= edges.len(),
            v@.to_multiset() == edges@.take(i as int).to_multiset(),
            forall|a: int, b: int| 0 <= a < b < v@.len() ==> v@[a].input_slot.0 <= v@[b].input_slot.0,
        decreases edges.len() - i,
    {
        let e = edges[i];
        let mut p: usize = v.len();
        while p > 0 && v[p - 1].input_slot.0 > e.input_slot.0
            invariant
                p <= v.len(),
                forall|t: int| p <= t < v@.len() ==> v@[t].input_slot.0 > e.input_slot.0,
            decreases p,
        {
            p = p - 1;
        }
        let ghost before = v@;
        v.insert(p, e);
        proof {
            broadcast use vstd::seq_lib::group_to_multiset_ensures;
            assert(edges@.take(i + 1) =~= edges@.take(i as int).push(e));
            assert(v@.remove(p as int) =~= before);
            assert(v@[p as int] == e);
            assert(v@.remove(p as int).to_multiset() =~= v@.to_multiset().remove(e));
            assert(v@.to_multiset().count(e) > 0);
            assert(v@.to_multiset() =~= before.to_multiset().insert(e));
            assert forall|a: int, b: int| 0 <= a < b < v@.len() implies v@[a].input_slot.0 <= v@[b].input_slot.0 by {
                if b < p {
                    assert(v@[a] == before[a] && v@[b] == before[b]);
                } else if b == p {
                    if a < p && p > 0 {
                        assert(v@[a] == before[a]);
                        assert(before[a].input_slot.0 <= before[p - 1].input_slot.0);
                    }
                } else if a == p {
                    assert(v@[b] == before[b - 1]);
                } else if a < p {
                    assert(v@[a] == before[a] && v@[b] == before[b - 1]);
                } else {
                    assert(v@[a] == before[a - 1] && v@[b] == before[b - 1]);
                }
            }
        }
        i = i + 1;
    }
    proof {
        assert(edges@.take(i as int) =~= edges@);
    }
    v
}

/// For each input, whether it has to be resized to `size`: whether its size differs.
pub fn needs_resize(slot_datas: &[SlotData], size: Size) -> (r: Vec<bool>)
    ensures
        r@.len() == slot_datas@.len(),
        forall|i: int| 0 <= i < r@.len() ==> r@[i] == (slot_datas@[i].image.spec_size() != size),
{
    let mut v: Vec<bool> = Vec::new();
    let mut i: usize = 0;
    while i < slot_datas.len()
        invariant
            i <= slot_datas.len(),
            v@.len() == i,
            forall|k: int| 0 <= k < i ==> v@[k] == (slot_datas@[k].image.spec_size() != size),
        decreases slot_datas.len() - i,
    {
        let s = slot_datas[i].image.size();
        v.push(!(s.width == size.width && s.height == size.height));
        i = i + 1;
    }
    v
}

/// The value of channel `c` of pixel `i` of an image with `channels` interleaved channels, as
/// `deconstruct_image` gives it: the sample, or, for a channel the image lacks, 0 (255 for
/// alpha).
pub open spec fn channel_sample(samples: Seq<u8>, channels: int, c: int, i: int) -> u8 {
    if c < channels { samples[i * channels + c] } else if c == 3 { 255u8 } else { 0u8 }
}

/// Splits interleaved 8-bit samples into four planes (red, green, blue, alpha) of
/// `pixel_count` samples each; channels the image lacks are filled with 0, alpha with 255 (which
/// become 0.0 and 1.0 when the samples are scaled to `0.0..=1.0`).
pub fn deconstruct_image(samples: &Vec<u8>, pixel_count: usize) -> (r: Vec<Vec<u8>>)
    requires
        pixel_count > 0,
        (samples@.len() as int) % (pixel_count as int) == 0,
        1 <= (samples@.len() as int) / (pixel_count as int) <= 4,
    ensures
        r@.len() == 4,
        forall|c: int| 0 <= c < 4 ==> (#[trigger] r@[c])@.len() == pixel_count,
        forall|c: int, i: int| 0 <= c < 4 && 0 <= i < pixel_count ==>
            #[trigger] r@[c]@[i] == channel_sample(samples@, (samples@.len() as int) / (pixel_count as int), c, i),
{
    let total: usize = samples.len();
    let channels: usize = total / pixel_count;
    proof {
        vstd::arithmetic::div_mod::lemma_fundamental_div_mod(samples@.len() as int, pixel_count as int);
        assert(samples@.len() == pixel_count * channels) by (nonlinear_arith)
            requires
                (samples@.len() as int) % (pixel_count as int) == 0,
                samples@.len() == pixel_count * ((samples@.len() as int) / (pixel_count as int)) + (samples@.len() as int) % (pixel_count as int),
                channels == (samples@.len() as int) / (pixel_count as int);
    }
    let mut planes: Vec<Vec<u8>> = Vec::new();
    let mut c: usize = 0;
    while c < 4
        invariant
            c <= 4,
            1 <= channels <= 4,
            total == samples@.len(),
            channels == (samples@.len() as int) / (pixel_count as int),
            samples@.len() == pixel_count * channels,
            planes@.len() == c,
            forall|k: int| 0 <= k < c ==> (#[trigger] planes@[k])@.len() == pixel_count,
            forall|k: int, i: int| 0 <= k < c && 0 <= i < pixel_count ==>
                #[trigger] planes@[k]@[i] == channel_sample(samples@, channels as int, k, i),
        decreases 4 - c,
    {
        let mut plane: Vec<u8> = Vec::new();
        let mut i: usize = 0;
        while i < pixel_count
            invariant
                i <= pixel_count,
                c < 4,
                1 <= channels <= 4,
                samples@.len() == pixel_count * channels,
                total == samples@.len(),
                plane@.len() == i,
                forall|j: int| 0 <= j < i ==> plane@[j] == channel_sample(samples@, channels as int, c as int, j),
            decreases pixel_count - i,
        {
            let v: u8 = if c < channels {
                proof {
                    assert(i * channels + c < pixel_count * channels) by (nonlinear_arith)
                        requires
                            i < pixel_count,
                            c < channels;
                    assert(i * channels <= i * channels + c);
                }
                samples[i * channels + c]
            } else if c == 3 {
                255
            } else {
                0
            };
            plane.push(v);
            i = i + 1;
        }
        planes.push(plane);
        proof {
            assert forall|k: int, j: int| 0 <= k < c + 1 && 0 <= j < pixel_count implies
                #[trigger] planes@[k]@[j] == channel_sample(samples@, channels as int, k, j) by {
                if k < c {
                } else {
                    assert(planes@[k]@ == plane@);
                }
            }
        }
        c = c + 1;
    }
    planes
}

/// The image of a file split into `buffers`: none is an error (`InvalidBufferCount`), one is a
/// gray image, and more are red, green, blue and alpha, taken from the back, with `zero` for a
/// missing blue or green channel and `one` for a missing red channel.
pub fn read_slot_image(buffers: &Vec<BufferRef>, zero: BufferRef, one: BufferRef) -> (r: Result<SlotImage>)
    ensures
        buffers@.len() == 0 ==> r == Err::<SlotImage, TexProError>(TexProError::InvalidBufferCount),
        buffers@.len() == 1 ==> r == Ok::<SlotImage, TexProError>(SlotImage::Gray(buffers@[0])),
        buffers@.len() >= 2 ==> {
            let n = buffers@.len() as int;
            r == Ok::<SlotImage, TexProError>(SlotImage::Rgba([
                if n >= 4 { buffers@[n - 4] } else { one },
                if n >= 3 { buffers@[n - 3] } else { zero },
                buffers@[n - 2],
                buffers@[n - 1],
            ]))
        },
{
    let n = buffers.len();
    if n == 0 {
        Err(TexProError::InvalidBufferCount)
    } else if n == 1 {
        Ok(SlotImage::Gray(buffers[0]))
    } else {
        let a = buffers[n - 1];
        let b = buffers[n - 2];
        let g = if n >= 3 { buffers[n - 3] } else { zero };
        let r = if n >= 4 { buffers[n - 4] } else { one };
        Ok(SlotImage::Rgba([r, g, b, a]))
    }
}

} // verus!
