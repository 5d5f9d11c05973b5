use vstd::prelude::*;
use crate::node_graph::SlotId;
use crate::slot_data::{slot_data_with_slot_id, Size, SlotData, SlotImage};

verus! {

/// How a mix node combines its two inputs.
#[derive(Copy, Clone, Debug, PartialEq, Eq, Structural)]
pub enum MixType {
    Add,
    Subtract,
    Multiply,
    Divide,
    Pow,
}

impl Default for MixType {
    fn default() -> (m: Self)
        ensures
            m == MixType::Add,
    {
        Self::Add
    }
}

/// Whether `i` is the first position in `sds` of an input in slot `slot`.
pub open spec fn is_first_in_slot(sds: Seq<SlotData>, slot: SlotId, i: int) -> bool {
    &&& 0 <= i < sds.len()
    &&& sds[i].slot_id == slot
    &&& forall|j: int| 0 <= j < i ==> sds[j].slot_id != slot
}

/// Whether some input of `sds` is in slot `slot`.
pub open spec fn has_input_in(sds: Seq<SlotData>, slot: SlotId) -> bool {
    exists|i: int| 0 <= i < sds.len() && sds[i].slot_id == slot
}

/// What a mix node has to combine: the images in its left (0) and right (1) slots. A missing
/// side is filled with zeros of the other side's size and kind; with neither, the output is a
/// single gray zero pixel.
#[derive(Clone, Copy, Debug)]
pub enum MixInputs {
    Both(SlotImage, SlotImage),
    LeftOnly(SlotImage),
    RightOnly(SlotImage),
    Neither,
}

/// The inputs a mix node combines: the first input in its left slot and the first in its
/// right slot.
pub fn mix_inputs(slot_datas: &[SlotData]) -> (r: MixInputs)
    ensures
        r matches MixInputs::Both(a, b) ==> (exists|i: int| is_first_in_slot(slot_datas@, SlotId(0), i) && a == slot_datas@[i].image)
            && (exists|j: int| is_first_in_slot(slot_datas@, SlotId(1), j) && b == slot_datas@[j].image),
        r matches MixInputs::LeftOnly(a) ==> !has_input_in(slot_datas@, SlotId(1))
            && exists|i: int| is_first_in_slot(slot_datas@, SlotId(0), i) && a == slot_datas@[i].image,
        r matches MixInputs::RightOnly(b) ==> !has_input_in(slot_datas@, SlotId(0))
            && exists|j: int| is_first_in_slot(slot_datas@, SlotId(1), j) && b == slot_datas@[j].image,
        r is Neither ==> !has_input_in(slot_datas@, SlotId(0)) && !has_input_in(slot_datas@, SlotId(1)),
{
    let left = slot_data_with_slot_id(slot_datas, SlotId(0));
    let right = slot_data_with_slot_id(slot_datas, SlotId(1));
    match left {
        Some(l) => match right {
            Some(rt) => {
                let out = MixInputs::Both(l.image, rt.image);
                proof {
                    let i = choose|i: int| 0 <= i < slot_datas@.len() && slot_datas@[i] == l && l.slot_id == SlotId(0)
                        && forall|j: int| 0 <= j < i ==> slot_datas@[j].slot_id != SlotId(0);
                    let j = choose|j: int| 0 <= j < slot_datas@.len() && slot_datas@[j] == rt && rt.slot_id == SlotId(1)
                        && forall|k: int| 0 <= k < j ==> slot_datas@[k].slot_id != SlotId(1);
                    assert(is_first_in_slot(slot_datas@, SlotId(0), i) && is_first_in_slot(slot_datas@, SlotId(1), j));
                    assert(l.image == slot_datas@[i].image && rt.image == slot_datas@[j].image);
                }
                out
            },
            None => {
                proof {
                    let i = choose|i: int| 0 <= i < slot_datas@.len() && slot_datas@[i] == l && l.slot_id == SlotId(0)
                        && forall|j: int| 0 <= j < i ==> slot_datas@[j].slot_id != SlotId(0);
                    assert(is_first_in_slot(slot_datas@, SlotId(0), i));
                }
                MixInputs::LeftOnly(l.image)
            },
        },
        None => match right {
            Some(rt) => {
                proof {
                    let j = choose|j: int| 0 <= j < slot_datas@.len() && slot_datas@[j] == rt && rt.slot_id == SlotId(1)
                        && forall|k: int| 0 <= k < j ==> slot_datas@[k].slot_id != SlotId(1);
                    assert(is_first_in_slot(slot_datas@, SlotId(1), j));
                }
                MixInputs::RightOnly(rt.image)
            },
            None => MixInputs::Neither,
        },
    }
}

/// A first input in a slot is the only one.
proof fn lemma_first_unique(sds: Seq<SlotData>, slot: SlotId, i: int, j: int)
    requires
        is_first_in_slot(sds, slot, i),
        is_first_in_slot(sds, slot, j),
    ensures
        i == j,
{
    if i < j {
        assert(sds[i].slot_id == slot);
    } else if j < i {
        assert(sds[j].slot_id == slot);
    }
}

/// One side of a mix, ready to be combined.
#[derive(Clone, Copy, Debug)]
pub enum MixSide {
    /// An input image, taken as RGBA where the flag is set and as gray otherwise.
    Input(SlotImage, bool),
    /// Zeros of the given size, RGBA where the flag is set.
    Zeros(Size, bool),
}

/// What a mix node computes.
#[derive(Clone, Copy, Debug)]
pub enum MixPlan {
    /// The two sides combined pixel by pixel at `size`, both taken as RGBA where `rgba` is set
    /// and as gray otherwise.
    Combine { left: MixSide, right: MixSide, size: Size, rgba: bool },
    /// With no input at all: a single gray zero pixel.
    Constant,
}

/// What a mix node computes from its inputs: the kind and size of the left input (or, without
/// one, of the right input) decide; the other input is taken in that kind, and a missing side
/// is zeros of that size and kind.
pub fn mix_plan(slot_datas: &[SlotData]) -> (r: MixPlan)
    ensures
        r is Constant <==> !has_input_in(slot_datas@, SlotId(0)) && !has_input_in(slot_datas@, SlotId(1)),
        forall|i: int, j: int| is_first_in_slot(slot_datas@, SlotId(0), i) && is_first_in_slot(slot_datas@, SlotId(1), j)
            ==> r == (MixPlan::Combine {
                left: MixSide::Input(slot_datas@[i].image, slot_datas@[i].image is Rgba),
                right: MixSide::Input(slot_datas@[j].image, slot_datas@[i].image is Rgba),
                size: slot_datas@[i].image.spec_size(),
                rgba: slot_datas@[i].image is Rgba,
            }),
        forall|i: int| is_first_in_slot(slot_datas@, SlotId(0), i) && !has_input_in(slot_datas@, SlotId(1))
            ==> r == (MixPlan::Combine {
                left: MixSide::Input(slot_datas@[i].image, slot_datas@[i].image is Rgba),
                right: MixSide::Zeros(slot_datas@[i].image.spec_size(), slot_datas@[i].image is Rgba),
                size: slot_datas@[i].image.spec_size(),
                rgba: slot_datas@[i].image is Rgba,
            }),
        forall|j: int| !has_input_in(slot_datas@, SlotId(0)) && is_first_in_slot(slot_datas@, SlotId(1), j)
            ==> r == (MixPlan::Combine {
                left: MixSide::Zeros(slot_datas@[j].image.spec_size(), slot_datas@[j].image is Rgba),
                right: MixSide::Input(slot_datas@[j].image, slot_datas@[j].image is Rgba),
                size: slot_datas@[j].image.spec_size(),
                rgba: slot_datas@[j].image is Rgba,
            }),
{
    let inputs = mix_inputs(slot_datas);
    proof {
        assert forall|i: int, j: int| is_first_in_slot(slot_datas@, SlotId(0), i) && is_first_in_slot(slot_datas@, SlotId(1), j)
            implies inputs matches MixInputs::Both(a, b) && a == slot_datas@[i].image && b == slot_datas@[j].image by {
            if let MixInputs::Both(a, b) = inputs {
                let i2 = choose|i2: int| is_first_in_slot(slot_datas@, SlotId(0), i2) && a == slot_datas@[i2].image;
                let j2 = choose|j2: int| is_first_in_slot(slot_datas@, SlotId(1), j2) && b == slot_datas@[j2].image;
                lemma_first_unique(slot_datas@, SlotId(0), i, i2);
                lemma_first_unique(slot_datas@, SlotId(1), j, j2);
            }
        }
        assert forall|i: int| is_first_in_slot(slot_datas@, SlotId(0), i) && !has_input_in(slot_datas@, SlotId(1))
            implies inputs matches MixInputs::LeftOnly(a) && a == slot_datas@[i].image by {
            if let MixInputs::LeftOnly(a) = inputs {
                let i2 = choose|i2: int| is_first_in_slot(slot_datas@, SlotId(0), i2) && a == slot_datas@[i2].image;
                lemma_first_unique(slot_datas@, SlotId(0), i, i2);
            }
        }
        assert forall|j: int| !has_input_in(slot_datas@, SlotId(0)) && is_first_in_slot(slot_datas@, SlotId(1), j)
            implies inputs matches MixInputs::RightOnly(b) && b == slot_datas@[j].image by {
            if let MixInputs::RightOnly(b) = inputs {
                let j2 = choose|j2: int| is_first_in_slot(slot_datas@, SlotId(1), j2) && b == slot_datas@[j2].image;
                lemma_first_unique(slot_datas@, SlotId(1), j, j2);
            }
        }
    }
    match inputs {
        MixInputs::Both(l, rt) => {
            let rgba = l.is_rgba();
            MixPlan::Combine { left: MixSide::Input(l, rgba), right: MixSide::Input(rt, rgba), size: l.size(), rgba }
        },
        MixInputs::LeftOnly(l) => {
            let rgba = l.is_rgba();
            let size = l.size();
            MixPlan::Combine { left: MixSide::Input(l, rgba), right: MixSide::Zeros(size, rgba), size, rgba }
        },
        MixInputs::RightOnly(rt) => {
            let rgba = rt.is_rgba();
            let size = rt.size();
            MixPlan::Combine { left: MixSide::Zeros(size, rgba), right: MixSide::Input(rt, rgba), size, rgba }
        },
        MixInputs::Neither => MixPlan::Constant,
    }
}

} // verus!
