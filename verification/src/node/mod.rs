pub mod embed;
pub mod mix;
pub mod node_type;
pub mod process_shared;
pub mod channels;

use vstd::prelude::*;
use vstd::string::*;
use crate::error::{Result, TexProError};
use crate::node_graph::{NodeId, SlotId};
use crate::slot_data::Size;
use self::node_type::NodeType;

verus! {

/// Identifies embedded node data by number.
#[derive(Clone, Copy, Debug, PartialEq, Eq, Structural)]
pub struct EmbeddedNodeDataId(pub u32);

/// How the inputs of a node are resized to a common size before processing.
#[derive(Copy, Clone, Debug, PartialEq, Eq, Structural)]
pub enum ResizePolicy {
    MostPixels,
    LeastPixels,
    LargestAxes,
    SmallestAxes,
    SpecificSlot(SlotId),
    SpecificSize(Size),
}

impl Default for ResizePolicy {
    fn default() -> (r: Self)
        ensures
            r == ResizePolicy::MostPixels,
    {
        ResizePolicy::MostPixels
    }
}

/// The filter used when an input is resized.
#[derive(Debug, Copy, Clone, PartialEq, Eq, Structural)]
pub enum ResizeFilter {
    Nearest,
    Triangle,
    CatmullRom,
    Gaussian,
    Lanczos3,
}

impl Default for ResizeFilter {
    fn default() -> (r: Self)
        ensures
            r == ResizeFilter::Triangle,
    {
        Self::Triangle
    }
}

/// Which side of a node a slot is on.
#[derive(Clone, Copy, Debug, PartialEq, Eq, Structural)]
pub enum Side {
    Input,
    Output,
}

impl Default for Side {
    fn default() -> (r: Self)
        ensures
            r == Side::Input,
    {
        Self::Input
    }
}

/// What kind of image a slot carries.
#[derive(Clone, Copy, Debug, Eq, PartialEq, Structural)]
pub enum SlotType {
    Gray,
    Rgba,
    GrayOrRgba,
}

impl Default for SlotType {
    fn default() -> (r: Self)
        ensures
            r == SlotType::GrayOrRgba,
    {
        Self::GrayOrRgba
    }
}

/// Whether an output slot of type `output` may feed an input slot of type `input`.
pub open spec fn slot_type_fits(output: SlotType, input: SlotType) -> bool {
    match output {
        SlotType::Gray => input == SlotType::Gray || input == SlotType::GrayOrRgba,
        SlotType::Rgba => input == SlotType::Rgba || input == SlotType::GrayOrRgba,
        SlotType::GrayOrRgba => true,
    }
}

/// A gray output only feeds gray or either-kind inputs and an RGBA output only RGBA or
/// either-kind inputs: two slot types fit exactly when they are the same or one of them takes
/// either kind.
pub proof fn law_slot_types_fit(output: SlotType, input: SlotType)
    ensures
        slot_type_fits(output, input) <==> (output == input || output == SlotType::GrayOrRgba || input == SlotType::GrayOrRgba),
        !slot_type_fits(SlotType::Gray, SlotType::Rgba),
        !slot_type_fits(SlotType::Rgba, SlotType::Gray),
{
}

impl SlotType {
    /// `Ok` when an output slot of this type may be connected to an input slot of type
    /// `other`.
    pub fn fits(&self, other: Self) -> (r: Result<()>)
        ensures
            r is Ok <==> slot_type_fits(*self, other),
            r is Ok <==> (*self == other || *self == SlotType::GrayOrRgba || other == SlotType::GrayOrRgba),
            r is Err ==> r == Err::<(), TexProError>(TexProError::InvalidSlotType),
    {
        if match self {
            Self::Gray => other == Self::Gray || other == Self::GrayOrRgba,
            Self::Rgba => other == Self::Rgba || other == Self::GrayOrRgba,
            Self::GrayOrRgba => true,
        } {
            Ok(())
        } else {
            Err(TexProError::InvalidSlotType)
        }
    }
}

/// A named, typed slot of a node.
#[derive(Debug)]
pub struct Slot {
    pub name: String,
    pub slot_id: SlotId,
    pub slot_type: SlotType,
}

impl View for Slot {
    type V = (Seq<char>, SlotId, SlotType);

    open spec fn view(&self) -> (Seq<char>, SlotId, SlotType) {
        (self.name@, self.slot_id, self.slot_type)
    }
}

impl Clone for Slot {
    fn clone(&self) -> (r: Self)
        ensures
            r == *self,
    {
        Slot { name: self.name.clone(), slot_id: self.slot_id, slot_type: self.slot_type }
    }
}

impl Slot {
    pub fn new(name: String, slot_id: SlotId, slot_type: SlotType) -> (s: Self)
        ensures
            s.name == name,
            s.slot_id == slot_id,
            s.slot_type == slot_type,
    {
        Self { name, slot_id, slot_type }
    }
}

pub type SlotInput = Slot;

pub type SlotOutput = Slot;

/// A node of a graph: what it does and how its inputs are resized.
#[derive(Debug)]
pub struct Node {
    pub node_id: NodeId,
    pub node_type: NodeType,
    pub resize_policy: ResizePolicy,
    pub resize_filter: ResizeFilter,
    /// Set when the inputs of the node changed, so work started on the old inputs should be
    /// abandoned.
    pub cancel: bool,
}

impl Clone for Node {
    fn clone(&self) -> (r: Self)
        ensures
            node_type::node_copy(*self, r),
    {
        node_type::clone_node(self)
    }
}

impl Node {
    pub fn new(node_type: NodeType) -> (n: Self)
        ensures
            n.node_id == NodeId(0),
            n.node_type == node_type,
            n.resize_policy == ResizePolicy::MostPixels,
            n.resize_filter == ResizeFilter::Triangle,
            !n.cancel,
    {
        Self {
            node_id: NodeId(0),
            node_type,
            resize_policy: ResizePolicy::default(),
            resize_filter: ResizeFilter::default(),
            cancel: false,
        }
    }

    pub fn with_id(node_type: NodeType, node_id: NodeId) -> (n: Self)
        ensures
            n.node_id == node_id,
            n.node_type == node_type,
            n.resize_policy == ResizePolicy::MostPixels,
            n.resize_filter == ResizeFilter::Triangle,
            !n.cancel,
    {
        Self {
            node_id,
            node_type,
            resize_policy: ResizePolicy::default(),
            resize_filter: ResizeFilter::default(),
            cancel: false,
        }
    }

    pub fn node_id(self, node_id: NodeId) -> (n: Self)
        ensures
            n == (Node { node_id, ..self }),
    {
        let mut s = self;
        s.node_id = node_id;
        s
    }

    pub fn resize_policy(self, resize_policy: ResizePolicy) -> (n: Self)
        ensures
            n == (Node { resize_policy, ..self }),
    {
        let mut s = self;
        s.resize_policy = resize_policy;
        s
    }

    pub fn resize_filter(self, resize_filter: ResizeFilter) -> (n: Self)
        ensures
            n == (Node { resize_filter, ..self }),
    {
        let mut s = self;
        s.resize_filter = resize_filter;
        s
    }

    pub fn filter_type(&mut self, rf: ResizeFilter)
        ensures
            *final(self) == (Node { resize_filter: rf, ..*old(self) }),
    {
        self.resize_filter = rf;
    }
}

} // verus!

verus! {

/// Whether `i` is the first index of `slots` whose slot has id `slot_id`.
pub open spec fn is_first_slot_with_id(slots: Seq<(Seq<char>, SlotId, SlotType)>, slot_id: SlotId, i: int) -> bool {
    &&& 0 <= i < slots.len()
    &&& slots[i].1 == slot_id
    &&& forall|j: int| 0 <= j < i ==> slots[j].1 != slot_id
}

/// Whether `i` is the first index of `slots` whose slot has the name `name`.
pub open spec fn is_first_slot_with_name(slots: Seq<(Seq<char>, SlotId, SlotType)>, name: Seq<char>, i: int) -> bool {
    &&& 0 <= i < slots.len()
    &&& slots[i].0 == name
    &&& forall|j: int| 0 <= j < i ==> slots[j].0 != name
}

/// The slot with id `slot_id` among `slots`, if there is one (the first, if there are several).
pub open spec fn slot_with_id(slots: Seq<(Seq<char>, SlotId, SlotType)>, slot_id: SlotId) -> Option<(Seq<char>, SlotId, SlotType)> {
    if exists|i: int| 0 <= i < slots.len() && slots[i].1 == slot_id {
        Some(slots[choose|i: int| is_first_slot_with_id(slots, slot_id, i)])
    } else {
        None
    }
}

/// The slot named `name` among `slots`, if there is one (the first, if there are several).
pub open spec fn slot_with_name(slots: Seq<(Seq<char>, SlotId, SlotType)>, name: Seq<char>) -> Option<(Seq<char>, SlotId, SlotType)> {
    if exists|i: int| 0 <= i < slots.len() && slots[i].0 == name {
        Some(slots[choose|i: int| is_first_slot_with_name(slots, name, i)])
    } else {
        None
    }
}

/// What the contracts see of a sequence of slots.
pub open spec fn slot_views(slots: Seq<Slot>) -> Seq<(Seq<char>, SlotId, SlotType)> {
    slots.map_values(|s: Slot| s@)
}

/// What the contracts see of an optional slot.
pub open spec fn opt_slot_view(s: Option<Slot>) -> Option<(Seq<char>, SlotId, SlotType)> {
    match s {
        Some(x) => Some(x@),
        None => None,
    }
}

/// Takes the first slot of `slots` whose id (when `by_id`) or name (otherwise) matches.
fn take_first_slot(slots: Vec<Slot>, by_id: bool, slot_id: SlotId, name: &String) -> (r: Option<Slot>)
    ensures
        by_id ==> slot_with_id(slot_views(slots@), slot_id) == opt_slot_view(r),
        !by_id ==> slot_with_name(slot_views(slots@), name@) == opt_slot_view(r),
{
    let ghost views = slot_views(slots@);
    let ghost orig = slots@;
    let mut work = slots;
    assert(work@ == orig);
    let mut i: usize = 0;
    while i < work.len()
        invariant
            work@ == orig,
            slots@ == orig,
            views == slot_views(orig),
            i <= work.len(),
            by_id ==> forall|j: int| 0 <= j < i ==> views[j].1 != slot_id,
            !by_id ==> forall|j: int| 0 <= j < i ==> views[j].0 != name@,
        decreases work.len() - i,
    {
        proof {
            assert(views[i as int] == orig[i as int]@);
        }
        let hit = if by_id { work[i].slot_id == slot_id } else { work[i].name == *name };
        if hit {
            proof {
                if by_id {
                    assert(is_first_slot_with_id(views, slot_id, i as int));
                    let k = choose|k: int| is_first_slot_with_id(views, slot_id, k);
                    assert(k == i as int) by {
                        if k < i { } else if k > i { }
                    }
                } else {
                    assert(is_first_slot_with_name(views, name@, i as int));
                    let k = choose|k: int| is_first_slot_with_name(views, name@, k);
                    assert(k == i as int) by {
                        if k < i { } else if k > i { }
                    }
                }
            }
            let s = work.remove(i);
            proof {
                assert(s == orig[i as int]);
                assert(views[i as int] == s@);
                if by_id {
                    assert(exists|j: int| 0 <= j < views.len() && views[j].1 == slot_id);
                    assert(slot_with_id(views, slot_id) == Some(s@));
                    assert(slot_with_id(slot_views(orig), slot_id) == Some(s@));
                } else {
                    assert(exists|j: int| 0 <= j < views.len() && views[j].0 == name@);
                    assert(slot_with_name(views, name@) == Some(s@));
                }
            }
            return Some(s);
        }
        i = i + 1;
    }
    None
}

impl Node {
    /// The input slot with the given id.
    pub fn input_slot_with_id(&self, slot_id: SlotId) -> (r: Result<Slot>)
        requires
            self.node_type.has_slots(),
        ensures
            match r {
                Ok(s) => slot_with_id(self.node_type.spec_input_slots(), slot_id) == Some(s@),
                Err(e) => slot_with_id(self.node_type.spec_input_slots(), slot_id) is None
                    && e == TexProError::InvalidSlotId,
            },
    {
        let slots = self.input_slots();
        proof {
            assert(slot_views(slots@) =~= self.node_type.spec_input_slots());
        }
        let name = String::new();
        match take_first_slot(slots, true, slot_id, &name) {
            Some(s) => Ok(s),
            None => Err(TexProError::InvalidSlotId),
        }
    }

    /// The output slot with the given id.
    pub fn output_slot_with_id(&self, slot_id: SlotId) -> (r: Result<Slot>)
        requires
            self.node_type.has_slots(),
        ensures
            match r {
                Ok(s) => slot_with_id(self.node_type.spec_output_slots(), slot_id) == Some(s@),
                Err(e) => slot_with_id(self.node_type.spec_output_slots(), slot_id) is None
                    && e == TexProError::InvalidSlotId,
            },
    {
        let slots = self.output_slots();
        proof {
            assert(slot_views(slots@) =~= self.node_type.spec_output_slots());
        }
        let name = String::new();
        match take_first_slot(slots, true, slot_id, &name) {
            Some(s) => Ok(s),
            None => Err(TexProError::InvalidSlotId),
        }
    }

    /// The input slot with the given name.
    pub fn input_slot_with_name(&self, name: String) -> (r: Result<Slot>)
        requires
            self.node_type.has_slots(),
        ensures
            match r {
                Ok(s) => slot_with_name(self.node_type.spec_input_slots(), name@) == Some(s@),
                Err(e) => slot_with_name(self.node_type.spec_input_slots(), name@) is None
                    && e == TexProError::InvalidName,
            },
    {
        let slots = self.input_slots();
        proof {
            assert(slot_views(slots@) =~= self.node_type.spec_input_slots());
        }
        match take_first_slot(slots, false, SlotId(0), &name) {
            Some(s) => Ok(s),
            None => Err(TexProError::InvalidName),
        }
    }

    /// The output slot with the given name.
    pub fn output_slot_with_name(&self, name: String) -> (r: Result<Slot>)
        requires
            self.node_type.has_slots(),
        ensures
            match r {
                Ok(s) => slot_with_name(self.node_type.spec_output_slots(), name@) == Some(s@),
                Err(e) => slot_with_name(self.node_type.spec_output_slots(), name@) is None
                    && e == TexProError::InvalidName,
            },
    {
        let slots = self.output_slots();
        proof {
            assert(slot_views(slots@) =~= self.node_type.spec_output_slots());
        }
        match take_first_slot(slots, false, SlotId(0), &name) {
            Some(s) => Ok(s),
            None => Err(TexProError::InvalidName),
        }
    }
}

} // verus!
