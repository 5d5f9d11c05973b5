use vstd::prelude::*;
use vstd::string::*;
use crate::node::{slot_with_name, Node};
use crate::node_graph::SlotId;
use crate::slot_data::{slot_data_with_slot_id, SlotData};

verus! {

/// The first slot data in the input slot of `node` called `name`.
pub fn slot_data_with_name(slot_datas: &[SlotData], node: &Node, name: &str) -> (r: Option<SlotData>)
    requires
        node.node_type.has_slots(),
        slot_with_name(node.node_type.spec_input_slots(), name@) is Some,
    ensures
        ({
            let slot_id = slot_with_name(node.node_type.spec_input_slots(), name@).unwrap().1;
            match r {
                Some(s) => exists|i: int| 0 <= i < slot_datas@.len() && slot_datas@[i] == s && s.slot_id == slot_id
                    && forall|j: int| 0 <= j < i ==> slot_datas@[j].slot_id != slot_id,
                None => forall|i: int| 0 <= i < slot_datas@.len() ==> slot_datas@[i].slot_id != slot_id,
            }
        }),
{
    let slot = match node.input_slot_with_name(name.to_string()) {
        Ok(s) => s,
        Err(_) => {
            proof {
                assert(false);
            }
            return None;
        }
    };
    slot_data_with_slot_id(slot_datas, slot.slot_id)
}

/// `value + right_side`, wrapped into `0..max`.
pub fn wrapping_sample_add(value: u32, right_side: u32, max: u32) -> (r: u32)
    requires
        max >= 1,
        value + right_side <= u32::MAX,
    ensures
        r == (value + right_side) % (max as int),
{
    let mut new_value = value + right_side;
    while new_value > max - 1
        invariant
            max >= 1,
            (new_value as int) % (max as int) == (value + right_side) % (max as int),
        decreases new_value,
    {
        proof {
            vstd::arithmetic::div_mod::lemma_mod_sub_multiples_vanish(new_value as int, max as int);
        }
        new_value = new_value - max;
    }
    proof {
        vstd::arithmetic::div_mod::lemma_small_mod(new_value as nat, max as nat);
    }
    new_value
}

/// `value - right_side`, brought up by whole multiples of `max` when `value` is below
/// `right_side`.
pub fn wrapping_sample_subtract(value: u32, right_side: u32, max: u32) -> (r: u32)
    requires
        value < right_side ==> max >= 1 && right_side + max <= u32::MAX,
    ensures
        value >= right_side ==> r == value - right_side,
        value < right_side ==> r == (value - right_side) % (max as int),
{
    let mut new_value = value;
    while new_value < right_side
        invariant
            value < right_side ==> max >= 1 && right_side + max <= u32::MAX,
            new_value < right_side ==> value < right_side,
            new_value == value || (value < right_side && new_value < right_side + max),
            value < right_side ==> (new_value as int) % (max as int) == (value as int) % (max as int),
        decreases right_side + max - new_value,
    {
        proof {
            vstd::arithmetic::div_mod::lemma_mod_add_multiples_vanish(new_value as int, max as int);
        }
        new_value = new_value + max;
    }
    proof {
        if value < right_side {
            assert(new_value >= right_side);
            assert(new_value - right_side < max);
            vstd::arithmetic::div_mod::lemma_small_mod((new_value - right_side) as nat, max as nat);
            vstd::arithmetic::div_mod::lemma_mod_equivalence(new_value as int, value as int, max as int);
            vstd::arithmetic::div_mod::lemma_mod_equivalence(new_value - right_side, value - right_side, max as int);
            assert((new_value - right_side) - (value - right_side) == new_value - value);
        }
    }
    new_value - right_side
}

/// Whether either of two cancel flags is raised.
pub fn cancelling(a: bool, b: bool) -> (r: bool)
    ensures
        r == (a || b),
{
    a || b
}

/// The output of an input node: the first of the graph's input outputs that belongs to it,
/// if there is one.
pub fn input_gray(node: &Node, input_node_datas: &[SlotData]) -> (r: Vec<SlotData>)
    ensures
        r@.len() <= 1,
        r@.len() == 1 <==> exists|i: int| 0 <= i < input_node_datas@.len() && input_node_datas@[i].node_id == node.node_id,
        r@.len() == 1 ==> exists|i: int| 0 <= i < input_node_datas@.len() && input_node_datas@[i] == r@[0]
            && r@[0].node_id == node.node_id
            && forall|j: int| 0 <= j < i ==> input_node_datas@[j].node_id != node.node_id,
{
    let mut i: usize = 0;
    while i < input_node_datas.len()
        invariant
            i <= input_node_datas.len(),
            forall|j: int| 0 <= j < i ==> input_node_datas@[j].node_id != node.node_id,
        decreases input_node_datas.len() - i,
    {
        if input_node_datas[i].node_id == node.node_id {
            let out = vec![input_node_datas[i]];
            proof {
                assert(out@[0] == input_node_datas@[i as int]);
            }
            return out;
        }
        i = i + 1;
    }
    Vec::new()
}

/// The output of an RGBA input node: the first of the graph's input outputs, as slot 0 of
/// the node.
pub fn input_rgba(node: &Node, input_node_datas: &[SlotData]) -> (r: Vec<SlotData>)
    requires
        input_node_datas@.len() > 0,
    ensures
        r@ == seq![SlotData { node_id: node.node_id, slot_id: SlotId(0), image: input_node_datas@[0].image }],
{
    let out = vec![SlotData::new(node.node_id, SlotId(0), input_node_datas[0].image)];
    proof {
        assert(out@ =~= seq![SlotData { node_id: node.node_id, slot_id: SlotId(0), image: input_node_datas@[0].image }]);
    }
    out
}

} // verus!
