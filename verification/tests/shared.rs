use kanter_core::edge::Edge;
use kanter_core::error::TexProError;
use kanter_core::names::avoid_name_collision;
use kanter_core::node::mix::{mix_inputs, mix_plan, MixInputs, MixPlan, MixSide, MixType};
use kanter_core::node::node_type::NodeType;
use kanter_core::node::process_shared::{cancelling, input_gray, input_rgba, slot_data_with_name, wrapping_sample_add, wrapping_sample_subtract};
use kanter_core::node::{Node, ResizePolicy};
use kanter_core::node_graph::{NodeId, SlotId};
use kanter_core::shared::{calculate_size, deconstruct_image, needs_resize, read_slot_image, sort_edges_by_input_slot};
use kanter_core::slot_data::{BufferRef, Size, SlotData, SlotImage};

fn image(node: u32, w: u32, h: u32) -> SlotData {
    SlotData::new(NodeId(node), SlotId(0), SlotImage::Gray(BufferRef { id: node as u64, size: Size::new(w, h) }))
}

fn edges_into_mix() -> Vec<Edge> {
    vec![Edge::new(NodeId(1), NodeId(9), SlotId(0), SlotId(0)), Edge::new(NodeId(2), NodeId(9), SlotId(0), SlotId(1))]
}

fn size_with(policy: ResizePolicy, first: (u32, u32), second: (u32, u32)) -> Size {
    let sds = vec![image(1, first.0, first.1), image(2, second.0, second.1)];
    calculate_size(&sds, &edges_into_mix(), policy)
}

#[test]
fn resize_policy_least_pixels() {
    assert_eq!(size_with(ResizePolicy::LeastPixels, (128, 128), (256, 256)), Size::new(128, 128));
}

#[test]
fn resize_policy_most_pixels() {
    assert_eq!(size_with(ResizePolicy::MostPixels, (128, 128), (256, 256)), Size::new(256, 256));
}

#[test]
fn resize_policy_largest_axes() {
    assert_eq!(size_with(ResizePolicy::LargestAxes, (128, 64), (64, 128)), Size::new(128, 128));
}

#[test]
fn resize_policy_smallest_axes() {
    assert_eq!(size_with(ResizePolicy::SmallestAxes, (128, 64), (64, 128)), Size::new(64, 64));
}

#[test]
fn resize_policy_specific_size() {
    assert_eq!(size_with(ResizePolicy::SpecificSize(Size::new(256, 256)), (128, 128), (128, 64)), Size::new(256, 256));
}

#[test]
fn resize_policy_specific_slot() {
    assert_eq!(size_with(ResizePolicy::SpecificSlot(SlotId(1)), (128, 128), (128, 64)), Size::new(128, 64));
    assert_eq!(size_with(ResizePolicy::SpecificSlot(SlotId(2)), (128, 128), (128, 64)), Size::new(128, 128));
}

#[test]
fn most_pixels_without_inputs_is_one_pixel() {
    assert_eq!(calculate_size(&[], &[], ResizePolicy::MostPixels), Size::new(1, 1));
}

#[test]
fn edges_sorted_by_input_slot() {
    let e0 = Edge::new(NodeId(1), NodeId(9), SlotId(0), SlotId(2));
    let e1 = Edge::new(NodeId(2), NodeId(9), SlotId(0), SlotId(0));
    let sorted = sort_edges_by_input_slot(&[e0, e1]);
    assert_eq!(sorted, vec![e1, e0]);
}

#[test]
fn deconstruct_a_gray_image() {
    let planes = deconstruct_image(&vec![1, 2, 3, 4], 4);
    assert_eq!(planes, vec![vec![1, 2, 3, 4], vec![0; 4], vec![0; 4], vec![255; 4]]);
}

#[test]
fn deconstruct_an_rgb_image() {
    let planes = deconstruct_image(&vec![1, 2, 3, 4, 5, 6], 2);
    assert_eq!(planes, vec![vec![1, 4], vec![2, 5], vec![3, 6], vec![255, 255]]);
}

fn buf(id: u64) -> BufferRef {
    BufferRef { id, size: Size::new(1, 1) }
}

#[test]
fn slot_images_from_buffers() {
    assert_eq!(read_slot_image(&vec![], buf(0), buf(1)).err(), Some(TexProError::InvalidBufferCount));
    match read_slot_image(&vec![buf(5)], buf(0), buf(1)).unwrap() {
        SlotImage::Gray(b) => assert_eq!(b.id, 5),
        _ => panic!("expected a gray image"),
    }
    match read_slot_image(&vec![buf(5), buf(6), buf(7), buf(8)], buf(0), buf(1)).unwrap() {
        SlotImage::Rgba(bs) => assert_eq!(bs.iter().map(|b| b.id).collect::<Vec<u64>>(), vec![5, 6, 7, 8]),
        _ => panic!("expected an rgba image"),
    }
    match read_slot_image(&vec![buf(5), buf(6)], buf(0), buf(1)).unwrap() {
        SlotImage::Rgba(bs) => assert_eq!(bs.iter().map(|b| b.id).collect::<Vec<u64>>(), vec![1, 0, 5, 6]),
        _ => panic!("expected an rgba image"),
    }
}

#[test]
fn sampling_wraps_around() {
    assert_eq!(wrapping_sample_add(3, 4, 5), 2);
    assert_eq!(wrapping_sample_add(1, 2, 5), 3);
    assert_eq!(wrapping_sample_subtract(1, 3, 5), 3);
    assert_eq!(wrapping_sample_subtract(4, 3, 5), 1);
    assert!(cancelling(false, true));
    assert!(!cancelling(false, false));
}

#[test]
fn names_avoid_collisions() {
    let out = "out".to_string();
    let out0 = "out_0".to_string();
    let a_b = "a_b".to_string();
    assert_eq!(avoid_name_collision(vec![], "out"), "out");
    assert_eq!(avoid_name_collision(vec![&out], "out"), "out_0");
    assert_eq!(avoid_name_collision(vec![&out, &out0], "out"), "out_1");
    assert_eq!(avoid_name_collision(vec![&a_b], "a_b"), "a_0");
}

#[test]
fn input_nodes_take_their_data() {
    let node = Node::new(NodeType::InputGray("in".to_string())).node_id(NodeId(4));
    let datas = vec![image(3, 1, 1), image(4, 2, 2), image(4, 3, 3)];
    let got = input_gray(&node, &datas);
    assert_eq!(got.len(), 1);
    assert_eq!(got[0].image.size(), Size::new(2, 2));
    assert!(input_gray(&node, &[]).is_empty());
    let rgba = input_rgba(&node, &datas);
    assert_eq!(rgba[0].node_id, NodeId(4));
    assert_eq!(rgba[0].slot_id, SlotId(0));
    assert_eq!(rgba[0].image.size(), Size::new(1, 1));
}

#[test]
fn slot_data_by_input_name() {
    let mix = Node::new(NodeType::Mix(MixType::Add));
    let right = SlotData::new(NodeId(1), SlotId(1), SlotImage::Gray(buf(7)));
    let got = slot_data_with_name(&[right], &mix, "right").unwrap();
    assert_eq!(got.image.bufs()[0].id, 7);
    assert!(slot_data_with_name(&[right], &mix, "left").is_none());
}

#[test]
fn only_inputs_of_another_size_are_resized() {
    let a = SlotData::new(NodeId(0), SlotId(0), SlotImage::Gray(BufferRef { id: 1, size: Size::new(4, 4) }));
    let b = SlotData::new(NodeId(1), SlotId(0), SlotImage::Gray(BufferRef { id: 2, size: Size::new(2, 8) }));
    assert_eq!(needs_resize(&[a, b], Size::new(4, 4)), vec![false, true]);
}

#[test]
fn mix_inputs_take_the_first_of_each_side() {
    let img = |id: u64| SlotImage::Gray(BufferRef { id, size: Size::new(1, 1) });
    let l = SlotData::new(NodeId(5), SlotId(0), img(1));
    let r = SlotData::new(NodeId(5), SlotId(1), img(2));
    let l2 = SlotData::new(NodeId(5), SlotId(0), img(3));
    assert!(matches!(mix_inputs(&[r, l, l2]), MixInputs::Both(SlotImage::Gray(x), SlotImage::Gray(y)) if x.id == 1 && y.id == 2));
    assert!(matches!(mix_inputs(&[l]), MixInputs::LeftOnly(SlotImage::Gray(x)) if x.id == 1));
    assert!(matches!(mix_inputs(&[r]), MixInputs::RightOnly(SlotImage::Gray(y)) if y.id == 2));
    assert!(matches!(mix_inputs(&[]), MixInputs::Neither));
}

#[test]
fn mix_plan_fills_a_missing_side_with_zeros_of_the_other_kind() {
    let gray = SlotImage::Gray(BufferRef { id: 1, size: Size::new(3, 2) });
    let rgba = SlotImage::Rgba([
        BufferRef { id: 2, size: Size::new(5, 4) },
        BufferRef { id: 3, size: Size::new(5, 4) },
        BufferRef { id: 4, size: Size::new(5, 4) },
        BufferRef { id: 5, size: Size::new(5, 4) },
    ]);
    let left = SlotData::new(NodeId(0), SlotId(0), gray);
    let right = SlotData::new(NodeId(1), SlotId(1), rgba);
    match mix_plan(&[right, left]) {
        MixPlan::Combine { left: MixSide::Input(SlotImage::Gray(l), false), right: MixSide::Input(SlotImage::Rgba(_), false), size, rgba } => {
            assert_eq!(l.id, 1);
            assert_eq!(size, Size::new(3, 2));
            assert!(!rgba);
        }
        _ => panic!("both sides should be taken as gray"),
    }
    match mix_plan(&[right]) {
        MixPlan::Combine { left: MixSide::Zeros(zs, true), right: MixSide::Input(SlotImage::Rgba(_), true), size, rgba } => {
            assert_eq!(zs, Size::new(5, 4));
            assert_eq!(size, Size::new(5, 4));
            assert!(rgba);
        }
        _ => panic!("the left side should be RGBA zeros"),
    }
    assert!(matches!(mix_plan(&[]), MixPlan::Constant));
}
