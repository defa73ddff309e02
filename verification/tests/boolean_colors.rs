use cadrum::common::error::Error;
use cadrum::occt::io::ColorBits;
use cadrum::occt::shape::{merge_colormaps, remap_colormap_by_order, Boolean, BooleanShape};
use cadrum::occt::stream::{RustReader, RustWriter};
use std::collections::HashMap;

fn c(x: u32) -> ColorBits {
    ColorBits { r: x, g: x + 1, b: x + 2 }
}

#[test]
fn merge_carries_colours_tool_wins() {
    let mut cm_a = HashMap::new();
    cm_a.insert(1u64, c(10));
    cm_a.insert(2u64, c(20));
    let mut cm_b = HashMap::new();
    cm_b.insert(9u64, c(90));
    // new face 100 from a's 1, new 101 from a's 3 (uncoloured), new 100 also from b's 9
    let merged = merge_colormaps(&[100, 1, 101, 3], &[100, 9, 102, 2], &cm_a, &cm_b);
    assert_eq!(merged.len(), 1);
    assert_eq!(merged[&100], c(90));
}

#[test]
fn merge_keeps_base_colours() {
    let mut cm_a = HashMap::new();
    cm_a.insert(1u64, c(10));
    let cm_b: HashMap<u64, ColorBits> = HashMap::new();
    let merged = merge_colormaps(&[100, 1, 101, 1], &[], &cm_a, &cm_b);
    assert_eq!(merged.len(), 2);
    assert_eq!(merged[&100], c(10));
    assert_eq!(merged[&101], c(10));
}

#[test]
fn remap_follows_face_order() {
    let mut cm = HashMap::new();
    cm.insert(1u64, c(1));
    cm.insert(3u64, c(3));
    let out = remap_colormap_by_order(&[1, 2, 3], &[11, 12], &cm);
    assert_eq!(out.len(), 1);
    assert_eq!(out[&11], c(1));
}

#[test]
fn faces_know_their_operand() {
    let b: Boolean<u8> = Boolean::from_parts(vec![1], vec![100, 1], vec![200, 9]);
    assert!(b.is_shape_face(100));
    assert!(!b.is_tool_face(100));
    assert!(b.is_tool_face(200));
    assert!(!b.is_shape_face(200));
    assert!(!b.is_tool_face(300));
}

#[test]
fn union_builds_solids_with_merged_colours() {
    let mut cm_a = HashMap::new();
    cm_a.insert(1u64, c(10));
    let mut cm_b = HashMap::new();
    cm_b.insert(9u64, c(90));
    let r = Boolean::union(
        || Some(BooleanShape { shape: "fused", from_a: vec![100, 1], from_b: vec![200, 9] }),
        &cm_a,
        &cm_b,
        |shape: &str, cm: HashMap<u64, ColorBits>| vec![(shape.to_string(), cm.len())],
    );
    let b = r.unwrap();
    assert_eq!(b.solids, vec![("fused".to_string(), 2)]);
    assert!(b.is_shape_face(100));
    assert!(b.is_tool_face(200));
}

#[test]
fn failed_backend_is_a_boolean_error() {
    let cm: HashMap<u64, ColorBits> = HashMap::new();
    let r: Result<Boolean<u8>, Error> = Boolean::subtract(
        || None::<BooleanShape<u8>>,
        &cm,
        &cm,
        |_s: u8, _cm: HashMap<u64, ColorBits>| vec![],
    );
    assert!(matches!(r, Err(Error::Boolean)));
    let r: Result<Boolean<u8>, Error> = Boolean::intersect(
        || None::<BooleanShape<u8>>,
        &cm,
        &cm,
        |_s: u8, _cm: HashMap<u64, ColorBits>| vec![],
    );
    assert!(matches!(r, Err(Error::Boolean)));
}

#[test]
fn stream_bridges_hand_back_the_borrowed_ends() {
    let mut input: &[u8] = b"abc";
    let mut reader = RustReader::from_ref(&mut input);
    assert_eq!(reader.source().len(), 3);
    let mut sink: Vec<u8> = Vec::new();
    let mut writer = RustWriter::from_ref(&mut sink);
    writer.sink().push(7);
    assert_eq!(sink, vec![7]);
}
