use cadrum::occt::io::{
    encode_color_trailer, mesh_face_colors, read_color_trailer, read_color_trailer_entries,
    resolve_color_trailer, step_color_lists, step_colormap, trailer_ids, ColorBits, SolidColors,
};
use std::collections::HashMap;

fn rgb(r: f32, g: f32, b: f32) -> ColorBits {
    ColorBits { r: r.to_bits(), g: g.to_bits(), b: b.to_bits() }
}

fn trailer(entries: &[(u32, ColorBits)]) -> Vec<u8> {
    let mut out = b"CDCL".to_vec();
    out.extend_from_slice(&(entries.len() as u32).to_le_bytes());
    for (idx, c) in entries {
        out.extend_from_slice(&idx.to_le_bytes());
        out.extend_from_slice(&c.r.to_le_bytes());
        out.extend_from_slice(&c.g.to_le_bytes());
        out.extend_from_slice(&c.b.to_le_bytes());
    }
    out
}

#[test]
fn trailer_decodes_entries() {
    let red = rgb(1.0, 0.0, 0.0);
    let blue = rgb(0.0, 0.0, 1.0);
    let bytes = trailer(&[(0, red), (3, blue)]);
    let map = read_color_trailer(&bytes);
    assert_eq!(map.len(), 2);
    assert_eq!(map[&0], red);
    assert_eq!(map[&3], blue);
}

#[test]
fn trailer_ignores_bytes_after_it() {
    let red = rgb(1.0, 0.0, 0.0);
    let mut bytes = trailer(&[(2, red)]);
    bytes.extend_from_slice(b"whatever follows");
    let map = read_color_trailer(&bytes);
    assert_eq!(map.len(), 1);
    assert_eq!(map[&2], red);
}

#[test]
fn truncated_trailer_reads_as_none() {
    let red = rgb(1.0, 0.0, 0.0);
    let mut bytes = trailer(&[(2, red), (5, red)]);
    bytes.pop();
    assert!(read_color_trailer(&bytes).is_empty());
    assert!(read_color_trailer_entries(&bytes).is_empty());
}

#[test]
fn missing_magic_reads_as_none() {
    assert!(read_color_trailer(b"").is_empty());
    assert!(read_color_trailer(b"XDCL\x00\x00\x00\x00").is_empty());
}

#[test]
fn repeated_index_keeps_the_later_colour() {
    let red = rgb(1.0, 0.0, 0.0);
    let green = rgb(0.0, 1.0, 0.0);
    let bytes = trailer(&[(4, red), (4, green)]);
    let map = read_color_trailer(&bytes);
    assert_eq!(map.len(), 1);
    assert_eq!(map[&4], green);
    assert_eq!(read_color_trailer_entries(&bytes), vec![(4, red), (4, green)]);
}

#[test]
fn trailer_ids_are_solids_then_faces() {
    assert_eq!(trailer_ids(&[10, 11], &[20, 21, 22]), vec![10, 11, 20, 21, 22]);
}

#[test]
fn encode_writes_sorted_entries() {
    let ids = [100u64, 200, 300];
    let red = rgb(1.0, 0.0, 0.0);
    let blue = rgb(0.0, 0.0, 1.0);
    let mut cm = HashMap::new();
    cm.insert(300u64, blue);
    cm.insert(100u64, red);
    cm.insert(999u64, red); // not in this shape: drops out
    let bytes = encode_color_trailer(&ids, &cm);
    assert_eq!(bytes, trailer(&[(0, red), (2, blue)]));
}

#[test]
fn encode_nothing_coloured_writes_nothing() {
    let cm: HashMap<u64, ColorBits> = HashMap::new();
    assert!(encode_color_trailer(&[1, 2, 3], &cm).is_empty());
    let mut other = HashMap::new();
    other.insert(9u64, rgb(1.0, 1.0, 1.0));
    assert!(encode_color_trailer(&[1, 2, 3], &other).is_empty());
}

#[test]
fn write_then_read_preserves_colours() {
    let ids = trailer_ids(&[7], &[70, 71, 72]);
    let mut cm = HashMap::new();
    cm.insert(7u64, rgb(0.5, 0.5, 0.5));
    cm.insert(71u64, rgb(0.25, 0.75, 1.0));
    let mut file = b"payload bytes".to_vec();
    let payload_len = file.len();
    file.extend(encode_color_trailer(&ids, &cm));
    let back = resolve_color_trailer(&file[payload_len..], &ids);
    assert_eq!(back, cm);
}

#[test]
fn resolve_drops_unknown_indices() {
    let red = rgb(1.0, 0.0, 0.0);
    let bytes = trailer(&[(0, red), (9, red)]);
    let back = resolve_color_trailer(&bytes, &[55, 56]);
    assert_eq!(back.len(), 1);
    assert_eq!(back[&55], red);
}

#[test]
fn step_colormap_pairs_ids_with_channels() {
    let ids = vec![5u64, 6, 7];
    let rgb_bits: Vec<u32> = [1.0f32, 0.0, 0.0, 0.0, 1.0, 0.0, 0.0, 0.0].iter().map(|x| x.to_bits()).collect();
    let map = step_colormap(&ids, &rgb_bits);
    assert_eq!(map.len(), 2);
    assert_eq!(map[&5], rgb(1.0, 0.0, 0.0));
    assert_eq!(map[&6], rgb(0.0, 1.0, 0.0));
    assert!(!map.contains_key(&7));
}

#[test]
fn mesh_colours_spread_solid_colour_and_let_faces_win() {
    let grey = rgb(0.5, 0.5, 0.5);
    let red = rgb(1.0, 0.0, 0.0);
    let s = SolidColors { id: 1, faces: vec![10, 11, 12], colors: vec![(1, grey), (11, red)] };
    let t = SolidColors { id: 2, faces: vec![20], colors: vec![] };
    let map = mesh_face_colors(&vec![s, t], &vec![10, 11, 20, 10]);
    assert_eq!(map.len(), 2);
    assert_eq!(map[&10], grey);
    assert_eq!(map[&11], red);
    assert!(!map.contains_key(&12));
    assert!(!map.contains_key(&20));
}

#[test]
fn mesh_colours_later_solid_overrides() {
    let grey = rgb(0.5, 0.5, 0.5);
    let blue = rgb(0.0, 0.0, 1.0);
    let s = SolidColors { id: 1, faces: vec![10], colors: vec![(1, grey)] };
    let t = SolidColors { id: 2, faces: vec![10], colors: vec![(2, blue)] };
    let map = mesh_face_colors(&vec![s, t], &vec![10]);
    assert_eq!(map[&10], blue);
}

#[test]
fn round_trip_with_a_repeated_id() {
    // an id listed twice takes its last position as index
    let ids = vec![7u64, 70, 7];
    let mut cm = HashMap::new();
    cm.insert(7u64, rgb(0.1, 0.2, 0.3));
    let bytes = encode_color_trailer(&ids, &cm);
    assert_eq!(bytes, trailer(&[(2, rgb(0.1, 0.2, 0.3))]));
    assert_eq!(resolve_color_trailer(&bytes, &ids), cm);
}

#[test]
fn step_lists_read_back_to_the_same_colours() {
    let mut cm = HashMap::new();
    cm.insert(11u64, rgb(1.0, 0.0, 0.0));
    cm.insert(22u64, rgb(0.0, 0.5, 0.0));
    cm.insert(33u64, rgb(0.25, 0.25, 1.0));
    let (ids, channels) = step_color_lists(&cm);
    assert_eq!(ids.len(), 3);
    assert_eq!(channels.len(), 9);
    for (k, id) in ids.iter().enumerate() {
        let c = cm[id];
        assert_eq!((channels[3 * k], channels[3 * k + 1], channels[3 * k + 2]), (c.r, c.g, c.b));
    }
    assert_eq!(step_colormap(&ids, &channels), cm);
    let (none, no_channels) = step_color_lists(&HashMap::new());
    assert!(none.is_empty() && no_channels.is_empty());
}
