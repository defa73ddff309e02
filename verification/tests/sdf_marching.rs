use cadrum::sdf::marching::{cell_edge_id, cell_transitions, chain_loops, ms_segments};
use std::collections::HashMap;

#[test]
fn empty_and_full_cells_have_no_segment() {
    assert_eq!(ms_segments(0, false).1, 0);
    assert_eq!(ms_segments(15, true).1, 0);
}

#[test]
fn one_corner_inside_cuts_it_off() {
    let (segs, n) = ms_segments(1, false);
    assert_eq!(n, 1);
    assert_eq!(segs[0], (0, 3));
    let (segs, n) = ms_segments(8, false);
    assert_eq!(n, 1);
    assert_eq!(segs[0], (3, 2));
}

#[test]
fn saddles_follow_the_centre() {
    let (segs, n) = ms_segments(5, true);
    assert_eq!(n, 2);
    assert_eq!(&segs[..], &[(0, 1), (2, 3)]);
    let (segs, n) = ms_segments(5, false);
    assert_eq!(&segs[..n as usize], &[(0, 3), (2, 1)]);
    let (segs, _) = ms_segments(10, true);
    assert_eq!(&segs[..], &[(3, 0), (1, 2)]);
    let (segs, _) = ms_segments(10, false);
    assert_eq!(&segs[..], &[(1, 0), (3, 2)]);
}

#[test]
fn edge_ids_number_corners_and_directions() {
    // res 4: stride 5
    assert_eq!(cell_edge_id(0, 0, 0, 4), 0);
    assert_eq!(cell_edge_id(0, 0, 3, 4), 1);
    assert_eq!(cell_edge_id(0, 0, 1, 4), 3);
    assert_eq!(cell_edge_id(0, 0, 2, 4), 10);
    assert_eq!(cell_edge_id(2, 3, 1, 4), (2 * 5 + 4) * 2 + 1);
}

#[test]
fn neighbouring_cells_share_edge_ids() {
    assert_eq!(cell_edge_id(1, 2, 2, 4), cell_edge_id(2, 2, 0, 4));
    assert_eq!(cell_edge_id(1, 2, 1, 4), cell_edge_id(1, 3, 3, 4));
}

#[test]
fn one_inside_corner_makes_a_closed_loop() {
    // res 2: 3 x 3 corners, only the middle corner inside
    let mut inside = vec![false; 9];
    inside[4] = true;
    let next = cell_transitions(&inside, 2, |_r: usize, _c: usize| false);
    assert_eq!(next.len(), 4);
    let mut keys: Vec<u32> = next.keys().copied().collect();
    keys.sort();
    let loops = chain_loops(&next, &keys);
    assert_eq!(loops.len(), 1);
    assert_eq!(loops[0].len(), 4);
    for w in loops[0].windows(2) {
        assert_eq!(next[&w[0]], w[1]);
    }
    assert_eq!(next[loops[0].last().unwrap()], loops[0][0]);
}

#[test]
fn saddle_cells_ask_for_the_centre() {
    // res 1: corners bl, br, tl, tr in row-major order 0,1 / 2,3; bl and tr inside -> code 5
    let inside = vec![true, false, false, true];
    let asked = std::cell::Cell::new(0);
    let next_in = cell_transitions(&inside, 1, |r: usize, c: usize| {
        asked.set(asked.get() + 1);
        r == 0 && c == 0
    });
    assert_eq!(asked.get(), 1);
    let mut expected = HashMap::new();
    expected.insert(cell_edge_id(0, 0, 0, 1), cell_edge_id(0, 0, 1, 1));
    expected.insert(cell_edge_id(0, 0, 2, 1), cell_edge_id(0, 0, 3, 1));
    assert_eq!(next_in, expected);
}

#[test]
fn short_walks_are_dropped() {
    let mut next = HashMap::new();
    next.insert(1u32, 2u32);
    next.insert(5u32, 6u32);
    next.insert(6u32, 7u32);
    next.insert(7u32, 5u32);
    let loops = chain_loops(&next, &vec![1, 5, 6, 7]);
    assert_eq!(loops, vec![vec![5, 6, 7]]);
}

#[test]
fn walks_stop_at_visited_edges() {
    let mut next = HashMap::new();
    next.insert(1u32, 2u32);
    next.insert(2u32, 3u32);
    next.insert(3u32, 4u32);
    next.insert(9u32, 8u32);
    next.insert(8u32, 2u32);
    let loops = chain_loops(&next, &vec![1, 9]);
    assert_eq!(loops, vec![vec![1, 2, 3, 4]]);
}

#[test]
fn every_segment_leaves_through_an_exit_edge() {
    // corner k of the code is inside when bit k is set; edge e runs from corner e to corner e+1
    let inside = |code: u8, k: u8| (code >> (k % 4)) & 1 == 1;
    for code in 0u8..16 {
        for centre in [false, true] {
            let (segs, n) = ms_segments(code, centre);
            let exits: Vec<u8> = (0..4).filter(|&e| inside(code, e) && !inside(code, e + 1)).collect();
            let entries: Vec<u8> = (0..4).filter(|&e| !inside(code, e) && inside(code, e + 1)).collect();
            assert_eq!(n as usize, exits.len());
            let mut froms: Vec<u8> = segs[..n as usize].iter().map(|s| s.0).collect();
            let mut tos: Vec<u8> = segs[..n as usize].iter().map(|s| s.1).collect();
            froms.sort();
            tos.sort();
            assert_eq!(froms, exits);
            assert_eq!(tos, entries);
        }
    }
}

#[test]
fn unused_segment_slots_are_zero() {
    assert_eq!(ms_segments(1, false), ([(0, 3), (0, 0)], 1));
    assert_eq!(ms_segments(0, true), ([(0, 0), (0, 0)], 0));
    assert_eq!(ms_segments(16, true), ([(0, 0), (0, 0)], 0));
    assert_eq!(ms_segments(5, true), ([(0, 1), (2, 3)], 2));
}
