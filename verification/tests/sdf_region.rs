use cadrum::sdf::region::{
    boundary_loops, neighbour, order_desc, outside_components, runs_of, trace_boundary, RES,
};
use std::collections::HashSet;

fn idx(r: usize, c: usize) -> usize {
    r * RES + c
}

/// A grid with the cells of the given row and column ranges inside.
fn grid_with_blocks(blocks: &[(usize, usize, usize, usize)]) -> Vec<bool> {
    let mut map = vec![false; RES * RES];
    for &(r0, r1, c0, c1) in blocks {
        for r in r0..r1 {
            for c in c0..c1 {
                map[idx(r, c)] = true;
            }
        }
    }
    map
}

#[test]
fn neighbours_stay_on_the_grid() {
    assert_eq!(neighbour(idx(5, 5), 0), Some(idx(5, 6)));
    assert_eq!(neighbour(idx(5, 5), 2), Some(idx(4, 5)));
    assert_eq!(neighbour(idx(5, 5), 5), Some(idx(6, 4)));
    assert_eq!(neighbour(idx(0, 0), 2), None);
    assert_eq!(neighbour(idx(0, 0), 4), None);
    assert_eq!(neighbour(idx(RES - 1, RES - 1), 7), None);
}

#[test]
fn trace_of_a_square_ring_goes_round_once() {
    // the eight cells around (10, 10)
    let ring: HashSet<usize> = [
        idx(9, 9), idx(9, 10), idx(9, 11), idx(10, 11), idx(11, 11), idx(11, 10), idx(11, 9), idx(10, 9),
    ]
    .into_iter()
    .collect();
    let path = trace_boundary(idx(9, 9), &ring);
    assert_eq!(path.len(), 8);
    assert_eq!(path[0], idx(9, 9));
    let seen: HashSet<usize> = path.iter().copied().collect();
    assert_eq!(seen, ring);
}

#[test]
fn trace_of_nothing_is_empty() {
    let empty: HashSet<usize> = HashSet::new();
    assert!(trace_boundary(0, &empty).is_empty());
    assert!(trace_boundary(RES * RES + 5, &empty).is_empty());
}

#[test]
fn trace_of_a_lone_cell_stops() {
    let one: HashSet<usize> = [idx(3, 3)].into_iter().collect();
    assert_eq!(trace_boundary(idx(3, 3), &one), vec![idx(3, 3)]);
}

#[test]
fn one_block_gives_one_outside_component() {
    let map = grid_with_blocks(&[(100, 110, 200, 220)]);
    let comps = outside_components(&map);
    assert_eq!(comps.len(), 1);
    assert_eq!(comps[0].cells.len(), RES * RES - 10 * 20);
    // the boundary is the 4-neighbour ring of the block
    assert_eq!(comps[0].boundary.len(), 2 * 10 + 2 * 20);
    assert_eq!(comps[0].first, idx(99, 200));
    let loops = boundary_loops(&map, &comps);
    assert_eq!(loops.len(), 1);
    assert_eq!(loops[0][0], idx(99, 200));
}

#[test]
fn a_hole_is_its_own_component_after_the_outer_one() {
    // a hollow square: inside ring from rows 10..30, cols 10..30, with rows 15..25 x cols 15..25 outside
    let mut map = grid_with_blocks(&[(10, 30, 10, 30)]);
    for r in 15..25 {
        for c in 15..25 {
            map[idx(r, c)] = false;
        }
    }
    let comps = outside_components(&map);
    assert_eq!(comps.len(), 2);
    let sizes: Vec<usize> = comps.iter().map(|c| c.cells.len()).collect();
    assert!(sizes.contains(&100));
    assert!(sizes.contains(&(RES * RES - 400)));
    let loops = boundary_loops(&map, &comps);
    assert_eq!(loops.len(), 2);
    // largest first: the outer region's loop starts above the square
    assert_eq!(loops[0][0], idx(9, 10));
    assert_eq!(loops[1][0], idx(15, 15));
}

#[test]
fn no_inside_cell_gives_no_component() {
    let map = vec![false; RES * RES];
    assert!(outside_components(&map).is_empty());
}

#[test]
fn order_desc_is_stable() {
    assert_eq!(order_desc(&vec![3, 9, 3, 1, 9]), vec![1, 4, 0, 2, 3]);
    assert!(order_desc(&vec![]).is_empty());
}

#[test]
fn runs_group_equal_flags() {
    assert_eq!(
        runs_of(&vec![true, true, false, true, true, true]),
        vec![(0, 2, true), (2, 3, false), (3, 6, true)]
    );
    assert!(runs_of(&vec![]).is_empty());
    assert_eq!(runs_of(&vec![false]), vec![(0, 1, false)]);
}
