//! Marching-squares topology on a grid of corner samples.
//!
//! A cell has corners bottom-left, bottom-right, top-right and top-left (bits 0 to 3 of its
//! code when inside) and edges bottom, right, top and left (0 to 3), each edge running
//! counter-clockwise round the cell: bottom from bottom-left to bottom-right, right from
//! bottom-right to top-right, top from top-right to top-left, left from top-left to
//! bottom-left. The contour through a cell is a list of segments from one crossed edge to
//! another, oriented so that the inside lies on the left.

use vstd::prelude::*;
use std::collections::{HashMap, HashSet};

verus! {

broadcast use vstd::std_specs::hash::group_hash_axioms;

// ==================== Cell segments ====================

/// Corner `k` (0 bottom-left, 1 bottom-right, 2 top-right, 3 top-left) is inside in `code`.
pub open spec fn corner_in(code: u8, k: int) -> bool {
    (code as int / pow2(k)) % 2 == 1
}

/// `2^k` for the four corners.
pub open spec fn pow2(k: int) -> int {
    if k == 0 {
        1
    } else if k == 1 {
        2
    } else if k == 2 {
        4
    } else {
        8
    }
}

/// The contour leaves the inside through edge `e`: its first corner (counter-clockwise)
/// is inside and its second is not.
pub open spec fn exit_edge(code: u8, e: int) -> bool {
    corner_in(code, e) && !corner_in(code, (e + 1) % 4)
}

/// The contour enters the inside through edge `e`.
pub open spec fn entry_edge(code: u8, e: int) -> bool {
    !corner_in(code, e) && corner_in(code, (e + 1) % 4)
}

/// The segments of a cell with corner code `code` (the saddles 5 and 10 resolved by
/// whether the cell centre is inside), as `(from, to)` edge pairs.
pub open spec fn ms_table(code: u8, center_inside: bool) -> (Seq<(u8, u8)>) {
    if code == 1 {
        seq![(0u8, 3u8)]
    } else if code == 2 {
        seq![(1u8, 0u8)]
    } else if code == 3 {
        seq![(1u8, 3u8)]
    } else if code == 4 {
        seq![(2u8, 1u8)]
    } else if code == 5 {
        if center_inside {
            seq![(0u8, 1u8), (2u8, 3u8)]
        } else {
            seq![(0u8, 3u8), (2u8, 1u8)]
        }
    } else if code == 6 {
        seq![(2u8, 0u8)]
    } else if code == 7 {
        seq![(2u8, 3u8)]
    } else if code == 8 {
        seq![(3u8, 2u8)]
    } else if code == 9 {
        seq![(0u8, 2u8)]
    } else if code == 10 {
        if center_inside {
            seq![(3u8, 0u8), (1u8, 2u8)]
        } else {
            seq![(1u8, 0u8), (3u8, 2u8)]
        }
    } else if code == 11 {
        seq![(1u8, 2u8)]
    } else if code == 12 {
        seq![(3u8, 1u8)]
    } else if code == 13 {
        seq![(0u8, 1u8)]
    } else if code == 14 {
        seq![(3u8, 0u8)]
    } else {
        seq![]
    }
}

/// The segments of a cell with corner code `code`: up to two `(from, to)` edge pairs and
/// their count. The saddles 5 and 10 are resolved by `center_inside`; codes 0 and 15 (and
/// any above 15) give none. The slots past the count hold `(0, 0)`.
pub fn ms_segments(code: u8, center_inside: bool) -> (r: ([(u8, u8); 2], u8))
    ensures
        r.1 as int == ms_table(code, center_inside).len(),
        forall|k: int| 0 <= k < r.1 ==> r.0@[k] == #[trigger] ms_table(code, center_inside)[k],
        forall|k: int| r.1 <= k < 2 ==> #[trigger] r.0@[k] == (0u8, 0u8),
{
    let z = ([(0u8, 0u8), (0u8, 0u8)], 0u8);
    let r = match code {
        1 => ([(0, 3), (0, 0)], 1),
        2 => ([(1, 0), (0, 0)], 1),
        3 => ([(1, 3), (0, 0)], 1),
        4 => ([(2, 1), (0, 0)], 1),
        5 => if center_inside {
            ([(0, 1), (2, 3)], 2)
        } else {
            ([(0, 3), (2, 1)], 2)
        },
        6 => ([(2, 0), (0, 0)], 1),
        7 => ([(2, 3), (0, 0)], 1),
        8 => ([(3, 2), (0, 0)], 1),
        9 => ([(0, 2), (0, 0)], 1),
        10 => if center_inside {
            ([(3, 0), (1, 2)], 2)
        } else {
            ([(1, 0), (3, 2)], 2)
        },
        11 => ([(1, 2), (0, 0)], 1),
        12 => ([(3, 1), (0, 0)], 1),
        13 => ([(0, 1), (0, 0)], 1),
        14 => ([(3, 0), (0, 0)], 1),
        _ => z,
    };
    r
}

/// Each segment of a cell leaves the inside through an exit edge and comes back in through
/// an entry edge, so that the inside is on its left; the segments use each exit edge and
/// each entry edge of the cell exactly once, whichever way a saddle is resolved.
pub proof fn law_segments_follow_edges(code: u8, center_inside: bool)
    requires
        code < 16,
    ensures
        forall|k: int|
            0 <= k < ms_table(code, center_inside).len() ==> exit_edge(
                code,
                #[trigger] ms_table(code, center_inside)[k].0 as int,
            ) && entry_edge(code, ms_table(code, center_inside)[k].1 as int)
                && ms_table(code, center_inside)[k].0 < 4 && ms_table(code, center_inside)[k].1 < 4,
        forall|e: int|
            0 <= e < 4 && exit_edge(code, e) ==> exists|k: int|
                0 <= k < ms_table(code, center_inside).len() && #[trigger] ms_table(code, center_inside)[k].0
                    == e,
        forall|e: int|
            0 <= e < 4 && entry_edge(code, e) ==> exists|k: int|
                0 <= k < ms_table(code, center_inside).len() && #[trigger] ms_table(code, center_inside)[k].1
                    == e,
        forall|k1: int, k2: int|
            0 <= k1 < k2 < ms_table(code, center_inside).len() ==> #[trigger] ms_table(code, center_inside)[k1].0
                != #[trigger] ms_table(code, center_inside)[k2].0 && ms_table(code, center_inside)[k1].1
                != ms_table(code, center_inside)[k2].1,
{
    let t = ms_table(code, center_inside);
    assert(corner_in(code, 0) == (code as int % 2 == 1));
    assert(corner_in(code, 1) == ((code as int / 2) % 2 == 1));
    assert(corner_in(code, 2) == ((code as int / 4) % 2 == 1));
    assert(corner_in(code, 3) == ((code as int / 8) % 2 == 1));
    if code == 5 || code == 10 {
        assert(t.len() == 2);
        assert(exit_edge(code, t[0].0 as int) && entry_edge(code, t[0].1 as int));
        assert(exit_edge(code, t[1].0 as int) && entry_edge(code, t[1].1 as int));
    } else if code == 0 || code == 15 {
        assert(t.len() == 0);
    } else {
        assert(t.len() == 1);
        assert(exit_edge(code, t[0].0 as int) && entry_edge(code, t[0].1 as int));
    }
    assert forall|e: int| 0 <= e < 4 && exit_edge(code, e) implies exists|k: int|
        0 <= k < t.len() && #[trigger] t[k].0 == e by {
        if t.len() > 0 && t[0].0 == e {
        } else if t.len() > 1 && t[1].0 == e {
        } else {
            assert(false);
        }
    }
    assert forall|e: int| 0 <= e < 4 && entry_edge(code, e) implies exists|k: int|
        0 <= k < t.len() && #[trigger] t[k].1 == e by {
        if t.len() > 0 && t[0].1 == e {
        } else if t.len() > 1 && t[1].1 == e {
        } else {
            assert(false);
        }
    }
}

// ==================== Edge ids ====================

/// Edge `edge` of cell `(r, c)` as the grid corner it starts from (row, column) and its
/// direction (0 along the row, 1 up the column); the top and right edges are named from
/// the cell above and the cell to the right.
pub open spec fn edge_key(r: int, c: int, edge: int) -> (int, int, int) {
    if edge == 0 {
        (r, c, 0)
    } else if edge == 1 {
        (r, c + 1, 1)
    } else if edge == 2 {
        (r + 1, c, 0)
    } else {
        (r, c, 1)
    }
}

/// The id of edge `edge` of cell `(r, c)` on a grid of `res × res` cells.
pub open spec fn edge_id(r: int, c: int, edge: int, res: int) -> int {
    let k = edge_key(r, c, edge);
    (k.0 * (res + 1) + k.1) * 2 + k.2
}

/// The global id of edge `edge` (bottom 0, right 1, top 2, left 3) of cell `(r, c)` on a
/// grid of `res × res` cells: its starting corner, numbered row-major over the
/// `(res + 1)²` corners, doubled, plus one for an edge up the column.
pub fn cell_edge_id(r: usize, c: usize, edge: u8, res: usize) -> (id: u32)
    requires
        r < res,
        c < res,
        edge < 4,
        2 * (res + 1) * (res + 1) <= u32::MAX + 1,
    ensures
        id as int == edge_id(r as int, c as int, edge as int, res as int),
{
    assert(res < 0x1_0000) by (nonlinear_arith)
        requires
            2 * (res + 1) * (res + 1) <= u32::MAX + 1,
    ;
    let stride = (res + 1) as u32;
    let (rr, cc, dir): (u32, u32, u32) = if edge == 0 {
        (r as u32, c as u32, 0)
    } else if edge == 1 {
        (r as u32, (c + 1) as u32, 1)
    } else if edge == 2 {
        ((r + 1) as u32, c as u32, 0)
    } else {
        (r as u32, c as u32, 1)
    };
    assert((rr * stride + cc) * 2 + dir <= 2 * (res + 1) * (res + 1) - 1) by (nonlinear_arith)
        requires
            rr <= res,
            cc <= res,
            dir <= 1,
            stride == res + 1,
    ;
    (rr * stride + cc) * 2 + dir
}

/// Neighbouring cells give their shared edge one id: the top of a cell is the bottom of the
/// cell above, its right the left of the cell to the right. Apart from that, different edges
/// have different ids.
pub proof fn law_shared_edges(res: int, r: int, c: int, e: int, r2: int, c2: int, e2: int)
    requires
        0 <= r < res,
        0 <= c < res,
        0 <= e < 4,
        0 <= r2 < res,
        0 <= c2 < res,
        0 <= e2 < 4,
    ensures
        r + 1 < res ==> edge_id(r, c, 2, res) == edge_id(r + 1, c, 0, res),
        c + 1 < res ==> edge_id(r, c, 1, res) == edge_id(r, c + 1, 3, res),
        edge_id(r, c, e, res) == edge_id(r2, c2, e2, res) ==> edge_key(r, c, e) == edge_key(
            r2,
            c2,
            e2,
        ),
{
    let k = edge_key(r, c, e);
    let k2 = edge_key(r2, c2, e2);
    if edge_id(r, c, e, res) == edge_id(r2, c2, e2, res) {
        assert(k == k2) by (nonlinear_arith)
            requires
                (k.0 * (res + 1) + k.1) * 2 + k.2 == (k2.0 * (res + 1) + k2.1) * 2 + k2.2,
                0 <= k.0 <= res,
                0 <= k.1 <= res,
                0 <= k.2 <= 1,
                0 <= k2.0 <= res,
                0 <= k2.1 <= res,
                0 <= k2.2 <= 1,
        ;
    }
}

// ==================== Loops ====================

/// The walk from `start` along `next` with `acc` walked so far and `cur` the next edge: it
/// stops before an edge seen earlier or already on the walk, and after an edge with no
/// successor or whose successor is `start`; `fuel` bounds its length.
pub open spec fn walk(
    next: Map<u32, u32>,
    seen: Set<u32>,
    start: u32,
    cur: u32,
    acc: Seq<u32>,
    fuel: nat,
) -> Seq<u32>
    decreases fuel,
{
    if fuel == 0 || seen.contains(cur) || acc.contains(cur) {
        acc
    } else if !next.dom().contains(cur) || next[cur] == start {
        acc.push(cur)
    } else {
        walk(next, seen, start, next[cur], acc.push(cur), (fuel - 1) as nat)
    }
}

/// The walk from `start`, given the edges `seen` before.
pub open spec fn walk_from(next: Map<u32, u32>, seen: Set<u32>, start: u32) -> Seq<u32> {
    walk(next, seen, start, start, seq![], (next.dom().len() + 1) as nat)
}

/// The loops found by walking from each of `keys` in turn not yet seen, keeping the walks of
/// at least three edges.
pub open spec fn chain(next: Map<u32, u32>, keys: Seq<u32>, seen: Set<u32>) -> Seq<Seq<u32>>
    decreases keys.len(),
{
    if keys.len() == 0 {
        seq![]
    } else {
        let k = keys[0];
        if seen.contains(k) {
            chain(next, keys.drop_first(), seen)
        } else {
            let w = walk_from(next, seen, k);
            let rest = chain(next, keys.drop_first(), seen + w.to_set());
            if w.len() >= 3 {
                seq![w] + rest
            } else {
                rest
            }
        }
    }
}

/// Follows the successor map `next` from each of `keys` in turn, skipping those already
/// visited: each walk stops before a visited edge, and after an edge without successor or
/// whose successor is where it began. The walks of at least three edges are the loops.
pub fn chain_loops(next: &HashMap<u32, u32>, keys: &Vec<u32>) -> (r: Vec<Vec<u32>>)
    ensures
        r@.map_values(|l: Vec<u32>| l@) == chain(next@, keys@, Set::empty()),
{
    let mut visited: HashSet<u32> = HashSet::new();
    let mut loops: Vec<Vec<u32>> = Vec::new();
    let mut i: usize = 0;
    proof {
        assert(keys@.skip(0) =~= keys@);
        assert(loops@.map_values(|l: Vec<u32>| l@) =~= Seq::<Seq<u32>>::empty());
    }
    while i < keys.len()
        invariant
            i <= keys@.len(),
            loops@.map_values(|l: Vec<u32>| l@) + chain(next@, keys@.skip(i as int), visited@)
                == chain(next@, keys@, Set::empty()),
        decreases keys@.len() - i,
    {
        let start = keys[i];
        let ghost rest = keys@.skip(i as int);
        proof {
            assert(rest[0] == start);
            assert(rest.drop_first() =~= keys@.skip(i + 1));
        }
        if visited.contains(&start) {
            i += 1;
            continue;
        }
        let ghost seen = visited@;
        let mut loop_edges: Vec<u32> = Vec::new();
        let mut cur = start;
        let ghost fuel0 = (next@.dom().len() + 1) as nat;
        proof {
            assert(loop_edges@ =~= Seq::<u32>::empty());
        }
        loop
            invariant_except_break
                loop_edges@.no_duplicates(),
                forall|k: int| 0 <= k < loop_edges@.len() ==> next@.dom().contains(#[trigger] loop_edges@[k]),
                walk(next@, seen, start, cur, loop_edges@, (fuel0 - loop_edges@.len()) as nat)
                    == walk_from(next@, seen, start),
                loop_edges@.len() <= next@.dom().len(),
            invariant
                visited@ == seen + loop_edges@.to_set(),
                !seen.contains(start),
                next@.dom().finite(),
                fuel0 == next@.dom().len() + 1,
            ensures
                visited@ == seen + loop_edges@.to_set(),
                loop_edges@ == walk_from(next@, seen, start),
            decreases next@.dom().len() - loop_edges@.len(),
        {
            let ghost acc = loop_edges@;
            let ghost f = (fuel0 - acc.len()) as nat;
            let fresh = visited.insert(cur);
            if !fresh {
                proof {
                    assert(seen.contains(cur) || acc.to_set().contains(cur));
                    if acc.to_set().contains(cur) {
                        assert(acc.contains(cur));
                    }
                }
                break;
            }
            proof {
                assert(!seen.contains(cur) && !acc.contains(cur)) by {
                    if acc.contains(cur) {
                        assert(acc.to_set().contains(cur));
                    }
                }
            }
            loop_edges.push(cur);
            proof {
                assert(loop_edges@ == acc.push(cur));
                assert forall|x: u32| #[trigger] loop_edges@.to_set().contains(x) == acc.to_set().insert(cur).contains(x) by {
                    if x == cur {
                        assert(loop_edges@[acc.len() as int] == cur);
                    } else if acc.contains(x) {
                        let k = choose|k: int| 0 <= k < acc.len() && acc[k] == x;
                        assert(loop_edges@[k] == x);
                    } else if loop_edges@.contains(x) {
                        let k = choose|k: int| 0 <= k < loop_edges@.len() && loop_edges@[k] == x;
                        assert(acc[k] == x);
                    }
                }
                assert(loop_edges@.to_set() =~= acc.to_set().insert(cur));
                assert(loop_edges@.no_duplicates()) by {
                    assert forall|x: int, y: int| 0 <= x < loop_edges@.len() && 0 <= y < loop_edges@.len() && x != y implies loop_edges@[x] != loop_edges@[y] by {
                        if x < acc.len() && y < acc.len() {
                            assert(loop_edges@[x] == acc[x] && loop_edges@[y] == acc[y]);
                        } else if x < acc.len() {
                            assert(loop_edges@[x] == acc[x]);
                            assert(acc.contains(acc[x]));
                        } else {
                            assert(loop_edges@[y] == acc[y]);
                            assert(acc.contains(acc[y]));
                        }
                    }
                }
            }
            match next.get(&cur) {
                Some(nx) => {
                    let nx = *nx;
                    proof {
                        assert(next@.dom().contains(cur) && next@[cur] == nx);
                        // the walk so far lies in the finite domain, without repeats
                        let ls = loop_edges@;
                        assert forall|k: int| 0 <= k < ls.len() implies next@.dom().contains(#[trigger] ls[k]) by {
                            if k < acc.len() {
                                assert(ls[k] == acc[k]);
                            }
                        }
                        ls.unique_seq_to_set();
                        assert(ls.to_set().subset_of(next@.dom()));
                        vstd::set_lib::lemma_len_subset(ls.to_set(), next@.dom());
                    }
                    cur = nx;
                    if cur == start {
                        break;
                    }
                },
                None => {
                    break;
                },
            }
        }
        let ghost w = loop_edges@;
        if loop_edges.len() >= 3 {
            let ghost before = loops@.map_values(|l: Vec<u32>| l@);
            loops.push(loop_edges);
            proof {
                assert(loops@.map_values(|l: Vec<u32>| l@) =~= before.push(w));
                assert(chain(next@, rest, seen) == seq![w] + chain(next@, rest.drop_first(), seen + w.to_set()));
                assert(before.push(w) + chain(next@, keys@.skip(i + 1), visited@) =~= before + (seq![w] + chain(next@, keys@.skip(i + 1), visited@)));
            }
        } else {
            proof {
                assert(chain(next@, rest, seen) == chain(next@, rest.drop_first(), seen + w.to_set()));
            }
        }
        i += 1;
    }
    proof {
        assert(keys@.skip(i as int) =~= Seq::<u32>::empty());
        assert(loops@.map_values(|l: Vec<u32>| l@) + Seq::<Seq<u32>>::empty() =~= loops@.map_values(|l: Vec<u32>| l@));
    }
    loops
}

/// Each edge of `s` but the last has `next` edge the one after it.
pub open spec fn follows(next: Map<u32, u32>, s: Seq<u32>) -> bool {
    forall|i: int| 0 <= i < s.len() - 1 ==> next.dom().contains(#[trigger] s[i]) && next[s[i]] == s[i + 1]
}

/// A walk follows `next` and begins where its first step does.
proof fn lemma_walk_follows(
    next: Map<u32, u32>,
    seen: Set<u32>,
    start: u32,
    cur: u32,
    acc: Seq<u32>,
    fuel: nat,
)
    requires
        follows(next, acc),
        acc.len() > 0 ==> next.dom().contains(acc.last()) && next[acc.last()] == cur,
    ensures
        follows(next, walk(next, seen, start, cur, acc, fuel)),
        acc.len() > 0 ==> walk(next, seen, start, cur, acc, fuel).len() > 0 && walk(next, seen, start, cur, acc, fuel)[0] == acc[0],
        acc.len() == 0 && walk(next, seen, start, cur, acc, fuel).len() > 0 ==> walk(next, seen, start, cur, acc, fuel)[0] == cur,
    decreases fuel,
{
    if fuel == 0 || seen.contains(cur) || acc.contains(cur) {
    } else {
        let a2 = acc.push(cur);
        assert(follows(next, a2)) by {
            assert forall|i: int| 0 <= i < a2.len() - 1 implies next.dom().contains(#[trigger] a2[i]) && next[a2[i]] == a2[i + 1] by {
                assert(a2[i] == acc[i]);
                if i < acc.len() - 1 {
                    assert(a2[i + 1] == acc[i + 1]);
                } else {
                    assert(acc[i] == acc.last());
                }
            }
        }
        if !next.dom().contains(cur) || next[cur] == start {
        } else {
            lemma_walk_follows(next, seen, start, next[cur], a2, (fuel - 1) as nat);
        }
    }
}

/// Every loop that `chain` finds has at least three edges, each but the last followed by
/// its successor under `next`, and begins at one of the keys.
pub proof fn law_chain_loops(next: Map<u32, u32>, keys: Seq<u32>, seen: Set<u32>)
    ensures
        forall|k: int|
            0 <= k < chain(next, keys, seen).len() ==> (#[trigger] chain(next, keys, seen)[k]).len() >= 3
                && follows(next, chain(next, keys, seen)[k]) && keys.contains(chain(next, keys, seen)[k][0]),
    decreases keys.len(),
{
    if keys.len() > 0 {
        let k0 = keys[0];
        let tail = keys.drop_first();
        if seen.contains(k0) {
            law_chain_loops(next, tail, seen);
            assert forall|k: int| 0 <= k < chain(next, keys, seen).len() implies (#[trigger] chain(next, keys, seen)[k]).len() >= 3
                && follows(next, chain(next, keys, seen)[k]) && keys.contains(chain(next, keys, seen)[k][0]) by {
                let l = chain(next, tail, seen)[k];
                let j = choose|j: int| 0 <= j < tail.len() && tail[j] == l[0];
                assert(keys[j + 1] == tail[j]);
            }
        } else {
            let w = walk_from(next, seen, k0);
            let seen2 = seen + w.to_set();
            law_chain_loops(next, tail, seen2);
            lemma_walk_follows(next, seen, k0, k0, seq![], (next.dom().len() + 1) as nat);
            let rest = chain(next, tail, seen2);
            let all = chain(next, keys, seen);
            assert forall|k: int| 0 <= k < all.len() implies (#[trigger] all[k]).len() >= 3
                && follows(next, all[k]) && keys.contains(all[k][0]) by {
                if w.len() >= 3 {
                    if k == 0 {
                        assert(all[k] == w);
                        assert(keys[0] == k0);
                    } else {
                        assert(all[k] == rest[k - 1]);
                        let l = rest[k - 1];
                        let j = choose|j: int| 0 <= j < tail.len() && tail[j] == l[0];
                        assert(keys[j + 1] == tail[j]);
                    }
                } else {
                    assert(all[k] == rest[k]);
                    let l = rest[k];
                    let j = choose|j: int| 0 <= j < tail.len() && tail[j] == l[0];
                    assert(keys[j + 1] == tail[j]);
                }
            }
        }
    }
}

// ==================== Cell transitions ====================

/// Corner `(r, c)` of a grid of `res × res` cells, row-major over its `(res + 1)²` corners.
pub open spec fn corner_index(r: int, c: int, res: int) -> int {
    r * (res + 1) + c
}

/// The corner code of cell `(r, c)`: one bit per inside corner, bottom-left first.
pub open spec fn code_of(inside: Seq<bool>, r: int, c: int, res: int) -> u8 {
    ((if inside[corner_index(r, c, res)] { 1int } else { 0 }) + (if inside[corner_index(r, c + 1, res)] {
        2int
    } else {
        0
    }) + (if inside[corner_index(r + 1, c + 1, res)] { 4int } else { 0 }) + (if inside[corner_index(
        r + 1,
        c,
        res,
    )] {
        8int
    } else {
        0
    })) as u8
}

/// Codes 5 and 10 are the saddles, two opposite corners inside.
pub open spec fn saddle(code: u8) -> bool {
    code == 5 || code == 10
}

/// `ch` records how each saddle cell was resolved, by an answer of `f` for that cell, and
/// is `false` elsewhere.
pub open spec fn chosen<F: Fn(usize, usize) -> bool>(
    f: F,
    ch: spec_fn(int, int) -> bool,
    inside: Seq<bool>,
    res: int,
) -> bool {
    forall|r: int, c: int|
        0 <= r < res && 0 <= c < res ==> if saddle(code_of(inside, r, c, res)) {
            call_ensures(f, (r as usize, c as usize), #[trigger] ch(r, c))
        } else {
            !ch(r, c)
        }
}

/// The segments of cell `(r, c)`, its saddle resolved by `ch`.
pub open spec fn cell_segments(inside: Seq<bool>, res: int, ch: spec_fn(int, int) -> bool, r: int, c: int) -> Seq<
    (u8, u8),
> {
    ms_table(code_of(inside, r, c, res), ch(r, c))
}

/// Segment `k` of cell `(r, c)` is in `m`, from the id of its first edge to that of its
/// second.
pub open spec fn has_segment(
    m: Map<u32, u32>,
    inside: Seq<bool>,
    res: int,
    ch: spec_fn(int, int) -> bool,
    r: int,
    c: int,
    k: int,
) -> bool {
    let sg = cell_segments(inside, res, ch, r, c)[k];
    &&& m.contains_key(edge_id(r, c, sg.0 as int, res) as u32)
    &&& m[edge_id(r, c, sg.0 as int, res) as u32] == edge_id(r, c, sg.1 as int, res) as u32
}

/// Key `key` is the first edge of segment `k` of cell `(r, c)`.
pub open spec fn key_of_segment(
    key: u32,
    inside: Seq<bool>,
    res: int,
    ch: spec_fn(int, int) -> bool,
    r: int,
    c: int,
    k: int,
) -> bool {
    0 <= k < cell_segments(inside, res, ch, r, c).len() && key as int == edge_id(
        r,
        c,
        cell_segments(inside, res, ch, r, c)[k].0 as int,
        res,
    )
}

/// `m` maps the first edge of every segment of every cell to its second, and nothing else.
pub open spec fn transitions_of(
    m: Map<u32, u32>,
    inside: Seq<bool>,
    res: int,
    ch: spec_fn(int, int) -> bool,
) -> bool {
    &&& forall|r: int, c: int, k: int|
        0 <= r < res && 0 <= c < res && 0 <= k < cell_segments(inside, res, ch, r, c).len()
            ==> #[trigger] has_segment(m, inside, res, ch, r, c, k)
    &&& forall|key: u32|
        #[trigger] m.contains_key(key) ==> exists|r: int, c: int, k: int|
            0 <= r < res && 0 <= c < res && #[trigger] key_of_segment(key, inside, res, ch, r, c, k)
}

/// The bits of a corner code are its corners.
proof fn lemma_code_corners(inside: Seq<bool>, r: int, c: int, res: int)
    ensures
        code_of(inside, r, c, res) < 16,
        corner_in(code_of(inside, r, c, res), 0) == inside[corner_index(r, c, res)],
        corner_in(code_of(inside, r, c, res), 1) == inside[corner_index(r, c + 1, res)],
        corner_in(code_of(inside, r, c, res), 2) == inside[corner_index(r + 1, c + 1, res)],
        corner_in(code_of(inside, r, c, res), 3) == inside[corner_index(r + 1, c, res)],
{
}

/// Edge ids of a grid of `res × res` cells stay below `2 (res + 1)²`.
proof fn lemma_edge_id_bound(r: int, c: int, e: int, res: int)
    requires
        0 <= r < res,
        0 <= c < res,
        0 <= e < 4,
    ensures
        0 <= edge_id(r, c, e, res) < 2 * (res + 1) * (res + 1),
{
    let k = edge_key(r, c, e);
    assert(0 <= (k.0 * (res + 1) + k.1) * 2 + k.2 < 2 * (res + 1) * (res + 1)) by (nonlinear_arith)
        requires
            0 <= k.0 <= res,
            0 <= k.1 <= res,
            0 <= k.2 <= 1,
    ;
}

/// Two cells never leave the inside through the same edge, and one cell not twice.
proof fn lemma_exit_once(inside: Seq<bool>, res: int, r1: int, c1: int, e1: int, r2: int, c2: int, e2: int)
    requires
        0 <= r1 < res,
        0 <= c1 < res,
        0 <= r2 < res,
        0 <= c2 < res,
        0 <= e1 < 4,
        0 <= e2 < 4,
        exit_edge(code_of(inside, r1, c1, res), e1),
        exit_edge(code_of(inside, r2, c2, res), e2),
        edge_id(r1, c1, e1, res) == edge_id(r2, c2, e2, res),
    ensures
        r1 == r2 && c1 == c2 && e1 == e2,
{
    law_shared_edges(res, r1, c1, e1, r2, c2, e2);
    lemma_code_corners(inside, r1, c1, res);
    lemma_code_corners(inside, r2, c2, res);
}

/// Inserting segment `k` of cell `(r, c)` keeps the segments recorded before it: no other
/// segment starts at the same edge.
proof fn lemma_step_insert(
    before: Map<u32, u32>,
    after: Map<u32, u32>,
    inside: Seq<bool>,
    res: int,
    ch: spec_fn(int, int) -> bool,
    r: int,
    c: int,
    k: int,
)
    requires
        0 <= r < res,
        0 <= c < res,
        0 <= k < cell_segments(inside, res, ch, r, c).len(),
        2 * (res + 1) * (res + 1) <= u32::MAX + 1,
        after == before.insert(
            edge_id(r, c, cell_segments(inside, res, ch, r, c)[k].0 as int, res) as u32,
            edge_id(r, c, cell_segments(inside, res, ch, r, c)[k].1 as int, res) as u32,
        ),
        forall|r2: int, c2: int, j: int|
            (((0 <= r2 < r && 0 <= c2 < res) || (r2 == r && 0 <= c2 < c)) && 0 <= j < cell_segments(inside, res, ch, r2, c2).len())
                || (r2 == r && c2 == c && 0 <= j < k)
                ==> #[trigger] has_segment(before, inside, res, ch, r2, c2, j),
        forall|key: u32|
            #[trigger] before.contains_key(key) ==> exists|r2: int, c2: int, j: int|
                (((0 <= r2 < r && 0 <= c2 < res) || (r2 == r && 0 <= c2 < c)) || (r2 == r && c2 == c && j < k)) && #[trigger] key_of_segment(key, inside, res, ch, r2, c2, j),
    ensures
        forall|r2: int, c2: int, j: int|
            (((0 <= r2 < r && 0 <= c2 < res) || (r2 == r && 0 <= c2 < c)) && 0 <= j < cell_segments(inside, res, ch, r2, c2).len())
                || (r2 == r && c2 == c && 0 <= j < k + 1)
                ==> #[trigger] has_segment(after, inside, res, ch, r2, c2, j),
        forall|key: u32|
            #[trigger] after.contains_key(key) ==> exists|r2: int, c2: int, j: int|
                (((0 <= r2 < r && 0 <= c2 < res) || (r2 == r && 0 <= c2 < c)) || (r2 == r && c2 == c && j < k + 1)) && #[trigger] key_of_segment(key, inside, res, ch, r2, c2, j),
{
    let segs = cell_segments(inside, res, ch, r, c);
    let code = code_of(inside, r, c, res);
    lemma_code_corners(inside, r, c, res);
    law_segments_follow_edges(code, ch(r, c));
    let from = segs[k].0 as int;
    assert(0 <= from < 4) by {
        assert(exit_edge(code, from));
        if from >= 4 {
            assert(segs[k].0 < 4);
        }
    }
    assert(segs[k].0 < 4 && segs[k].1 < 4);
    lemma_edge_id_bound(r, c, from, res);
    let kf = edge_id(r, c, from, res);
    assert forall|r2: int, c2: int, j: int|
        (((0 <= r2 < r && 0 <= c2 < res) || (r2 == r && 0 <= c2 < c)) && 0 <= j < cell_segments(inside, res, ch, r2, c2).len())
            || (r2 == r && c2 == c && 0 <= j < k + 1)
            implies #[trigger] has_segment(after, inside, res, ch, r2, c2, j) by {
        if r2 == r && c2 == c && j == k {
        } else {
            assert(has_segment(before, inside, res, ch, r2, c2, j));
            let s2 = cell_segments(inside, res, ch, r2, c2);
            let code2 = code_of(inside, r2, c2, res);
            lemma_code_corners(inside, r2, c2, res);
            law_segments_follow_edges(code2, ch(r2, c2));
            let f2 = s2[j].0 as int;
            assert(exit_edge(code2, f2));
            assert(s2[j].0 < 4);
            lemma_edge_id_bound(r2, c2, f2, res);
            let k2 = edge_id(r2, c2, f2, res);
            if k2 as u32 == kf as u32 {
                assert(k2 == kf);
                lemma_exit_once(inside, res, r, c, from, r2, c2, f2);
                assert(j != k);
                assert(s2 == segs);
                assert(segs[j].0 != segs[k].0) by {
                    if j < k {
                        assert(segs[j].0 != segs[k].0);
                    } else {
                        assert(segs[k].0 != segs[j].0);
                    }
                }
            }
        }
    }
    assert forall|key: u32| #[trigger] after.contains_key(key) implies exists|r2: int, c2: int, j: int|
        (((0 <= r2 < r && 0 <= c2 < res) || (r2 == r && 0 <= c2 < c)) || (r2 == r && c2 == c && j < k + 1)) && #[trigger] key_of_segment(key, inside, res, ch, r2, c2, j) by {
        if key == kf as u32 {
            assert(key_of_segment(key, inside, res, ch, r, c, k));
        } else {
            assert(before.contains_key(key));
            let (r2, c2, j) = choose|r2: int, c2: int, j: int|
                (((0 <= r2 < r && 0 <= c2 < res) || (r2 == r && 0 <= c2 < c)) || (r2 == r && c2 == c && j < k)) && #[trigger] key_of_segment(key, inside, res, ch, r2, c2, j);
            assert(key_of_segment(key, inside, res, ch, r2, c2, j));
        }
    }
}

/// A cell is a saddle exactly when its two diagonals disagree, each diagonal's corners
/// agreeing: bottom-left with top-right, bottom-right with top-left, the corners read
/// row-major from `inside`.
pub proof fn law_saddle_corners(inside: Seq<bool>, r: int, c: int, res: int)
    ensures
        saddle(code_of(inside, r, c, res)) <==> ({
            let bl = inside[r * (res + 1) + c];
            let br = inside[r * (res + 1) + c + 1];
            let tr = inside[(r + 1) * (res + 1) + c + 1];
            let tl = inside[(r + 1) * (res + 1) + c];
            bl == tr && br == tl && bl != br
        }),
{
    assert(corner_index(r + 1, c, res) == (r + 1) * (res + 1) + c);
    assert(corner_index(r + 1, c + 1, res) == (r + 1) * (res + 1) + c + 1);
}

/// Every segment that cell `(r, c)` has when its centre is taken to be inside exactly when
/// `center` says so is in `m`, keyed by the id of its first edge and mapped to the id of its
/// second.
pub open spec fn cell_linked(m: Map<u32, u32>, inside: Seq<bool>, res: int, r: int, c: int, center: bool) -> bool {
    forall|k: int|
        0 <= k < ms_table(code_of(inside, r, c, res), center).len() ==> {
            let sg = #[trigger] ms_table(code_of(inside, r, c, res), center)[k];
            &&& m.contains_key(edge_id(r, c, sg.0 as int, res) as u32)
            &&& m[edge_id(r, c, sg.0 as int, res) as u32] == edge_id(r, c, sg.1 as int, res) as u32
        }
}

/// A saddle cell `(r, c)` is linked the way an answer of `f` asked about that same cell, at
/// row `r` and column `c`, says; any other cell is linked as its corners alone say.
pub proof fn law_cells_linked_by_their_own_answer<F: Fn(usize, usize) -> bool>(
    f: F,
    ch: spec_fn(int, int) -> bool,
    m: Map<u32, u32>,
    inside: Seq<bool>,
    res: int,
    r: int,
    c: int,
)
    requires
        chosen(f, ch, inside, res),
        transitions_of(m, inside, res, ch),
        0 <= r < res,
        0 <= c < res,
    ensures
        saddle(code_of(inside, r, c, res)) ==> exists|b: bool|
            call_ensures(f, (r as usize, c as usize), b) && #[trigger] cell_linked(m, inside, res, r, c, b),
        !saddle(code_of(inside, r, c, res)) ==> cell_linked(m, inside, res, r, c, false),
{
    let b = ch(r, c);
    assert(cell_linked(m, inside, res, r, c, b)) by {
        assert forall|k: int| 0 <= k < ms_table(code_of(inside, r, c, res), b).len() implies {
            let sg = #[trigger] ms_table(code_of(inside, r, c, res), b)[k];
            &&& m.contains_key(edge_id(r, c, sg.0 as int, res) as u32)
            &&& m[edge_id(r, c, sg.0 as int, res) as u32] == edge_id(r, c, sg.1 as int, res) as u32
        } by {
            assert(has_segment(m, inside, res, ch, r, c, k));
        }
    }
    if saddle(code_of(inside, r, c, res)) {
        assert(call_ensures(f, (r as usize, c as usize), ch(r, c)));
    } else {
        assert(!ch(r, c));
    }
}

/// The transition map of a grid of `res × res` cells whose `(res + 1)²` corners, row-major,
/// are inside where `inside` says: for every cell, each of its segments maps the id of the
/// edge where it starts to the id of the edge where it ends. A saddle cell is resolved by
/// asking `center_inside` whether its centre is inside; other cells do not ask.
pub fn cell_transitions<F: Fn(usize, usize) -> bool>(
    inside: &Vec<bool>,
    res: usize,
    center_inside: F,
) -> (m: HashMap<u32, u32>)
    requires
        inside@.len() == (res + 1) * (res + 1),
        2 * (res + 1) * (res + 1) <= u32::MAX + 1,
        forall|r: usize, c: usize| r < res && c < res ==> #[trigger] call_requires(center_inside, (r, c)),
    ensures
        exists|ch: spec_fn(int, int) -> bool|
            chosen(center_inside, ch, inside@, res as int) && transitions_of(m@, inside@, res as int, ch),
        forall|r: int, c: int|
            #![trigger code_of(inside@, r, c, res as int)]
            0 <= r < res && 0 <= c < res && saddle(code_of(inside@, r, c, res as int)) ==> exists|b: bool|
                call_ensures(center_inside, (r as usize, c as usize), b) && #[trigger] cell_linked(
                    m@,
                    inside@,
                    res as int,
                    r,
                    c,
                    b,
                ),
        forall|r: int, c: int|
            #![trigger code_of(inside@, r, c, res as int)]
            0 <= r < res && 0 <= c < res && !saddle(code_of(inside@, r, c, res as int)) ==> cell_linked(
                m@,
                inside@,
                res as int,
                r,
                c,
                false,
            ),
{
    assert(res < 0x1_0000) by (nonlinear_arith)
        requires
            2 * (res + 1) * (res + 1) <= u32::MAX + 1,
    ;
    let n = inside.len();
    let stride = res + 1;
    let mut next: HashMap<u32, u32> = HashMap::new();
    let ghost mut ch: spec_fn(int, int) -> bool = |r: int, c: int| false;
    let mut r: usize = 0;
    while r < res
        invariant
            r <= res,
            stride == res + 1,
            n == inside@.len(),
            inside@.len() == (res + 1) * (res + 1),
            2 * (res + 1) * (res + 1) <= u32::MAX + 1,
            forall|r: usize, c: usize| r < res && c < res ==> #[trigger] call_requires(center_inside, (r, c)),
            forall|r2: int, c2: int| 0 <= r2 < r && 0 <= c2 < res ==> if saddle(code_of(inside@, r2, c2, res as int)) {
                call_ensures(center_inside, (r2 as usize, c2 as usize), #[trigger] ch(r2, c2))
            } else {
                !ch(r2, c2)
            },
            forall|r2: int, c2: int, k: int|
                0 <= r2 < r && 0 <= c2 < res && 0 <= k < cell_segments(inside@, res as int, ch, r2, c2).len()
                    ==> #[trigger] has_segment(next@, inside@, res as int, ch, r2, c2, k),
            forall|key: u32|
                #[trigger] next@.contains_key(key) ==> exists|r2: int, c2: int, k: int|
                    0 <= r2 < r && 0 <= c2 < res && #[trigger] key_of_segment(key, inside@, res as int, ch, r2, c2, k),
        decreases res - r,
    {
        let mut c: usize = 0;
        while c < res
            invariant
                r < res,
                c <= res,
                stride == res + 1,
                n == inside@.len(),
                inside@.len() == (res + 1) * (res + 1),
                2 * (res + 1) * (res + 1) <= u32::MAX + 1,
                forall|r: usize, c: usize| r < res && c < res ==> #[trigger] call_requires(center_inside, (r, c)),
                forall|r2: int, c2: int| (0 <= r2 < r && 0 <= c2 < res) || (r2 == r && 0 <= c2 < c) ==> if saddle(code_of(inside@, r2, c2, res as int)) {
                    call_ensures(center_inside, (r2 as usize, c2 as usize), #[trigger] ch(r2, c2))
                } else {
                    !ch(r2, c2)
                },
                forall|r2: int, c2: int, k: int|
                    ((0 <= r2 < r && 0 <= c2 < res) || (r2 == r && 0 <= c2 < c)) && 0 <= k < cell_segments(inside@, res as int, ch, r2, c2).len()
                        ==> #[trigger] has_segment(next@, inside@, res as int, ch, r2, c2, k),
                forall|key: u32|
                    #[trigger] next@.contains_key(key) ==> exists|r2: int, c2: int, k: int|
                        ((0 <= r2 < r && 0 <= c2 < res) || (r2 == r && 0 <= c2 < c)) && #[trigger] key_of_segment(key, inside@, res as int, ch, r2, c2, k),
            decreases res - c,
        {
            proof {
                assert(r * stride + c + 1 < n && (r + 1) * stride + c + 1 < n && r * stride <= n && (r + 1) * stride <= n) by (nonlinear_arith)
                    requires
                        r < res,
                        c < res,
                        stride == res + 1,
                        n == (res + 1) * (res + 1),
                ;
            }
            let bl = inside[r * stride + c];
            let br = inside[r * stride + c + 1];
            let tr = inside[(r + 1) * stride + c + 1];
            let tl = inside[(r + 1) * stride + c];
            let code: u8 = (if bl { 1u8 } else { 0u8 }) + (if br { 2u8 } else { 0u8 }) + (if tr {
                4u8
            } else {
                0u8
            }) + (if tl { 8u8 } else { 0u8 });
            proof {
                assert(code == code_of(inside@, r as int, c as int, res as int)) by {
                    assert((r + 1) * stride == (r + 1) * (res + 1));
                }
            }
            let ghost old_ch = ch;
            let center = if code == 5 || code == 10 {
                center_inside(r, c)
            } else {
                false
            };
            proof {
                ch = |r2: int, c2: int| if r2 == r && c2 == c { center } else { old_ch(r2, c2) };
                assert forall|r2: int, c2: int, j: int|
                    ((0 <= r2 < r && 0 <= c2 < res) || (r2 == r && 0 <= c2 < c)) && 0 <= j < cell_segments(inside@, res as int, ch, r2, c2).len()
                        implies #[trigger] has_segment(next@, inside@, res as int, ch, r2, c2, j) by {
                    assert(ch(r2, c2) == old_ch(r2, c2));
                    assert(has_segment(next@, inside@, res as int, old_ch, r2, c2, j));
                }
                assert forall|key: u32| #[trigger] next@.contains_key(key) implies exists|r2: int, c2: int, j: int|
                    (((0 <= r2 < r && 0 <= c2 < res) || (r2 == r && 0 <= c2 < c)) || (r2 == r && c2 == c && j < 0)) && #[trigger] key_of_segment(key, inside@, res as int, ch, r2, c2, j) by {
                    let (r2, c2, j) = choose|r2: int, c2: int, j: int|
                        ((0 <= r2 < r && 0 <= c2 < res) || (r2 == r && 0 <= c2 < c)) && #[trigger] key_of_segment(key, inside@, res as int, old_ch, r2, c2, j);
                    assert(ch(r2, c2) == old_ch(r2, c2));
                    assert(key_of_segment(key, inside@, res as int, ch, r2, c2, j));
                }
            }
            if code != 0 && code != 15 {
                let (segs, ns) = ms_segments(code, center);
                let mut k: usize = 0;
                proof {
                    law_segments_follow_edges(code, center);
                }
                while k < ns as usize
                    invariant
                        0 <= k <= ns,
                        ns as int == ms_table(code, center).len(),
                        forall|j: int| 0 <= j < ns ==> segs@[j] == #[trigger] ms_table(code, center)[j],
                        forall|j: int| 0 <= j < ns ==> (#[trigger] ms_table(code, center)[j]).0 < 4 && ms_table(code, center)[j].1 < 4,
                        r < res,
                        c < res,
                        code == code_of(inside@, r as int, c as int, res as int),
                        ch(r as int, c as int) == center,
                        2 * (res + 1) * (res + 1) <= u32::MAX + 1,
                        cell_segments(inside@, res as int, ch, r as int, c as int) == ms_table(code, center),
                        forall|r2: int, c2: int, j: int|
                            (((0 <= r2 < r && 0 <= c2 < res) || (r2 == r && 0 <= c2 < c)) && 0 <= j < cell_segments(inside@, res as int, ch, r2, c2).len())
                                || (r2 == r && c2 == c && 0 <= j < k)
                                ==> #[trigger] has_segment(next@, inside@, res as int, ch, r2, c2, j),
                        forall|key: u32|
                            #[trigger] next@.contains_key(key) ==> exists|r2: int, c2: int, j: int|
                                (((0 <= r2 < r && 0 <= c2 < res) || (r2 == r && 0 <= c2 < c)) || (r2 == r && c2 == c && j < k)) && #[trigger] key_of_segment(key, inside@, res as int, ch, r2, c2, j),
                    decreases ns - k,
                {
                    let (from, to) = segs[k];
                    assert(segs@[k as int] == ms_table(code, center)[k as int]);
                    assert(ms_table(code, center)[k as int].0 < 4 && ms_table(code, center)[k as int].1 < 4);
                    assert(from < 4 && to < 4);
                    let kf = cell_edge_id(r, c, from, res);
                    let kt = cell_edge_id(r, c, to, res);
                    let ghost before = next@;
                    next.insert(kf, kt);
                    proof {
                        lemma_step_insert(before, next@, inside@, res as int, ch, r as int, c as int, k as int);
                    }
                    k += 1;
                }
            } else {
                proof {
                    assert(ms_table(code, center).len() == 0);
                }
            }
            proof {
                assert forall|r2: int, c2: int| (0 <= r2 < r && 0 <= c2 < res) || (r2 == r && 0 <= c2 < c + 1) implies if saddle(code_of(inside@, r2, c2, res as int)) {
                    call_ensures(center_inside, (r2 as usize, c2 as usize), #[trigger] ch(r2, c2))
                } else {
                    !ch(r2, c2)
                } by {
                    if !(r2 == r && c2 == c) {
                        assert(ch(r2, c2) == old_ch(r2, c2));
                    }
                }
            }
            c += 1;
        }
        r += 1;
    }
    proof {
        assert(chosen(center_inside, ch, inside@, res as int));
        assert(transitions_of(next@, inside@, res as int, ch));
        assert forall|r: int, c: int|
            #![trigger code_of(inside@, r, c, res as int)]
            0 <= r < res && 0 <= c < res implies (saddle(code_of(inside@, r, c, res as int)) ==> exists|b: bool|
                call_ensures(center_inside, (r as usize, c as usize), b) && #[trigger] cell_linked(
                    next@,
                    inside@,
                    res as int,
                    r,
                    c,
                    b,
                )) && (!saddle(code_of(inside@, r, c, res as int)) ==> cell_linked(
                next@,
                inside@,
                res as int,
                r,
                c,
                false,
            )) by {
            law_cells_linked_by_their_own_answer(center_inside, ch, next@, inside@, res as int, r, c);
        }
    }
    next
}

} // verus!
