//! Inside/outside cell grids: 8-neighbour boundary tracing and the outside components.
//!
//! The grid has `RES × RES` cells, cell `i` sitting at row `i / RES`, column `i % RES`.

use vstd::prelude::*;
use std::collections::HashSet;

verus! {

broadcast use vstd::std_specs::hash::group_hash_axioms;

/// Cells per side of the grid.
pub const RES: usize = 1024;

// ==================== Grid geometry ====================

/// Row of cell `i`.
pub open spec fn row_of(i: int) -> int {
    i / (RES as int)
}

/// Column of cell `i`.
pub open spec fn col_of(i: int) -> int {
    i % (RES as int)
}

/// Row step of direction `d`; the eight directions run counter-clockwise from east:
/// E, NE, N, NW, W, SW, S, SE, with north the previous row.
pub open spec fn dir_dr(d: int) -> int {
    if d == 1 || d == 2 || d == 3 {
        -1
    } else if d == 5 || d == 6 || d == 7 {
        1
    } else {
        0
    }
}

/// Column step of direction `d`.
pub open spec fn dir_dc(d: int) -> int {
    if d == 0 || d == 1 || d == 7 {
        1
    } else if d == 3 || d == 4 || d == 5 {
        -1
    } else {
        0
    }
}

/// The cell one step from `i` in direction `d`, if that stays on the grid.
pub open spec fn neighbour8(i: int, d: int) -> Option<usize> {
    let r = row_of(i) + dir_dr(d);
    let c = col_of(i) + dir_dc(d);
    if 0 <= r < RES && 0 <= c < RES {
        Some((r * RES + c) as usize)
    } else {
        None
    }
}

/// The cell one step from `idx` in direction `d`, if that stays on the grid.
pub fn neighbour(idx: usize, d: usize) -> (r: Option<usize>)
    requires
        idx < RES * RES,
        d < 8,
    ensures
        r == neighbour8(idx as int, d as int),
{
    let row = idx / RES;
    let col = idx % RES;
    let up = d == 1 || d == 2 || d == 3;
    let down = d == 5 || d == 6 || d == 7;
    let right = d == 0 || d == 1 || d == 7;
    let left = d == 3 || d == 4 || d == 5;
    if (up && row == 0) || (down && row + 1 >= RES) || (left && col == 0) || (right && col + 1
        >= RES) {
        return None;
    }
    let r = if up {
        row - 1
    } else if down {
        row + 1
    } else {
        row
    };
    let c = if left {
        col - 1
    } else if right {
        col + 1
    } else {
        col
    };
    assert(r * RES + c < RES * RES) by (nonlinear_arith)
        requires
            r < RES,
            c < RES,
            RES == 1024,
    ;
    Some(r * RES + c)
}

// ==================== Boundary tracing ====================

/// The first boundary cell around `cur`, scanning directions `back + i`, `back + i + 1`, …,
/// `back + 8` (mod 8), with the direction it lies in.
pub open spec fn scan(cur: int, back: int, i: int, b: Set<usize>) -> Option<(usize, int)>
    decreases 9 - i,
{
    if i < 1 || i > 8 {
        None
    } else {
        let dir = (back + i) % 8;
        match neighbour8(cur, dir) {
            Some(nb) => if b.contains(nb) {
                Some((nb, dir))
            } else {
                scan(cur, back, i + 1, b)
            },
            None => scan(cur, back, i + 1, b),
        }
    }
}

/// Moore tracing from the path so far, having entered its last cell in direction `entry`,
/// for at most `fuel` more steps: each step takes the first boundary cell counter-clockwise
/// after the way back; the trace stops, without it, on coming back to `start` with more
/// than two cells, or when no boundary cell surrounds the last one.
pub open spec fn trace_from(start: usize, b: Set<usize>, path: Seq<usize>, entry: int, fuel: nat) -> Seq<
    usize,
>
    decreases fuel,
{
    if fuel == 0 || path.len() == 0 {
        path
    } else {
        match scan(path.last() as int, (entry + 4) % 8, 1, b) {
            None => path,
            Some((nb, dir)) => if nb == start && path.len() > 2 {
                path
            } else {
                trace_from(start, b, path.push(nb), dir, (fuel - 1) as nat)
            },
        }
    }
}

/// The Moore trace of boundary `b` from `start`, entered from the west, for at most three
/// steps per boundary cell; nothing for an empty boundary.
pub open spec fn traced(start: usize, b: Set<usize>) -> Seq<usize> {
    if b.len() == 0 {
        seq![]
    } else {
        trace_from(start, b, seq![start], 4, (3 * b.len()) as nat)
    }
}

/// Cells `x` and `y` touch, sides or corners.
pub open spec fn adjacent8(x: usize, y: usize) -> bool {
    exists|d: int| 0 <= d < 8 && #[trigger] neighbour8(x as int, d) == Some(y)
}

/// A path of boundary cells after its first, each touching the one before.
pub open spec fn path_shape(path: Seq<usize>, b: Set<usize>) -> bool {
    &&& forall|k: int| 1 <= k < path.len() ==> b.contains(#[trigger] path[k])
    &&& forall|k: int| 1 <= k < path.len() ==> adjacent8(path[k - 1], #[trigger] path[k])
    &&& forall|k: int| 0 <= k < path.len() ==> #[trigger] path[k] < RES * RES
}

/// A scan result lies in the boundary, in the direction it names.
proof fn lemma_scan(cur: int, back: int, i: int, b: Set<usize>)
    ensures
        match scan(cur, back, i, b) {
            Some((nb, dir)) => b.contains(nb) && 0 <= dir < 8 && neighbour8(cur, dir) == Some(nb),
            None => true,
        },
    decreases 9 - i,
{
    if 1 <= i <= 8 {
        lemma_scan(cur, back, i + 1, b);
    }
}

/// A trace keeps the shape of the path it extends, and grows by at most `fuel` cells.
proof fn lemma_trace_shape(start: usize, b: Set<usize>, path: Seq<usize>, entry: int, fuel: nat)
    requires
        path.len() > 0,
        path_shape(path, b),
    ensures
        path_shape(trace_from(start, b, path, entry, fuel), b),
        path.len() <= trace_from(start, b, path, entry, fuel).len() <= path.len() + fuel,
        trace_from(start, b, path, entry, fuel)[0] == path[0],
    decreases fuel,
{
    if fuel > 0 {
        let cur = path.last() as int;
        lemma_scan(cur, (entry + 4) % 8, 1, b);
        match scan(cur, (entry + 4) % 8, 1, b) {
            None => {},
            Some((nb, dir)) => {
                if !(nb == start && path.len() > 2) {
                    let p2 = path.push(nb);
                    assert(neighbour8(cur, dir) == Some(nb));
                    let last = path.last();
                    assert(adjacent8(last, nb));
                    assert(nb < RES * RES) by {
                        let r = row_of(cur) + dir_dr(dir);
                        let c = col_of(cur) + dir_dc(dir);
                        assert(0 <= r < RES && 0 <= c < RES);
                        assert(r * RES + c < RES * RES) by (nonlinear_arith)
                            requires
                                0 <= r < RES,
                                0 <= c < RES,
                                RES == 1024,
                        ;
                    }
                    assert(path_shape(p2, b)) by {
                        assert forall|k: int| 1 <= k < p2.len() implies adjacent8(
                            p2[k - 1],
                            #[trigger] p2[k],
                        ) by {
                            if k < path.len() {
                                assert(p2[k - 1] == path[k - 1] && p2[k] == path[k]);
                            } else {
                                assert(p2[k - 1] == last);
                            }
                        }
                        assert forall|k: int| 1 <= k < p2.len() implies b.contains(#[trigger] p2[k]) by {
                            if k < path.len() {
                                assert(p2[k] == path[k]);
                            }
                        }
                        assert forall|k: int| 0 <= k < p2.len() implies #[trigger] p2[k] < RES * RES by {
                            if k < path.len() {
                                assert(p2[k] == path[k]);
                            }
                        }
                    }
                    lemma_trace_shape(start, b, p2, dir, (fuel - 1) as nat);
                }
            },
        }
    }
}

/// The first boundary cell around `cur` counter-clockwise after direction `back`.
fn scan_around(cur: usize, back: usize, boundary: &HashSet<usize>) -> (r: Option<(usize, usize)>)
    requires
        cur < RES * RES,
        back < 8,
    ensures
        match r {
            Some((nb, dir)) => scan(cur as int, back as int, 1, boundary@) == Some((nb, dir as int)),
            None => scan(cur as int, back as int, 1, boundary@) is None,
        },
{
    let mut i: usize = 1;
    while i <= 8
        invariant
            1 <= i <= 9,
            cur < RES * RES,
            back < 8,
            scan(cur as int, back as int, 1, boundary@) == scan(cur as int, back as int, i as int, boundary@),
        decreases 9 - i,
    {
        let dir = (back + i) % 8;
        match neighbour(cur, dir) {
            Some(nb) => {
                if boundary.contains(&nb) {
                    return Some((nb, dir));
                }
            },
            None => {},
        }
        i += 1;
    }
    None
}

/// Orders the cells of `boundary` into a loop by Moore tracing from `start`: from each cell
/// the next is the first boundary cell counter-clockwise after the way back, starting as if
/// entered from the west. The loop ends, without repeating `start`, on coming back to it
/// with more than two cells; it also ends when a cell has no boundary neighbour or after
/// three steps per boundary cell. An empty boundary gives an empty loop.
pub fn trace_boundary(start: usize, boundary: &HashSet<usize>) -> (r: Vec<usize>)
    requires
        boundary@.len() > 0 ==> start < RES * RES,
        3 * boundary@.len() <= usize::MAX,
    ensures
        r@ == traced(start, boundary@),
        boundary@.len() == 0 ==> r@ == Seq::<usize>::empty(),
        boundary@.len() > 0 ==> r@.len() > 0 && r@[0] == start,
        r@.len() <= 3 * boundary@.len() + 1,
        path_shape(r@, boundary@),
{
    let n = boundary.len();
    if n == 0 {
        return Vec::new();
    }
    let ghost b = boundary@;
    let limit = n * 3;
    let mut path: Vec<usize> = Vec::new();
    path.push(start);
    let mut entry: usize = 4;
    let mut k: usize = 0;
    proof {
        assert(path_shape(path@, b));
        lemma_trace_shape(start, b, path@, 4, limit as nat);
    }
    while k < limit
        invariant
            b == boundary@,
            b.len() > 0,
            limit == 3 * b.len(),
            k <= limit,
            entry < 8,
            path@.len() > 0,
            path@.len() <= k + 1,
            path@[0] == start,
            path_shape(path@, b),
            trace_from(start, b, path@, entry as int, (limit - k) as nat) == traced(start, b),
        decreases limit - k,
    {
        let cur = path[path.len() - 1];
        let back = (entry + 4) % 8;
        match scan_around(cur, back, boundary) {
            None => {
                return path;
            },
            Some((nb, dir)) => {
                if nb == start && path.len() > 2 {
                    return path;
                }
                proof {
                    lemma_scan(cur as int, back as int, 1, b);
                    lemma_trace_shape(start, b, path@, entry as int, (limit - k) as nat);
                }
                path.push(nb);
                entry = dir;
            },
        }
        k += 1;
    }
    path
}

// ==================== Outside components ====================

/// The side directions in the order they are visited: north, south, west, east.
pub open spec fn side_dir(q: int) -> int {
    if q == 0 {
        2
    } else if q == 1 {
        6
    } else if q == 2 {
        4
    } else {
        0
    }
}

/// The cell across side `q` of cell `i`, if that stays on the grid.
pub open spec fn side_neighbour(i: int, q: int) -> Option<usize> {
    neighbour8(i, side_dir(q))
}

/// Cells `x` and `y` share a side.
pub open spec fn adjacent4(x: usize, y: usize) -> bool {
    exists|q: int| 0 <= q < 4 && #[trigger] side_neighbour(x as int, q) == Some(y)
}

/// Cell `x` is on the grid and outside the shape.
pub open spec fn outside(map: Seq<bool>, x: usize) -> bool {
    x < RES * RES && !map[x as int]
}

/// Cell `x` shares a side with a cell inside the shape.
pub open spec fn touches_inside(map: Seq<bool>, x: usize) -> bool {
    exists|q: int|
        0 <= q < 4 && (#[trigger] side_neighbour(x as int, q) matches Some(y) && map[y as int])
}

/// Cell `k` shares a side with an earlier cell.
pub open spec fn joins_earlier(cells: Seq<usize>, k: int) -> bool {
    exists|j: int| 0 <= j < k && #[trigger] adjacent4(cells[j], cells[k])
}

/// Every cell after the first shares a side with an earlier one.
pub open spec fn connected_order(cells: Seq<usize>) -> bool {
    forall|k: int| 1 <= k < cells.len() ==> #[trigger] joins_earlier(cells, k)
}

/// Every outside cell across a side of one of `cells` is one of them.
pub open spec fn closed_cells(map: Seq<bool>, cells: Seq<usize>) -> bool {
    forall|k: int, q: int|
        0 <= k < cells.len() && 0 <= q < 4 && (#[trigger] side_neighbour(cells[k] as int, q) matches Some(
            z,
        ) && !map[z as int]) ==> cells.contains(side_neighbour(cells[k] as int, q)->0)
}

/// One of `cells` shares a side with an inside cell.
pub open spec fn any_touches(map: Seq<bool>, cells: Seq<usize>) -> bool {
    exists|k: int| 0 <= k < cells.len() && touches_inside(map, #[trigger] cells[k])
}

/// Some cell of the grid is inside the shape.
pub open spec fn has_inside(map: Seq<bool>) -> bool {
    exists|y: int| 0 <= y < RES * RES && #[trigger] map[y]
}

/// The side directions hold grid cells, and sharing a side is symmetric.
proof fn lemma_side(x: usize, q: int)
    requires
        x < RES * RES,
        0 <= q < 4,
    ensures
        side_neighbour(x as int, q) matches Some(y) ==> y < RES * RES && side_neighbour(
            y as int,
            if q == 0 {
                1
            } else if q == 1 {
                0
            } else if q == 2 {
                3
            } else {
                2
            },
        ) == Some(x),
{
    let r = row_of(x as int);
    let c = col_of(x as int);
    assert(x == r * 1024 + c && 0 <= r < 1024 && 0 <= c < 1024) by (nonlinear_arith)
        requires
            x < 1024 * 1024,
            r == x / 1024,
            c == x % 1024,
    ;
    if let Some(y) = side_neighbour(x as int, q) {
        let r2 = r + dir_dr(side_dir(q));
        let c2 = c + dir_dc(side_dir(q));
        assert(0 <= r2 < 1024 && 0 <= c2 < 1024);
        assert(y == r2 * 1024 + c2);
        assert(row_of(y as int) == r2 && col_of(y as int) == c2 && y < 1024 * 1024) by (nonlinear_arith)
            requires
                y == r2 * 1024 + c2,
                0 <= r2 < 1024,
                0 <= c2 < 1024,
        ;
    }
}

/// The cell across side `q` of cell `idx`, if that stays on the grid.
fn side_cell(idx: usize, q: usize) -> (r: Option<usize>)
    requires
        idx < RES * RES,
        q < 4,
    ensures
        r == side_neighbour(idx as int, q as int),
        r matches Some(y) ==> y < RES * RES,
{
    proof {
        lemma_side(idx, q as int);
    }
    let d: usize = if q == 0 {
        2
    } else if q == 1 {
        6
    } else if q == 2 {
        4
    } else {
        0
    };
    neighbour(idx, d)
}

/// A 4-connected set of outside cells with its boundary.
pub struct Component {
    /// The cells, in breadth-first order from the first.
    pub cells: Vec<usize>,
    /// The cells that share a side with an inside cell.
    pub boundary: HashSet<usize>,
    /// The least boundary cell; `RES * RES` when there is none.
    pub first: usize,
}

/// `b` holds grid cells only, and `first` is the least of them, or `RES * RES` when there
/// is none.
pub open spec fn least_or_end(first: usize, b: Set<usize>) -> bool {
    &&& b.contains(first) || first == RES * RES
    &&& forall|x: usize| #[trigger] b.contains(x) ==> first <= x && x < RES * RES
}

/// Distinct cells of the grid number at most `RES * RES`.
proof fn lemma_distinct_cells(s: Seq<usize>)
    requires
        s.no_duplicates(),
        forall|k: int| 0 <= k < s.len() ==> #[trigger] s[k] < RES * RES,
    ensures
        s.len() <= RES * RES,
{
    let t = s.map_values(|x: usize| x as int);
    assert(t.no_duplicates()) by {
        assert forall|i: int, j: int| 0 <= i < t.len() && 0 <= j < t.len() && i != j implies t[i]
            != t[j] by {
            assert(s[i] != s[j]);
        }
    }
    t.unique_seq_to_set();
    let range = vstd::set_lib::set_int_range(0, RES * RES as int);
    vstd::set_lib::lemma_int_range(0, RES * RES as int);
    assert(t.to_set().subset_of(range)) by {
        assert forall|v: int| t.to_set().contains(v) implies range.contains(v) by {
            let k = choose|k: int| 0 <= k < t.len() && t[k] == v;
            assert(s[k] < RES * RES);
        }
    }
    vstd::set_lib::lemma_len_subset(t.to_set(), range);
}

/// What a breadth-first search from `start` keeps: the cells visited are those visited
/// before (`v0`) and those queued; queued cells are distinct outside cells, unvisited
/// before, each after the first sharing a side with an earlier one.
spec fn bfs_inv(map: Seq<bool>, v0: Seq<bool>, visited: Seq<bool>, queue: Seq<usize>, start: usize) -> bool {
    &&& map.len() == RES * RES
    &&& v0.len() == RES * RES
    &&& visited.len() == RES * RES
    &&& queue.len() > 0
    &&& queue[0] == start
    &&& queue.no_duplicates()
    &&& forall|x: int|
        0 <= x < RES * RES ==> #[trigger] visited[x] == (v0[x] || queue.contains(x as usize))
    &&& forall|k: int|
        0 <= k < queue.len() ==> outside(map, #[trigger] queue[k]) && !v0[queue[k] as int]
    &&& connected_order(queue)
}

/// Every outside cell across a side of the first `head` queued cells is visited.
spec fn sides_visited(map: Seq<bool>, visited: Seq<bool>, queue: Seq<usize>, head: int) -> bool {
    forall|k: int, q: int|
        0 <= k < head && 0 <= q < 4 && (#[trigger] side_neighbour(queue[k] as int, q) matches Some(
            z,
        ) && !map[z as int]) ==> visited[side_neighbour(queue[k] as int, q)->0 as int]
}

/// Appending a cell that shares a side with an earlier one keeps the order connected.
proof fn lemma_connected_push(s: Seq<usize>, x: usize, p: int)
    requires
        connected_order(s),
        0 <= p < s.len(),
        adjacent4(s[p], x),
    ensures
        connected_order(s.push(x)),
{
    let t = s.push(x);
    assert forall|k: int| 1 <= k < t.len() implies #[trigger] joins_earlier(t, k) by {
        if k < s.len() {
            assert(t[k] == s[k]);
            assert(joins_earlier(s, k));
            let j = choose|j: int| 0 <= j < k && #[trigger] adjacent4(s[j], s[k]);
            assert(t[j] == s[j]);
            assert(adjacent4(t[j], t[k]));
        } else {
            assert(t[p] == s[p]);
            assert(t[k] == x);
            assert(adjacent4(t[p], t[k]));
        }
    }
}

/// Queues the unvisited outside cell `nidx`, which shares a side with queued cell `parent`.
fn enqueue(
    map: &Vec<bool>,
    visited: &mut Vec<bool>,
    queue: &mut Vec<usize>,
    nidx: usize,
    Ghost(v0): Ghost<Seq<bool>>,
    Ghost(start): Ghost<usize>,
    Ghost(parent): Ghost<int>,
)
    requires
        bfs_inv(map@, v0, old(visited)@, old(queue)@, start),
        outside(map@, nidx),
        !old(visited)@[nidx as int],
        0 <= parent < old(queue)@.len(),
        adjacent4(old(queue)@[parent], nidx),
    ensures
        bfs_inv(map@, v0, final(visited)@, final(queue)@, start),
        final(queue)@ == old(queue)@.push(nidx),
        final(visited)@ == old(visited)@.update(nidx as int, true),
{
    let ghost before = queue@;
    visited.set(nidx, true);
    queue.push(nidx);
    proof {
        assert(!before.contains(nidx));
        assert(queue@ == before.push(nidx));
        assert(queue@[0] == start);
        assert(queue@.no_duplicates()) by {
            assert forall|i: int, j: int| 0 <= i < queue@.len() && 0 <= j < queue@.len() && i != j
                implies queue@[i] != queue@[j] by {
                if i < before.len() && j < before.len() {
                    assert(queue@[i] == before[i] && queue@[j] == before[j]);
                } else if i < before.len() {
                    assert(queue@[i] == before[i]);
                } else if j < before.len() {
                    assert(queue@[j] == before[j]);
                }
            }
        }
        assert forall|x: int| 0 <= x < RES * RES implies #[trigger] visited@[x] == (v0[x]
            || queue@.contains(x as usize)) by {
            if x != nidx as int {
                if queue@.contains(x as usize) {
                    let k = choose|k: int| 0 <= k < queue@.len() && queue@[k] == x as usize;
                    assert(before[k] == x as usize);
                }
                if before.contains(x as usize) {
                    let k = choose|k: int| 0 <= k < before.len() && before[k] == x as usize;
                    assert(queue@[k] == x as usize);
                }
            } else {
                assert(queue@[queue@.len() - 1] == nidx);
            }
        }
        lemma_connected_push(before, nidx, parent);
        assert forall|k: int| 0 <= k < queue@.len() implies outside(map@, #[trigger] queue@[k])
            && !v0[queue@[k] as int] by {
            if k < before.len() {
                assert(queue@[k] == before[k]);
            }
        }
        assert(visited@.len() == RES * RES);
        assert(queue@.len() > 0);
        assert(connected_order(queue@));
    }
}

/// Looks across the four sides of queued cell `idx`: queues its unvisited outside
/// neighbours, and tells whether one of them is inside.
fn visit_sides(
    map: &Vec<bool>,
    visited: &mut Vec<bool>,
    queue: &mut Vec<usize>,
    idx: usize,
    Ghost(v0): Ghost<Seq<bool>>,
    Ghost(start): Ghost<usize>,
    Ghost(pos): Ghost<int>,
) -> (adj: bool)
    requires
        bfs_inv(map@, v0, old(visited)@, old(queue)@, start),
        0 <= pos < old(queue)@.len(),
        old(queue)@[pos] == idx,
    ensures
        bfs_inv(map@, v0, final(visited)@, final(queue)@, start),
        old(queue)@.is_prefix_of(final(queue)@),
        forall|x: int| 0 <= x < RES * RES && old(visited)@[x] ==> #[trigger] final(visited)@[x],
        forall|q: int|
            0 <= q < 4 && (#[trigger] side_neighbour(idx as int, q) matches Some(z) && !map@[z as int])
                ==> final(visited)@[side_neighbour(idx as int, q)->0 as int],
        adj == touches_inside(map@, idx),
{
    let ghost q0 = queue@;
    let ghost w0 = visited@;
    let mut adj = false;
    let mut q: usize = 0;
    assert(outside(map@, q0[pos]));
    while q < 4
        invariant
            bfs_inv(map@, v0, visited@, queue@, start),
            q0.is_prefix_of(queue@),
            0 <= pos < q0.len(),
            q0[pos] == idx,
            idx < RES * RES,
            q <= 4,
            w0.len() == RES * RES,
            forall|x: int| 0 <= x < RES * RES && w0[x] ==> #[trigger] visited@[x],
            forall|q2: int|
                0 <= q2 < q && (#[trigger] side_neighbour(idx as int, q2) matches Some(z)
                    && !map@[z as int]) ==> visited@[side_neighbour(idx as int, q2)->0 as int],
            adj == (exists|q2: int|
                0 <= q2 < q && (#[trigger] side_neighbour(idx as int, q2) matches Some(y)
                    && map@[y as int])),
        decreases 4 - q,
    {
        match side_cell(idx, q) {
            Some(nidx) => {
                if map[nidx] {
                    adj = true;
                } else if !visited[nidx] {
                    proof {
                        assert(queue@[pos] == q0[pos]);
                        assert(side_neighbour(idx as int, q as int) == Some(nidx));
                        assert(adjacent4(queue@[pos], nidx));
                    }
                    let ghost qbefore = queue@;
                    enqueue(map, visited, queue, nidx, Ghost(v0), Ghost(start), Ghost(pos));
                    proof {
                        assert(q0.is_prefix_of(queue@)) by {
                            assert forall|k: int| 0 <= k < q0.len() implies q0[k] == queue@[k] by {
                                assert(queue@[k] == qbefore.push(nidx)[k]);
                                assert(qbefore[k] == q0[k]);
                            }
                        }
                    }
                }
            },
            None => {},
        }
        q += 1;
    }
    adj
}

/// Breadth-first search of the outside cells reachable from `start` across sides, marking
/// them visited; also collects those touching an inside cell, and the least of these.
fn explore(map: &Vec<bool>, visited: &mut Vec<bool>, start: usize) -> (r: Component)
    requires
        map@.len() == RES * RES,
        old(visited)@.len() == RES * RES,
        outside(map@, start),
        !old(visited)@[start as int],
    ensures
        bfs_inv(map@, old(visited)@, final(visited)@, r.cells@, start),
        sides_visited(map@, final(visited)@, r.cells@, r.cells@.len() as int),
        forall|x: usize|
            #[trigger] r.boundary@.contains(x) == (r.cells@.contains(x) && touches_inside(map@, x)),
        least_or_end(r.first, r.boundary@),
{
    let ghost v0 = visited@;
    let n: usize = RES * RES;
    let mut queue: Vec<usize> = Vec::new();
    queue.push(start);
    visited.set(start, true);
    let mut head: usize = 0;
    let mut boundary: HashSet<usize> = HashSet::new();
    let mut first: usize = n;
    proof {
        assert(queue@ =~= seq![start]);
        assert forall|x: int| 0 <= x < RES * RES implies #[trigger] visited@[x] == (v0[x]
            || queue@.contains(x as usize)) by {
            if x == start as int {
                assert(queue@[0] == start);
            } else {
                assert(!queue@.contains(x as usize)) by {
                    if queue@.contains(x as usize) {
                        let k = choose|k: int| 0 <= k < queue@.len() && queue@[k] == x as usize;
                        assert(queue@[k] == start);
                    }
                }
            }
        }
        assert(boundary@.len() == 0);
    }
    while head < queue.len()
        invariant
            bfs_inv(map@, v0, visited@, queue@, start),
            n == RES * RES,
            head <= queue@.len(),
            sides_visited(map@, visited@, queue@, head as int),
            forall|x: usize|
                #[trigger] boundary@.contains(x) == (exists|k: int|
                    0 <= k < head && queue@[k] == x && touches_inside(map@, x)),
            least_or_end(first, boundary@),
        decreases RES * RES - head,
    {
        proof {
            lemma_distinct_cells(queue@);
        }
        let ghost qb = queue@;
        let ghost wb = visited@;
        let idx = queue[head];
        let adj = visit_sides(map, visited, &mut queue, idx, Ghost(v0), Ghost(start), Ghost(head as int));
        head += 1;
        proof {
            assert forall|k: int, q: int|
                0 <= k < head && 0 <= q < 4 && (#[trigger] side_neighbour(queue@[k] as int, q) matches Some(
                    z,
                ) && !map@[z as int]) implies visited@[side_neighbour(queue@[k] as int, q)->0 as int] by {
                assert(queue@[k] == qb[k]);
                if k < head - 1 {
                    let z = side_neighbour(queue@[k] as int, q)->0;
                    lemma_side(queue@[k], q);
                    assert(wb[z as int]);
                }
            }
        }
        if adj {
            boundary.insert(idx);
            if idx < first {
                first = idx;
            }
        }
        proof {
            assert forall|x: usize| #[trigger] boundary@.contains(x) == (exists|k: int|
                0 <= k < head && queue@[k] == x && touches_inside(map@, x)) by {
                if exists|k: int| 0 <= k < head && queue@[k] == x && touches_inside(map@, x) {
                    let k = choose|k: int| 0 <= k < head && queue@[k] == x && touches_inside(map@, x);
                    assert(queue@[k] == qb[k]);
                    if k < head - 1 {
                        assert(exists|k2: int| 0 <= k2 < head - 1 && qb[k2] == x && touches_inside(map@, x));
                    }
                }
                if x == idx && adj {
                    assert(queue@[head - 1] == x);
                }
                if exists|k2: int| 0 <= k2 < head - 1 && qb[k2] == x && touches_inside(map@, x) {
                    let k2 = choose|k2: int| 0 <= k2 < head - 1 && qb[k2] == x && touches_inside(map@, x);
                    assert(queue@[k2] == qb[k2]);
                }
            }
        }
    }
    proof {
        assert forall|x: usize| #[trigger] boundary@.contains(x) == (queue@.contains(x)
            && touches_inside(map@, x)) by {
            if queue@.contains(x) {
                let k = choose|k: int| 0 <= k < queue@.len() && queue@[k] == x;
                if touches_inside(map@, x) {
                    assert(exists|k2: int| 0 <= k2 < head && queue@[k2] == x && touches_inside(map@, x));
                }
            }
        }
    }
    Component { cells: queue, boundary, first }
}

/// A component as `outside_components` returns it: its cells are distinct outside cells,
/// 4-connected (in breadth-first order) and closed across sides among outside cells, so
/// that they are exactly one connected region of outside cells; its boundary holds those
/// of them that share a side with an inside cell, at least one, and `first` is the least.
pub open spec fn component_wf(map: Seq<bool>, c: Component) -> bool {
    &&& c.cells@.len() > 0
    &&& c.cells@.no_duplicates()
    &&& forall|k: int| 0 <= k < c.cells@.len() ==> outside(map, #[trigger] c.cells@[k])
    &&& connected_order(c.cells@)
    &&& closed_cells(map, c.cells@)
    &&& forall|x: usize|
        #[trigger] c.boundary@.contains(x) == (c.cells@.contains(x) && touches_inside(map, x))
    &&& least_or_end(c.first, c.boundary@)
    &&& c.first < RES * RES
}

/// Cell `(r, c)` of the grid.
proof fn lemma_cell(r: int, c: int)
    requires
        0 <= r < RES,
        0 <= c < RES,
    ensures
        0 <= r * RES + c < RES * RES,
        row_of(r * RES + c) == r,
        col_of(r * RES + c) == c,
{
    assert(0 <= r * 1024 + c < 1024 * 1024 && (r * 1024 + c) / 1024 == r && (r * 1024 + c) % 1024
        == c) by (nonlinear_arith)
        requires
            0 <= r < 1024,
            0 <= c < 1024,
    ;
}

/// Cell `x` of the grid has a row and a column.
proof fn lemma_coords(x: usize)
    requires
        x < RES * RES,
    ensures
        0 <= row_of(x as int) < RES,
        0 <= col_of(x as int) < RES,
        x == row_of(x as int) * RES + col_of(x as int),
{
    assert(0 <= x / 1024 < 1024 && x == (x / 1024) * 1024 + x % 1024) by (nonlinear_arith)
        requires
            x < 1024 * 1024,
    ;
}

/// A set of cells closed across every side holds, with one cell, its whole row.
proof fn lemma_fill_row(s: Seq<usize>, r: int, c0: int, c: int)
    requires
        0 <= r < RES,
        0 <= c0 < RES,
        0 <= c < RES,
        s.contains((r * RES + c0) as usize),
        forall|k: int, q: int|
            0 <= k < s.len() && 0 <= q < 4 && (#[trigger] side_neighbour(s[k] as int, q) is Some)
                ==> s.contains(side_neighbour(s[k] as int, q)->0),
    ensures
        s.contains((r * RES + c) as usize),
    decreases if c >= c0 { c - c0 } else { c0 - c },
{
    if c != c0 {
        let step = if c > c0 { c - 1 } else { c + 1 };
        lemma_fill_row(s, r, c0, step);
        lemma_cell(r, step);
        lemma_cell(r, c);
        let x = (r * RES + step) as usize;
        let k = choose|k: int| 0 <= k < s.len() && s[k] == x;
        let q = if c > c0 { 3int } else { 2int };
        assert(side_neighbour(s[k] as int, q) == Some((r * RES + c) as usize));
    }
}

/// A set of cells closed across every side holds, with one cell, its whole column.
proof fn lemma_fill_col(s: Seq<usize>, r0: int, r: int, c: int)
    requires
        0 <= r0 < RES,
        0 <= r < RES,
        0 <= c < RES,
        s.contains((r0 * RES + c) as usize),
        forall|k: int, q: int|
            0 <= k < s.len() && 0 <= q < 4 && (#[trigger] side_neighbour(s[k] as int, q) is Some)
                ==> s.contains(side_neighbour(s[k] as int, q)->0),
    ensures
        s.contains((r * RES + c) as usize),
    decreases if r >= r0 { r - r0 } else { r0 - r },
{
    if r != r0 {
        let step = if r > r0 { r - 1 } else { r + 1 };
        lemma_fill_col(s, r0, step, c);
        lemma_cell(step, c);
        lemma_cell(r, c);
        let x = (step * RES + c) as usize;
        let k = choose|k: int| 0 <= k < s.len() && s[k] == x;
        let q = if r > r0 { 1int } else { 0int };
        assert(side_neighbour(s[k] as int, q) == Some((r * RES + c) as usize));
    }
}

/// A non-empty set of cells closed across every side is the whole grid.
proof fn lemma_fill(s: Seq<usize>, x0: usize, y: usize)
    requires
        s.contains(x0),
        x0 < RES * RES,
        y < RES * RES,
        forall|k: int, q: int|
            0 <= k < s.len() && 0 <= q < 4 && (#[trigger] side_neighbour(s[k] as int, q) is Some)
                ==> s.contains(side_neighbour(s[k] as int, q)->0),
    ensures
        s.contains(y),
{
    lemma_coords(x0);
    lemma_coords(y);
    let r0 = row_of(x0 as int);
    let c0 = col_of(x0 as int);
    let r = row_of(y as int);
    let c = col_of(y as int);
    lemma_fill_row(s, r0, c0, c);
    lemma_fill_col(s, r0, r, c);
}

/// Outside cells none of which touches an inside cell, closed across sides among outside
/// cells, cannot exist beside an inside cell.
proof fn lemma_no_boundary(map: Seq<bool>, cells: Seq<usize>)
    requires
        map.len() == RES * RES,
        cells.len() > 0,
        forall|k: int| 0 <= k < cells.len() ==> outside(map, #[trigger] cells[k]),
        closed_cells(map, cells),
        !any_touches(map, cells),
    ensures
        !has_inside(map),
{
    assert forall|k: int, q: int|
        0 <= k < cells.len() && 0 <= q < 4 && (#[trigger] side_neighbour(cells[k] as int, q) is Some)
            implies cells.contains(side_neighbour(cells[k] as int, q)->0) by {
        let z = side_neighbour(cells[k] as int, q)->0;
        assert(!touches_inside(map, cells[k]));
        assert(!map[z as int]);
    }
    if has_inside(map) {
        let y = choose|y: int| 0 <= y < RES * RES && #[trigger] map[y];
        assert(outside(map, cells[0]));
        lemma_fill(cells, cells[0], y as usize);
        let k = choose|k: int| 0 <= k < cells.len() && cells[k] == y as usize;
        assert(outside(map, cells[k]));
    }
}

/// A component just explored from an unvisited outside cell is closed across sides, given
/// that the cells visited before made up closed components.
proof fn lemma_new_component(
    map: Seq<bool>,
    v0: Seq<bool>,
    v1: Seq<bool>,
    all: Seq<Seq<usize>>,
    c: Seq<usize>,
    start: usize,
)
    requires
        bfs_inv(map, v0, v1, c, start),
        sides_visited(map, v1, c, c.len() as int),
        forall|x: int|
            0 <= x < RES * RES ==> #[trigger] v0[x] == exists|i: int|
                0 <= i < all.len() && #[trigger] all[i].contains(x as usize),
        forall|i: int|
            #![trigger all[i]]
            0 <= i < all.len() ==> all[i].len() > 0 && closed_cells(map, all[i]) && (forall|k: int|
                0 <= k < all[i].len() ==> outside(map, #[trigger] all[i][k])),
    ensures
        closed_cells(map, c),
{
    assert forall|k: int, q: int|
        0 <= k < c.len() && 0 <= q < 4 && (#[trigger] side_neighbour(c[k] as int, q) matches Some(z)
            && !map[z as int]) implies c.contains(side_neighbour(c[k] as int, q)->0) by {
        let z = side_neighbour(c[k] as int, q)->0;
        assert(outside(map, c[k]));
        lemma_side(c[k], q);
        assert(v1[z as int]);
        if !c.contains(z) {
            assert(v0[z as int]);
            let i = choose|i: int| 0 <= i < all.len() && #[trigger] all[i].contains(z);
            let kz = choose|kz: int| 0 <= kz < all[i].len() && all[i][kz] == z;
            let q2: int = if q == 0 {
                1
            } else if q == 1 {
                0
            } else if q == 2 {
                3
            } else {
                2
            };
            assert(side_neighbour(all[i][kz] as int, q2) == Some(c[k]));
            assert(all[i].contains(c[k]));
            assert(v0[c[k] as int]);
        }
    }
}

/// The 4-connected regions of outside cells (`map[i]` false) that share a side with an
/// inside cell, in the order of their least cell, each with its boundary cells and the
/// least of those. Every outside cell lies in exactly one of them, unless no cell is
/// inside at all: then there is none.
pub fn outside_components(map: &Vec<bool>) -> (r: Vec<Component>)
    requires
        map@.len() == RES * RES,
    ensures
        forall|k: int| 0 <= k < r@.len() ==> component_wf(map@, #[trigger] r@[k]),
        forall|k: int, j: int|
            0 <= k < r@.len() && 0 <= j < r@[k].cells@.len() ==> r@[k].cells@[0] <= #[trigger] r@[k].cells@[j],
        forall|k1: int, k2: int|
            0 <= k1 < k2 < r@.len() ==> #[trigger] r@[k1].cells@[0] < #[trigger] r@[k2].cells@[0],
        forall|k1: int, k2: int, x: usize|
            0 <= k1 < r@.len() && 0 <= k2 < r@.len() && k1 != k2 && #[trigger] r@[k1].cells@.contains(x)
                ==> !#[trigger] r@[k2].cells@.contains(x),
        has_inside(map@) ==> forall|x: usize|
            outside(map@, x) ==> exists|k: int| 0 <= k < r@.len() && #[trigger] r@[k].cells@.contains(x),
        !has_inside(map@) ==> r@.len() == 0,
{
    let n: usize = RES * RES;
    let mut visited: Vec<bool> = Vec::new();
    while visited.len() < n
        invariant
            n == RES * RES,
            visited@.len() <= n,
            forall|x: int| 0 <= x < visited@.len() ==> !#[trigger] visited@[x],
        decreases n - visited@.len(),
    {
        visited.push(false);
    }
    let mut comps: Vec<Component> = Vec::new();
    let ghost mut all: Seq<Seq<usize>> = seq![];
    let ghost mut slot: Seq<int> = seq![];
    let ghost mut back: Seq<int> = seq![];
    let mut start: usize = 0;
    while start < n
        invariant
            n == RES * RES,
            map@.len() == RES * RES,
            visited@.len() == RES * RES,
            start <= n,
            forall|x: int|
                0 <= x < RES * RES ==> #[trigger] visited@[x] == exists|i: int|
                    0 <= i < all.len() && #[trigger] all[i].contains(x as usize),
            forall|i: int|
                #![trigger all[i]]
                0 <= i < all.len() ==> all[i].len() > 0 && closed_cells(map@, all[i]) && (forall|
                    k: int,
                | 0 <= k < all[i].len() ==> outside(map@, #[trigger] all[i][k])),
            forall|x: int| 0 <= x < start && !map@[x] ==> #[trigger] visited@[x],
            forall|k: int| 0 <= k < comps@.len() ==> component_wf(map@, #[trigger] comps@[k]),
            forall|k: int, j: int|
                0 <= k < comps@.len() && 0 <= j < comps@[k].cells@.len() ==> comps@[k].cells@[0] <= #[trigger] comps@[k].cells@[j],
            forall|k1: int, k2: int|
                0 <= k1 < k2 < comps@.len() ==> #[trigger] comps@[k1].cells@[0] < #[trigger] comps@[k2].cells@[0],
            forall|k: int| 0 <= k < comps@.len() ==> #[trigger] comps@[k].cells@[0] < start,
            slot.len() == comps@.len(),
            forall|k: int|
                0 <= k < comps@.len() ==> 0 <= #[trigger] slot[k] < all.len() && all[slot[k]]
                    == comps@[k].cells@,
            forall|k1: int, k2: int, x: usize|
                0 <= k1 < comps@.len() && 0 <= k2 < comps@.len() && k1 != k2
                    && #[trigger] comps@[k1].cells@.contains(x) ==> !#[trigger] comps@[k2].cells@.contains(x),
            back.len() == all.len(),
            forall|i: int|
                0 <= i < all.len() && any_touches(map@, #[trigger] all[i]) ==> 0 <= back[i]
                    < comps@.len() && comps@[back[i]].cells@ == all[i],
        decreases n - start,
    {
        if !visited[start] && !map[start] {
            let ghost v0 = visited@;
            let ghost old_all = all;
            let ghost old_comps = comps@;
            let ghost old_slot = slot;
            let ghost old_back = back;
            let comp = explore(map, &mut visited, start);
            let ghost c = comp.cells@;
            proof {
                lemma_new_component(map@, v0, visited@, old_all, c, start);
                all = old_all.push(c);
                assert(all[old_all.len() as int] == c);
                assert forall|x: int| 0 <= x < RES * RES implies #[trigger] visited@[x] == exists|i: int|
                    0 <= i < all.len() && #[trigger] all[i].contains(x as usize) by {
                    if v0[x] {
                        let i = choose|i: int| 0 <= i < old_all.len() && #[trigger] old_all[i].contains(x as usize);
                        assert(all[i] == old_all[i]);
                    }
                    if exists|i: int| 0 <= i < all.len() && #[trigger] all[i].contains(x as usize) {
                        let i = choose|i: int| 0 <= i < all.len() && #[trigger] all[i].contains(x as usize);
                        if i < old_all.len() {
                            assert(all[i] == old_all[i]);
                        }
                    }
                }
                assert forall|i: int| #![trigger all[i]] 0 <= i < all.len() implies all[i].len() > 0
                    && closed_cells(map@, all[i]) && (forall|k: int| 0 <= k < all[i].len() ==> outside(
                    map@,
                    #[trigger] all[i][k],
                )) by {
                    if i < old_all.len() {
                        assert(all[i] == old_all[i]);
                    }
                }
                // the cells of earlier components were visited, those of the new one were not
                assert forall|k: int, x: usize| 0 <= k < old_comps.len() && #[trigger] old_comps[k].cells@.contains(x)
                    implies !c.contains(x) by {
                    let i = old_slot[k];
                    let j = choose|j: int| 0 <= j < old_comps[k].cells@.len() && old_comps[k].cells@[j] == x;
                    assert(outside(map@, old_comps[k].cells@[j]));
                    assert(old_all[i].contains(x));
                    assert(old_all[i].contains((x as int) as usize));
                    assert(x < RES * RES);
                    assert(v0[x as int]);
                    if c.contains(x) {
                        let t = choose|t: int| 0 <= t < c.len() && c[t] == x;
                        assert(!v0[c[t] as int]);
                    }
                }
                if comp.first == n {
                    if any_touches(map@, c) {
                        let k = choose|k: int| 0 <= k < c.len() && touches_inside(map@, #[trigger] c[k]);
                        assert(comp.boundary@.contains(c[k]));
                    }
                } else {
                    assert(comp.boundary@.contains(comp.first));
                    let t = choose|t: int| 0 <= t < c.len() && c[t] == comp.first;
                    assert(touches_inside(map@, c[t]));
                    assert(any_touches(map@, c));
                }
            }
            proof {
                assert forall|j: int| 0 <= j < c.len() implies start <= #[trigger] c[j] by {
                    assert(outside(map@, c[j]) && !v0[c[j] as int]);
                }
            }
            if comp.first < n {
                comps.push(comp);
                proof {
                    let last = comps@.len() - 1;
                    assert forall|k: int, j: int|
                        0 <= k < comps@.len() && 0 <= j < comps@[k].cells@.len() implies comps@[k].cells@[0] <= #[trigger] comps@[k].cells@[j] by {
                        if k < last {
                            assert(comps@[k] == old_comps[k]);
                        }
                    }
                    assert forall|k1: int, k2: int|
                        0 <= k1 < k2 < comps@.len() implies #[trigger] comps@[k1].cells@[0] < #[trigger] comps@[k2].cells@[0] by {
                        assert(comps@[k1] == old_comps[k1]);
                        if k2 < last {
                            assert(comps@[k2] == old_comps[k2]);
                        }
                    }
                    assert forall|k: int| 0 <= k < comps@.len() implies #[trigger] comps@[k].cells@[0] < start + 1 by {
                        if k < last {
                            assert(comps@[k] == old_comps[k]);
                        }
                    }
                    assert(comps@[last].cells@ == c);
                    assert(component_wf(map@, comps@[last]));
                    slot = old_slot.push(old_all.len() as int);
                    back = old_back.push(last);
                    assert forall|k: int| 0 <= k < comps@.len() implies 0 <= #[trigger] slot[k]
                        < all.len() && all[slot[k]] == comps@[k].cells@ by {
                        if k < last {
                            assert(comps@[k] == old_comps[k]);
                            assert(all[old_slot[k]] == old_all[old_slot[k]]);
                        }
                    }
                    assert forall|k1: int, k2: int, x: usize|
                        0 <= k1 < comps@.len() && 0 <= k2 < comps@.len() && k1 != k2
                            && #[trigger] comps@[k1].cells@.contains(x) implies !#[trigger] comps@[k2].cells@.contains(x) by {
                        if k1 < last && k2 < last {
                            assert(comps@[k1] == old_comps[k1] && comps@[k2] == old_comps[k2]);
                        } else if k1 < last {
                            assert(comps@[k1] == old_comps[k1]);
                        } else {
                            assert(comps@[k2] == old_comps[k2]);
                        }
                    }
                    assert forall|i: int|
                        0 <= i < all.len() && any_touches(map@, #[trigger] all[i]) implies 0 <= back[i]
                            < comps@.len() && comps@[back[i]].cells@ == all[i] by {
                        if i < old_all.len() {
                            assert(all[i] == old_all[i]);
                            assert(comps@[old_back[i]] == old_comps[old_back[i]]);
                        }
                    }
                }
            } else {
                proof {
                    back = old_back.push(-1);
                    assert forall|i: int|
                        0 <= i < all.len() && any_touches(map@, #[trigger] all[i]) implies 0 <= back[i]
                            < comps@.len() && comps@[back[i]].cells@ == all[i] by {
                        if i < old_all.len() {
                            assert(all[i] == old_all[i]);
                        } else {
                            assert(all[i] == c);
                        }
                    }
                    assert forall|k: int| 0 <= k < comps@.len() implies 0 <= #[trigger] slot[k]
                        < all.len() && all[slot[k]] == comps@[k].cells@ by {
                        assert(all[old_slot[k]] == old_all[old_slot[k]]);
                    }
                }
            }
        }
        start += 1;
    }
    proof {
        if has_inside(map@) {
            assert forall|x: usize| outside(map@, x) implies exists|k: int|
                0 <= k < comps@.len() && #[trigger] comps@[k].cells@.contains(x) by {
                assert(visited@[x as int]);
                let i = choose|i: int| 0 <= i < all.len() && #[trigger] all[i].contains(x);
                if any_touches(map@, all[i]) {
                    assert(comps@[back[i]].cells@ == all[i]);
                } else {
                    lemma_no_boundary(map@, all[i]);
                }
            }
        } else {
            if comps@.len() > 0 {
                let c0 = comps@[0];
                assert(component_wf(map@, c0));
                assert(c0.boundary@.contains(c0.first));
            }
        }
    }
    comps
}

// ==================== Ordering and tracing ====================

/// `p` lists the indices of `a` by value, largest first, equal values in index order.
pub open spec fn sorted_desc(p: Seq<usize>, a: Seq<usize>) -> bool {
    &&& p.len() == a.len()
    &&& p.no_duplicates()
    &&& forall|k: int| 0 <= k < p.len() ==> #[trigger] p[k] < a.len()
    &&& forall|i: int, j: int|
        0 <= i < j < p.len() ==> a[#[trigger] p[i] as int] > a[#[trigger] p[j] as int] || (a[p[i] as int]
            == a[p[j] as int] && p[i] < p[j])
}

/// The indices of `a` by value, largest first, equal values in index order.
pub fn order_desc(a: &Vec<usize>) -> (p: Vec<usize>)
    ensures
        sorted_desc(p@, a@),
{
    let mut p: Vec<usize> = Vec::new();
    let mut i: usize = 0;
    while i < a.len()
        invariant
            i <= a.len(),
            p@.len() == i,
            p@.no_duplicates(),
            forall|k: int| 0 <= k < p@.len() ==> #[trigger] p@[k] < i,
            forall|x: int, y: int|
                0 <= x < y < p@.len() ==> a@[#[trigger] p@[x] as int] > a@[#[trigger] p@[y] as int]
                    || (a@[p@[x] as int] == a@[p@[y] as int] && p@[x] < p@[y]),
        decreases a.len() - i,
    {
        let v = a[i];
        let mut pos: usize = 0;
        while pos < p.len() && a[p[pos]] >= v
            invariant
                pos <= p@.len(),
                i < a.len(),
                v == a@[i as int],
                forall|k: int| 0 <= k < p@.len() ==> #[trigger] p@[k] < i,
                forall|k: int| 0 <= k < pos ==> a@[#[trigger] p@[k] as int] >= v,
            decreases p@.len() - pos,
        {
            pos += 1;
        }
        let ghost old_p = p@;
        p.insert(pos, i);
        proof {
            assert(p@ == old_p.insert(pos as int, i));
            assert forall|k: int| 0 <= k < p@.len() implies #[trigger] p@[k] < i + 1 by {
                if k < pos {
                    assert(p@[k] == old_p[k]);
                } else if k > pos {
                    assert(p@[k] == old_p[k - 1]);
                }
            }
            // everything from `pos` on was strictly smaller than `v` (the prefix is sorted)
            assert forall|k: int| pos <= k < old_p.len() implies a@[#[trigger] old_p[k] as int] < v by {
                if pos < old_p.len() {
                    assert(!(a@[old_p[pos as int] as int] >= v));
                    if k > pos {
                        assert(a@[old_p[pos as int] as int] > a@[old_p[k] as int] || (a@[old_p[pos as int] as int]
                            == a@[old_p[k] as int] && old_p[pos as int] < old_p[k]));
                    }
                }
            }
            assert(p@.no_duplicates()) by {
                assert forall|x: int, y: int| 0 <= x < p@.len() && 0 <= y < p@.len() && x != y implies p@[x]
                    != p@[y] by {
                    let ox = if x < pos { x } else { x - 1 };
                    let oy = if y < pos { y } else { y - 1 };
                    if x != pos as int && y != pos as int {
                        assert(p@[x] == old_p[ox] && p@[y] == old_p[oy]);
                    } else if x == pos as int {
                        assert(p@[y] == old_p[oy]);
                    } else {
                        assert(p@[x] == old_p[ox]);
                    }
                }
            }
            assert forall|x: int, y: int|
                0 <= x < y < p@.len() implies a@[#[trigger] p@[x] as int] > a@[#[trigger] p@[y] as int]
                    || (a@[p@[x] as int] == a@[p@[y] as int] && p@[x] < p@[y]) by {
                if y < pos {
                    assert(p@[x] == old_p[x] && p@[y] == old_p[y]);
                } else if y == pos {
                    assert(p@[x] == old_p[x]);
                    assert(a@[old_p[x] as int] >= v);
                    assert(old_p[x] < i);
                } else if x < pos {
                    assert(p@[x] == old_p[x] && p@[y] == old_p[y - 1]);
                } else if x == pos {
                    assert(p@[y] == old_p[y - 1]);
                    assert(a@[old_p[y - 1] as int] < v);
                } else {
                    assert(p@[x] == old_p[x - 1] && p@[y] == old_p[y - 1]);
                }
            }
        }
        i += 1;
    }
    p
}

/// The boundary of a component holds at most `RES * RES` cells.
proof fn lemma_boundary_len(map: Seq<bool>, c: Component)
    requires
        component_wf(map, c),
    ensures
        c.boundary@.len() <= RES * RES,
        c.boundary@.finite(),
{
    let cs = c.cells@.to_set();
    c.cells@.unique_seq_to_set();
    assert forall|k: int| 0 <= k < c.cells@.len() implies #[trigger] c.cells@[k] < RES * RES by {
        assert(outside(map, c.cells@[k]));
    }
    lemma_distinct_cells(c.cells@);
    assert(c.boundary@.subset_of(cs));
    vstd::set_lib::lemma_len_subset(c.boundary@, cs);
}

/// The areas (cell counts) of the components.
pub open spec fn areas(comps: Seq<Component>) -> Seq<usize> {
    comps.map_values(|c: Component| c.cells@.len() as usize)
}

/// The boundary loop of each component of `map`, largest component first (equal sizes in
/// the given order), each traced from its least boundary cell.
pub fn boundary_loops(map: &Vec<bool>, comps: &Vec<Component>) -> (r: Vec<Vec<usize>>)
    requires
        forall|k: int| 0 <= k < comps@.len() ==> component_wf(map@, #[trigger] comps@[k]),
    ensures
        exists|p: Seq<usize>|
            sorted_desc(p, areas(comps@)) && r@.len() == p.len() && forall|k: int|
                0 <= k < p.len() ==> (#[trigger] r@[k])@ == traced(comps@[p[k] as int].first, comps@[p[k] as int].boundary@),
{
    let mut sizes: Vec<usize> = Vec::new();
    let mut i: usize = 0;
    while i < comps.len()
        invariant
            i <= comps@.len(),
            sizes@ == areas(comps@).take(i as int),
        decreases comps@.len() - i,
    {
        sizes.push(comps[i].cells.len());
        proof {
            assert(areas(comps@).take(i + 1) =~= areas(comps@).take(i as int).push(comps@[i as int].cells@.len() as usize));
        }
        i += 1;
    }
    proof {
        assert(areas(comps@).take(comps@.len() as int) =~= areas(comps@));
    }
    let order = order_desc(&sizes);
    let mut loops: Vec<Vec<usize>> = Vec::new();
    let mut k: usize = 0;
    while k < order.len()
        invariant
            sorted_desc(order@, areas(comps@)),
            sizes@ == areas(comps@),
            forall|j: int| 0 <= j < comps@.len() ==> component_wf(map@, #[trigger] comps@[j]),
            k <= order@.len(),
            loops@.len() == k,
            forall|t: int|
                0 <= t < k ==> (#[trigger] loops@[t])@ == traced(comps@[order@[t] as int].first, comps@[order@[t] as int].boundary@),
        decreases order@.len() - k,
    {
        let j = order[k];
        assert(j < comps@.len());
        let c = &comps[j];
        proof {
            assert(component_wf(map@, comps@[j as int]));
            lemma_boundary_len(map@, comps@[j as int]);
        }
        let lp = trace_boundary(c.first, &c.boundary);
        loops.push(lp);
        k += 1;
    }
    loops
}

// ==================== Runs ====================

/// `runs` cuts `0..n` into consecutive non-empty ranges `(start, end, flag)`, in order, each
/// holding one value of `flags`, and two neighbouring ranges holding different values: the
/// maximal runs of equal flags.
pub open spec fn maximal_runs(runs: Seq<(usize, usize, bool)>, flags: Seq<bool>) -> bool {
    &&& runs.len() == 0 <==> flags.len() == 0
    &&& runs.len() > 0 ==> runs[0].0 == 0 && runs.last().1 == flags.len()
    &&& forall|k: int| 0 <= k < runs.len() ==> #[trigger] runs[k].0 < runs[k].1
    &&& forall|k: int| 1 <= k < runs.len() ==> #[trigger] runs[k].0 == runs[k - 1].1
    &&& forall|k: int, j: int|
        0 <= k < runs.len() && runs[k].0 <= j < runs[k].1 ==> #[trigger] flags[j] == #[trigger] runs[k].2
    &&& forall|k: int| 1 <= k < runs.len() ==> #[trigger] runs[k].2 != runs[k - 1].2
}

/// The maximal runs of equal values in `flags`, as `(start, end, flag)` with `end`
/// exclusive.
pub fn runs_of(flags: &Vec<bool>) -> (r: Vec<(usize, usize, bool)>)
    ensures
        maximal_runs(r@, flags@),
{
    let mut runs: Vec<(usize, usize, bool)> = Vec::new();
    let mut j: usize = 0;
    while j < flags.len()
        invariant
            j <= flags@.len(),
            runs@.len() == 0 <==> j == 0,
            runs@.len() > 0 ==> runs@[0].0 == 0 && runs@.last().1 == j,
            forall|k: int| 0 <= k < runs@.len() ==> #[trigger] runs@[k].0 < runs@[k].1,
            forall|k: int| 1 <= k < runs@.len() ==> #[trigger] runs@[k].0 == runs@[k - 1].1,
            forall|k: int, t: int|
                0 <= k < runs@.len() && runs@[k].0 <= t < runs@[k].1 ==> #[trigger] flags@[t]
                    == #[trigger] runs@[k].2,
            forall|k: int| 1 <= k < runs@.len() ==> #[trigger] runs@[k].2 != runs@[k - 1].2,
            runs@.len() > 0 && j < flags@.len() ==> flags@[j as int] != runs@.last().2,
        decreases flags@.len() - j,
    {
        let flag = flags[j];
        let start = j;
        while j < flags.len() && flags[j] == flag
            invariant
                start < j || start == j,
                start <= j <= flags@.len(),
                start < flags@.len(),
                flags@[start as int] == flag,
                forall|t: int| start <= t < j ==> #[trigger] flags@[t] == flag,
            decreases flags@.len() - j,
        {
            j += 1;
        }
        let ghost before = runs@;
        runs.push((start, j, flag));
        proof {
            assert(runs@ == before.push((start, j, flag)));
            assert forall|k: int, t: int|
                0 <= k < runs@.len() && runs@[k].0 <= t < runs@[k].1 implies #[trigger] flags@[t]
                    == #[trigger] runs@[k].2 by {
                if k < before.len() {
                    assert(runs@[k] == before[k]);
                }
            }
            assert forall|k: int| 1 <= k < runs@.len() implies #[trigger] runs@[k].0 == runs@[k - 1].1 by {
                if k < before.len() {
                    assert(runs@[k] == before[k] && runs@[k - 1] == before[k - 1]);
                }
            }
            assert forall|k: int| 1 <= k < runs@.len() implies #[trigger] runs@[k].2 != runs@[k - 1].2 by {
                if k < before.len() {
                    assert(runs@[k] == before[k] && runs@[k - 1] == before[k - 1]);
                }
            }
            assert forall|k: int| 0 <= k < runs@.len() implies #[trigger] runs@[k].0 < runs@[k].1 by {
                if k < before.len() {
                    assert(runs@[k] == before[k]);
                }
            }
        }
    }
    runs
}

} // verus!
