//! Sketch membership checked point by point; the disks are built and evaluated here the
//! way the geometry side does (`a|x|² + b·x + c ≤ 0`).

use cadrum::common::sketch::{trace_pieces, Disk, Sketch};

fn disk(a: f64, bx: f64, by: f64, c: f64) -> Disk {
    Disk { a: a.to_bits(), bx: bx.to_bits(), by: by.to_bits(), c: c.to_bits() }
}

fn circle(cx: f64, cy: f64, r: f64) -> Sketch {
    Sketch(vec![disk(1.0, -2.0 * cx, -2.0 * cy, cx * cx + cy * cy - r * r)])
}

fn line(ax: f64, ay: f64, bx: f64, by: f64) -> Sketch {
    let (dx, dy) = (bx - ax, by - ay);
    let n = (dx * dx + dy * dy).sqrt();
    let (dx, dy) = (dx / n, dy / n);
    Sketch(vec![disk(0.0, dy, -dx, dx * ay - dy * ax)])
}

fn eval(d: &Disk, x: f64, y: f64) -> f64 {
    let a = f64::from_bits(d.a);
    let bx = f64::from_bits(d.bx);
    let by = f64::from_bits(d.by);
    let c = f64::from_bits(d.c);
    a * (x * x + y * y) + bx * x + by * y + c
}

fn contains(s: &Sketch, x: f64, y: f64) -> bool {
    s.clauses().iter().any(|clause| clause.iter().all(|d| eval(d, x, y) <= 0.0))
}

#[test]
fn sketch_circle_inside_outside() {
    let c = circle(0.0, 0.0, 1.0);
    assert!(contains(&c, 0.0, 0.0));
    assert!(contains(&c, 0.9, 0.0));
    assert!(!contains(&c, 2.0, 0.0));
}

#[test]
fn sketch_line_left_is_inside() {
    let l = line(0.0, 0.0, 1.0, 0.0);
    assert!(contains(&l, 0.0, 1.0));
    assert!(!contains(&l, 0.0, -1.0));
}

#[test]
fn sketch_line_reverse_is_complement() {
    let l = line(0.0, 0.0, 1.0, 0.0);
    let rev = line(1.0, 0.0, 0.0, 0.0);
    let neg = line(0.0, 0.0, 1.0, 0.0).complement();
    for &(x, y) in &[(0.0, 1.0), (0.0, -1.0), (3.0, 2.0), (-1.0, -4.0)] {
        assert_eq!(contains(&rev, x, y), contains(&neg, x, y));
        assert_eq!(contains(&rev, x, y), !contains(&l, x, y));
    }
}

#[test]
fn sketch_complement_negates_membership() {
    let c = circle(0.0, 0.0, 1.0);
    let n = c.clone().complement();
    for &(x, y) in &[(0.0, 0.0), (0.5, 0.0), (2.0, 0.0), (0.0, 3.0)] {
        assert_eq!(contains(&n, x, y), !contains(&c, x, y));
    }
}

#[test]
fn sketch_union_covers_both() {
    let u = circle(0.0, 0.0, 1.0).union(circle(5.0, 0.0, 1.0));
    assert!(contains(&u, 0.0, 0.0));
    assert!(contains(&u, 5.0, 0.0));
    assert!(!contains(&u, 2.5, 0.0));
}

#[test]
fn sketch_intersect_is_overlap() {
    let i = circle(0.0, 0.0, 2.0).intersect(circle(1.0, 0.0, 2.0));
    assert!(contains(&i, 0.5, 0.0));
    assert!(!contains(&i, -1.9, 0.0));
    assert!(!contains(&i, 2.9, 0.0));
}

#[test]
fn sketch_subtract_cuts_hole() {
    let d = circle(0.0, 0.0, 3.0).subtract(circle(0.0, 0.0, 1.0));
    assert!(contains(&d, 2.0, 0.0));
    assert!(!contains(&d, 0.0, 0.0));
    assert!(!contains(&d, 4.0, 0.0));
}

#[test]
fn sketch_region_complement_de_morgan() {
    let u = circle(0.0, 0.0, 1.0).union(circle(5.0, 0.0, 1.0));
    let n = u.clone().complement();
    for &(x, y) in &[(0.0, 0.0), (5.0, 0.0), (2.5, 0.0), (0.0, 9.0)] {
        assert_eq!(contains(&n, x, y), !contains(&u, x, y));
    }
}

#[test]
fn sketch_chaining_type_and_value() {
    let s = circle(0.0, 0.0, 2.0).intersect(circle(1.0, 0.0, 2.0)).subtract(circle(0.5, 0.0, 0.3));
    assert!(contains(&s, 0.5, 1.0));
    assert!(!contains(&s, 0.5, 0.0));
}

#[test]
fn sketch_union_layout_puts_a_separator_between() {
    let a = circle(0.0, 0.0, 1.0);
    let b = circle(5.0, 0.0, 1.0);
    let u = a.clone().union(b.clone());
    assert_eq!(u.0.len(), 3);
    assert!(u.0[1].is_separator());
    assert_eq!(u.0[0], a.0[0]);
    assert_eq!(u.0[2], b.0[0]);
}

#[test]
fn sketch_union_with_empty_is_identity() {
    let a = circle(0.0, 0.0, 1.0);
    let u = a.clone().union(Sketch(vec![]));
    assert_eq!(u.0, a.0);
    let v = Sketch(vec![]).union(a.clone());
    assert_eq!(v.0, a.0);
}

#[test]
fn sketch_complement_of_empty_is_empty() {
    assert!(Sketch(vec![]).complement().0.is_empty());
}

#[test]
fn sketch_subtract_empty_keeps_region() {
    let a = circle(0.0, 0.0, 1.0);
    assert_eq!(a.clone().subtract(Sketch(vec![])).0, a.0);
}

#[test]
fn sketch_complement_distributes_over_clauses() {
    // ¬((d1 ∧ d2) ∨ d3) = (¬d1 ∧ ¬d3) ∨ (¬d2 ∧ ¬d3)
    let d1 = disk(1.0, 0.0, 0.0, -1.0);
    let d2 = disk(0.0, 1.0, 0.0, 0.0);
    let d3 = disk(1.0, -4.0, 0.0, 3.0);
    let sep = disk(0.0, 0.0, 0.0, 0.0);
    let s = Sketch(vec![d1, d2, sep, d3]);
    let n = s.complement();
    assert_eq!(n.0, vec![d1.negate(), d3.negate(), sep, d2.negate(), d3.negate()]);
}

#[test]
fn disk_negate_flips_every_sign() {
    let d = disk(1.0, -2.0, 0.0, 3.5);
    let n = d.negate();
    assert_eq!(f64::from_bits(n.a), -1.0);
    assert_eq!(f64::from_bits(n.bx), 2.0);
    assert_eq!(f64::from_bits(n.c), -3.5);
    assert_eq!(n.negate(), d);
}

#[test]
fn negative_zero_disk_is_a_separator() {
    assert!(disk(-0.0, 0.0, -0.0, 0.0).is_separator());
    assert!(!disk(0.0, 0.0, 0.0, 1e-300).is_separator());
}

#[test]
fn pieces_chain_through_shared_vertices() {
    // a triangle 0->1->2->0 listed out of order, and a separate segment 5->6
    let starts = vec![1, 5, 0, 2];
    let ends = vec![2, 6, 1, 0];
    let loops = trace_pieces(&starts, &ends);
    assert_eq!(loops, vec![vec![0, 3, 2], vec![1]]);
}

#[test]
fn pieces_take_the_first_free_match() {
    // two pieces leave vertex 1; the lower index is taken first
    let starts = vec![0, 1, 1];
    let ends = vec![1, 7, 8];
    assert_eq!(trace_pieces(&starts, &ends), vec![vec![0, 1], vec![2]]);
    assert!(trace_pieces(&vec![], &vec![]).is_empty());
}

#[test]
fn sketch_complement_of_union_is_intersection_of_complements() {
    let a = circle(0.0, 0.0, 1.0);
    let b = circle(3.0, 0.0, 1.0);
    let left = a.clone().union(b.clone()).complement();
    let right = a.complement().intersect(b.complement());
    for &(x, y) in &[(0.0, 0.0), (3.0, 0.0), (1.5, 0.0), (0.0, 5.0), (-2.0, -2.0)] {
        assert_eq!(contains(&left, x, y), contains(&right, x, y));
    }
}

#[test]
fn sketch_double_complement_gives_the_region_back() {
    let s = circle(0.0, 0.0, 2.0).intersect(circle(1.0, 0.0, 2.0)).union(circle(5.0, 5.0, 1.0));
    let back = s.clone().complement().complement();
    for &(x, y) in &[(0.5, 0.0), (5.0, 5.0), (3.0, 3.0), (-1.9, 0.0), (2.9, 0.0)] {
        assert_eq!(contains(&back, x, y), contains(&s, x, y));
    }
}

#[test]
fn pieces_each_used_once_and_linked() {
    // two squares sharing vertex 3, listed interleaved, plus a dangling piece
    let starts = vec![0, 3, 1, 4, 2, 5, 3, 6, 9];
    let ends = vec![1, 4, 2, 5, 3, 6, 0, 3, 10];
    let loops = trace_pieces(&starts, &ends);
    let mut seen = vec![0usize; starts.len()];
    for l in &loops {
        assert!(!l.is_empty());
        for w in l.windows(2) {
            assert_eq!(ends[w[0]], starts[w[1]]);
        }
        for &p in l {
            seen[p] += 1;
        }
    }
    assert!(seen.iter().all(|&n| n == 1));
}

#[test]
fn subtracting_a_sketch_with_no_clause_keeps_the_minuend() {
    let a = circle(0.0, 0.0, 2.0);
    let separators_only = Sketch(vec![disk(0.0, 0.0, 0.0, 0.0), disk(0.0, 0.0, 0.0, 0.0)]);
    let d = a.clone().subtract(separators_only);
    assert_eq!(d.0, a.0);
    assert!(contains(&d, 0.0, 0.0));
}
