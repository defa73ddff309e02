use cadrum::common::boolean::{split_clauses, Boolean};
use cadrum::common::error::Error;

fn single(name: &'static str) -> Boolean<&'static str> {
    Boolean::from_parts(vec![name], vec![1, 0])
}

#[test]
fn dnf_union_of_two() {
    let u = Boolean::dnf_union(single("A"), single("B"));
    assert_eq!(u.solids(), &["A", "B"]);
    assert_eq!(u.clauses(), &[1, 0, 2, 0]);
}

#[test]
fn dnf_intersect_of_two() {
    let i = Boolean::dnf_intersect(single("A"), single("B"));
    assert_eq!(i.solids(), &["A", "B"]);
    assert_eq!(i.clauses(), &[1, 2, 0]);
}

#[test]
fn dnf_subtract_of_two() {
    let d = Boolean::dnf_subtract(single("A"), single("B"));
    assert_eq!(d.solids(), &["A", "B"]);
    assert_eq!(d.clauses(), &[1, -2, 0]);
}

#[test]
fn dnf_union_then_subtract() {
    let e = Boolean::dnf_subtract(Boolean::dnf_union(single("A"), single("B")), single("C"));
    assert_eq!(e.solids(), &["A", "B", "C"]);
    assert_eq!(e.clauses(), &[1, -3, 0, 2, -3, 0]);
}

#[test]
fn dnf_subtract_an_intersection() {
    let e = Boolean::dnf_subtract(single("A"), Boolean::dnf_intersect(single("B"), single("C")));
    assert_eq!(e.solids(), &["A", "B", "C"]);
    assert_eq!(e.clauses(), &[1, -2, 0, 1, -3, 0]);
}

#[test]
fn dnf_subtract_empty_keeps_base() {
    let empty: Boolean<&'static str> = Boolean::from_parts(vec![], vec![]);
    let d = Boolean::dnf_subtract(single("A"), empty);
    assert_eq!(d.solids(), &["A"]);
    assert_eq!(d.clauses(), &[1, 0]);
}

#[test]
fn dnf_intersect_with_empty_is_empty() {
    let empty: Boolean<&'static str> = Boolean::from_parts(vec![], vec![]);
    let i = Boolean::dnf_intersect(single("A"), empty);
    assert!(i.clauses().is_empty());
}

#[test]
fn union_all_lists_each_solid() {
    let u = Boolean::union_all(vec!["A", "B", "C"]);
    assert_eq!(u.solids(), &["A", "B", "C"]);
    assert_eq!(u.clauses(), &[1, 0, 2, 0, 3, 0]);
}

#[test]
fn union_all_of_nothing_is_empty() {
    let u: Boolean<u8> = Boolean::union_all(vec![]);
    assert!(u.solids().is_empty());
    assert!(u.clauses().is_empty());
}

#[test]
fn intersect_all_is_one_clause() {
    let i = Boolean::intersect_all(vec![7u8, 8, 9]);
    assert_eq!(i.clauses(), &[1, 2, 3, 0]);
}

#[test]
fn intersect_all_of_nothing_is_empty() {
    let i: Boolean<u8> = Boolean::intersect_all(vec![]);
    assert!(i.clauses().is_empty());
}

#[test]
fn build_vec_of_empty_expression_fails() {
    let e: Boolean<u8> = Boolean::union_all(vec![]);
    let r = e.build_vec(|_b: &Boolean<u8>| Ok(vec![1u8]));
    assert!(matches!(r, Err(Error::OneFailed(0))));
}

#[test]
fn build_vec_hands_back_the_pieces() {
    let e = Boolean::union_all(vec![1u8, 2]);
    let r = e.build_vec(|b: &Boolean<u8>| Ok(b.solids().to_vec()));
    assert_eq!(r.unwrap(), vec![1u8, 2]);
}

#[test]
fn build_single_piece() {
    let e = Boolean::union_all(vec![5u8]);
    let r = e.build(|_b: &Boolean<u8>| Ok(vec![42u8]));
    assert_eq!(r.unwrap(), 42);
}

#[test]
fn build_two_pieces_fails_with_count() {
    let e = Boolean::union_all(vec![5u8, 6]);
    let r = e.build(|b: &Boolean<u8>| Ok(b.solids().to_vec()));
    assert!(matches!(r, Err(Error::OneFailed(2))));
}

#[test]
fn build_no_piece_fails_with_zero() {
    let e = Boolean::intersect_all(vec![5u8, 6]);
    let r = e.build(|_b: &Boolean<u8>| Ok(vec![]));
    assert!(matches!(r, Err(Error::OneFailed(0))));
}

#[test]
fn build_passes_backend_error_through() {
    let e = Boolean::union_all(vec![5u8]);
    let r = e.build(|_b: &Boolean<u8>| Err(Error::Boolean));
    assert!(matches!(r, Err(Error::Boolean)));
}

#[test]
fn split_clauses_skips_empty_ones() {
    let cs = split_clauses(&[1, -2, 0, 0, 3, 0]);
    assert_eq!(cs, vec![vec![1, -2], vec![3]]);
}

#[test]
fn test_boolean_singleton_build() {
    // the union of one solid hands that solid to the backend, which gives it back whole
    let b = Boolean::union_all(vec![10u32]);
    assert_eq!(b.clauses(), &[1, 0]);
    let s = b.build(|e: &Boolean<u32>| Ok(e.solids().to_vec())).unwrap();
    assert_eq!(s, 10);
}

#[test]
fn test_boolean_empty_returns_error() {
    let solids: Vec<u32> = Vec::new();
    match Boolean::union_all(solids).build(|_e: &Boolean<u32>| panic!("the backend is not asked")) {
        Err(Error::OneFailed(0)) => {}
        other => panic!("expected OneFailed(0), got {:?}", other.is_ok()),
    }
}

#[test]
fn try_into_vec_gives_every_piece() {
    let e = Boolean::union_all(vec![3u8, 4]);
    assert_eq!(e.try_into_vec(|b: &Boolean<u8>| Ok(b.solids().to_vec())).unwrap(), vec![3u8, 4]);
    let none: Boolean<u8> = Boolean::union_all(vec![]);
    assert!(matches!(none.try_into_vec(|_b: &Boolean<u8>| Ok(vec![1u8])), Err(Error::OneFailed(0))));
}

#[test]
fn clone_via_copies_each_solid_through_the_backend() {
    let e = Boolean::dnf_subtract(Boolean::dnf_union(single("A"), single("B")), single("C"));
    let c = e.clone_via(|s: &&'static str| *s);
    assert_eq!(c.solids(), e.solids());
    assert_eq!(c.clauses(), e.clauses());
    let n = Boolean::union_all(vec![1u32, 2]).clone_via(|s: &u32| s + 10);
    assert_eq!(n.solids(), &[11, 12]);
    assert_eq!(n.clauses(), &[1, 0, 2, 0]);
}
