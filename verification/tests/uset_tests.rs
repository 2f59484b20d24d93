//! Tests for the bitmap-backed presence set.

use uwindow::USet;

#[test]
fn set_from_and_to_vec() {
    let v = vec![0, 3, 8, 10];
    let s: USet = USet::from_vec(&v);

    assert_eq!(s.len(), 4);
    assert_eq!(s.capacity(), 11);

    assert!(s.contains(0));
    assert!(s.contains(3));
    assert!(s.contains(8));
    assert!(s.contains(10));
    assert!(!s.contains(9));

    let v2 = s.to_vec();
    assert_eq!(v2, v);
}

#[test]
fn should_substract() {
    let s1 = USet::from_vec(&[0, 3, 8, 10]);
    let s2 = USet::from_vec(&[3, 8]);

    let s3 = s1.difference(&s2);

    assert_eq!(s3.len(), 2);
    assert!(s3.contains(0));
    assert!(s3.contains(10));

    let s4 = s1.difference(&s2);

    assert_eq!(s4.len(), 2);
    assert!(s4.contains(0));
    assert!(s4.contains(10));
}

#[test]
fn should_compile() {
    let s4 = vec![0usize, 3, 8, 10];
    for _i in 1..10 {
        let _s5: USet = USet::from_vec(&s4);
    }
}

#[test]
fn should_be_equal() {
    let _s1 = USet::from_vec(&[0, 3, 8, 10]);
}

#[test]
fn new_set_is_empty() {
    let s = USet::new();
    assert!(s.is_empty());
    assert_eq!(s.len(), 0);
    assert_eq!(s.capacity(), 0);
    assert!(!s.contains(0));

    let d = USet::default();
    assert!(d.is_empty());
}

#[test]
fn from_vec_round_trip_sorts() {
    let s = USet::from_vec(&[5, 2, 9]);
    assert_eq!(s.to_vec(), vec![2, 5, 9]);
    assert_eq!(s.len(), 3);
}

#[test]
fn add_is_idempotent() {
    let mut s = USet::new();
    s.add(4);
    s.add(4);
    assert_eq!(s.len(), 1);
    assert!(s.contains(4));
}

#[test]
fn with_capacity_zero_then_add_reallocates() {
    let mut s = USet::with_capacity(0);
    assert_eq!(s.capacity(), 0);
    s.add(5);
    assert_eq!(s.capacity(), 6);
    assert!(s.contains(5));
    assert!(!s.contains(0));
}

#[test]
fn remove_then_add_restores() {
    let mut s = USet::from_vec(&[0, 3, 8, 10]);
    let had = s.contains(3);
    let n = s.len();
    s.remove(3);
    s.add(3);
    assert_eq!(s.contains(3), had);
    assert_eq!(s.len(), n);
}

#[test]
fn remove_absent_is_noop() {
    let mut s = USet::from_vec(&[1, 4]);
    s.remove(3);
    s.remove(100);
    assert_eq!(s.len(), 2);
    assert_eq!(s.capacity(), 5);
}

#[test]
fn pop_rank_zero_ascends() {
    let mut s = USet::from_vec(&[0, 3, 8, 10]);
    assert_eq!(s.pop(0), Some(0));
    assert_eq!(s.pop(0), Some(3));
    assert_eq!(s.pop(0), Some(8));
    assert_eq!(s.pop(0), Some(10));
    assert_eq!(s.pop(0), None);
    assert!(s.is_empty());
}

#[test]
fn pop_by_rank_picks_nth() {
    let mut s = USet::from_vec(&[2, 5, 9]);
    assert_eq!(s.pop(1), Some(5));
    assert_eq!(s.pop(5), None);
    assert_eq!(s.to_vec(), vec![2, 9]);
}

#[test]
fn union_of_sets() {
    let a = USet::from_vec(&[0, 3, 8, 10]);
    let b = USet::from_vec(&[3, 8]);
    let u = a.union(&b);
    assert_eq!(u.len(), 4);
    assert_eq!(u.to_vec(), vec![0, 3, 8, 10]);
}

#[test]
fn union_with_empty_clones() {
    let a = USet::from_vec(&[1, 2]);
    let e = USet::new();
    let u1 = a.union(&e);
    let u2 = e.union(&a);
    assert_eq!(u1.to_vec(), vec![1, 2]);
    assert_eq!(u2.to_vec(), vec![1, 2]);
    assert_eq!(u1.capacity(), a.capacity());
    assert_eq!(u2.capacity(), a.capacity());
}

#[test]
fn difference_to_canonical_empty() {
    let a = USet::from_vec(&[1, 2]);
    let d = a.difference(&a);
    assert!(d.is_empty());
    assert_eq!(d.capacity(), 0);
}

#[test]
fn intersection_of_sets() {
    let a = USet::from_vec(&[0, 3, 8, 10]);
    let b = USet::from_vec(&[3, 8, 12]);
    let i = a.intersection(&b);
    assert_eq!(i.to_vec(), vec![3, 8]);
    assert_eq!(i.capacity(), 9);

    let disjoint = a.intersection(&USet::from_vec(&[1, 2]));
    assert!(disjoint.is_empty());
    assert_eq!(disjoint.capacity(), 0);
}

#[test]
fn cardinality_law_concrete() {
    let a = USet::from_vec(&[0, 3, 8, 10]);
    let b = USet::from_vec(&[3, 8, 12]);
    let u = a.union(&b);
    let i = a.intersection(&b);
    assert_eq!(u.len(), 5);
    assert_eq!(i.len(), 2);
    assert_eq!(u.len() + i.len(), a.len() + b.len());
}

#[test]
fn symmetric_difference_matches_identity() {
    let a = USet::from_vec(&[0, 3, 8, 10]);
    let b = USet::from_vec(&[3, 8, 12]);
    let x = a.symmetric_difference(&b);
    let by_identity = a.union(&b).difference(&a.intersection(&b));
    assert_eq!(x.to_vec(), vec![0, 10, 12]);
    assert_eq!(x.to_vec(), by_identity.to_vec());
}

#[test]
fn from_range_marks_span() {
    let s = USet::from_range(2..6);
    assert_eq!(s.len(), 4);
    assert_eq!(s.capacity(), 6);
    assert!(!s.contains(1));
    assert!(s.contains(2));
    assert!(s.contains(5));
    assert!(!s.contains(6));

    let empty = USet::from_range(5..2);
    assert_eq!(empty.len(), 0);
}

#[test]
fn try_add_reports_overflow() {
    let mut s = USet::new();
    assert_eq!(s.try_add(usize::MAX), Err(uwindow::CapacityOverflow));
    assert_eq!(s.len(), 0);
    assert_eq!(s.try_add(3), Ok(()));
    assert!(s.contains(3));
}

#[test]
fn iter_forward_and_backward() {
    let s = USet::from_vec(&[1, 4, 7]);

    let mut it = s.iter();
    assert_eq!(it.next(&s), Some(1));
    assert_eq!(it.next(&s), Some(4));
    assert_eq!(it.next(&s), Some(7));
    assert_eq!(it.next(&s), None);

    let mut back = s.iter();
    assert_eq!(back.next_back(&s), Some(7));
    assert_eq!(back.next_back(&s), Some(4));
    assert_eq!(back.next_back(&s), Some(1));
    assert_eq!(back.next_back(&s), None);
}

#[test]
fn iter_meets_in_the_middle() {
    let s = USet::from_vec(&[1, 4, 7]);
    let mut it = s.iter();
    assert_eq!(it.next(&s), Some(1));
    assert_eq!(it.next_back(&s), Some(7));
    assert_eq!(it.next(&s), Some(4));
    assert_eq!(it.next(&s), None);
    assert_eq!(it.next_back(&s), None);
}

#[test]
fn from_empty_vec() {
    let s = USet::from_vec(&[]);
    assert_eq!(s.len(), 0);
    assert_eq!(s.capacity(), 1);
    assert!(!s.contains(0));
}

#[test]
fn union_of_two_empties() {
    let a = USet::new();
    let b = USet::new();
    let u = a.union(&b);
    assert!(u.is_empty());
    assert_eq!(u.capacity(), 0);
}

#[test]
fn clone_is_independent() {
    let s = USet::from_vec(&[1, 2]);
    let mut c = s.clone();
    c.add(5);
    assert_eq!(s.len(), 2);
    assert_eq!(c.len(), 3);
    assert!(!s.contains(5));
}
