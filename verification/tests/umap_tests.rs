//! Tests for the windowed sparse map.

use uwindow::UMap;

#[test]
fn new_map_is_empty() {
    let m: UMap<u32> = UMap::new();
    assert!(m.is_empty());
    assert_eq!(m.len(), 0);
    assert_eq!(m.capacity(), 0);
    assert!(!m.contains(0));
    assert_eq!(m.get(0), None);
    assert_eq!(m.min(), None);
    assert_eq!(m.max(), None);
}

#[test]
fn put_and_get() {
    let mut m: UMap<&str> = UMap::new();
    m.put(7, "seven");
    assert_eq!(m.len(), 1);
    assert!(m.contains(7));
    assert_eq!(m.get(7), Some("seven"));
    assert_eq!(m.get_ref(7), Some(&"seven"));
    assert_eq!(m.get(6), None);
    assert_eq!(m.get_ref(6), None);
    assert_eq!(m.min(), Some(7));
    assert_eq!(m.max(), Some(7));
}

#[test]
fn first_write_wins() {
    let mut m: UMap<u32> = UMap::new();
    m.put(3, 1);
    m.put(3, 2);
    assert_eq!(m.get(3), Some(1));
    assert_eq!(m.len(), 1);
}

#[test]
fn put_grows_left_and_right() {
    let mut m: UMap<u32> = UMap::new();
    m.put(10, 100);
    assert_eq!(m.capacity(), 1);
    m.put(20, 200);
    assert_eq!(m.capacity(), 11);
    m.put(5, 50);
    assert_eq!(m.capacity(), 16);
    assert_eq!(m.get(5), Some(50));
    assert_eq!(m.get(10), Some(100));
    assert_eq!(m.get(20), Some(200));
    assert_eq!(m.min(), Some(5));
    assert_eq!(m.max(), Some(20));
}

#[test]
fn remove_returns_value() {
    let mut m: UMap<u32> = UMap::new();
    m.put(2, 20);
    m.put(5, 50);
    m.put(9, 90);
    assert_eq!(m.remove(5), Some(50));
    assert_eq!(m.remove(5), None);
    assert_eq!(m.remove(100), None);
    assert_eq!(m.len(), 2);
}

#[test]
fn remove_boundary_rescans() {
    let mut m: UMap<u32> = UMap::new();
    m.put(2, 20);
    m.put(5, 50);
    m.put(9, 90);
    assert_eq!(m.remove(2), Some(20));
    assert_eq!(m.min(), Some(5));
    assert_eq!(m.remove(9), Some(90));
    assert_eq!(m.max(), Some(5));
    assert_eq!(m.remove(5), Some(50));
    assert!(m.is_empty());
    assert_eq!(m.min(), None);
}

#[test]
fn remove_last_keeps_window() {
    let mut m: UMap<u32> = UMap::new();
    m.put(4, 40);
    let cap = m.capacity();
    assert_eq!(m.remove(4), Some(40));
    assert_eq!(m.capacity(), cap);
    assert!(m.is_empty());
}

#[test]
fn trim_collapses_window() {
    let mut m: UMap<u32> = UMap::new();
    m.put(10, 1);
    m.put(20, 2);
    assert_eq!(m.remove(20), Some(2));
    assert_eq!(m.capacity(), 11);
    m.trim();
    assert_eq!(m.capacity(), 1);
    assert_eq!(m.get(10), Some(1));

    let mut e: UMap<u32> = UMap::new();
    e.trim();
    assert!(e.is_empty());
}

#[test]
fn pop_by_rank_returns_values_in_key_order() {
    let mut m: UMap<&str> = UMap::new();
    m.put(9, "nine");
    m.put(2, "two");
    m.put(5, "five");
    assert_eq!(m.pop(0), Some("two"));
    assert_eq!(m.pop(1), Some("nine"));
    assert_eq!(m.pop(7), None);
    assert_eq!(m.pop(0), Some("five"));
    assert_eq!(m.pop(0), None);
}

#[test]
fn from_slice_builds_tight_window() {
    let m = UMap::from_slice(&[(5, 'a'), (2, 'b'), (9, 'c')]);
    assert_eq!(m.len(), 3);
    assert_eq!(m.min(), Some(2));
    assert_eq!(m.max(), Some(9));
    assert_eq!(m.capacity(), 8);
    assert_eq!(m.get(2), Some('b'));
    assert_eq!(m.get(5), Some('a'));
    assert_eq!(m.get(9), Some('c'));
    assert_eq!(m.get(3), None);

    let e: UMap<char> = UMap::from_slice(&[]);
    assert!(e.is_empty());
    assert_eq!(e.capacity(), 0);
}

#[test]
fn add_all_honors_first_write_wins() {
    let mut m: UMap<u32> = UMap::new();
    m.put(5, 555);
    m.add_all(&[(2, 20), (5, 50), (9, 90)]);
    assert_eq!(m.len(), 3);
    assert_eq!(m.get(2), Some(20));
    assert_eq!(m.get(5), Some(555));
    assert_eq!(m.get(9), Some(90));
}

#[test]
fn add_all_into_empty_builds_tightly() {
    let mut m: UMap<u32> = UMap::new();
    m.add_all(&[(4, 40), (7, 70)]);
    assert_eq!(m.len(), 2);
    assert_eq!(m.capacity(), 4);
    assert_eq!(m.get(4), Some(40));
    assert_eq!(m.get(7), Some(70));
}

#[test]
fn to_set_projects_keys() {
    let m = UMap::from_slice(&[(2, 'x'), (5, 'y'), (9, 'z')]);
    let s = m.to_set();
    assert_eq!(s.len(), 3);
    assert_eq!(s.to_vec(), vec![2, 5, 9]);
}

#[test]
fn to_vec_lists_pairs_ascending() {
    let m = UMap::from_slice(&[(9, 'c'), (2, 'a'), (5, 'b')]);
    assert_eq!(m.to_vec(), vec![(2, 'a'), (5, 'b'), (9, 'c')]);
}

#[test]
fn map_union_keeps_left_values() {
    let a = UMap::from_slice(&[(0, 'a'), (3, 'b'), (8, 'c')]);
    let b = UMap::from_slice(&[(3, 'b'), (12, 'd')]);
    let u = a.union(&b);
    assert_eq!(u.len(), 4);
    assert_eq!(u.get(0), Some('a'));
    assert_eq!(u.get(3), Some('b'));
    assert_eq!(u.get(8), Some('c'));
    assert_eq!(u.get(12), Some('d'));

    let e: UMap<char> = UMap::new();
    let u2 = e.union(&a);
    assert_eq!(u2.len(), 3);
    assert_eq!(u2.get(8), Some('c'));
}

#[test]
fn map_difference_drops_shared_keys() {
    let a = UMap::from_slice(&[(0, 1u32), (3, 2), (8, 3), (10, 4)]);
    let b = UMap::from_slice(&[(3, 2u32), (8, 3)]);
    let d = a.difference(&b);
    assert_eq!(d.len(), 2);
    assert_eq!(d.get(0), Some(1));
    assert_eq!(d.get(10), Some(4));
    assert_eq!(d.get(3), None);
    assert_eq!(d.capacity(), a.capacity());

    let empty = a.difference(&a);
    assert!(empty.is_empty());
    assert_eq!(empty.capacity(), 0);
}

#[test]
fn map_intersection_keeps_common_keys() {
    let a = UMap::from_slice(&[(0, 'a'), (3, 'b'), (8, 'c')]);
    let b = UMap::from_slice(&[(3, 'b'), (8, 'c'), (12, 'd')]);
    let i = a.intersection(&b);
    assert_eq!(i.len(), 2);
    assert_eq!(i.get(3), Some('b'));
    assert_eq!(i.get(8), Some('c'));
    assert_eq!(i.get(0), None);

    let disjoint = a.intersection(&UMap::from_slice(&[(20, 'q')]));
    assert!(disjoint.is_empty());
}

#[test]
fn map_symmetric_difference() {
    let a = UMap::from_slice(&[(0, 'a'), (3, 'b'), (8, 'c')]);
    let b = UMap::from_slice(&[(3, 'b'), (12, 'd')]);
    let x = a.symmetric_difference(&b);
    assert_eq!(x.len(), 3);
    assert_eq!(x.get(0), Some('a'));
    assert_eq!(x.get(8), Some('c'));
    assert_eq!(x.get(12), Some('d'));
    assert_eq!(x.get(3), None);
}

#[test]
fn try_put_reports_overflow() {
    let mut m: UMap<u32> = UMap::new();
    assert_eq!(m.try_put(usize::MAX, 1), Err(uwindow::CapacityOverflow));
    assert!(m.is_empty());
    assert_eq!(m.try_put(3, 30), Ok(()));
    assert_eq!(m.get(3), Some(30));
}

#[test]
fn map_iter_forward_backward_interleaved() {
    let m = UMap::from_slice(&[(1, 'a'), (4, 'b'), (7, 'c')]);

    let mut it = m.iter();
    assert_eq!(it.next(&m), Some((1, 'a')));
    assert_eq!(it.next_back(&m), Some((7, 'c')));
    assert_eq!(it.next(&m), Some((4, 'b')));
    assert_eq!(it.next(&m), None);
    assert_eq!(it.next_back(&m), None);
}
