use rdt::ordered_map::OrderedMap;
use rdt::ordered_set::{lower_bound, with_inserted, with_removed, OrderedSet};

fn set(symbols: &[u64]) -> OrderedSet {
    OrderedSet::from_slice(symbols)
}

#[test]
fn set_keeps_each_symbol_once_in_ascending_order() {
    let s = set(&[5, 1, 3, 1, 5]);
    assert_eq!(s.items(), &vec![1, 3, 5]);
    assert_eq!(s.len(), 3);
    assert!(!s.is_empty());
    assert!(OrderedSet::new().is_empty());
    assert_eq!(OrderedSet::from_vec(vec![2, 2, 1]).items(), &vec![1, 2]);
    assert_eq!(OrderedSet::from(vec![9, 7]).items(), &vec![7, 9]);
    assert_eq!(OrderedSet::from_ascending(vec![1, 4]).items(), &vec![1, 4]);
}

#[test]
fn set_insert_and_remove_report_what_changed() {
    let mut s = OrderedSet::new();
    assert!(s.insert(4));
    assert!(s.insert(2));
    assert!(!s.insert(4));
    assert_eq!(s.items(), &vec![2, 4]);
    assert!(s.contains(2));
    assert!(!s.contains(3));
    assert!(s.remove(2));
    assert!(!s.remove(2));
    assert_eq!(s.items(), &vec![4]);
}

#[test]
fn set_first_is_the_smallest_symbol() {
    assert_eq!(set(&[7, 3, 9]).first(), Some(3));
    assert_eq!(OrderedSet::new().first(), None);
}

#[test]
fn set_algebra() {
    let a = set(&[1, 2, 3, 4]);
    let b = set(&[3, 4, 5]);
    assert_eq!(a.union(&b).items(), &vec![1, 2, 3, 4, 5]);
    assert_eq!(a.intersection(&b).items(), &vec![3, 4]);
    assert_eq!(a.difference(&b).items(), &vec![1, 2]);
    assert_eq!(b.difference(&a).items(), &vec![5]);
    assert!(set(&[3, 4]).is_subset(&a));
    assert!(!b.is_subset(&a));
    assert!(a.is_superset(&set(&[1])));
    assert!(!a.is_superset(&b));
    assert!(a.is_disjoint(&set(&[7, 8])));
    assert!(!a.is_disjoint(&b));
    assert!(OrderedSet::new().is_subset(&a));
    assert!(OrderedSet::new().is_disjoint(&a));
}

#[test]
fn set_advance_past_keeps_what_is_greater() {
    let a = set(&[1, 2, 3, 4]);
    assert_eq!(a.advance_past(2).items(), &vec![3, 4]);
    assert_eq!(a.advance_past(0).items(), &vec![1, 2, 3, 4]);
    assert_eq!(a.advance_past(4).items(), &Vec::<u64>::new());
    assert_eq!(set(&[u64::MAX]).advance_past(u64::MAX).len(), 0);
    assert_eq!(set(&[u64::MAX]).advance_past(u64::MAX - 1).items(), &vec![u64::MAX]);
}

#[test]
fn set_equality_is_by_elements() {
    assert_eq!(set(&[2, 1]), set(&[1, 2, 2]));
    assert_ne!(set(&[1]), set(&[1, 2]));
    assert_ne!(set(&[1, 3]), set(&[1, 2]));
    assert!(set(&[1, 2]).same_as(&set(&[2, 1])));
    let a = set(&[4, 5]);
    assert_eq!(a.clone(), a);
}

#[test]
fn sorted_vector_helpers() {
    let v = vec![10, 20, 30];
    assert_eq!(lower_bound(&v, 5), 0);
    assert_eq!(lower_bound(&v, 10), 0);
    assert_eq!(lower_bound(&v, 11), 1);
    assert_eq!(lower_bound(&v, 30), 2);
    assert_eq!(lower_bound(&v, 31), 3);
    assert_eq!(with_inserted(&v, 1, 15), vec![10, 15, 20, 30]);
    assert_eq!(with_inserted(&v, 3, 40), vec![10, 20, 30, 40]);
    assert_eq!(with_removed(&v, 0), vec![20, 30]);
    assert_eq!(with_removed(&v, 2), vec![10, 20]);
}

#[test]
fn map_insert_get_remove() {
    let mut m = OrderedMap::new();
    assert!(m.is_empty());
    m.insert(5, 50);
    m.insert(1, 10);
    m.insert(3, 30);
    assert_eq!(m.len(), 3);
    assert_eq!(m.get(3), Some(30));
    assert_eq!(m.get(4), None);
    assert!(m.contains_key(1));
    m.insert(3, 31);
    assert_eq!(m.get(3), Some(31));
    assert_eq!(m.len(), 3);
    m.remove(1);
    m.remove(2);
    assert_eq!(m.len(), 2);
    assert!(!m.contains_key(1));
    let (keys, values) = m.entries();
    assert_eq!(keys, &vec![3, 5]);
    assert_eq!(values, &vec![31, 50]);
    assert_eq!(m.keys().items(), &vec![3, 5]);
}

#[test]
fn map_merge_prefers_its_own_entries() {
    let mut a = OrderedMap::new();
    a.insert(1, 10);
    a.insert(2, 20);
    let mut b = OrderedMap::new();
    b.insert(2, 99);
    b.insert(3, 30);
    let merged = a.merged(&b);
    let (keys, values) = merged.entries();
    assert_eq!(keys, &vec![1, 2, 3]);
    assert_eq!(values, &vec![10, 20, 30]);
    let copy = merged.clone();
    assert_eq!(copy.get(3), Some(30));
}

#[test]
fn sets_are_ordered_as_their_ascending_sequences() {
    assert!(set(&[1, 2]).precedes(&set(&[1, 3])));
    assert!(set(&[1]).precedes(&set(&[1, 2])));
    assert!(OrderedSet::new().precedes(&set(&[0])));
    assert!(set(&[1, 9]).precedes(&set(&[2])));
    assert!(!set(&[1, 3]).precedes(&set(&[1, 2])));
    assert!(!set(&[1, 2]).precedes(&set(&[1])));
    assert!(!set(&[1, 2]).precedes(&set(&[2, 1])));
    assert!(!OrderedSet::new().precedes(&OrderedSet::new()));
}
