use ducktracker::bounded_set::BoundedSet;

#[test]
fn test_new_empty_set() {
    let set: BoundedSet<i32> = BoundedSet::new(5);
    assert_eq!(set.len(), 0);
    assert_eq!(set.items().len(), 0);
    assert_eq!(set.max_size(), 5);
    assert_eq!(set.ring_index(), 0);
}

#[test]
fn test_insert_below_max_size() {
    let mut set = BoundedSet::new(3);

    set.insert(10);
    assert!(set.contains(&10));
    assert_eq!(set.len(), 1);
    assert_eq!(set.items().len(), 1);
    assert_eq!(set.items()[0], 10);

    set.insert(20);
    assert!(set.contains(&10));
    assert!(set.contains(&20));
    assert_eq!(set.len(), 2);
    assert_eq!(set.items().len(), 2);
    assert_eq!(set.items()[1], 20);

    set.insert(30);
    assert!(set.contains(&10));
    assert!(set.contains(&20));
    assert!(set.contains(&30));
    assert_eq!(set.len(), 3);
    assert_eq!(set.items().len(), 3);
    assert_eq!(set.items()[2], 30);
}

#[test]
fn test_insert_beyond_max_size_removes_oldest() {
    let mut set = BoundedSet::new(3);
    set.insert(1);
    set.insert(2);
    set.insert(3);

    set.insert(4);
    assert!(!set.contains(&1));
    assert!(set.contains(&2));
    assert!(set.contains(&3));
    assert!(set.contains(&4));
    assert_eq!(set.len(), 3);
    assert_eq!(set.items()[0], 4);

    set.insert(5);
    assert!(!set.contains(&2));
    assert!(set.contains(&3));
    assert!(set.contains(&4));
    assert!(set.contains(&5));
    assert_eq!(set.len(), 3);
    assert_eq!(set.items()[1], 5);

    set.insert(6);
    assert!(!set.contains(&3));
    assert!(set.contains(&4));
    assert!(set.contains(&5));
    assert!(set.contains(&6));
    assert_eq!(set.len(), 3);
    assert_eq!(set.items()[2], 6);
}

#[test]
fn test_reinsert_existing_element_does_not_change_age() {
    let mut set = BoundedSet::new(3);
    set.insert(10);
    set.insert(20);
    set.insert(30);

    set.insert(20);
    assert!(set.contains(&10));
    assert!(set.contains(&20));
    assert!(set.contains(&30));
    assert_eq!(set.len(), 3);
    assert_eq!(*set.items(), vec![10, 20, 30]);
    assert_eq!(set.ring_index(), 0);

    set.insert(40);
    assert!(!set.contains(&10));
    assert!(set.contains(&20));
    assert!(set.contains(&30));
    assert!(set.contains(&40));
    assert_eq!(set.len(), 3);
    assert_eq!(set.items()[0], 40);
}

#[test]
fn test_contains_method() {
    let mut set = BoundedSet::new(2);
    set.insert(100);
    set.insert(200);

    assert!(set.contains(&100));
    assert!(set.contains(&200));
    assert!(!set.contains(&300));

    set.insert(300);
    assert!(!set.contains(&100));
    assert!(set.contains(&200));
    assert!(set.contains(&300));
}

#[test]
fn test_max_size_one() {
    let mut set = BoundedSet::new(1);

    set.insert(10);
    assert!(set.contains(&10));
    assert_eq!(set.len(), 1);
    assert_eq!(*set.items(), vec![10]);
    assert_eq!(set.ring_index(), 0);

    set.insert(20);
    assert!(!set.contains(&10));
    assert!(set.contains(&20));
    assert_eq!(set.len(), 1);
    assert_eq!(*set.items(), vec![20]);
    assert_eq!(set.ring_index(), 0);

    set.insert(10);
    assert!(set.contains(&10));
    assert!(!set.contains(&20));
    assert_eq!(set.len(), 1);
    assert_eq!(*set.items(), vec![10]);
    assert_eq!(set.ring_index(), 0);
}

#[test]
fn test_different_types() {
    let mut set: BoundedSet<String> = BoundedSet::new(2);
    set.insert("apple".to_string());
    set.insert("banana".to_string());

    assert!(set.contains(&"apple".to_string()));
    assert!(set.contains(&"banana".to_string()));

    set.insert("orange".to_string());
    assert!(!set.contains(&"apple".to_string()));
    assert!(set.contains(&"banana".to_string()));
    assert!(set.contains(&"orange".to_string()));
}
