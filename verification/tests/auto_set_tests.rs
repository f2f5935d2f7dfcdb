use task_engine::auto_set::{AutoSet, MAX_LIST_SIZE};

#[test]
fn test_auto_set() {
    let mut set = AutoSet::new();
    for i in 0..MAX_LIST_SIZE * 2 {
        set.insert(i);
    }
    for i in 0..MAX_LIST_SIZE * 2 {
        assert!(set.contains(&i));
    }
    assert!(!set.contains(&(MAX_LIST_SIZE * 2)));
    for i in 0..MAX_LIST_SIZE * 2 {
        assert!(!set.remove(&(MAX_LIST_SIZE * 2)));
        assert!(set.remove(&i));
    }
    assert!(!set.remove(&(MAX_LIST_SIZE * 2)));
}

#[test]
fn auto_set_insert_is_idempotent() {
    let mut set: AutoSet<usize> = AutoSet::new();
    assert!(set.insert(7));
    assert!(!set.insert(7));
    assert_eq!(set.len(), 1);
    assert!(!set.is_empty());
}

#[test]
fn auto_set_iterates_in_insertion_order() {
    let mut set: AutoSet<usize> = AutoSet::with_capacity(4);
    set.insert(3);
    set.insert(1);
    set.insert(2);
    let v = set.to_vec();
    assert_eq!(v, vec![3, 1, 2]);
    let mut it = set.iter();
    assert_eq!(it.next(), Some(3));
    assert_eq!(it.next(), Some(1));
    assert_eq!(it.next(), Some(2));
    assert_eq!(it.next(), None);
    let mut into = set.into_iter();
    assert_eq!(into.next(), Some(3));
    assert_eq!(into.next(), Some(1));
    assert_eq!(into.next(), Some(2));
    assert_eq!(into.next(), None);
}

#[test]
fn auto_set_constructors_are_empty() {
    let a: AutoSet<usize> = AutoSet::with_hasher();
    let b: AutoSet<usize> = AutoSet::with_capacity_and_hasher(16);
    assert!(a.is_empty());
    assert!(b.is_empty());
    assert_eq!(a.len(), 0);
    assert_eq!(b.len(), 0);
}

#[test]
fn auto_set_from_vec_drops_duplicates() {
    let set = AutoSet::from_vec(vec![5usize, 3, 5, 3, 9]);
    assert_eq!(set.len(), 3);
    assert!(set.contains(&5));
    assert!(set.contains(&3));
    assert!(set.contains(&9));
}

#[test]
fn auto_set_equality_ignores_insertion_order() {
    let a = AutoSet::from_vec(vec![1usize, 2, 3]);
    let b = AutoSet::from_vec(vec![3usize, 1, 2]);
    let c = AutoSet::from_vec(vec![1usize, 2]);
    assert!(a == b);
    assert!(a != c);
}

#[test]
fn auto_set_clear_empties() {
    let mut set: AutoSet<usize> = AutoSet::new();
    set.insert(1);
    set.insert(2);
    set.clear();
    assert!(set.is_empty());
    assert!(!set.contains(&1));
}
