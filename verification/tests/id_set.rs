use sanic::id_set::IdSet;

#[test]
fn new_set_is_empty() {
    let set = IdSet::new();
    assert!(set.is_empty());
    assert_eq!(set.len(), 0);
    assert!(!set.contains(0));
    assert_eq!(set.to_vec(), Vec::<u32>::new());
}

#[test]
fn insert_is_idempotent() {
    let mut set = IdSet::new();
    assert!(set.insert(5));
    assert!(!set.insert(5));
    assert_eq!(set.len(), 1);
    assert!(set.contains(5));
    assert!(!set.contains(4));
    assert!(!set.contains(6));
}

#[test]
fn members_come_out_in_increasing_order() {
    let mut set = IdSet::new();
    for id in [9u32, 3, 7, 3, 0, u32::MAX, 8, 9, 1] {
        set.insert(id);
    }
    assert_eq!(set.to_vec(), vec![0, 1, 3, 7, 8, 9, u32::MAX]);
    assert_eq!(set.len(), 7);
    assert!(!set.is_empty());
}

#[test]
fn remove_is_idempotent() {
    let mut set = IdSet::new();
    for id in 0..10u32 {
        set.insert(id);
    }
    assert!(set.remove(4));
    assert!(!set.remove(4));
    assert!(!set.remove(100));
    assert!(set.remove(0));
    assert!(set.remove(9));
    assert_eq!(set.to_vec(), vec![1, 2, 3, 5, 6, 7, 8]);
    assert!(!set.contains(4));
    assert!(set.contains(5));
}

#[test]
fn every_member_is_found() {
    let mut set = IdSet::new();
    for id in (0..1000u32).rev() {
        assert!(set.insert(id * 3));
    }
    for id in 0..3000u32 {
        assert_eq!(set.contains(id), id % 3 == 0);
    }
    assert_eq!(set.len(), 1000);
}
