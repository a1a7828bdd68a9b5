use lib::try_alloc::rbtree::map::RBTreeMap;

#[test]
fn test_insert_and_get() {
    let mut tree = RBTreeMap::new().unwrap();

    for i in 0..100 {
        assert!(tree.try_insert(i, i * 10).unwrap().is_none());
    }

    for i in 0..100 {
        assert_eq!(tree.get(i), Some(&(i * 10)));
    }
}

#[test]
fn test_remove() {
    let mut tree = RBTreeMap::new().unwrap();

    for i in 0..50 {
        tree.try_insert(i, i).unwrap();
    }

    for i in (0..50).step_by(2) {
        assert_eq!(tree.remove(i), Some(i));
    }

    for i in 0..50 {
        if i % 2 == 0 {
            assert_eq!(tree.get(i), None);
        } else {
            assert_eq!(tree.get(i), Some(&i));
        }
    }
}

#[test]
fn insert_replaces_value() {
    let mut tree = RBTreeMap::new().unwrap();
    assert_eq!(tree.try_insert(5u64, 1).unwrap(), None);
    assert_eq!(tree.try_insert(5u64, 2).unwrap(), Some(1));
    assert_eq!(tree.get(5u64), Some(&2));
    assert_eq!(tree.remove(5u64), Some(2));
    assert_eq!(tree.remove(5u64), None);
}

#[test]
fn descending_inserts_and_removals() {
    let mut tree = RBTreeMap::new().unwrap();
    for i in (0..200i64).rev() {
        tree.try_insert(i, -i).unwrap();
    }
    for i in (0..200i64).step_by(3) {
        assert_eq!(tree.remove(i), Some(-i));
    }
    for i in 0..200i64 {
        if i % 3 == 0 {
            assert_eq!(tree.get(i), None);
        } else {
            assert_eq!(tree.get(i), Some(&-i));
        }
    }
}
