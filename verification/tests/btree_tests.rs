use btree_engine::btree::{Btree, TreeError};

#[test]
fn it_works() {
    assert_eq!(2 + 2, 4);
}

#[test]
fn root_split_on_overflow() {
    // minimum degree 2: the root fills up at three items and splits when the
    // next insert arrives, promoting its median
    let mut a = Btree::new(2);
    assert!(a.insert(1, 10).is_ok());
    assert!(a.insert(2, 20).is_ok());
    assert!(a.insert(3, 30).is_ok());
    let root = a.get_root();
    assert_eq!(root.key_len(), 3);
    assert!(root.isleaf());

    assert!(a.insert(4, 40).is_ok());
    let root = a.get_root();
    assert_eq!(root.key_len(), 1);
    assert_eq!(root.child_len(), 2);
    assert_eq!(root.items[0].key, 2);
    let left = Btree::get_nchild(root, 0);
    let right = Btree::get_nchild(root, 1);
    assert_eq!(left.key_len(), 1);
    assert_eq!(left.items[0].key, 1);
    assert_eq!(right.items[0].key, 3);
    assert_eq!(right.items[1].key, 4);

    // the right child grows to three items without another split
    assert!(a.insert(5, 50).is_ok());
    let root = a.get_root();
    assert_eq!(root.key_len(), 1);
    assert_eq!(root.child_len(), 2);
    let right = Btree::get_nchild(root, 1);
    assert_eq!(right.key_len(), 3);
    assert_eq!(right.items[0].key, 3);
    assert_eq!(right.items[1].key, 4);
    assert_eq!(right.items[2].key, 5);
    assert_eq!(a.size(), 5);
}

#[test]
fn merge_on_delete() {
    // keys 1..7 with minimum degree 2, then delete 4, whose two adjacent
    // children hold exactly one item each: the merge case fires
    let mut a = Btree::new(2);
    for k in 1..7 {
        a.insert(k, k * 10).unwrap();
    }
    let root = a.get_root();
    assert_eq!(root.key_len(), 2);
    assert_eq!(root.items[0].key, 2);
    assert_eq!(root.items[1].key, 4);

    let it = a.delete(4).unwrap();
    assert_eq!(it.key, 4);
    assert_eq!(it.value, 40);
    assert!(a.delete(4).is_none());
    assert_eq!(a.size(), 5);
    for k in [1, 2, 3, 5, 6] {
        let (node, idx) = Btree::search(a.get_root(), k).unwrap();
        assert_eq!(node.items[idx].key, k);
        assert_eq!(node.items[idx].value, k * 10);
    }
    assert!(Btree::search(a.get_root(), 4).is_none());
}

#[test]
fn stress_range() {
    // a long mixed-sign run: 5101 keys with t = 10, deleted again in
    // descending order
    let mut a = Btree::new(10);
    for k in -2550..=2550 {
        a.insert(k, k).unwrap();
    }
    assert_eq!(a.size(), 5101);
    for k in (-2550..=2550).rev() {
        let it = a.delete(k).unwrap();
        assert_eq!(it.key, k);
        assert_eq!(it.value, k);
    }
    assert_eq!(a.size(), 0);
}

#[test]
fn delete_from_empty() {
    let mut a = Btree::new(2);
    for k in [-5, 0, 7, i32::MAX, i32::MIN] {
        assert!(a.delete(k).is_none());
    }
    assert_eq!(a.size(), 0);
}

#[test]
fn duplicate_key_rejected() {
    let mut a = Btree::new(3);
    assert!(a.insert(7, 1).is_ok());
    assert_eq!(a.insert(7, 2), Err(TreeError::DuplicateKey));
    let (node, idx) = Btree::search(a.get_root(), 7).unwrap();
    assert_eq!(node.items[idx].value, 1);

    // a duplicate found deeper down, after splits have reshaped the tree
    for k in 0..40 {
        if k != 7 {
            a.insert(k, k).unwrap();
        }
    }
    assert_eq!(a.insert(7, 9), Err(TreeError::DuplicateKey));
    assert_eq!(a.size(), 40);
}

#[test]
fn round_trip_random_order() {
    let keys = [13, -2, 99, 0, 5, 42, -77, 8, 21, -1, 64, 30];
    let mut a = Btree::new(2);
    for (i, &k) in keys.iter().enumerate() {
        a.insert(k, i as i32).unwrap();
    }
    assert_eq!(a.size(), keys.len());
    for (i, &k) in keys.iter().enumerate() {
        let (node, idx) = Btree::search(a.get_root(), k).unwrap();
        assert_eq!(node.items[idx].key, k);
        assert_eq!(node.items[idx].value, i as i32);
    }
    for (i, &k) in keys.iter().enumerate() {
        let it = a.delete(k).unwrap();
        assert_eq!(it.key, k);
        assert_eq!(it.value, i as i32);
    }
    assert_eq!(a.size(), 0);
}

#[test]
fn order_independence_of_contents() {
    // two permutations of one key set end up with the same pairs, whatever
    // the internal shape
    let pairs = [(4, 40), (1, 10), (6, 60), (2, 20), (5, 50), (3, 30)];
    let mut a = Btree::new(2);
    let mut b = Btree::new(2);
    for &(k, v) in pairs.iter() {
        a.insert(k, v).unwrap();
    }
    for &(k, v) in pairs.iter().rev() {
        b.insert(k, v).unwrap();
    }
    assert_eq!(a.size(), b.size());
    for &(k, v) in pairs.iter() {
        let (na, ia) = Btree::search(a.get_root(), k).unwrap();
        let (nb, ib) = Btree::search(b.get_root(), k).unwrap();
        assert_eq!(na.items[ia].value, v);
        assert_eq!(nb.items[ib].value, v);
    }
}

#[test]
fn min_item() {
    let a = Btree::new(2);
    assert!(Btree::get_min_item(a.get_root()).is_none());
    let mut a = Btree::new(2);
    for k in [9, 3, 17, -4, 11, 0] {
        a.insert(k, k).unwrap();
    }
    assert_eq!(Btree::get_min_item(a.get_root()), Some(-4));
}
