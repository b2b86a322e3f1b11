use btree_engine::forest::{DSForest, TreeNode};

#[test]
fn forest_union_find() {
    let mut f = DSForest::new(10);
    assert_eq!(f.forests(), 10);
    f.union(1, 2);
    assert_eq!(f.forests(), 9);
    assert!(f.is_linked(1, 2));
    assert!(!f.is_linked(1, 3));
    f.union(3, 4);
    f.union(2, 3);
    assert_eq!(f.forests(), 7);
    assert!(f.is_linked(1, 4));
    f.union(1, 4);
    assert_eq!(f.forests(), 7);
    let r1 = f.find_set(1);
    let r4 = f.find_set(4);
    assert_eq!(r1, r4);
    let r5 = f.find_set(5);
    assert_ne!(r1, r5);
    f.add(10);
    assert_eq!(f.forests(), 8);
    assert!(!f.is_linked(10, 1));
}

#[test]
fn forest_nodes() {
    let n = TreeNode::make_set(5);
    assert_eq!(n.name(), 5);
    assert_eq!(n.father(), 5);
}

#[test]
fn forest_everyone_into_one() {
    let mut f = DSForest::new(8);
    for i in 1..8 {
        f.union(0, i);
    }
    assert_eq!(f.forests(), 1);
    for i in 0..8 {
        for j in 0..8 {
            assert!(f.is_linked(i, j));
        }
    }
}
