use btree_engine::activity::{greedy_activity_selector, recursive_activity_selector};

#[test]
fn textbook_schedule() {
    let a = vec![
        (1, 4),
        (3, 5),
        (0, 6),
        (5, 7),
        (3, 9),
        (5, 9),
        (6, 10),
        (8, 11),
        (8, 12),
        (2, 14),
        (12, 16),
    ];
    let expect = vec![(1, 4), (5, 7), (8, 11), (12, 16)];
    assert_eq!(greedy_activity_selector(a.clone()), expect);
    assert_eq!(recursive_activity_selector(a), expect);
}

#[test]
fn empty_schedule() {
    assert_eq!(greedy_activity_selector(Vec::new()), Vec::new());
    assert_eq!(recursive_activity_selector(Vec::new()), Vec::new());
}

#[test]
fn single_activity() {
    assert_eq!(greedy_activity_selector(vec![(2, 3)]), vec![(2, 3)]);
    assert_eq!(recursive_activity_selector(vec![(2, 3)]), vec![(2, 3)]);
}
