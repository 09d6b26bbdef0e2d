use pfds::rbtree::RBTree;

#[test]
fn rbtree_test() {
    let t = RBTree::empty();
    assert!(t.is_empty());
    let t = t.insert(10).insert(3).insert(7).insert(1).insert(9);
    assert!(!t.is_empty());
    assert_eq!(t.root_val().unwrap(), 7);
}

#[test]
fn rbtree_member_after_inserts() {
    let mut t = RBTree::empty();
    for v in [8, 3, 11, 1, 5, 9, 14, 4, 7, 12] {
        t = t.insert(v);
    }
    for v in [1, 3, 4, 5, 7, 8, 9, 11, 12, 14] {
        assert!(t.member(v));
    }
    for v in [0, 2, 6, 10, 13, 15] {
        assert!(!t.member(v));
    }
}

#[test]
fn rbtree_insert_existing_is_noop() {
    let t = RBTree::empty().insert(4).insert(2).insert(6);
    let t2 = t.insert(4);
    assert!(t2.member(2) && t2.member(4) && t2.member(6));
    assert!(!t2.member(5));
}

#[test]
fn rbtree_from_sorted() {
    let t = RBTree::from_sorted(&[1, 2, 3, 5, 8, 13, 21]);
    for v in [1, 2, 3, 5, 8, 13, 21] {
        assert!(t.member(v));
    }
    for v in [0, 4, 6, 7, 9, 20, 22] {
        assert!(!t.member(v));
    }
    let t = RBTree::from_sorted(&[]);
    assert!(t.is_empty());
    let t = RBTree::from_sorted(&[42]);
    assert!(t.member(42));
    assert!(!t.member(41));
}

#[test]
fn rbtree_from_sorted_sizes() {
    // one size of every shape class up to a few levels
    for n in 0..40usize {
        let vals: Vec<i64> = (0..n as i64).map(|i| 2 * i).collect();
        let t = RBTree::from_sorted(&vals);
        for &v in vals.iter() {
            assert!(t.member(v));
            assert!(!t.member(v + 1));
        }
    }
}

#[test]
fn rbtree_old_handle_survives() {
    let t = RBTree::empty().insert(2);
    let t2 = t.insert(1);
    assert!(!t.member(1));
    assert!(t2.member(1) && t2.member(2));
}
