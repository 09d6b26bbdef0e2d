use pfds::bintree::BinTree;

#[test]
fn test_member() {
    let t = BinTree::from_array(&[5, 2, 4, 1, 6, 7]);
    assert!(t.member(4));
    assert!(t.member(1));
    assert!(t.member(7));
    assert!(!t.member(9));
}

#[test]
fn bintree_test_insert() {
    let t = BinTree::from_array(&[5, 2, 4, 1, 6, 7]);
    let t = t.insert(10);
    assert!(t.member(10));
    let t = t.insert(2);
    assert!(t.member(2));
}

#[test]
fn bintree_insert_existing_shares() {
    let t = BinTree::from_array(&[5, 2, 4]);
    // inserting a present value keeps the original handle's value
    assert!(t.insert_impl(2, None).is_none());
    let t2 = t.clone().insert(2);
    assert!(t2.member(2) && t2.member(4) && t2.member(5));
}

#[test]
fn bintree_member_impl_carried_value() {
    let t = BinTree::from_array(&[5, 7, 6]);
    assert!(t.member_impl(6, None));
    assert!(!t.member_impl(4, None));
    // a carried value below everything in the tree resolves v == memo
    assert!(t.member_impl(3, Some(3)));
    assert!(!t.member_impl(4, Some(3)));
}

#[test]
fn bintree_empty_from_array() {
    let t = BinTree::from_array(&[]);
    assert!(!t.member(0));
}
