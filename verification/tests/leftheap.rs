use pfds::Error;
use pfds::leftheap::LeftHeap;

#[test]
fn leftheap_test_empty() {
    let e = LeftHeap::empty();
    assert!(e.is_empty());
    let e = e.merge(&e);
    assert!(e.is_empty());
}

#[test]
fn leftheap_test_merge() {
    let h1 = LeftHeap::empty().insert(4).insert(6).insert(10);
    let h2 = LeftHeap::empty().insert(1).insert(7).insert(9);
    let mut h = h1.merge(&h2);
    for i in &[1, 4, 6, 7, 9, 10] {
        assert_eq!(h.find_min().unwrap(), *i);
        h = h.delete_min().unwrap();
    }
    h = h1.merge(&h2);
    for i in &[1, 4, 6, 7, 9, 10] {
        assert_eq!(h.find_min().unwrap(), *i);
        h = h.delete_min().unwrap();
    }
    h = h.insert(0);
    assert_eq!(h.find_min().unwrap(), 0);
}

#[test]
fn leftheap_test_insert() {
    let mut h = LeftHeap::empty().insert(4).insert(6).insert(10);
    h = h.insert(1);
    h = h.insert(7);
    h = h.insert(12);
    for i in &[1, 4, 6, 7, 10, 12] {
        assert_eq!(h.find_min().unwrap(), *i);
        h = h.delete_min().unwrap();
    }
    assert!(h.is_empty());
}

#[test]
fn test_from_array() {
    let mut h = LeftHeap::from_slice(&[4, 10, 6, 1, 9]);
    for i in &[1, 4, 6, 9, 10] {
        assert_eq!(h.find_min().unwrap(), *i);
        h = h.delete_min().unwrap();
    }
    assert!(h.is_empty());
}

#[test]
fn leftheap_errors_on_empty() {
    let h = LeftHeap::empty();
    assert_eq!(h.find_min().unwrap_err(), Error::EmptyCollection);
    assert!(h.delete_min().is_err());
    assert_eq!(h.rank(), 0);
}

#[test]
fn leftheap_merge_is_commutative_in_extraction() {
    let h1 = LeftHeap::from_slice(&[8, 3, 5, 5, 2]);
    let h2 = LeftHeap::from_slice(&[7, 1, 5, 9]);
    let mut a = h1.merge(&h2);
    let mut b = h2.merge(&h1);
    while !a.is_empty() {
        assert_eq!(a.find_min().unwrap(), b.find_min().unwrap());
        a = a.delete_min().unwrap();
        b = b.delete_min().unwrap();
    }
    assert!(b.is_empty());
}

#[test]
fn leftheap_old_handle_survives() {
    let h = LeftHeap::empty().insert(5).insert(3);
    let h2 = h.insert(1);
    // the old handle still observes the old minimum
    assert_eq!(h.find_min().unwrap(), 3);
    assert_eq!(h2.find_min().unwrap(), 1);
}
