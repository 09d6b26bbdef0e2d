use pfds::Error;
use pfds::binheap::{BinHeap, BinHeap2};

#[test]
fn binheap_test_empty() {
    let h = BinHeap::empty();
    assert!(h.is_empty());
}

#[test]
fn binheap_test_insert() {
    let mut h = BinHeap::empty().insert(3).insert(1).insert(7).insert(10);
    for i in &[1, 3, 7, 10] {
        assert_eq!(h.find_min().unwrap(), *i);
        h = h.delete_min().unwrap();
    }
}

#[test]
fn binheap_test_merge() {
    let h1 = BinHeap::empty().insert(3).insert(1).insert(7).insert(10);
    let h2 = BinHeap::empty().insert(2).insert(4).insert(11).insert(0);
    let mut h = h1.merge(&h2);
    for i in &[0, 1, 2, 3, 4, 7, 10, 11] {
        assert_eq!(h.find_min().unwrap(), *i);
        h = h.delete_min().unwrap();
    }
    assert!(h.is_empty());
    h = h2.merge(&h1);
    for i in &[0, 1, 2, 3, 4, 7, 10, 11] {
        assert_eq!(h.find_min().unwrap(), *i);
        h = h.delete_min().unwrap();
    }
    assert!(h.is_empty());
}

#[test]
fn test_empty2() {
    let h = BinHeap2::empty();
    assert!(h.is_empty());
}

#[test]
fn test_insert2() {
    let mut h = BinHeap2::empty().insert(3).insert(1).insert(7).insert(10);
    for i in &[1, 3, 7, 10] {
        assert_eq!(h.find_min().unwrap(), *i);
        h = h.delete_min().unwrap();
    }
}

#[test]
fn test_merge2() {
    let h1 = BinHeap2::empty().insert(3).insert(1).insert(7).insert(10);
    let h2 = BinHeap2::empty().insert(2).insert(4).insert(11).insert(0);
    let mut h = h1.merge(&h2);
    for i in &[0, 1, 2, 3, 4, 7, 10, 11] {
        assert_eq!(h.find_min().unwrap(), *i);
        h = h.delete_min().unwrap();
    }
    assert!(h.is_empty());
    h = h2.merge(&h1);
    for i in &[0, 1, 2, 3, 4, 7, 10, 11] {
        assert_eq!(h.find_min().unwrap(), *i);
        h = h.delete_min().unwrap();
    }
    assert!(h.is_empty());
}

#[test]
fn binheap_errors_on_empty() {
    let h = BinHeap::empty();
    assert_eq!(h.find_min().unwrap_err(), Error::EmptyCollection);
    assert!(h.delete_min().is_err());
    let h2 = BinHeap2::empty();
    assert_eq!(h2.find_min().unwrap_err(), Error::EmptyCollection);
    match h2.delete_min() {
        Err(e) => assert_eq!(e, Error::EmptyCollection),
        Ok(_) => panic!("delete_min on an empty heap must fail"),
    }
}

#[test]
fn binheap2_merge_with_empty() {
    let h = BinHeap2::empty().insert(2).insert(5);
    let e = BinHeap2::empty();
    let a = h.merge(&e);
    let b = e.merge(&h);
    assert_eq!(a.find_min().unwrap(), 2);
    assert_eq!(b.find_min().unwrap(), 2);
    let c = e.merge(&e);
    assert!(c.is_empty());
}

#[test]
fn binheap_insert_cascades_links() {
    // eight inserts force a cascade through every rank
    let mut h = BinHeap::empty();
    for v in [5, 3, 9, 1, 7, 2, 8, 0] {
        h = h.insert(v);
    }
    for i in &[0, 1, 2, 3, 5, 7, 8, 9] {
        assert_eq!(h.find_min().unwrap(), *i);
        h = h.delete_min().unwrap();
    }
    assert!(h.is_empty());
}

#[test]
fn binheap_duplicates_kept() {
    let mut h = BinHeap::empty().insert(4).insert(4).insert(2).insert(4);
    for i in &[2, 4, 4, 4] {
        assert_eq!(h.find_min().unwrap(), *i);
        h = h.delete_min().unwrap();
    }
    assert!(h.is_empty());
}
