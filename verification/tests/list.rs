use pfds::Error;
use pfds::list::{List, Node};

#[test]
fn list_test_empty() {
    let e = List::empty();
    assert!(e.is_empty());
    let e = e.cons(1);
    assert!(!e.is_empty());
}

#[test]
fn test_cons() {
    // 1
    let e = List::one(1);
    assert_eq!(e.head().unwrap(), &1);
    // 2, 1
    let e = e.cons(2);
    assert_eq!(e.head().unwrap(), &2);
    assert_eq!(e.tail().unwrap().head().unwrap(), &1);
}

#[test]
fn list_test_concat() {
    // 2, 1
    let e = List::one(1).cons(2);
    // 4, 3
    let e2 = List::one(3).cons(4);
    // 2, 1, 4, 3
    let e = e.concat(&e2);
    assert_eq!(e.head().unwrap(), &2);
    assert_eq!(e.tail().unwrap().tail().unwrap().head().unwrap(), &4);
}

#[test]
fn test_update_at() {
    // 2, 1, 4, 3
    let e = List::one(3).cons(4).cons(1).cons(2);
    // 2, 5, 4, 3
    let e = e.update_at(1, 5).unwrap();
    assert_eq!(e.tail().unwrap().head().unwrap(), &5);
}

#[test]
fn test_suffixes() {
    // 2, 1, 4, 3
    let e = List::one(3).cons(4).cons(1).cons(2);
    let e = e.suffixes();
    assert_eq!(
        e.tail().unwrap().head().unwrap().tail().unwrap().head().unwrap(),
        &4
    );
}

#[test]
fn test_rev() {
    // 2, 1, 4, 3
    let e = List::one(3).cons(4).cons(1).cons(2);
    let e = e.rev();
    assert_eq!(e.head().unwrap(), &3);
    let e = e.tail().unwrap();
    assert_eq!(e.head().unwrap(), &4);
    let e = e.tail().unwrap();
    assert_eq!(e.head().unwrap(), &1);
    let e = e.tail().unwrap();
    assert_eq!(e.head().unwrap(), &2);

    assert!(List::<i32>::empty().rev().is_empty());
}

#[test]
fn test_root() {
    let e = List::empty();
    match *e.root() {
        Node::Nil => {}
        _ => assert!(false),
    };
    let e = e.cons(1);
    match *e.root() {
        Node::Nil => assert!(false),
        _ => {}
    };
}

#[test]
fn list_errors_on_empty() {
    let e = List::<i32>::empty();
    assert_eq!(e.head().unwrap_err(), Error::EmptyCollection);
    assert!(e.tail().is_err());
    match e.update_at(0, 9) {
        Err(err) => assert_eq!(err, Error::IndexOutOfRange),
        Ok(_) => panic!("update on an empty list must fail"),
    }
    // update past the end of a non-empty list
    let e = e.cons(7);
    match e.update_at(1, 9) {
        Err(err) => assert_eq!(err, Error::IndexOutOfRange),
        Ok(_) => panic!("update past the end must fail"),
    }
    assert_eq!(e.update_at(0, 9).unwrap().head().unwrap(), &9);
}

#[test]
fn list_concat_traversal_order() {
    // concat(concat(a, b), c) and concat(a, concat(b, c)) traverse alike
    let a = List::one(2).cons(1);
    let b = List::one(4).cons(3);
    let c = List::one(6).cons(5);
    let left = a.concat(&b).concat(&c);
    let right = a.concat(&b.concat(&c));
    let mut l = &left;
    let mut r = &right;
    for expected in [1, 2, 3, 4, 5, 6] {
        assert_eq!(l.head().unwrap(), &expected);
        assert_eq!(r.head().unwrap(), &expected);
        l = l.tail().unwrap();
        r = r.tail().unwrap();
    }
    assert!(l.is_empty());
    assert!(r.is_empty());
}

#[test]
fn list_sharing_keeps_old_handle() {
    let old = List::one(1).cons(2);
    let new = old.cons(3);
    // the old handle still observes the old value
    assert_eq!(old.head().unwrap(), &2);
    assert_eq!(new.head().unwrap(), &3);
    assert_eq!(new.tail().unwrap().head().unwrap(), &2);
}
