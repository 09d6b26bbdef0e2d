use pfds::stream::{Stream, StreamCell};

fn collect(s: &Stream<i64>) -> Vec<i64> {
    let mut out = Vec::new();
    let mut cur = s.clone();
    loop {
        match cur.force() {
            StreamCell::Nil => break,
            StreamCell::Cons(v, rest) => {
                out.push(v);
                cur = rest;
            }
        }
    }
    out
}

#[test]
fn stream_test_concat() {
    let a = Stream::empty().cons(2).cons(1);
    let b = Stream::empty().cons(4).cons(3);
    let c = a.concat(&b);
    assert_eq!(collect(&c), vec![1, 2, 3, 4]);
    // both inputs stay valid and unchanged
    assert_eq!(collect(&a), vec![1, 2]);
    assert_eq!(collect(&b), vec![3, 4]);
}

#[test]
fn stream_take_and_drop() {
    let s = Stream::empty().cons(5).cons(4).cons(3).cons(2).cons(1);
    assert_eq!(collect(&s.take(0)), vec![]);
    assert_eq!(collect(&s.take(3)), vec![1, 2, 3]);
    assert_eq!(collect(&s.take(9)), vec![1, 2, 3, 4, 5]);
    assert_eq!(collect(&s.drop(0)), vec![1, 2, 3, 4, 5]);
    assert_eq!(collect(&s.drop(3)), vec![4, 5]);
    assert_eq!(collect(&s.drop(9)), vec![]);
}

#[test]
fn stream_reverse() {
    let s = Stream::empty().cons(3).cons(2).cons(1);
    assert_eq!(collect(&s.reverse()), vec![3, 2, 1]);
    assert_eq!(collect(&Stream::<i64>::empty().reverse()), vec![]);
    // reversal is itself lazy until observed, and the input stays valid
    let r = s.reverse().reverse();
    assert_eq!(collect(&r), vec![1, 2, 3]);
}

#[test]
fn stream_ops_compose() {
    let a = Stream::empty().cons(2).cons(1);
    let b = Stream::empty().cons(4).cons(3);
    let s = a.concat(&b).reverse().take(3).drop(1);
    assert_eq!(collect(&s), vec![3, 2]);
}

#[test]
fn stream_force_empty() {
    let s = Stream::<i64>::empty();
    assert!(matches!(s.force(), StreamCell::Nil));
    let s = s.cons(7);
    match s.force() {
        StreamCell::Cons(v, rest) => {
            assert_eq!(v, 7);
            assert!(matches!(rest.force(), StreamCell::Nil));
        }
        StreamCell::Nil => panic!("non-empty stream forced to its end"),
    }
}
