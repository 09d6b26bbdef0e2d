use pfds::Error;
use pfds::queue::Queue;

#[test]
fn queue_test_empty() {
    let q = Queue::empty();
    assert!(q.is_empty());
    let q = q.enq(1);
    assert!(!q.is_empty());
}

#[test]
fn test_top() {
    let q = Queue::empty().enq(1);
    assert_eq!(q.top().unwrap(), 1);
}

#[test]
fn test_invariants() {
    let q = Queue::empty().enq(1).enq(2).enq(3);
    let q = q.deq().unwrap();
    assert_eq!(q.top().unwrap(), 2);
    let q = q.enq(4).deq().unwrap().deq().unwrap();
    assert_eq!(q.top().unwrap(), 4);
    let q = q.deq().unwrap();
    assert!(q.is_empty());
}

#[test]
fn queue_errors_on_empty() {
    let q = Queue::<i32>::empty();
    assert_eq!(q.top().unwrap_err(), Error::EmptyCollection);
    assert!(q.deq().is_err());
}

#[test]
fn queue_matches_reference_model() {
    // an interleaving of enqueues and dequeues against a plain vector model
    let mut q = Queue::empty();
    let mut model: Vec<i32> = Vec::new();
    let ops = [1, 2, -1, 3, 4, -1, -1, 5, -1, -1, 6, 7, -1, -1];
    for &op in ops.iter() {
        if op >= 0 {
            q = q.enq(op);
            model.push(op);
        } else {
            assert_eq!(q.top().unwrap(), model[0]);
            q = q.deq().unwrap();
            model.remove(0);
        }
        assert_eq!(q.is_empty(), model.is_empty());
        if !model.is_empty() {
            assert_eq!(q.top().unwrap(), model[0]);
        }
    }
    assert!(q.is_empty());
}
