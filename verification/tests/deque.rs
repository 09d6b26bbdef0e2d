use pfds::Error;
use pfds::deque::Deque;

#[test]
fn deque_test_empty() {
    let d = Deque::empty();
    assert!(d.is_empty());
    let d = d.enq_front(1);
    assert!(!d.is_empty());
}

#[test]
fn deque_test_front_to_back() {
    let d = Deque::empty().enq_front(1);
    assert_eq!(d.front().unwrap(), 1);
    assert_eq!(d.back().unwrap(), 1);

    let d = d.enq_front(2).enq_front(3);
    assert_eq!(d.front().unwrap(), 3);
    assert_eq!(d.back().unwrap(), 1);

    let d = d.deq_back().unwrap();
    assert_eq!(d.front().unwrap(), 3);
    assert_eq!(d.back().unwrap(), 2);

    let d = d.deq_back().unwrap().deq_back().unwrap();
    assert!(d.is_empty());
}

#[test]
fn deque_test_back_to_front() {
    let d = Deque::empty().enq_back(1);
    assert_eq!(d.front().unwrap(), 1);
    assert_eq!(d.back().unwrap(), 1);

    let d = d.enq_back(2).enq_back(3);
    assert_eq!(d.front().unwrap(), 1);
    assert_eq!(d.back().unwrap(), 3);

    let d = d.deq_front().unwrap();
    assert_eq!(d.front().unwrap(), 2);
    assert_eq!(d.back().unwrap(), 3);

    let d = d.deq_front().unwrap().deq_front().unwrap();
    assert!(d.is_empty());
}

#[test]
fn deque_test_enq_both_sides() {
    let d = Deque::empty().enq_front(2).enq_back(3).enq_front(1).enq_back(4);
    assert_eq!(d.front().unwrap(), 1);
    assert_eq!(d.back().unwrap(), 4);
    let d = d
        .deq_back()
        .unwrap()
        .deq_front()
        .unwrap()
        .deq_back()
        .unwrap()
        .deq_front()
        .unwrap();
    assert!(d.is_empty());

    let d = Deque::empty().enq_front(2).enq_back(3).enq_front(1).enq_back(4);
    assert_eq!(d.front().unwrap(), 1);
    assert_eq!(d.back().unwrap(), 4);
    let d = d
        .deq_front()
        .unwrap()
        .deq_back()
        .unwrap()
        .deq_front()
        .unwrap()
        .deq_back()
        .unwrap();
    assert!(d.is_empty());
}

#[test]
fn deque_errors_on_empty() {
    let d = Deque::<i32>::empty();
    assert_eq!(d.front().unwrap_err(), Error::EmptyCollection);
    assert_eq!(d.back().unwrap_err(), Error::EmptyCollection);
    assert!(d.deq_front().is_err());
    assert!(d.deq_back().is_err());
}

#[test]
fn deque_matches_reference_model() {
    // an interleaving of all four operations against a plain vector model:
    // 1 = enq_front, 2 = enq_back, 3 = deq_front, 4 = deq_back
    let ops = [
        (1, 10),
        (2, 11),
        (1, 12),
        (3, 0),
        (2, 13),
        (4, 0),
        (4, 0),
        (1, 14),
        (2, 15),
        (3, 0),
        (3, 0),
        (4, 0),
    ];
    let mut d = Deque::empty();
    let mut model: Vec<i32> = Vec::new();
    for &(op, v) in ops.iter() {
        match op {
            1 => {
                d = d.enq_front(v);
                model.insert(0, v);
            }
            2 => {
                d = d.enq_back(v);
                model.push(v);
            }
            3 => {
                assert_eq!(d.front().unwrap(), model[0]);
                d = d.deq_front().unwrap();
                model.remove(0);
            }
            _ => {
                assert_eq!(d.back().unwrap(), model[model.len() - 1]);
                d = d.deq_back().unwrap();
                model.pop();
            }
        }
        assert_eq!(d.is_empty(), model.is_empty());
        if !model.is_empty() {
            assert_eq!(d.front().unwrap(), model[0]);
            assert_eq!(d.back().unwrap(), model[model.len() - 1]);
        }
    }
    assert!(d.is_empty());
}
