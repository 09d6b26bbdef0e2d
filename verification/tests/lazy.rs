use pfds::lazy::Delayed;

#[test]
fn lazy_test() {
    let mut i = Delayed::new(|| "this expression will be evaluated lazily!".to_string());

    // The expression is evaluated (forced) when first accessed.
    let j = i.eval().as_str();
    assert_eq!(j, "this expression will be evaluated lazily!");

    // The second access returns the memo instead of evaluating again.
    let k = i.eval().as_str();
    assert_eq!(k, "this expression will be evaluated lazily!");

    // A bit more involved: the 1000th prime after 2.
    let mut prime1000 = Delayed::new(|| {
        let mut known = vec![2];
        let mut i = 3;
        while known.len() <= 1000 {
            if known.iter().all(|p| i % p != 0) {
                known.push(i);
            }
            i += 1;
        }
        *known.last().unwrap()
    });
    assert_eq!(*prime1000.eval(), 7927);
    assert_eq!(*prime1000.eval(), 7927);

    // An inner infinite loop is never evaluated while the cell is not forced.
    let _ = Delayed::<i32, _>::new(|| loop {});
}

#[test]
fn lazy_forced_twice_runs_once() {
    let count = std::cell::Cell::new(0u32);
    let mut d = Delayed::new(|| {
        count.set(count.get() + 1);
        42
    });
    d.force();
    assert_eq!(*d.eval(), 42);
    d.force();
    assert_eq!(*d.eval(), 42);
    // the closure ran exactly once despite repeated forcing
    assert_eq!(count.get(), 1);
}

#[test]
fn lazy_constant_never_computes() {
    let count = std::cell::Cell::new(0u32);
    let probe = Delayed::new(|| {
        count.set(count.get() + 1);
        0
    });
    let mut c: Delayed<i32, fn() -> i32> = Delayed::constant(5);
    assert_eq!(*c.eval(), 5);
    assert_eq!(count.get(), 0);
    drop(probe);
}
