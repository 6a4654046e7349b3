use bbr_transport::sliding_window::{SlidingWindow, WindowError};

#[test]
fn create_insert() {
    let mut sw = SlidingWindow::<&str>::new(16);

    assert!(sw.insert(3, "hello").is_ok());
    assert!(sw.insert(3, "world").is_err());
}

#[test]
fn pop_test() {
    let mut sw = SlidingWindow::<&str>::new(16);

    // insert 3 items in order
    assert!(sw.insert(0, "a").is_ok());
    assert!(sw.insert(1, "b").is_ok());
    assert!(sw.insert(2, "c").is_ok());
    assert_eq!((0, 16), sw.window());

    assert_eq!("a", sw.pop().unwrap());
    assert_eq!("b", sw.pop().unwrap());
    assert_eq!("c", sw.pop().unwrap());
}

#[test]
fn sender_test() {
    let mut sw = SlidingWindow::<&str>::new(16);

    // insert 3 items in order
    assert!(sw.insert(0, "a").is_ok());
    assert!(sw.insert(1, "b").is_ok());
    assert!(sw.insert(2, "c").is_ok());
    assert_eq!((0, 16), sw.window());

    // remove the one in the middle
    assert_eq!(Ok("b"), sw.remove(1));
    assert_eq!((0, 16), sw.window());

    // make sure we've incremented twice
    assert_eq!(Ok("a"), sw.remove(0));
    assert_eq!((2, 18), sw.window());

    // make sure the window is totally consumed
    assert_eq!(Ok("c"), sw.remove(2));
    assert_eq!((3, 19), sw.window());

    // insert items in reverse order
    assert!(sw.insert(5, "f").is_ok());
    assert!(sw.insert(4, "e").is_ok());
    assert!(sw.insert(3, "d").is_ok());
    assert_eq!((3, 19), sw.window());

    // remove the one in the middle
    assert_eq!(Ok("e"), sw.remove(4));
    assert_eq!((3, 19), sw.window());

    // make sure we've incremented twice
    assert_eq!(Ok("d"), sw.remove(3));
    assert_eq!((5, 21), sw.window());

    // make sure the window is totally consumed
    assert_eq!(Ok("f"), sw.remove(5));
    assert_eq!((6, 22), sw.window());
}

#[test]
fn window_pop_order() {
    // Out-of-order inserts at keys 2, 0, 1 pop back in key order, and the
    // window has advanced past all three.
    let mut sw = SlidingWindow::<u32>::new(16);

    assert!(sw.insert(2, 30).is_ok());
    assert!(sw.insert(0, 10).is_ok());
    assert!(sw.insert(1, 20).is_ok());

    assert_eq!(10, sw.pop().unwrap());
    assert_eq!(20, sw.pop().unwrap());
    assert_eq!(30, sw.pop().unwrap());
    assert_eq!(3, sw.window().0);
}

#[test]
fn window_backpressure() {
    // A capacity-3 window filled at keys 0, 1, 2 reports Full for key 3 —
    // storing and dropping nothing — until a removal makes room.
    let mut sw = SlidingWindow::<&str>::new(3);

    assert!(sw.insert(0, "a").is_ok());
    assert!(sw.insert(1, "b").is_ok());
    assert!(sw.insert(2, "c").is_ok());

    assert_eq!(Err(WindowError::Full), sw.insert(3, "d"));
    // nothing changed: a retry reports the same
    assert_eq!(Err(WindowError::Full), sw.insert(3, "d"));

    assert_eq!(Ok("a"), sw.remove(0));
    assert!(sw.insert(3, "d").is_ok());
    assert_eq!(Ok("d"), sw.remove(3));
}

#[test]
fn window_error_cases() {
    let mut sw = SlidingWindow::<&str>::new(4);

    assert!(sw.insert(0, "a").is_ok());
    assert_eq!(Ok("a"), sw.remove(0));
    assert_eq!(1, sw.window().0);

    // the window has moved past key 0
    assert_eq!(Err(WindowError::TooOld), sw.insert(0, "x"));
    assert_eq!(Err(WindowError::TooOld), sw.remove(0));

    // a key beyond start + capacity
    assert_eq!(Err(WindowError::OutOfWindow), sw.remove(100));

    // a second insert at a live key
    assert!(sw.insert(2, "b").is_ok());
    assert_eq!(Err(WindowError::Duplicate), sw.insert(2, "c"));

    // removing an empty in-window key reports Missing and moves nothing
    let before = sw.window();
    assert_eq!(Err(WindowError::Missing), sw.remove(3));
    assert_eq!(before, sw.window());
    assert_eq!(Ok("b"), sw.remove(2));
}

#[test]
fn window_start_monotone() {
    // `start` never moves backward over a workload of mixed operations.
    let mut sw = SlidingWindow::<u64>::new(8);
    let mut last_start = sw.window().0;

    for k in 0..32u64 {
        assert!(sw.insert(k, k * 2).is_ok());
        if k % 3 == 0 {
            assert_eq!(Ok(k * 2), sw.remove(k));
        } else {
            assert_eq!(k * 2, sw.pop().unwrap());
        }
        let start = sw.window().0;
        assert!(start >= last_start);
        last_start = start;
    }
}
