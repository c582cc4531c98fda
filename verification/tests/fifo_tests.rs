use vasa::fifo::BoundedFIFO;

#[test]
fn create() {
    let _ = BoundedFIFO::<i32>::new(64);
}

#[test]
fn fifo_empty() {
    let fifo = BoundedFIFO::<i32>::new(64);
    assert!(fifo.is_empty());
}

#[test]
fn one_elem() {
    let mut fifo = BoundedFIFO::<i32>::new(64);
    fifo.push_back(14);
    assert_eq!(fifo, BoundedFIFO { b: vec![14], h: 0, t: 1, cap: 64, n: 1 });
}

#[test]
fn size() {
    let mut fifo = BoundedFIFO::<i32>::new(64);
    fifo.push_back(14);
    assert_eq!(fifo.size(), 1);
}

#[test]
fn get_first() {
    let mut fifo = BoundedFIFO::<i32>::new(64);
    fifo.push_back(14);
    assert_eq!(fifo.first(), &14);
}

#[test]
fn pop_front() {
    let mut fifo = BoundedFIFO::<i32>::new(64);
    fifo.push_back(14);
    assert_eq!(fifo.pop_front(), Some(14));
}

#[test]
fn pop_front_after() {
    let mut fifo = BoundedFIFO::<i32>::new(64);
    fifo.push_back(14);
    fifo.pop_front();
    assert_eq!(fifo, BoundedFIFO { b: vec![14], h: 1, t: 1, cap: 64, n: 0 });
}

#[test]
fn not_empty() {
    let mut fifo = BoundedFIFO::<i32>::new(64);
    fifo.push_back(14);
    assert!(!fifo.is_empty());
}

#[test]
fn double_size() {
    let mut fifo = BoundedFIFO::<i32>::new(4);
    fifo.push_back(1);
    fifo.push_back(2);
    fifo.push_back(3);
    fifo.push_back(4);
    fifo.push_back(5);
    fifo.push_back(6);
    fifo.push_back(7);
    assert_eq!(fifo, BoundedFIFO { b: vec![1, 2, 3, 4, 5, 6, 7], h: 0, t: 7, cap: 8, n: 7 });
}

#[test]
fn overwrite() {
    let mut fifo = BoundedFIFO::<i32>::new(4);
    fifo.push_back(0);
    fifo.push_back(1);
    fifo.push_back(2);
    fifo.pop_front();
    fifo.push_back(3);
    fifo.push_back(4);
    fifo.push_back(5);
    assert_eq!(fifo, BoundedFIFO { b: vec![1, 2, 3, 4, 5], h: 0, t: 5, cap: 8, n: 5 });
}

#[test]
fn pop_on_empty_is_none() {
    let mut fifo = BoundedFIFO::<i32>::new(4);
    assert_eq!(fifo.pop_front(), None);
    fifo.push_back(1);
    fifo.pop_front();
    assert_eq!(fifo.pop_front(), None);
    assert!(fifo.is_empty());
}

#[test]
fn wraps_and_keeps_order() {
    let mut fifo = BoundedFIFO::<i32>::new(3);
    for x in 0..20 {
        fifo.push_back(x);
        if x % 2 == 1 {
            assert_eq!(fifo.pop_front(), Some(x / 2));
        }
    }
    // 20 pushed, 10 popped: the queue holds 10..20 in order.
    assert_eq!(fifo.size(), 10);
    for x in 10..20 {
        assert_eq!(fifo.first(), &x);
        assert_eq!(fifo.pop_front(), Some(x));
    }
    assert!(fifo.is_empty());
}
