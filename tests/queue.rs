use rian::queue::{Bounded, LocalQueue, ReadErr, Rx, Tx, Unbounded, WriteErr};

#[test]
fn local_queue_is_fifo() {
    let mut q = LocalQueue::unbounded();
    assert!(q.is_empty());
    q.send(1);
    q.send(2);
    q.send(3);
    assert_eq!(q.recv(), Some(1));
    q.send(4);
    assert_eq!(q.recv(), Some(2));
    assert_eq!(q.recv(), Some(3));
    assert_eq!(q.recv(), Some(4));
    assert_eq!(q.recv(), None);
    assert!(q.is_empty());
}

#[test]
fn unbounded_queue() {
    let mut q: Unbounded<u32> = Unbounded::default();
    assert!(matches!(q.recv(), Err(ReadErr::Empty)));
    for i in 0..100 {
        assert!(q.send(i).is_ok());
    }
    assert_eq!(q.len(), 100);
    assert_eq!(q.recv().ok(), Some(0));
    assert_eq!(q.recv().ok(), Some(1));
}

#[test]
fn bounded_queue_refuses_when_full() {
    let mut q = Bounded::with_capacity(2);
    assert!(q.send("a").is_ok());
    assert!(q.send("b").is_ok());
    match q.send("c") {
        Err(WriteErr::Full(v)) => assert_eq!(v, "c"),
        _ => panic!("a full queue took a value"),
    }
    assert_eq!(q.recv().ok(), Some("a"));
    assert!(q.send("c").is_ok());
    assert_eq!(q.recv().ok(), Some("b"));
    assert_eq!(q.recv().ok(), Some("c"));
    assert!(matches!(q.recv(), Err(ReadErr::Empty)));
}

#[test]
fn zero_capacity_queue() {
    let mut q = Bounded::with_capacity(0);
    assert!(matches!(q.send(1), Err(WriteErr::Full(1))));
    assert_eq!(q.len(), 0);
}
