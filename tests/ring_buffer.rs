use tetris_game::buf::{RingBuffer, RingBufferError};

#[test]
fn pop_to_much() {
    // popping an empty ring fails, whichever slot is first, for size 4
    let mut ring = RingBuffer::new(vec![0, 1, 2, 3]);
    ring.pop().unwrap();
    ring.pop().unwrap();
    ring.pop().unwrap();
    ring.pop().unwrap();
    assert_eq!(ring.pop().unwrap_err(), RingBufferError::AlreadyEmpty);
    ring.push(9).unwrap();
    ring.pop().unwrap();
    assert_eq!(ring.pop().unwrap_err(), RingBufferError::AlreadyEmpty);
    ring.push(8).unwrap();
    ring.pop().unwrap();
    assert_eq!(ring.pop().unwrap_err(), RingBufferError::AlreadyEmpty);
    ring.push(7).unwrap();
    ring.pop().unwrap();
    assert_eq!(ring.pop().unwrap_err(), RingBufferError::AlreadyEmpty);
    ring.push(6).unwrap();
    ring.pop().unwrap();
    assert_eq!(ring.pop().unwrap_err(), RingBufferError::AlreadyEmpty);
    ring.push(5).unwrap();
    ring.pop().unwrap();
    assert_eq!(ring.pop().unwrap_err(), RingBufferError::AlreadyEmpty);
}

#[test]
fn push_to_much() {
    // pushing into a full ring fails, whichever slot is first, for size 3
    let mut ring = RingBuffer::new(vec![0, 1, 2]);
    assert_eq!(ring.push(9).unwrap_err(), RingBufferError::AlreadyFull);
    ring.pop().unwrap();
    ring.push(11).unwrap();
    assert_eq!(ring.push(9).unwrap_err(), RingBufferError::AlreadyFull);
    ring.pop().unwrap();
    println!("{:?}", ring);
    ring.push(22).unwrap();
    assert_eq!(ring.push(9).unwrap_err(), RingBufferError::AlreadyFull);
    ring.pop().unwrap();
    ring.push(33).unwrap();
    assert_eq!(ring.push(9).unwrap_err(), RingBufferError::AlreadyFull);
    ring.pop().unwrap();
    ring.push(44).unwrap();
    assert_eq!(ring.push(9).unwrap_err(), RingBufferError::AlreadyFull);
}

#[test]
fn add_one_overwrap() {
    // past the last slot the index wraps around to 0, 1, 2... again
    let ring = RingBuffer::new(vec![1, 2, 3, 4]);
    assert_eq!(ring.add_one(0), 1);
    assert_eq!(ring.add_one(1), 2);
    assert_eq!(ring.add_one(2), 3);
    assert_eq!(ring.add_one(3), 0);
    assert_eq!(ring.add_one(4), 1);
    assert_eq!(ring.add_one(5), 2);

    let ring2 = RingBuffer::new(vec![1, 2, 3]);
    assert_eq!(ring2.add_one(0), 1);
    assert_eq!(ring2.add_one(1), 2);
    assert_eq!(ring2.add_one(2), 0);
    assert_eq!(ring2.add_one(3), 1);
    assert_eq!(ring2.add_one(4), 2);
    assert_eq!(ring2.add_one(5), 0);

    let ring3 = RingBuffer::new(vec![1, 2]);
    assert_eq!(ring3.add_one(0), 1);
    assert_eq!(ring3.add_one(1), 0);
    assert_eq!(ring3.add_one(2), 1);
    assert_eq!(ring3.add_one(3), 0);
    assert_eq!(ring3.add_one(4), 1);
    assert_eq!(ring3.add_one(5), 0);
}

#[test]
fn pop_then_push_keeps_order() {
    let mut ring = RingBuffer::new(vec![0, 1, 2]);
    assert_eq!(ring.pop().unwrap(), 0);
    ring.push(99).unwrap();
    assert_eq!(*ring.peek(), 1);
    assert_eq!(ring.pop().unwrap(), 1);
    ring.push(88).unwrap();
    assert_eq!(ring.pop().unwrap(), 2);
    assert_eq!(ring.pop().unwrap(), 99);
    assert_eq!(ring.pop().unwrap(), 88);
    assert_eq!(ring.pop().unwrap_err(), RingBufferError::AlreadyEmpty);
}

#[test]
fn full_queue_is_fifo_and_stays_full() {
    let mut ring = RingBuffer::new(vec![10, 20, 30, 40]);
    let mut out = Vec::new();
    for i in 0..12 {
        out.push(ring.pop_and_push(100 + i));
        // still full: one more push is refused, and the ring is left as it was
        assert_eq!(ring.push(0).unwrap_err(), RingBufferError::AlreadyFull);
    }
    assert_eq!(out, vec![10, 20, 30, 40, 100, 101, 102, 103, 104, 105, 106, 107]);
    assert_eq!(*ring.peek(), 108);
}
