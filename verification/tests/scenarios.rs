use futures::task::noop_waker;
use ringpipe::PipePoll;
use ringpipe::RingBuffer;
use ringpipe::UnitPoll;

#[test]
fn capacity_four_write_abcde_then_read() {
    let w = noop_waker();
    let mut rb = RingBuffer::new(4);
    assert_eq!(rb.capacity(), 4);
    let r = rb.poll_write(&b"ABCDE".to_vec(), &w);
    assert_eq!(r, PipePoll::Ready(4));
    assert_eq!(rb.len(), 4);
    let mut buf = vec![0u8; 10];
    let r = rb.poll_read(&mut buf, &w);
    assert_eq!(r, PipePoll::Ready(4));
    assert_eq!(&buf[..4], b"ABCD");
    assert_eq!(rb.len(), 0);
}

#[test]
fn capacity_four_wrap_needs_two_reads() {
    let w = noop_waker();
    let mut rb = RingBuffer::new(4);
    assert_eq!(rb.poll_write(&b"AB".to_vec(), &w), PipePoll::Ready(2));
    let mut buf = vec![0u8; 2];
    assert_eq!(rb.poll_read(&mut buf, &w), PipePoll::Ready(2));
    assert_eq!(&buf[..], b"AB");
    // contiguous tail "CD" first
    assert_eq!(rb.poll_write(&b"CDEF".to_vec(), &w), PipePoll::Ready(2));
    // then the wrapped span takes "EF"
    assert_eq!(rb.poll_write(&b"EF".to_vec(), &w), PipePoll::Ready(2));
    assert_eq!(rb.len(), 4);
    let mut big = vec![0u8; 10];
    // two reads are needed: a single poll never crosses the wrap point
    assert_eq!(rb.poll_read(&mut big, &w), PipePoll::Ready(2));
    assert_eq!(&big[..2], b"CD");
    assert_eq!(rb.poll_read(&mut big, &w), PipePoll::Ready(2));
    assert_eq!(&big[..2], b"EF");
    assert_eq!(rb.len(), 0);
}

#[test]
fn capacity_zero_never_progresses() {
    let w = noop_waker();
    let mut rb = RingBuffer::new(0);
    assert_eq!(rb.poll_write(&vec![1u8], &w), PipePoll::Pending);
    let mut buf = vec![0u8; 4];
    assert_eq!(rb.poll_read(&mut buf, &w), PipePoll::Pending);
    assert_eq!(rb.poll_write(&b"xyz".to_vec(), &w), PipePoll::Pending);
    assert_eq!(rb.len(), 0);
    assert_eq!(rb.capacity(), 0);
}

#[test]
fn capacity_three_alternating_thousand() {
    let w = noop_waker();
    let mut rb = RingBuffer::new(3);
    for k in 0..1000usize {
        let byte = (k % 251) as u8;
        assert_eq!(rb.poll_write(&vec![byte], &w), PipePoll::Ready(1));
        assert_eq!(rb.len(), 1);
        // the write cursor has advanced monotonically, modulo 6
        assert_eq!(rb.write_idx, (k + 1) % 6);
        let mut buf = vec![0u8; 1];
        assert_eq!(rb.poll_read(&mut buf, &w), PipePoll::Ready(1));
        assert_eq!(buf[0], byte);
        assert_eq!(rb.len(), 0);
        assert_eq!(rb.read_idx, (k + 1) % 6);
    }
}

#[test]
fn zero_length_buffers_complete_immediately() {
    let w = noop_waker();
    let mut rb = RingBuffer::new(4);
    // empty write on an empty ring: ready with 0, nothing parked
    assert_eq!(rb.poll_write(&Vec::new(), &w), PipePoll::Ready(0));
    assert!(rb.waker.is_none());
    // empty read while bytes are buffered: ready with 0
    assert_eq!(rb.poll_write(&b"AB".to_vec(), &w), PipePoll::Ready(2));
    let mut empty: Vec<u8> = Vec::new();
    assert_eq!(rb.poll_read(&mut empty, &w), PipePoll::Ready(0));
    assert!(rb.waker.is_none());
    assert_eq!(rb.len(), 2);
}

#[test]
fn flush_and_close_always_succeed() {
    let w = noop_waker();
    let mut rb = RingBuffer::new(2);
    assert_eq!(rb.poll_flush(), UnitPoll::Ready);
    assert_eq!(rb.poll_close(), UnitPoll::Ready);
    // still ready with bytes buffered, and repeatedly
    assert_eq!(rb.poll_write(&b"ok".to_vec(), &w), PipePoll::Ready(2));
    assert_eq!(rb.poll_flush(), UnitPoll::Ready);
    assert_eq!(rb.poll_flush(), UnitPoll::Ready);
    assert_eq!(rb.poll_close(), UnitPoll::Ready);
    assert_eq!(rb.poll_close(), UnitPoll::Ready);
}

#[test]
fn full_ring_write_pends_and_partial_writes_count() {
    let w = noop_waker();
    let mut rb = RingBuffer::new(3);
    assert_eq!(rb.poll_write(&b"abcd".to_vec(), &w), PipePoll::Ready(3));
    assert_eq!(rb.poll_write(&b"e".to_vec(), &w), PipePoll::Pending);
    let mut buf = vec![0u8; 3];
    assert_eq!(rb.poll_read(&mut buf, &w), PipePoll::Ready(3));
    assert_eq!(&buf[..], b"abc");
}
