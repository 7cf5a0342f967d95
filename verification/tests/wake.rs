use std::sync::atomic::AtomicUsize;
use std::sync::atomic::Ordering;
use std::sync::Arc;

use futures::task::noop_waker;
use futures::task::waker;
use futures::task::ArcWake;
use ringpipe::PipePoll;
use ringpipe::RingBuffer;

/// A waker that counts how often it has been signalled.
struct CountingWake {
    count: AtomicUsize,
}

impl CountingWake {
    fn new() -> Arc<CountingWake> {
        Arc::new(CountingWake { count: AtomicUsize::new(0) })
    }

    fn signalled(&self) -> usize {
        self.count.load(Ordering::SeqCst)
    }
}

impl ArcWake for CountingWake {
    fn wake_by_ref(arc_self: &Arc<Self>) {
        arc_self.count.fetch_add(1, Ordering::SeqCst);
    }
}

#[test]
fn empty_read_parks_then_write_wakes() {
    let cw = CountingWake::new();
    let reader_waker = waker(cw.clone());
    let other = noop_waker();
    let mut rb = RingBuffer::new(4);

    let mut buf = vec![0u8; 1];
    assert_eq!(rb.poll_read(&mut buf, &reader_waker), PipePoll::Pending);
    assert!(rb.waker.is_some());
    assert_eq!(cw.signalled(), 0);

    assert_eq!(rb.poll_write(&vec![7u8], &other), PipePoll::Ready(1));
    assert_eq!(cw.signalled(), 1);
    assert!(rb.waker.is_none());

    assert_eq!(rb.poll_read(&mut buf, &other), PipePoll::Ready(1));
    assert_eq!(buf[0], 7);
}

#[test]
fn full_write_parks_then_read_wakes() {
    let cw = CountingWake::new();
    let writer_waker = waker(cw.clone());
    let other = noop_waker();
    let mut rb = RingBuffer::new(2);

    assert_eq!(rb.poll_write(&b"hi".to_vec(), &other), PipePoll::Ready(2));
    assert_eq!(rb.poll_write(&b"!".to_vec(), &writer_waker), PipePoll::Pending);
    assert!(rb.waker.is_some());
    assert_eq!(cw.signalled(), 0);

    let mut buf = vec![0u8; 1];
    assert_eq!(rb.poll_read(&mut buf, &other), PipePoll::Ready(1));
    assert_eq!(buf[0], b'h');
    assert_eq!(cw.signalled(), 1);
    assert!(rb.waker.is_none());

    assert_eq!(rb.poll_write(&b"!".to_vec(), &other), PipePoll::Ready(1));
}

#[test]
fn second_park_displaces_first() {
    let first = CountingWake::new();
    let second = CountingWake::new();
    let mut rb = RingBuffer::new(1);

    let mut buf = vec![0u8; 1];
    assert_eq!(rb.poll_read(&mut buf, &waker(first.clone())), PipePoll::Pending);
    assert_eq!(rb.poll_read(&mut buf, &waker(second.clone())), PipePoll::Pending);

    assert_eq!(rb.poll_write(&vec![9u8], &noop_waker()), PipePoll::Ready(1));
    // the most recent parked waker wins; the displaced one is dropped silently
    assert_eq!(first.signalled(), 0);
    assert_eq!(second.signalled(), 1);
}
