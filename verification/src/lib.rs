//! A single-producer/single-consumer byte pipe with bounded capacity and
//! cooperative-asynchronous backpressure.
//!
//! The heart of the crate is [`ring::RingBuffer`]: a fixed-capacity ring of
//! bytes whose read and write cursors live in a doubled modulus, so that a
//! full ring is distinguishable from an empty one without a sentinel slot.
//! One endpoint deposits bytes with [`ring::RingBuffer::poll_write`], the
//! other drains them in FIFO order with [`ring::RingBuffer::poll_read`]; an
//! operation that cannot make progress parks the calling task's waker in the
//! ring's single waker slot and reports pending, and any counterpart
//! operation that makes progress signals the parked waker.
//!
//! [`oracle::Model`] is an unbounded reference model of the same pipe, kept
//! for lockstep validation of the ring's behaviour.

pub mod oracle;
pub mod ring;

pub use oracle::Model;
pub use ring::PipePoll;
pub use ring::RingBuffer;
pub use ring::UnitPoll;
