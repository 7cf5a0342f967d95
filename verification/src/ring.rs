//! The ring state: a fixed-capacity byte store, read and write cursors kept
//! in a doubled modulus, and a single waker slot shared by both endpoints.
//!
//! The cursors range over `[0, 2 * capacity)` rather than `[0, capacity)`:
//! the doubled modulus lets the full ring (`write_idx` and `read_idx` differ
//! by exactly `capacity`) be told apart from the empty ring (`write_idx ==
//! read_idx`) while every slot of the store stays usable. Physical positions
//! in the store are the cursors reduced modulo `capacity`.

use core::task::Waker;
use vstd::prelude::*;

verus! {

/// Declares `core::task::Waker`, the scheduler's opaque wake-up token, so
/// that the ring can hold one in its waker slot. The ring never looks inside
/// a waker; it only stores, replaces, drops and signals them.
#[verifier::external_type_specification]
#[verifier::external_body]
pub struct ExWaker(Waker);

/// Relies on `core::task::Waker::clone`: the clone signals the same task as
/// the original token.
#[verifier::external_body]
fn waker_clone(w: &Waker) -> Waker {
    w.clone()
}

/// Relies on `core::task::Waker::wake`: consumes the token and signals the
/// scheduler to re-poll the task that parked it.
#[verifier::external_body]
fn waker_wake(w: Waker) {
    w.wake()
}

/// The outcome of one poll of a byte-transferring operation: ready with the
/// number of bytes moved, or pending with the caller's waker parked.
#[derive(Clone, Copy, Debug, PartialEq, Eq, Structural)]
pub enum PipePoll {
    Ready(usize),
    Pending,
}

/// The outcome of one poll of flush or close: these never suspend and never
/// fail, so `Ready` is the only outcome the ring produces.
#[derive(Clone, Copy, Debug, PartialEq, Eq, Structural)]
pub enum UnitPoll {
    Ready,
    Pending,
}

/// The shared state of one pipe: the backing store, the two cursors in the
/// doubled modulus, and the waker slot holding the most recently parked
/// endpoint's token.
pub struct RingBuffer {
    /// Backing store; its length is the pipe's capacity.
    pub data: Vec<u8>,
    /// Read cursor, in `[0, 2 * capacity)`.
    pub read_idx: usize,
    /// Write cursor, in `[0, 2 * capacity)`.
    pub write_idx: usize,
    /// At most one parked wake-up token; a new park displaces an old token.
    pub waker: Option<Waker>,
}

impl RingBuffer {
    /// The pipe's capacity: the length of the backing store.
    pub open spec fn cap(&self) -> int {
        self.data.len() as int
    }

    /// Number of buffered bytes, recovered from the cursor difference in the
    /// doubled modulus; equals `(write_idx - read_idx) mod (2 * capacity)`
    /// whenever the cursors are in range (`lemma_buffered_is_mod`).
    pub open spec fn buffered(&self) -> int {
        if self.write_idx >= self.read_idx {
            self.write_idx - self.read_idx
        } else {
            self.write_idx + 2 * self.cap() - self.read_idx
        }
    }

    /// A cursor's physical position in the backing store; equals
    /// `idx % capacity` for `idx` in `[0, 2 * capacity)`
    /// (`lemma_phys_is_mod`).
    pub open spec fn phys(&self, idx: int) -> int {
        if idx >= self.cap() {
            idx - self.cap()
        } else {
            idx
        }
    }

    /// Well-formedness: both cursors lie in `[0, 2 * capacity)` (pinned to 0
    /// when the capacity is 0) and the buffered count lies in
    /// `[0, capacity]`. The capacity bound keeps the doubled-modulus
    /// arithmetic inside `usize`.
    pub open spec fn wf(&self) -> bool {
        &&& self.cap() <= usize::MAX as int / 2
        &&& if self.cap() == 0 {
            self.read_idx == 0 && self.write_idx == 0
        } else {
            &&& self.read_idx < 2 * self.cap()
            &&& self.write_idx < 2 * self.cap()
            &&& self.buffered() <= self.cap()
        }
    }

    /// The buffered bytes in FIFO order: the byte at logical offset `i`
    /// sits in the store at the read cursor's physical position advanced by
    /// `i`, wrapping at the store's end.
    pub open spec fn contents(&self) -> Seq<u8> {
        Seq::new(
            self.buffered() as nat,
            |i: int|
                {
                    let pos = self.phys(self.read_idx as int) + i;
                    if pos >= self.cap() {
                        self.data[pos - self.cap()]
                    } else {
                        self.data[pos]
                    }
                },
        )
    }

    /// Creates an empty ring with the given capacity. The capacity bound is
    /// what keeps `2 * capacity` representable; a caller that wants a larger
    /// ring could not allocate one anyway.
    pub fn new(capacity: usize) -> (rb: RingBuffer)
        requires
            capacity <= usize::MAX / 2,
        ensures
            rb.wf(),
            rb.cap() == capacity,
            rb.read_idx == 0,
            rb.write_idx == 0,
            rb.buffered() == 0,
            rb.contents() == Seq::<u8>::empty(),
            rb.waker is None,
    {
        let mut data: Vec<u8> = Vec::new();
        let mut i: usize = 0;
        while i < capacity
            invariant
                i <= capacity,
                data.len() == i,
            decreases capacity - i,
        {
            data.push(0);
            i = i + 1;
        }
        let rb = RingBuffer { data, read_idx: 0, write_idx: 0, waker: None };
        proof {
            assert(rb.contents() =~= Seq::<u8>::empty());
        }
        rb
    }

    /// Bytes available to the reader in one contiguous span starting at the
    /// read cursor's physical position, never crossing the wrap point.
    pub open spec fn readable_count(&self) -> int {
        if self.read_idx == self.write_idx {
            0
        } else {
            let r = self.phys(self.read_idx as int);
            let w = self.phys(self.write_idx as int);
            if r < w {
                w - r
            } else {
                self.cap() - r
            }
        }
    }

    /// Bytes the writer may deposit in one contiguous span starting at the
    /// write cursor's physical position: free space, capped by the space
    /// before the store's end.
    pub open spec fn writeable_count(&self) -> int {
        vstd::math::min(
            self.cap() - self.buffered(),
            self.cap() - self.phys(self.write_idx as int),
        )
    }

    /// The bytes sitting in the store's next `amount` cells after the write
    /// cursor's physical position; meaningful for `amount` at most
    /// `writeable_count`, where the span cannot cross the wrap point.
    pub open spec fn write_span(&self, amount: int) -> Seq<u8> {
        Seq::new(amount as nat, |i: int| self.data[self.phys(self.write_idx as int) + i])
    }

    /// The facts relating the two span counts to the buffered count: each
    /// span is contiguous (bounded by the space before the wrap point), a
    /// read span exists exactly when bytes are buffered, and a write span
    /// exists exactly when the ring is not full.
    pub proof fn lemma_counts(&self)
        requires
            self.wf(),
        ensures
            0 <= self.buffered() <= self.cap(),
            self.contents().len() == self.buffered(),
            0 <= self.readable_count() <= self.buffered(),
            self.readable_count() <= self.cap() - self.phys(self.read_idx as int),
            (self.readable_count() == 0) <==> (self.buffered() == 0),
            0 <= self.writeable_count(),
            self.writeable_count() + self.buffered() <= self.cap(),
            self.writeable_count() <= self.cap() - self.phys(self.write_idx as int),
            (self.writeable_count() == 0) <==> (self.buffered() == self.cap()),
    {
    }

    /// Reduces a cursor to its physical position in the backing store.
    pub fn wrap(&self, idx: usize) -> (r: usize)
        requires
            self.wf(),
            idx == 0 || idx < 2 * self.cap(),
        ensures
            r as int == self.phys(idx as int),
            self.cap() > 0 ==> r < self.cap(),
            self.cap() == 0 ==> r == 0,
    {
        let capacity = self.data.len();
        if idx >= capacity {
            idx - capacity
        } else {
            idx
        }
    }

    /// Advances the read cursor by `amount` consumed bytes, in the doubled
    /// modulus. The first `amount` buffered bytes are dropped; the rest keep
    /// their order.
    pub fn read(&mut self, amount: usize)
        requires
            old(self).wf(),
            amount <= old(self).readable_count(),
        ensures
            final(self).wf(),
            final(self).data == old(self).data,
            final(self).waker == old(self).waker,
            final(self).write_idx == old(self).write_idx,
            final(self).cap() == old(self).cap(),
            final(self).read_idx as int == (if old(self).read_idx + amount >= 2 * old(self).cap() {
                old(self).read_idx + amount - 2 * old(self).cap()
            } else {
                old(self).read_idx + amount
            }),
            final(self).buffered() == old(self).buffered() - amount,
            final(self).contents() == old(self).contents().skip(amount as int),
    {
        proof {
            self.lemma_counts();
        }
        self.read_idx = self.read_idx + amount;

        let capacity = self.data.len();
        if self.read_idx >= 2 * capacity {
            self.read_idx = self.read_idx - 2 * capacity;
        }
        proof {
            let c = self.cap();
            let pre = *old(self);
            let pr = pre.phys(pre.read_idx as int);
            let pr2 = self.phys(self.read_idx as int);
            assert(pr2 == if pr + amount >= c {
                pr + amount - c
            } else {
                pr + amount
            });
            assert forall|i: int| 0 <= i < self.buffered() implies self.contents()[i]
                == pre.contents().skip(amount as int)[i] by {
                assert(pre.contents()[amount + i] == pre.data[
                    {
                        let pos = pr + amount + i;
                        if pos >= c {
                            pos - c
                        } else {
                            pos
                        }
                    }
                ]);
            }
            assert(self.contents() =~= pre.contents().skip(amount as int));
        }
    }

    /// Advances the write cursor by `amount` deposited bytes, in the doubled
    /// modulus. The store's write span becomes the tail of the buffered
    /// bytes.
    pub fn wrote(&mut self, amount: usize)
        requires
            old(self).wf(),
            amount <= old(self).writeable_count(),
        ensures
            final(self).wf(),
            final(self).data == old(self).data,
            final(self).waker == old(self).waker,
            final(self).read_idx == old(self).read_idx,
            final(self).cap() == old(self).cap(),
            final(self).write_idx as int == (if old(self).write_idx + amount >= 2 * old(
                self,
            ).cap() {
                old(self).write_idx + amount - 2 * old(self).cap()
            } else {
                old(self).write_idx + amount
            }),
            final(self).buffered() == old(self).buffered() + amount,
            final(self).contents() == old(self).contents() + old(self).write_span(amount as int),
    {
        proof {
            self.lemma_counts();
        }
        self.write_idx = self.write_idx + amount;

        let capacity = self.data.len();
        if self.write_idx >= 2 * capacity {
            self.write_idx = self.write_idx - 2 * capacity;
        }
        proof {
            let c = self.cap();
            let pre = *old(self);
            let pr = pre.phys(pre.read_idx as int);
            let pw = pre.phys(pre.write_idx as int);
            let b = pre.buffered();
            assert(pw == if pr + b >= c {
                pr + b - c
            } else {
                pr + b
            });
            assert forall|i: int| 0 <= i < self.buffered() implies self.contents()[i] == (
            pre.contents() + pre.write_span(amount as int))[i] by {
                if i >= b {
                    assert(pre.write_span(amount as int)[i - b] == pre.data[pw + (i - b)]);
                }
            }
            assert(self.contents() =~= pre.contents() + pre.write_span(amount as int));
        }
    }

    /// The readable span's length, computed from the cursors.
    pub fn readable(&self) -> (n: usize)
        requires
            self.wf(),
        ensures
            n as int == self.readable_count(),
    {
        if self.read_idx == self.write_idx {
            return 0;
        }
        let read_idx = self.wrap(self.read_idx);
        let write_idx = self.wrap(self.write_idx);
        if read_idx < write_idx {
            write_idx - read_idx
        } else {
            self.data.len() - read_idx
        }
    }

    /// The writeable span's length, computed from the cursors.
    pub fn writeable(&self) -> (n: usize)
        requires
            self.wf(),
        ensures
            n as int == self.writeable_count(),
    {
        let capacity = self.data.len();
        let buffered = if self.write_idx >= self.read_idx {
            self.write_idx - self.read_idx
        } else {
            self.write_idx + (2 * capacity - self.read_idx)
        };
        let remaining_space = capacity - buffered;
        let space_before_end = capacity - self.wrap(self.write_idx);
        if remaining_space < space_before_end {
            remaining_space
        } else {
            space_before_end
        }
    }

    /// Parks the calling endpoint: stores a clone of its waker in the slot,
    /// displacing any token already there. The displaced token is dropped
    /// without being signalled; under the single-producer/single-consumer
    /// discipline at most one side is parked at a time.
    pub fn park(&mut self, waker: &Waker)
        ensures
            final(self).data == old(self).data,
            final(self).read_idx == old(self).read_idx,
            final(self).write_idx == old(self).write_idx,
            final(self).waker is Some,
            old(self).wf() ==> final(self).wf(),
            final(self).contents() == old(self).contents(),
    {
        self.waker = Some(waker_clone(waker));
    }

    /// Signals and removes the parked waker, if any; the scheduler will then
    /// re-poll the task that parked it.
    pub fn wake(&mut self)
        ensures
            final(self).data == old(self).data,
            final(self).read_idx == old(self).read_idx,
            final(self).write_idx == old(self).write_idx,
            final(self).waker is None,
            old(self).wf() ==> final(self).wf(),
            final(self).contents() == old(self).contents(),
    {
        match self.waker.take() {
            Some(w) => waker_wake(w),
            None => {},
        }
    }

    /// One poll of the reader's byte-source operation: moves
    /// `min(readable span, buf.len())` bytes from the store into the front
    /// of `buf`, leaving the rest of `buf` unchanged. On progress the parked
    /// waker (if any) is signalled; on zero progress the caller's waker is
    /// parked and the poll reports pending. A single poll never crosses the
    /// wrap point: a short count is normal and the caller polls again. A
    /// zero-length `buf` completes immediately with 0 and touches nothing.
    pub fn poll_read(&mut self, buf: &mut Vec<u8>, waker: &Waker) -> (r: PipePoll)
        requires
            old(self).wf(),
        ensures
            final(self).wf(),
            final(self).cap() == old(self).cap(),
            final(buf).len() == old(buf).len(),
            ({
                let n = vstd::math::min(old(self).readable_count(), old(buf).len() as int);
                if n > 0 {
                    &&& r == PipePoll::Ready(n as usize)
                    &&& final(buf)@ == old(self).contents().take(n) + old(buf)@.skip(n)
                    &&& final(self).contents() == old(self).contents().skip(n)
                    &&& final(self).buffered() == old(self).buffered() - n
                    &&& final(self).data == old(self).data
                    &&& final(self).write_idx == old(self).write_idx
                    &&& final(self).read_idx as int == (if old(self).read_idx + n >= 2 * old(
                        self,
                    ).cap() {
                        old(self).read_idx + n - 2 * old(self).cap()
                    } else {
                        old(self).read_idx + n
                    })
                    &&& final(self).waker is None
                } else if old(buf).len() == 0 {
                    &&& r == PipePoll::Ready(0usize)
                    &&& final(buf)@ == old(buf)@
                    &&& *final(self) == *old(self)
                } else {
                    &&& r == PipePoll::Pending
                    &&& final(buf)@ == old(buf)@
                    &&& final(self).data == old(self).data
                    &&& final(self).read_idx == old(self).read_idx
                    &&& final(self).write_idx == old(self).write_idx
                    &&& final(self).contents() == old(self).contents()
                    &&& final(self).waker is Some
                }
            }),
            r == PipePoll::Pending <==> (old(self).buffered() == 0 && old(buf).len() > 0),
            r matches PipePoll::Ready(k) ==> k <= old(self).cap() - old(self).phys(
                old(self).read_idx as int,
            ),
    {
        proof {
            self.lemma_counts();
        }
        let readable = self.readable();
        let len = buf.len();
        let n = if readable < len {
            readable
        } else {
            len
        };
        if n > 0 {
            let begin = self.wrap(self.read_idx);
            let mut i: usize = 0;
            while i < n
                invariant
                    i <= n,
                    self == old(self),
                    self.wf(),
                    n as int <= self.readable_count(),
                    n <= buf.len(),
                    buf.len() == old(buf).len(),
                    begin as int == self.phys(self.read_idx as int),
                    begin + n <= self.data.len(),
                    forall|j: int| 0 <= j < i ==> buf@[j] == self.contents()[j],
                    forall|j: int| i <= j < buf.len() ==> buf@[j] == old(buf)@[j],
                decreases n - i,
            {
                proof {
                    self.lemma_counts();
                }
                let b = self.data[begin + i];
                buf.set(i, b);
                i = i + 1;
            }
            self.read(n);
            self.wake();
            proof {
                assert(buf@ =~= old(self).contents().take(n as int) + old(buf)@.skip(n as int));
            }
            PipePoll::Ready(n)
        } else if len == 0 {
            PipePoll::Ready(0)
        } else {
            self.park(waker);
            PipePoll::Pending
        }
    }

    /// One poll of the writer's byte-sink operation: moves
    /// `min(writeable span, buf.len())` bytes from the front of `buf` into
    /// the store. On progress the parked waker (if any) is signalled; on
    /// zero progress the caller's waker is parked and the poll reports
    /// pending. A single poll never crosses the wrap point: a caller whose
    /// bytes span it must expect a short count and poll again. A
    /// zero-length `buf` completes immediately with 0 and touches nothing.
    pub fn poll_write(&mut self, buf: &Vec<u8>, waker: &Waker) -> (r: PipePoll)
        requires
            old(self).wf(),
        ensures
            final(self).wf(),
            final(self).cap() == old(self).cap(),
            ({
                let n = vstd::math::min(old(self).writeable_count(), buf@.len() as int);
                if n > 0 {
                    &&& r == PipePoll::Ready(n as usize)
                    &&& final(self).contents() == old(self).contents() + buf@.take(n)
                    &&& final(self).buffered() == old(self).buffered() + n
                    &&& final(self).read_idx == old(self).read_idx
                    &&& final(self).write_idx as int == (if old(self).write_idx + n >= 2 * old(
                        self,
                    ).cap() {
                        old(self).write_idx + n - 2 * old(self).cap()
                    } else {
                        old(self).write_idx + n
                    })
                    &&& final(self).waker is None
                } else if buf@.len() == 0 {
                    &&& r == PipePoll::Ready(0usize)
                    &&& *final(self) == *old(self)
                } else {
                    &&& r == PipePoll::Pending
                    &&& final(self).data == old(self).data
                    &&& final(self).read_idx == old(self).read_idx
                    &&& final(self).write_idx == old(self).write_idx
                    &&& final(self).contents() == old(self).contents()
                    &&& final(self).waker is Some
                }
            }),
            r == PipePoll::Pending <==> (old(self).buffered() == old(self).cap() && buf@.len()
                > 0),
            r matches PipePoll::Ready(k) ==> k <= old(self).cap() - old(self).phys(
                old(self).write_idx as int,
            ),
    {
        proof {
            self.lemma_counts();
        }
        let writeable = self.writeable();
        let len = buf.len();
        let n = if writeable < len {
            writeable
        } else {
            len
        };
        if n > 0 {
            let begin = self.wrap(self.write_idx);
            let mut i: usize = 0;
            while i < n
                invariant
                    i <= n,
                    self.wf(),
                    n as int <= old(self).writeable_count(),
                    n <= buf.len(),
                    begin as int == old(self).phys(old(self).write_idx as int),
                    begin + n <= self.data.len(),
                    self.read_idx == old(self).read_idx,
                    self.write_idx == old(self).write_idx,
                    self.waker == old(self).waker,
                    self.data.len() == old(self).data.len(),
                    forall|j: int| 0 <= j < i ==> self.data@[begin + j] == buf@[j],
                    forall|j: int|
                        0 <= j < self.data.len() && !(begin <= j < begin + i) ==> self.data@[j]
                            == old(self).data@[j],
                decreases n - i,
            {
                let b = buf[i];
                self.data.set(begin + i, b);
                i = i + 1;
            }
            proof {
                let c = self.cap();
                let pre = *old(self);
                let pr = pre.phys(pre.read_idx as int);
                let pw = pre.phys(pre.write_idx as int);
                let b = pre.buffered();
                pre.lemma_counts();
                assert(pw == if pr + b >= c {
                    pr + b - c
                } else {
                    pr + b
                });
                assert forall|i2: int| 0 <= i2 < b implies self.contents()[i2]
                    == pre.contents()[i2] by {
                    let pos = if pr + i2 >= c {
                        pr + i2 - c
                    } else {
                        pr + i2
                    };
                    assert(!(pw <= pos < pw + n));
                }
                assert(self.contents() =~= pre.contents());
                assert(self.write_span(n as int) =~= buf@.take(n as int));
            }
            self.wrote(n);
            self.wake();
            PipePoll::Ready(n)
        } else if len == 0 {
            PipePoll::Ready(0)
        } else {
            self.park(waker);
            PipePoll::Pending
        }
    }

    /// One poll of the writer's flush: ready with success, unconditionally.
    /// No buffering exists beyond the ring itself, so there is nothing to
    /// flush.
    pub fn poll_flush(&self) -> (r: UnitPoll)
        ensures
            r == UnitPoll::Ready,
    {
        UnitPoll::Ready
    }

    /// One poll of the writer's close: ready with success, unconditionally.
    /// Closing does not mark the stream; end-of-stream is conveyed only by
    /// dropping an endpoint.
    pub fn poll_close(&self) -> (r: UnitPoll)
        ensures
            r == UnitPoll::Ready,
    {
        UnitPoll::Ready
    }

    /// The number of buffered bytes.
    pub fn len(&self) -> (n: usize)
        requires
            self.wf(),
        ensures
            n as int == self.buffered(),
    {
        let capacity = self.data.len();
        if self.write_idx >= self.read_idx {
            self.write_idx - self.read_idx
        } else {
            self.write_idx + (2 * capacity - self.read_idx)
        }
    }

    /// The pipe's capacity.
    pub fn capacity(&self) -> (n: usize)
        ensures
            n as int == self.cap(),
    {
        self.data.len()
    }

    /// Cursor and capacity bounds: between operations both cursors lie in
    /// `[0, 2 * capacity)` (pinned to 0 for a zero-capacity ring) and the
    /// buffered byte count lies in `[0, capacity]`.
    pub proof fn lemma_state_bounds(&self)
        requires
            self.wf(),
        ensures
            self.cap() > 0 ==> 0 <= self.read_idx < 2 * self.cap(),
            self.cap() > 0 ==> 0 <= self.write_idx < 2 * self.cap(),
            self.cap() == 0 ==> self.read_idx == 0 && self.write_idx == 0,
            0 <= self.buffered() <= self.cap(),
            self.contents().len() == self.buffered(),
    {
    }

    /// The branching definition of `buffered` agrees with the doubled
    /// modulus: the buffered count is the cursor difference reduced modulo
    /// `2 * capacity`.
    pub proof fn lemma_buffered_is_mod(&self)
        requires
            self.wf(),
            self.cap() > 0,
        ensures
            self.buffered() == (self.write_idx - self.read_idx) % (2 * self.cap()),
    {
        let m = 2 * self.cap();
        let d = self.write_idx - self.read_idx;
        if self.write_idx >= self.read_idx {
            vstd::arithmetic::div_mod::lemma_small_mod(d as nat, m as nat);
        } else {
            vstd::arithmetic::div_mod::lemma_mod_add_multiples_vanish(d, m);
            vstd::arithmetic::div_mod::lemma_small_mod((d + m) as nat, m as nat);
        }
    }

    /// The branching definition of `phys` agrees with the single modulus: a
    /// cursor's physical position is the cursor reduced modulo `capacity`.
    pub proof fn lemma_phys_is_mod(&self, idx: int)
        requires
            self.wf(),
            self.cap() > 0,
            0 <= idx < 2 * self.cap(),
        ensures
            self.phys(idx) == idx % self.cap(),
    {
        let c = self.cap();
        if idx >= c {
            vstd::arithmetic::div_mod::lemma_mod_sub_multiples_vanish(idx, c);
            vstd::arithmetic::div_mod::lemma_small_mod((idx - c) as nat, c as nat);
        } else {
            vstd::arithmetic::div_mod::lemma_small_mod(idx as nat, c as nat);
        }
    }
}

/// Conservation across one write. Take any point where the bytes delivered
/// to the reader so far, followed by the bytes still buffered, equal the
/// bytes accepted from the writer so far. After a write that appends `chunk`
/// to the buffered bytes (as `poll_write` ensures) and to the accepted
/// history, the same holds, and the delivered history is still exactly the
/// prefix of the accepted history of its own length.
pub proof fn lemma_conservation_write(
    pre: RingBuffer,
    post: RingBuffer,
    delivered: Seq<u8>,
    accepted: Seq<u8>,
    chunk: Seq<u8>,
)
    requires
        delivered + pre.contents() == accepted,
        post.contents() == pre.contents() + chunk,
    ensures
        delivered + post.contents() == accepted + chunk,
        delivered == (accepted + chunk).take(delivered.len() as int),
{
    assert(delivered + post.contents() =~= (delivered + pre.contents()) + chunk);
    assert(delivered =~= (accepted + chunk).take(delivered.len() as int));
}

/// Conservation across one read. Take any point where the bytes delivered
/// to the reader so far, followed by the bytes still buffered, equal the
/// bytes accepted from the writer so far. After a read that delivers the
/// first `k` buffered bytes and drops them from the buffer (as `poll_read`
/// ensures), the same holds, and the grown delivered history is still
/// exactly the prefix of the accepted history of its own length: the reader
/// sees the writer's bytes in order and value.
pub proof fn lemma_conservation_read(
    pre: RingBuffer,
    post: RingBuffer,
    delivered: Seq<u8>,
    accepted: Seq<u8>,
    k: int,
)
    requires
        delivered + pre.contents() == accepted,
        0 <= k <= pre.contents().len(),
        post.contents() == pre.contents().skip(k),
    ensures
        (delivered + pre.contents().take(k)) + post.contents() == accepted,
        delivered + pre.contents().take(k) == accepted.take(delivered.len() + k),
{
    assert((delivered + pre.contents().take(k)) + post.contents() =~= delivered + pre.contents());
    assert(delivered + pre.contents().take(k) =~= accepted.take(delivered.len() + k));
}

} // verus!
