//! An unbounded reference model of the pipe: a growable byte queue capped at
//! the pipe's capacity. It has none of the ring's cursor arithmetic, so it
//! serves as an oracle that the ring can be driven against in lockstep.

use crate::ring::RingBuffer;
use vstd::prelude::*;

verus! {

/// The reference model: a plain byte queue that accepts at most
/// `capacity - data.len()` further bytes.
pub struct Model {
    /// The cap on the queue's length.
    pub capacity: usize,
    /// The queued bytes, oldest first.
    pub data: Vec<u8>,
}

impl Model {
    /// Well-formedness: the queue never exceeds its cap.
    pub open spec fn wf(&self) -> bool {
        self.data.len() <= self.capacity
    }

    /// Creates an empty model with the given cap.
    pub fn new(capacity: usize) -> (m: Model)
        ensures
            m.wf(),
            m.capacity == capacity,
            m.data@ == Seq::<u8>::empty(),
    {
        let m = Model { capacity, data: Vec::new() };
        proof {
            assert(m.data@ =~= Seq::<u8>::empty());
        }
        m
    }

    /// How many of `avail` offered bytes the model accepts: all of them, up
    /// to the free room under the cap.
    pub open spec fn accept_count(&self, avail: int) -> int {
        vstd::math::min(self.capacity - self.data.len(), avail)
    }

    /// Appends up to `capacity - data.len()` leading bytes of `bytes` to the
    /// queue and returns the count accepted.
    pub fn write(&mut self, bytes: &Vec<u8>) -> (n: usize)
        requires
            old(self).wf(),
        ensures
            final(self).wf(),
            final(self).capacity == old(self).capacity,
            n as int == old(self).accept_count(bytes@.len() as int),
            final(self).data@ == old(self).data@ + bytes@.take(n as int),
    {
        let space = self.capacity - self.data.len();
        let n = if space < bytes.len() {
            space
        } else {
            bytes.len()
        };
        let mut i: usize = 0;
        while i < n
            invariant
                i <= n,
                n <= bytes.len(),
                n as int <= old(self).capacity - old(self).data@.len(),
                self.capacity == old(self).capacity,
                self.data.len() == old(self).data.len() + i,
                self.data.len() <= self.capacity,
                self.data@ == old(self).data@ + bytes@.take(i as int),
            decreases n - i,
        {
            let b = bytes[i];
            self.data.push(b);
            proof {
                assert(self.data@ =~= old(self).data@ + bytes@.take(i + 1));
            }
            i = i + 1;
        }
        n
    }

    /// Removes and returns up to `min(n, data.len())` leading bytes of the
    /// queue.
    pub fn read(&mut self, n: usize) -> (out: Vec<u8>)
        requires
            old(self).wf(),
        ensures
            final(self).wf(),
            final(self).capacity == old(self).capacity,
            out@ == old(self).data@.take(vstd::math::min(n as int, old(self).data@.len() as int)),
            final(self).data@ == old(self).data@.skip(
                vstd::math::min(n as int, old(self).data@.len() as int),
            ),
    {
        let k = if n < self.data.len() {
            n
        } else {
            self.data.len()
        };
        let mut out: Vec<u8> = Vec::new();
        let mut i: usize = 0;
        while i < k
            invariant
                i <= k,
                k <= self.data.len(),
                self == old(self),
                out@ == self.data@.take(i as int),
            decreases k - i,
        {
            let b = self.data[i];
            out.push(b);
            proof {
                assert(out@ =~= self.data@.take(i + 1));
            }
            i = i + 1;
        }
        let mut rest: Vec<u8> = Vec::new();
        let mut j: usize = k;
        while j < self.data.len()
            invariant
                k <= j <= self.data.len(),
                self == old(self),
                rest@ == self.data@.subrange(k as int, j as int),
            decreases self.data.len() - j,
        {
            let b = self.data[j];
            rest.push(b);
            proof {
                assert(rest@ =~= self.data@.subrange(k as int, j + 1));
            }
            j = j + 1;
        }
        proof {
            assert(rest@ =~= self.data@.skip(k as int));
        }
        self.data = rest;
        out
    }
}

/// Lockstep agreement on writes. Drive the ring and the model from equal
/// states (same capacity, same buffered bytes) and offer the ring `input`.
/// The ring's write accepts `n = min(writeable span, input.len())` bytes;
/// the model, offered exactly that accepted prefix, accepts all `n` of
/// them, so the two reported counts match — and the model's queue then
/// equals the ring's buffered bytes again, carrying the agreement to the
/// next step.
pub proof fn lemma_model_write_agrees(rb: RingBuffer, post: RingBuffer, m: Model, input: Seq<u8>, n: int)
    requires
        rb.wf(),
        m.wf(),
        m.capacity == rb.cap(),
        m.data@ == rb.contents(),
        n == vstd::math::min(rb.writeable_count(), input.len() as int),
        post.contents() == rb.contents() + input.take(n),
    ensures
        m.accept_count(n) == n,
        m.data@ + input.take(n) == post.contents(),
{
    rb.lemma_counts();
}

/// Lockstep agreement on reads. Drive the ring and the model from states
/// with the same buffered bytes. The ring's read delivers its first `k`
/// buffered bytes; the model's read with argument `k` removes and returns
/// exactly the same bytes — and the model's queue then equals the ring's
/// buffered bytes again, carrying the agreement to the next step.
pub proof fn lemma_model_read_agrees(rb: RingBuffer, post: RingBuffer, m: Model, k: int)
    requires
        rb.wf(),
        m.data@ == rb.contents(),
        0 <= k <= rb.readable_count(),
        post.contents() == rb.contents().skip(k),
    ensures
        vstd::math::min(k, m.data@.len() as int) == k,
        m.data@.take(vstd::math::min(k, m.data@.len() as int)) == rb.contents().take(k),
        m.data@.skip(vstd::math::min(k, m.data@.len() as int)) == post.contents(),
{
    rb.lemma_counts();
}

} // verus!
