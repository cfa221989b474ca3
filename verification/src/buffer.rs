use vstd::prelude::*;

use crate::errors::EventError;

verus! {

/// Upper bound on how many bytes one transfer-primitive call moves.
///
/// Draining a queue therefore has to loop the primitive until nothing is
/// left, which is exactly what `remove_all_bytes` does.
pub const TRANSFER_CHUNK: usize = 4096;

/// One side (input or output) of a connection's byte queue.
///
/// The queue is viewed as the sequence of bytes it currently holds, oldest
/// first. Appending on the transmission path can fail — the underlying
/// transport may be unable to grow its allocation — and that failure is
/// modelled by a one-shot fault that an instrumented caller arms; an armed
/// fault makes the next `add_bytes` return `WriteError` instead of enqueuing.
pub struct SocketBufferRef {
    bytes: Vec<u8>,
    fail_next_add: bool,
}

impl View for SocketBufferRef {
    type V = Seq<u8>;

    closed spec fn view(&self) -> Seq<u8> {
        self.bytes@
    }
}

impl SocketBufferRef {
    /// True when the next `add_bytes` is set up to fail.
    pub closed spec fn add_fault_pending(&self) -> bool {
        self.fail_next_add
    }

    /// A fresh, empty queue.
    pub fn new() -> (b: Self)
        ensures
            b@ == Seq::<u8>::empty(),
            !b.add_fault_pending(),
    {
        SocketBufferRef { bytes: Vec::new(), fail_next_add: false }
    }

    /// Arm the one-shot enqueue fault: the next `add_bytes` on this queue
    /// reports `WriteError`, as an out-of-memory transport would.
    pub fn inject_add_failure(&mut self)
        ensures
            final(self)@ == old(self)@,
            final(self).add_fault_pending(),
    {
        self.fail_next_add = true;
    }

    /// Current queued byte count.
    pub fn len(&self) -> (n: usize)
        ensures
            n == self@.len(),
    {
        self.bytes.len()
    }

    /// Enqueue `buffer` for transmission, keeping arrival order.
    ///
    /// Fails with `WriteError`, leaving the queue untouched, exactly when the
    /// enqueue fault is armed; the fault is consumed either way.
    pub fn add_bytes(&mut self, buffer: Vec<u8>) -> (r: Result<(), EventError>)
        ensures
            final(self).add_fault_pending() == false,
            old(self).add_fault_pending() ==> {
                &&& r == Err::<(), EventError>(EventError::WriteError)
                &&& final(self)@ == old(self)@
            },
            !old(self).add_fault_pending() ==> {
                &&& r == Ok::<(), EventError>(())
                &&& final(self)@ == old(self)@ + buffer@
            },
    {
        if self.fail_next_add {
            self.fail_next_add = false;
            return Err(EventError::WriteError);
        }
        let n: usize = buffer.len();
        let mut k: usize = 0;
        while k < n
            invariant
                k <= n,
                n == buffer@.len(),
                self.bytes@ == old(self)@ + buffer@.take(k as int),
                self.fail_next_add == false,
            decreases n - k,
        {
            self.bytes.push(buffer[k]);
            k = k + 1;
            proof {
                assert(buffer@.take(k as int) =~= buffer@.take(k as int - 1).push(buffer@[k as int - 1]));
            }
        }
        proof {
            assert(buffer@.take(n as int) =~= buffer@);
        }
        Ok(())
    }

    /// Enqueue arriving bytes on the receive path.
    ///
    /// Arrival is driven by the transport that already holds the bytes, so it
    /// does not go through the fallible application append: the fault, armed
    /// or not, is left alone.
    pub(crate) fn append_arrival(&mut self, buffer: Vec<u8>)
        ensures
            final(self)@ == old(self)@ + buffer@,
            final(self).add_fault_pending() == old(self).add_fault_pending(),
    {
        let n: usize = buffer.len();
        let mut k: usize = 0;
        while k < n
            invariant
                k <= n,
                n == buffer@.len(),
                self.bytes@ == old(self)@ + buffer@.take(k as int),
                self.fail_next_add == old(self).add_fault_pending(),
            decreases n - k,
        {
            self.bytes.push(buffer[k]);
            k = k + 1;
            proof {
                assert(buffer@.take(k as int) =~= buffer@.take(k as int - 1).push(buffer@[k as int - 1]));
            }
        }
        proof {
            assert(buffer@.take(n as int) =~= buffer@);
        }
    }

    /// The transfer primitive: remove and return up to `max` bytes from the
    /// front of the queue. A single call may move fewer bytes than are
    /// queued, never more than `max`.
    pub fn remove_bytes(&mut self, max: usize) -> (out: Vec<u8>)
        ensures
            out@.len() == if max < old(self)@.len() { max as int } else { old(self)@.len() as int },
            out@ == old(self)@.take(out@.len() as int),
            final(self)@ == old(self)@.skip(out@.len() as int),
            final(self).add_fault_pending() == old(self).add_fault_pending(),
    {
        let len: usize = self.bytes.len();
        let moved: usize = if max < len { max } else { len };
        let mut out: Vec<u8> = Vec::new();
        let mut i: usize = 0;
        while i < moved
            invariant
                i <= moved,
                moved <= len,
                len == self.bytes@.len(),
                self.bytes@ == old(self)@,
                out@ == old(self)@.take(i as int),
            decreases moved - i,
        {
            out.push(self.bytes[i]);
            i = i + 1;
            proof {
                assert(old(self)@.take(i as int) =~= old(self)@.take(i as int - 1).push(old(self)@[i as int - 1]));
            }
        }
        let mut rest: Vec<u8> = Vec::new();
        let mut j: usize = moved;
        while j < len
            invariant
                moved <= j <= len,
                len == self.bytes@.len(),
                self.bytes@ == old(self)@,
                rest@ == old(self)@.subrange(moved as int, j as int),
            decreases len - j,
        {
            rest.push(self.bytes[j]);
            j = j + 1;
            proof {
                assert(old(self)@.subrange(moved as int, j as int)
                    =~= old(self)@.subrange(moved as int, j as int - 1).push(old(self)@[j as int - 1]));
            }
        }
        self.bytes = rest;
        proof {
            assert(self.bytes@ =~= old(self)@.skip(moved as int));
        }
        out
    }

    /// Remove and return everything that is queued, by looping the transfer
    /// primitive until no bytes remain.
    pub fn remove_all_bytes(&mut self) -> (out: Vec<u8>)
        ensures
            out@ == old(self)@,
            final(self)@ == Seq::<u8>::empty(),
            final(self).add_fault_pending() == old(self).add_fault_pending(),
    {
        let mut out: Vec<u8> = Vec::new();
        while self.len() > 0
            invariant
                out@ + self@ == old(self)@,
                self.add_fault_pending() == old(self).add_fault_pending(),
            decreases self@.len(),
        {
            let chunk = self.remove_bytes(TRANSFER_CHUNK);
            let ghost out_before: Seq<u8> = out@;
            let n: usize = chunk.len();
            let mut k: usize = 0;
            while k < n
                invariant
                    k <= n,
                    n == chunk@.len(),
                    out@ == out_before + chunk@.take(k as int),
                decreases n - k,
            {
                out.push(chunk[k]);
                k = k + 1;
                proof {
                    assert(chunk@.take(k as int) =~= chunk@.take(k as int - 1).push(chunk@[k as int - 1]));
                }
            }
            proof {
                assert(chunk@.take(n as int) =~= chunk@);
                assert(out@ + self@ =~= old(self)@);
            }
        }
        proof {
            assert(out@ =~= out@ + self@);
        }
        out
    }

    /// Transfer up to `max_bytes` from the front of this queue to the back of
    /// `other`, returning how many bytes actually moved. The splice bypasses
    /// the fallible application append: both fault flags are left alone.
    pub fn move_to(&mut self, other: &mut SocketBufferRef, max_bytes: usize) -> (moved: usize)
        ensures
            moved == if max_bytes < old(self)@.len() { max_bytes as int } else { old(self)@.len() as int },
            final(self)@ == old(self)@.skip(moved as int),
            final(other)@ == old(other)@ + old(self)@.take(moved as int),
            final(self).add_fault_pending() == old(self).add_fault_pending(),
            final(other).add_fault_pending() == old(other).add_fault_pending(),
    {
        let part = self.remove_bytes(max_bytes);
        let moved: usize = part.len();
        other.append_arrival(part);
        moved
    }
}

} // verus!
