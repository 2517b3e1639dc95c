//! An output buffer that hands its bytes on a whole window at a time.

use vstd::prelude::*;
use vstd::slice::slice_subrange;
use crate::errors::{GzipError, GzipResult};
use crate::sinks::bytesink::ByteSink;
use crate::buffers::outputbuffer::{
    OutputBuffer, WINDOW_SIZE, reachable, copied, lemma_prefix_transitive,
    lemma_prefix_reflexive, lemma_prefix_behind, lemma_copied_extends,
};
use crate::buffers::circular::{ring_slot, ring_holds, lemma_ring_push};

verus! {

/// A ring whose cursor stands at `pos` holds the last `pos` bytes of the
/// history in its first `pos` slots.
pub proof fn lemma_ring_front(buffer: Seq<u8>, pos: int, size: int, history: Seq<u8>)
    requires
        ring_holds(buffer, pos, size, history),
    ensures
        pos <= history.len(),
        buffer.subrange(0, pos) == history.subrange(history.len() - pos, history.len() as int),
{
    let n = history.len() as int;
    assert(pos <= size);
    assert forall|j: int| 0 <= j < pos implies buffer[j] == history[n - pos + j] by {
        assert(ring_slot(pos, pos - j) == j);
    }
    assert(buffer.subrange(0, pos) =~= history.subrange(n - pos, n));
}

/// A full ring whose cursor is back at the start holds the last
/// `WINDOW_SIZE` bytes of the history in order.
pub proof fn lemma_ring_full(buffer: Seq<u8>, size: int, history: Seq<u8>)
    requires
        ring_holds(buffer, 0, size, history),
        history.len() > 0,
    ensures
        history.len() >= WINDOW_SIZE,
        buffer == history.subrange(history.len() - WINDOW_SIZE, history.len() as int),
{
    let n = history.len() as int;
    assert(size == WINDOW_SIZE);
    assert forall|j: int| 0 <= j < WINDOW_SIZE implies buffer[j] == history[n - WINDOW_SIZE
        + j] by {
        assert(ring_slot(0, WINDOW_SIZE - j) == j);
    }
    assert(buffer =~= history.subrange(n - WINDOW_SIZE, n));
}

/// Behind a front, a start of a history comes before the whole of it.
pub proof fn lemma_sent_part(front: Seq<u8>, history: Seq<u8>, k: int)
    requires
        0 <= k <= history.len(),
    ensures
        (front + history.subrange(0, k)).is_prefix_of(front + history),
{
    let part = history.subrange(0, k);
    assert(part =~= history.subrange(0, part.len() as int));
    lemma_prefix_behind(front, part, history);
}

/// An output buffer that remembers the last `WINDOW_SIZE` bytes in a ring
/// and hands them on to its sink each time the ring has filled up. The
/// bytes written since then reach the sink when the buffer is finished.
pub struct CopyBuffer<S: ByteSink> {
    buffer: Vec<u8>,
    pos: usize,
    size: usize,
    output: S,
    history: Ghost<Seq<u8>>,
    base: Ghost<Seq<u8>>,
}

impl<S: ByteSink> CopyBuffer<S> {
    /// The number of bytes produced that the sink was not given yet.
    pub closed spec fn pending(&self) -> nat {
        self.pos as nat
    }

    /// The sink holds what it held before and everything that was produced
    /// but the bytes that are pending, which are fewer than a window.
    pub proof fn lemma_pending(&self)
        requires
            self.inv(),
        ensures
            self.pending() < WINDOW_SIZE,
            self.pending() <= self@.len(),
            self.sunk() == self.base() + self@.subrange(0, self@.len() - self.pending()),
    {
    }

    /// An empty buffer in front of `output`.
    pub fn new(output: S) -> (r: Self)
        ensures
            r.inv(),
            r@ == Seq::<u8>::empty(),
            r.base() == output.written(),
            r.infallible() == output.infallible(),
    {
        let ghost base = output.written();
        let buffer: Vec<u8> = vec![0u8; WINDOW_SIZE];
        proof {
            assert(Seq::<u8>::empty().subrange(0, 0) == Seq::<u8>::empty());
            assert(base + Seq::<u8>::empty() == base);
        }
        CopyBuffer {
            buffer,
            pos: 0,
            size: 0,
            output,
            history: Ghost(Seq::empty()),
            base: Ghost(base),
        }
    }

    /// Gives the sink back as it is, without the bytes that are pending.
    pub fn into_sink(self) -> (r: S)
        ensures
            r.written() == self.sunk(),
            r.infallible() == self.infallible(),
    {
        self.output
    }

    /// Hands the bytes that are still pending on to the sink and gives the
    /// sink back: it then holds what it held before, then everything the
    /// buffer produced.
    pub fn finish(self) -> (r: GzipResult<S>)
        requires
            self.inv(),
        ensures
            self.infallible() ==> r is Ok,
            match r {
                Ok(sink) => sink.written() == self.base() + self@ && sink.infallible()
                    == self.infallible(),
                Err(e) => e == GzipError::CantWriteFile && !self.infallible(),
            },
    {
        let mut this = self;
        proof {
            lemma_ring_front(this.buffer@, this.pos as int, this.size as int, this.history@);
        }
        let ghost sent = this.output.written();
        let rest = slice_subrange(this.buffer.as_slice(), 0, this.pos);
        match this.output.put_data(rest) {
            Ok(()) => {},
            Err(e) => {
                return Err(e);
            },
        }
        proof {
            let n = this.history@.len() as int;
            let p = this.pos as int;
            assert(0 <= p <= n);
            let head = this.history@.subrange(0, n - p);
            let tail = this.history@.subrange(n - p, n);
            assert(rest@ == tail);
            assert(head + tail =~= this.history@);
            assert((this.base@ + head) + tail =~= this.base@ + (head + tail));
        }
        Ok(this.output)
    }
}

impl<S: ByteSink> OutputBuffer for CopyBuffer<S> {
    closed spec fn inv(&self) -> bool {
        &&& ring_holds(self.buffer@, self.pos as int, self.size as int, self.history@)
        &&& self.pos <= self.history@.len()
        &&& self.output.written() == self.base@ + self.history@.subrange(
            0,
            self.history@.len() - self.pos,
        )
    }

    closed spec fn view(&self) -> Seq<u8> {
        self.history@
    }

    closed spec fn infallible(&self) -> bool {
        self.output.infallible()
    }

    closed spec fn base(&self) -> Seq<u8> {
        self.base@
    }

    closed spec fn sunk(&self) -> Seq<u8> {
        self.output.written()
    }

    proof fn lemma_sunk(&self) {
        lemma_sent_part(self.base@, self.history@, self.history@.len() - self.pos);
    }

    fn put_u8(&mut self, data: u8) -> (r: GzipResult<()>) {
        let ghost before = self.history@;
        let ghost after = self.history@.push(data);
        proof {
            lemma_ring_push(
                self.buffer@,
                self.pos as int,
                self.size as int,
                self.history@,
                data,
            );
        }
        self.buffer.set(self.pos, data);
        if self.size < WINDOW_SIZE {
            self.size = self.size + 1;
        }
        self.history = Ghost(after);
        self.pos = self.pos + 1;
        if self.pos >= WINDOW_SIZE {
            self.pos = 0;
            proof {
                lemma_ring_full(self.buffer@, self.size as int, after);
                let n = after.len() as int;
                assert(before.subrange(0, n - WINDOW_SIZE) == after.subrange(
                    0,
                    n - WINDOW_SIZE,
                ));
                assert(after.subrange(0, n - WINDOW_SIZE) + after.subrange(n - WINDOW_SIZE, n)
                    == after.subrange(0, n));
            }
            let ghost sent = self.output.written();
            let done = self.output.put_data(self.buffer.as_slice());
            match done {
                Ok(()) => {},
                Err(e) => {
                    proof {
                        let n = after.len() as int;
                        let window = self.buffer@;
                        let k = choose|k: int|
                            0 <= k < window.len() && self.output.written() == sent
                                + #[trigger] window.subrange(0, k);
                        let head = after.subrange(0, n - WINDOW_SIZE);
                        assert((self.base@ + head) + window.subrange(0, k) =~= self.base@
                            + after.subrange(0, n - WINDOW_SIZE + k));
                        lemma_sent_part(self.base@, after, n - WINDOW_SIZE + k);
                    }
                    return Err(e);
                },
            }
            proof {
                let n = after.len() as int;
                let head = after.subrange(0, n - WINDOW_SIZE);
                let tail = after.subrange(n - WINDOW_SIZE, n);
                assert(self.buffer@ == tail);
                assert((self.base@ + head) + tail =~= self.base@ + (head + tail));
                assert(after.subrange(0, n) == after);
                lemma_prefix_reflexive(self.base@ + after);
            }
        } else {
            proof {
                let n = after.len() as int;
                assert(before.subrange(0, before.len() - (self.pos - 1)) == after.subrange(
                    0,
                    n - self.pos,
                ));
                lemma_sent_part(self.base@, after, n - self.pos);
                lemma_prefix_reflexive(self.output.written());
            }
        }
        Ok(())
    }

    fn copy_window(&mut self, distance: u32, length: u32) -> (r: GzipResult<()>) {
        let ghost whole = copied(self@, distance as int, length as nat);
        if distance == 0 || distance as usize > self.size {
            proof {
                self.lemma_sunk();
                lemma_copied_extends(self@, distance as int, 0, length as nat);
                lemma_prefix_behind(self.base(), self@, whole);
                lemma_prefix_transitive(self.sunk(), self.base() + self@, self.base() + whole);
                lemma_prefix_reflexive(self.sunk());
            }
            return Err(GzipError::InvalidDeflateStream);
        }
        let mut i: u32 = 0;
        proof {
            lemma_prefix_reflexive(self.sunk());
        }
        while i < length
            invariant
                i <= length,
                self.inv(),
                self.infallible() == old(self).infallible(),
                self.base() == old(self).base(),
                old(self).sunk().is_prefix_of(self.sunk()),
                reachable(old(self)@, distance as int),
                whole == copied(old(self)@, distance as int, length as nat),
                self@ == copied(old(self)@, distance as int, i as nat),
                1 <= distance <= self.size,
            decreases length - i,
        {
            let index = (self.pos + WINDOW_SIZE - distance as usize) % WINDOW_SIZE;
            assert(index == ring_slot(self.pos as int, distance as int));
            let data = self.buffer[index];
            let ghost before = self.sunk();
            let done = self.put_u8(data);
            proof {
                let next = copied(old(self)@, distance as int, (i + 1) as nat);
                lemma_prefix_transitive(old(self).sunk(), before, self.sunk());
                lemma_copied_extends(old(self)@, distance as int, (i + 1) as nat, length as nat);
                lemma_prefix_behind(self.base(), next, whole);
                lemma_prefix_transitive(self.sunk(), self.base() + next, self.base() + whole);
            }
            match done {
                Ok(()) => {},
                Err(e) => {
                    return Err(e);
                },
            }
            i = i + 1;
        }
        proof {
            self.lemma_sunk();
        }
        Ok(())
    }
}

} // verus!
