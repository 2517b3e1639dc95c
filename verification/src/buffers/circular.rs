//! An output buffer that keeps the last 32768 bytes in a ring.

use vstd::prelude::*;
use crate::errors::{GzipError, GzipResult};
use crate::sinks::bytesink::ByteSink;
use crate::buffers::outputbuffer::{
    OutputBuffer, WINDOW_SIZE, reachable, copied, lemma_prefix_transitive,
    lemma_prefix_reflexive, lemma_prefix_behind, lemma_partial_data, lemma_copied_extends,
};

verus! {

/// The slot of a ring of `WINDOW_SIZE` bytes that holds the byte written
/// `back` places before the write cursor `pos`.
pub open spec fn ring_slot(pos: int, back: int) -> int {
    (pos + WINDOW_SIZE - back) % (WINDOW_SIZE as int)
}

/// The ring `buffer` with write cursor `pos` holds the last `size` bytes of
/// `history`.
pub open spec fn ring_holds(buffer: Seq<u8>, pos: int, size: int, history: Seq<u8>) -> bool {
    &&& buffer.len() == WINDOW_SIZE
    &&& 0 <= pos < WINDOW_SIZE
    &&& pos == history.len() % WINDOW_SIZE as nat
    &&& size == if history.len() < WINDOW_SIZE {
        history.len()
    } else {
        WINDOW_SIZE as nat
    }
    &&& forall|back: int|
        1 <= back <= size ==> buffer[#[trigger] ring_slot(pos, back)] == history[history.len()
            - back]
}

/// Writing a byte at the cursor and moving the cursor on keeps the ring in
/// step with the history.
pub proof fn lemma_ring_push(buffer: Seq<u8>, pos: int, size: int, history: Seq<u8>, data: u8)
    requires
        ring_holds(buffer, pos, size, history),
    ensures
        ring_holds(
            buffer.update(pos, data),
            (pos + 1) % (WINDOW_SIZE as int),
            if size < WINDOW_SIZE {
                size + 1
            } else {
                size
            },
            history.push(data),
        ),
{
    let next = (pos + 1) % (WINDOW_SIZE as int);
    let grown = if size < WINDOW_SIZE {
        size + 1
    } else {
        size
    };
    let after = history.push(data);
    let ring = buffer.update(pos, data);
    assert forall|back: int| 1 <= back <= grown implies ring[#[trigger] ring_slot(next, back)]
        == after[after.len() - back] by {
        if back == 1 {
            assert(ring_slot(next, 1) == pos);
        } else {
            assert(ring_slot(next, back) == ring_slot(pos, back - 1));
            assert(ring_slot(pos, back - 1) != pos);
            assert(buffer[ring_slot(pos, back - 1)] == history[history.len() - (back - 1)]);
        }
    }
}

/// An output buffer that remembers the last `WINDOW_SIZE` bytes in a ring
/// and hands each byte on to its sink at once.
pub struct CircularBuffer<S: ByteSink> {
    buffer: Vec<u8>,
    pos: usize,
    size: usize,
    output: S,
    history: Ghost<Seq<u8>>,
    base: Ghost<Seq<u8>>,
}

impl<S: ByteSink> CircularBuffer<S> {
    /// An empty buffer in front of `output`.
    pub fn new(output: S) -> (r: Self)
        ensures
            r.inv(),
            r@ == Seq::<u8>::empty(),
            r.base() == output.written(),
            r.infallible() == output.infallible(),
    {
        let ghost base = output.written();
        let buffer: Vec<u8> = vec![0u8; WINDOW_SIZE];
        CircularBuffer {
            buffer,
            pos: 0,
            size: 0,
            output,
            history: Ghost(Seq::empty()),
            base: Ghost(base),
        }
    }

    /// Gives the sink back. Unless a write was refused it holds what it
    /// held before, then everything the buffer produced.
    pub fn into_sink(self) -> (r: S)
        ensures
            r.written() == self.sunk(),
            r.infallible() == self.infallible(),
            self.inv() ==> r.written() == self.base() + self@,
    {
        self.output
    }
}

impl<S: ByteSink> OutputBuffer for CircularBuffer<S> {
    closed spec fn inv(&self) -> bool {
        &&& ring_holds(self.buffer@, self.pos as int, self.size as int, self.history@)
        &&& self.output.written() == self.base@ + self.history@
    }

    closed spec fn view(&self) -> Seq<u8> {
        self.history@
    }

    closed spec fn infallible(&self) -> bool {
        self.output.infallible()
    }

    closed spec fn base(&self) -> Seq<u8> {
        self.base@
    }

    closed spec fn sunk(&self) -> Seq<u8> {
        self.output.written()
    }

    proof fn lemma_sunk(&self) {
        lemma_prefix_reflexive(self.base@ + self.history@);
    }

    fn put_u8(&mut self, data: u8) -> (r: GzipResult<()>) {
        proof {
            lemma_partial_data(self.base@, self.history@, seq![data], 1);
            assert(self.history@ + seq![data] =~= self.history@.push(data));
            lemma_prefix_reflexive(self.base@ + self.history@.push(data));
        }
        match self.output.put_u8(data) {
            Ok(()) => {},
            Err(e) => {
                return Err(e);
            },
        }
        proof {
            lemma_ring_push(
                self.buffer@,
                self.pos as int,
                self.size as int,
                self.history@,
                data,
            );
            assert(self.output.written() == self.base@ + self.history@.push(data));
        }
        self.buffer.set(self.pos, data);
        self.pos = (self.pos + 1) % WINDOW_SIZE;
        if self.size < WINDOW_SIZE {
            self.size = self.size + 1;
        }
        self.history = Ghost(self.history@.push(data));
        Ok(())
    }

    fn copy_window(&mut self, distance: u32, length: u32) -> (r: GzipResult<()>) {
        let ghost whole = copied(self@, distance as int, length as nat);
        if distance == 0 || distance as usize > self.size {
            proof {
                self.lemma_sunk();
                lemma_copied_extends(self@, distance as int, 0, length as nat);
                lemma_prefix_behind(self.base(), self@, whole);
                lemma_prefix_transitive(self.sunk(), self.base() + self@, self.base() + whole);
                lemma_prefix_reflexive(self.sunk());
            }
            return Err(GzipError::InvalidDeflateStream);
        }
        let mut i: u32 = 0;
        proof {
            lemma_prefix_reflexive(self.sunk());
        }
        while i < length
            invariant
                i <= length,
                self.inv(),
                self.infallible() == old(self).infallible(),
                self.base() == old(self).base(),
                old(self).sunk().is_prefix_of(self.sunk()),
                reachable(old(self)@, distance as int),
                whole == copied(old(self)@, distance as int, length as nat),
                self@ == copied(old(self)@, distance as int, i as nat),
                1 <= distance <= self.size,
            decreases length - i,
        {
            let index = (self.pos + WINDOW_SIZE - distance as usize) % WINDOW_SIZE;
            assert(index == ring_slot(self.pos as int, distance as int));
            let data = self.buffer[index];
            let ghost before = self.sunk();
            let done = self.put_u8(data);
            proof {
                let next = copied(old(self)@, distance as int, (i + 1) as nat);
                lemma_prefix_transitive(old(self).sunk(), before, self.sunk());
                lemma_copied_extends(old(self)@, distance as int, (i + 1) as nat, length as nat);
                lemma_prefix_behind(self.base(), next, whole);
                lemma_prefix_transitive(self.sunk(), self.base() + next, self.base() + whole);
            }
            match done {
                Ok(()) => {},
                Err(e) => {
                    return Err(e);
                },
            }
            i = i + 1;
        }
        proof {
            self.lemma_sunk();
        }
        Ok(())
    }
}

} // verus!
