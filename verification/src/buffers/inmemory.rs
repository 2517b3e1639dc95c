//! An output buffer that keeps the whole history in memory.

use vstd::prelude::*;
use crate::errors::{GzipError, GzipResult};
use crate::sinks::bytesink::ByteSink;
use crate::buffers::outputbuffer::{
    OutputBuffer, WINDOW_SIZE, reachable, copied, lemma_prefix_transitive,
    lemma_prefix_reflexive, lemma_prefix_behind, lemma_partial_data, lemma_copied_extends,
};

verus! {

/// An output buffer that keeps every byte it has produced and hands each
/// one on to its sink at once.
pub struct InMemoryBuffer<S: ByteSink> {
    buffer: Vec<u8>,
    output: S,
    base: Ghost<Seq<u8>>,
}

impl<S: ByteSink> InMemoryBuffer<S> {
    /// An empty buffer in front of `output`.
    pub fn new(output: S) -> (r: Self)
        ensures
            r.inv(),
            r@ == Seq::<u8>::empty(),
            r.base() == output.written(),
            r.infallible() == output.infallible(),
    {
        let ghost base = output.written();
        InMemoryBuffer { buffer: Vec::new(), output, base: Ghost(base) }
    }

    /// Gives the sink back. Unless a write was refused it holds what it
    /// held before, then everything the buffer produced.
    pub fn into_sink(self) -> (r: S)
        ensures
            r.written() == self.sunk(),
            r.infallible() == self.infallible(),
            self.inv() ==> r.written() == self.base() + self@,
    {
        self.output
    }
}

impl<S: ByteSink> OutputBuffer for InMemoryBuffer<S> {
    closed spec fn inv(&self) -> bool {
        self.output.written() == self.base@ + self.buffer@
    }

    closed spec fn view(&self) -> Seq<u8> {
        self.buffer@
    }

    closed spec fn infallible(&self) -> bool {
        self.output.infallible()
    }

    closed spec fn base(&self) -> Seq<u8> {
        self.base@
    }

    closed spec fn sunk(&self) -> Seq<u8> {
        self.output.written()
    }

    proof fn lemma_sunk(&self) {
        lemma_prefix_reflexive(self.base@ + self.buffer@);
    }

    fn put_u8(&mut self, data: u8) -> (r: GzipResult<()>) {
        proof {
            lemma_partial_data(self.base@, self.buffer@, seq![data], 1);
            assert(self.buffer@ + seq![data] =~= self.buffer@.push(data));
        }
        match self.output.put_u8(data) {
            Ok(()) => {},
            Err(e) => {
                return Err(e);
            },
        }
        self.buffer.push(data);
        proof {
            assert(self.output.written() == self.base@ + self.buffer@);
            lemma_prefix_reflexive(self.base@ + self.buffer@);
        }
        Ok(())
    }

    fn copy_window(&mut self, distance: u32, length: u32) -> (r: GzipResult<()>) {
        let ghost whole = copied(self@, distance as int, length as nat);
        if distance == 0 || distance as usize > WINDOW_SIZE || distance as usize
            > self.buffer.len() {
            proof {
                self.lemma_sunk();
                lemma_copied_extends(self@, distance as int, 0, length as nat);
                lemma_prefix_behind(self.base(), self@, whole);
                lemma_prefix_transitive(self.sunk(), self.base() + self@, self.base() + whole);
                lemma_prefix_reflexive(self.sunk());
            }
            return Err(GzipError::InvalidDeflateStream);
        }
        let mut i: u32 = 0;
        proof {
            lemma_prefix_reflexive(self.sunk());
        }
        while i < length
            invariant
                i <= length,
                self.inv(),
                self.infallible() == old(self).infallible(),
                self.base() == old(self).base(),
                old(self).sunk().is_prefix_of(self.sunk()),
                reachable(old(self)@, distance as int),
                whole == copied(old(self)@, distance as int, length as nat),
                self@ == copied(old(self)@, distance as int, i as nat),
                self@.len() >= old(self)@.len(),
            decreases length - i,
        {
            let index = self.buffer.len() - distance as usize;
            let data = self.buffer[index];
            let ghost before = self.sunk();
            let done = self.put_u8(data);
            proof {
                let next = copied(old(self)@, distance as int, (i + 1) as nat);
                lemma_prefix_transitive(old(self).sunk(), before, self.sunk());
                lemma_copied_extends(old(self)@, distance as int, (i + 1) as nat, length as nat);
                lemma_prefix_behind(self.base(), next, whole);
                lemma_prefix_transitive(self.sunk(), self.base() + next, self.base() + whole);
            }
            match done {
                Ok(()) => {},
                Err(e) => {
                    return Err(e);
                },
            }
            i = i + 1;
        }
        proof {
            self.lemma_sunk();
        }
        Ok(())
    }
}

} // verus!
