//! A byte source over a stream held in memory.

use vstd::prelude::*;
use crate::errors::{GzipError, GzipResult};
use crate::sources::bitstream::{byte_index, le_value, lemma_le_value_below};
use crate::sources::bytesource::ByteSource;

verus! {

/// A byte source that reads a vector from front to back.
pub struct VecSource {
    data: Vec<u8>,
    pos: usize,
}

impl VecSource {
    /// A source positioned at the first byte of `data`.
    pub fn new(data: Vec<u8>) -> (r: Self)
        ensures
            r.inv(),
            r.data() == data@,
            r.bit_pos() == 0,
    {
        VecSource { data, pos: 0 }
    }
}

impl ByteSource for VecSource {
    closed spec fn inv(&self) -> bool {
        self.pos <= self.data.len()
    }

    closed spec fn data(&self) -> Seq<u8> {
        self.data@
    }

    closed spec fn bit_pos(&self) -> nat {
        8 * self.pos as nat
    }

    proof fn lemma_in_bounds(&self) {
    }

    fn get_u8(&mut self) -> (r: GzipResult<u8>) {
        if self.pos < self.data.len() {
            let ans = self.data[self.pos];
            self.pos = self.pos + 1;
            Ok(ans)
        } else {
            Err(GzipError::TruncatedFile)
        }
    }

    /// Succeeds wherever eight bytes are left.
    fn get_u64(&mut self) -> (r: GzipResult<u64>)
        ensures
            r is Ok <==> byte_index(old(self).bit_pos()) + 8 <= old(self).data().len(),
    {
        if self.data.len() - self.pos < 8 {
            return Err(GzipError::TruncatedFile);
        }
        let mut ans: u64 = 0;
        let mut i: usize = 8;
        while i > 0
            invariant
                i <= 8,
                self.pos + 8 <= self.data.len(),
                ans as nat == le_value(self.data@, self.pos + i, (8 - i) as nat),
                *self == *old(self),
            decreases i,
        {
            i = i - 1;
            proof {
                lemma_le_value_below(self.data@, self.pos + i + 1, (7 - i) as nat);
            }
            ans = ans * 256 + self.data[self.pos + i] as u64;
        }
        self.pos = self.pos + 8;
        Ok(ans)
    }
}

} // verus!
