//! A byte source over a stream held in memory that reads eight bytes at a
//! time.

use vstd::prelude::*;
use crate::errors::{GzipError, GzipResult};
use crate::sources::bitstream::{byte_index, le_value};
use crate::sources::bytesource::ByteSource;

verus! {

/// A byte source that reads a vector from front to back, eight bytes at a
/// time where more than eight are left.
pub struct WideSource {
    data: Vec<u8>,
    pos: usize,
}

impl WideSource {
    /// A source positioned at the first byte of `data`.
    pub fn new(data: Vec<u8>) -> (r: Self)
        ensures
            r.inv(),
            r.data() == data@,
            r.bit_pos() == 0,
    {
        WideSource { data, pos: 0 }
    }
}

impl ByteSource for WideSource {
    closed spec fn inv(&self) -> bool {
        self.pos <= self.data.len()
    }

    closed spec fn data(&self) -> Seq<u8> {
        self.data@
    }

    closed spec fn bit_pos(&self) -> nat {
        8 * self.pos as nat
    }

    proof fn lemma_in_bounds(&self) {
    }

    fn get_u8(&mut self) -> (r: GzipResult<u8>) {
        if self.pos < self.data.len() {
            let ans = self.data[self.pos];
            self.pos = self.pos + 1;
            Ok(ans)
        } else {
            Err(GzipError::TruncatedFile)
        }
    }

    /// Succeeds wherever more than eight bytes are left: the last eight
    /// bytes of a stream are left to single reads.
    fn get_u64(&mut self) -> (r: GzipResult<u64>)
        ensures
            r is Ok <==> byte_index(old(self).bit_pos()) + 8 < old(self).data().len(),
    {
        if self.data.len() - self.pos > 8 {
            let p = self.pos;
            proof {
                reveal_with_fuel(le_value, 9);
            }
            let low = self.data[p] as u64 + 0x100 * (self.data[p + 1] as u64) + 0x1_0000 * (
            self.data[p + 2] as u64) + 0x100_0000 * (self.data[p + 3] as u64);
            let high = self.data[p + 4] as u64 + 0x100 * (self.data[p + 5] as u64) + 0x1_0000 * (
            self.data[p + 6] as u64) + 0x100_0000 * (self.data[p + 7] as u64);
            self.pos = self.pos + 8;
            Ok(low + 0x1_0000_0000 * high)
        } else {
            Err(GzipError::TruncatedFile)
        }
    }
}

} // verus!
