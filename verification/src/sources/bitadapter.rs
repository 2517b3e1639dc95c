//! A bit reader that buffers one byte of its source at a time.

use vstd::prelude::*;
use crate::errors::GzipResult;
use crate::sources::bitstream::{bit_len, byte_index, shifted, lemma_shifted_le};
use crate::sources::bytesource::ByteSource;
use crate::sources::bitsource::BitSource;

verus! {

/// A bit reader over a byte source.
///
/// `cur` holds the bits of the current byte that were not handed out yet,
/// `pos` counts them.
pub struct BitAdapter<S: ByteSource> {
    data: S,
    pos: u8,
    cur: u64,
}

impl<S: ByteSource> BitAdapter<S> {
    /// A bit reader that continues where `data` stands.
    pub fn new(data: S) -> (r: Self)
        requires
            data.inv(),
        ensures
            r.inv(),
            r.data() == data.data(),
            r.bit_pos() == 8 * byte_index(data.bit_pos()),
    {
        proof {
            data.lemma_in_bounds();
        }
        BitAdapter { data, pos: 0, cur: 0 }
    }
}

impl<S: ByteSource> ByteSource for BitAdapter<S> {
    closed spec fn inv(&self) -> bool {
        &&& self.data.inv()
        &&& self.pos < 8
        &&& self.data.bit_pos() <= bit_len(self.data.data())
        &&& self.pos > 0 ==> {
            &&& self.data.bit_pos() % 8 == 0
            &&& self.data.bit_pos() >= 8
            &&& self.cur as nat == shifted(
                self.data.data()[self.data.bit_pos() / 8 - 1] as nat,
                (8 - self.pos) as nat,
            )
        }
    }

    closed spec fn data(&self) -> Seq<u8> {
        self.data.data()
    }

    closed spec fn bit_pos(&self) -> nat {
        if self.pos == 0 {
            8 * byte_index(self.data.bit_pos())
        } else {
            (self.data.bit_pos() - self.pos) as nat
        }
    }

    proof fn lemma_in_bounds(&self) {
    }

    fn get_u8(&mut self) -> (r: GzipResult<u8>) {
        self.pos = 0;
        let r = self.data.get_u8();
        proof {
            self.data.lemma_in_bounds();
        }
        r
    }

    fn get_u64(&mut self) -> (r: GzipResult<u64>) {
        let r = self.data.get_u64();
        proof {
            self.data.lemma_in_bounds();
        }
        if r.is_ok() {
            self.pos = 0;
        }
        r
    }
}

impl<S: ByteSource> BitSource for BitAdapter<S> {
    fn get_bit(&mut self) -> (r: GzipResult<u32>) {
        if self.pos == 0 {
            let byte = match self.data.get_u8() {
                Ok(b) => b,
                Err(e) => {
                    proof {
                        self.data.lemma_in_bounds();
                    }
                    return Err(e);
                },
            };
            proof {
                self.data.lemma_in_bounds();
            }
            self.cur = byte as u64;
            self.pos = 8;
        }
        proof {
            lemma_shifted_le(
                self.data.data()[self.data.bit_pos() / 8 - 1] as nat,
                (8 - self.pos) as nat,
            );
        }
        let ans = self.cur % 2;
        self.cur = self.cur / 2;
        self.pos = self.pos - 1;
        Ok(ans as u32)
    }
}

} // verus!
