//! The byte source capability: a forward-only reader of bytes.

use vstd::prelude::*;
use vstd::arithmetic::power2::pow2;
use crate::errors::{GzipError, GzipResult};
use crate::sources::bitstream::{
    bit_len, byte_index, after_bytes, le_value, read_le, lemma_le_value_extend,
};

verus! {

/// A sequential, forward-only reader over a stream of bytes.
///
/// The model of a source is the stream it reads, `data()`, and how far into
/// it the reader is, `bit_pos()`. The position counts bits so that readers
/// that hand out single bits share the model; a byte is always read from the
/// first byte boundary at or after the position.
pub trait ByteSource {
    /// The representation is consistent.
    spec fn inv(&self) -> bool;

    /// The whole stream, read and unread.
    spec fn data(&self) -> Seq<u8>;

    /// The number of bits consumed so far.
    spec fn bit_pos(&self) -> nat;

    /// A consistent reader is never past the end of its stream.
    proof fn lemma_in_bounds(&self)
        requires
            self.inv(),
        ensures
            self.bit_pos() <= bit_len(self.data()),
    ;

    /// Reads the next whole byte, skipping what is left of a byte that was
    /// partly consumed. Fails with `TruncatedFile` at the end of the stream.
    fn get_u8(&mut self) -> (r: GzipResult<u8>)
        requires
            old(self).inv(),
        ensures
            final(self).inv(),
            final(self).data() == old(self).data(),
            final(self).bit_pos() == after_bytes(old(self).data(), old(self).bit_pos(), 1),
            byte_index(old(self).bit_pos()) < old(self).data().len() ==> r == Ok::<u8, GzipError>(
                old(self).data()[byte_index(old(self).bit_pos()) as int],
            ),
            byte_index(old(self).bit_pos()) >= old(self).data().len() ==> r == Err::<
                u8,
                GzipError,
            >(GzipError::TruncatedFile),
    ;

    /// Reads eight bytes as a little-endian integer, or nothing at all: a
    /// source that cannot hand out eight bytes at once fails with
    /// `TruncatedFile` and consumes nothing, and the bytes that are left can
    /// still be read one by one.
    fn get_u64(&mut self) -> (r: GzipResult<u64>)
        requires
            old(self).inv(),
        ensures
            final(self).inv(),
            final(self).data() == old(self).data(),
            match r {
                Ok(v) => read_le(old(self).data(), old(self).bit_pos(), 8) == Ok::<
                    nat,
                    GzipError,
                >(v as nat) && final(self).bit_pos() == 8 * (byte_index(old(self).bit_pos()) + 8),
                Err(e) => e == GzipError::TruncatedFile && final(self).bit_pos() == old(
                    self,
                ).bit_pos(),
            },
    ;

    /// Reads `size` bytes as a little-endian integer. Fails with
    /// `TruncatedFile` where fewer are left, after consuming them.
    fn get_variable(&mut self, size: u8) -> (r: GzipResult<u32>)
        requires
            old(self).inv(),
            size <= 4,
        ensures
            final(self).inv(),
            final(self).data() == old(self).data(),
            final(self).bit_pos() == after_bytes(
                old(self).data(),
                old(self).bit_pos(),
                size as nat,
            ),
            match r {
                Ok(v) => read_le(old(self).data(), old(self).bit_pos(), size as nat) == Ok::<
                    nat,
                    GzipError,
                >(v as nat),
                Err(e) => e == GzipError::TruncatedFile && read_le(
                    old(self).data(),
                    old(self).bit_pos(),
                    size as nat,
                ) is Err,
            },
    {
        let ghost data = self.data();
        let ghost start = byte_index(self.bit_pos());
        let mut ans: u64 = 0;
        let mut weight: u64 = 1;
        let mut i: u8 = 0;
        proof {
            vstd::arithmetic::power2::lemma2_to64();
            self.lemma_in_bounds();
        }
        while i < size
            invariant
                self.inv(),
                data == old(self).data(),
                self.data() == data,
                i <= size <= 4,
                start == byte_index(old(self).bit_pos()),
                start + i <= data.len(),
                byte_index(self.bit_pos()) == start + i,
                i == 0 ==> self.bit_pos() == old(self).bit_pos(),
                i > 0 ==> self.bit_pos() == 8 * (start + i),
                ans as nat == le_value(data, start as int, i as nat),
                weight as nat == pow2(8 * i as nat),
                ans < weight,
                weight <= 0x1_0000_0000,
            decreases size - i,
        {
            let byte = match self.get_u8() {
                Ok(b) => b,
                Err(e) => {
                    return Err(e);
                },
            };
            proof {
                lemma_le_value_extend(data, start as int, i as nat);
                vstd::arithmetic::power2::lemma_pow2_adds(8 * i as nat, 8);
                vstd::arithmetic::power2::lemma2_to64();
                assert(i == 0 || i == 1 || i == 2 || i == 3);
                assert(weight == 1 || weight == 0x100 || weight == 0x1_0000 || weight
                    == 0x100_0000);
                assert(byte as nat * pow2(8 * i as nat) == (byte as u64 * weight) as nat)
                    by (nonlinear_arith)
                    requires
                        weight as nat == pow2(8 * i as nat),
                        weight <= 0x100_0000,
                        byte <= 255,
                ;
                assert(pow2(8 * (i + 1) as nat) == 256 * pow2(8 * i as nat));
            }
            ans = ans + byte as u64 * weight;
            weight = weight * 256;
            i = i + 1;
        }
        Ok(ans as u32)
    }

    /// Reads two bytes as a little-endian integer.
    fn get_u16(&mut self) -> (r: GzipResult<u16>)
        requires
            old(self).inv(),
        ensures
            final(self).inv(),
            final(self).data() == old(self).data(),
            final(self).bit_pos() == after_bytes(old(self).data(), old(self).bit_pos(), 2),
            match r {
                Ok(v) => read_le(old(self).data(), old(self).bit_pos(), 2) == Ok::<
                    nat,
                    GzipError,
                >(v as nat),
                Err(e) => e == GzipError::TruncatedFile && read_le(
                    old(self).data(),
                    old(self).bit_pos(),
                    2,
                ) is Err,
            },
    {
        proof {
            vstd::arithmetic::power2::lemma2_to64();
            lemma_le_value_extend(old(self).data(), byte_index(old(self).bit_pos()) as int, 2);
        }
        match self.get_variable(2) {
            Ok(v) => Ok(v as u16),
            Err(e) => Err(e),
        }
    }

    /// Reads four bytes as a little-endian integer.
    fn get_u32(&mut self) -> (r: GzipResult<u32>)
        requires
            old(self).inv(),
        ensures
            final(self).inv(),
            final(self).data() == old(self).data(),
            final(self).bit_pos() == after_bytes(old(self).data(), old(self).bit_pos(), 4),
            match r {
                Ok(v) => read_le(old(self).data(), old(self).bit_pos(), 4) == Ok::<
                    nat,
                    GzipError,
                >(v as nat),
                Err(e) => e == GzipError::TruncatedFile && read_le(
                    old(self).data(),
                    old(self).bit_pos(),
                    4,
                ) is Err,
            },
    {
        self.get_variable(4)
    }
}

} // verus!
