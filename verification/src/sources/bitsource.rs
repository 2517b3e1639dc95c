//! The bit reader: the compressed stream as single bits and bit fields.

use vstd::prelude::*;
use vstd::arithmetic::power2::pow2;
use crate::errors::{GzipError, GzipResult};
use crate::sources::bitstream::{
    bit_at, bit_len, after_bits, lsb_value, msb_value, read_lsb, read_msb,
    lemma_bit_at_range, lemma_lsb_value_extend, lemma_pow2_double,
};
use crate::sources::bytesource::ByteSource;

verus! {

/// A byte source that also hands out single bits, least significant bit of
/// each byte first.
///
/// Two conventions read a field of several bits. `get_bits_rev` makes each
/// successive bit a more significant bit of the result; it reads the integer
/// fields of the format. `get_bits` makes the first bit the most significant;
/// it reads Huffman codes, which are packed starting from their most
/// significant bit.
pub trait BitSource: ByteSource {
    /// Reads one bit. Fails with `TruncatedFile` at the end of the stream.
    fn get_bit(&mut self) -> (r: GzipResult<u32>)
        requires
            old(self).inv(),
        ensures
            final(self).inv(),
            final(self).data() == old(self).data(),
            final(self).bit_pos() == after_bits(old(self).data(), old(self).bit_pos(), 1),
            old(self).bit_pos() < bit_len(old(self).data()) ==> r == Ok::<u32, GzipError>(
                bit_at(old(self).data(), old(self).bit_pos() as int) as u32,
            ),
            old(self).bit_pos() >= bit_len(old(self).data()) ==> r == Err::<u32, GzipError>(
                GzipError::TruncatedFile,
            ),
    ;

    /// Reads `size` bits, the first one read being the most significant of
    /// the result. Where fewer are left it consumes them and fails with
    /// `TruncatedFile`.
    fn get_bits(&mut self, size: u8) -> (r: GzipResult<u32>)
        requires
            old(self).inv(),
            size <= 32,
        ensures
            final(self).inv(),
            final(self).data() == old(self).data(),
            final(self).bit_pos() == after_bits(
                old(self).data(),
                old(self).bit_pos(),
                size as nat,
            ),
            match r {
                Ok(v) => read_msb(old(self).data(), old(self).bit_pos(), size as nat) == Ok::<
                    nat,
                    GzipError,
                >(v as nat),
                Err(e) => e == GzipError::TruncatedFile && read_msb(
                    old(self).data(),
                    old(self).bit_pos(),
                    size as nat,
                ) is Err,
            },
    {
        let ghost data = self.data();
        let ghost start = self.bit_pos();
        let mut ans: u64 = 0;
        let mut limit: u64 = 1;
        let mut i: u8 = 0;
        proof {
            vstd::arithmetic::power2::lemma2_to64();
            self.lemma_in_bounds();
        }
        while i < size
            invariant
                self.inv(),
                data == old(self).data(),
                start == old(self).bit_pos(),
                self.data() == data,
                i <= size <= 32,
                self.bit_pos() == start + i,
                start + i <= bit_len(data),
                ans as nat == msb_value(data, start as int, i as nat),
                limit as nat == pow2(i as nat),
                ans < limit,
                limit <= 0x1_0000_0000,
            decreases size - i,
        {
            let bit = match self.get_bit() {
                Ok(b) => b,
                Err(e) => {
                    return Err(e);
                },
            };
            proof {
                lemma_bit_at_range(data, start + i);
                lemma_pow2_double(i as nat);
                vstd::arithmetic::power2::lemma_pow2_strictly_increases(i as nat, 32);
                vstd::arithmetic::power2::lemma2_to64();
                if i + 1 < 32 {
                    vstd::arithmetic::power2::lemma_pow2_strictly_increases((i + 1) as nat, 32);
                }
            }
            ans = 2 * ans + bit as u64;
            limit = 2 * limit;
            i = i + 1;
        }
        Ok(ans as u32)
    }

    /// Reads `size` bits, each successive one a more significant bit of the
    /// result. Where fewer are left it consumes them and fails with
    /// `TruncatedFile`.
    fn get_bits_rev(&mut self, size: u8) -> (r: GzipResult<u32>)
        requires
            old(self).inv(),
            size <= 32,
        ensures
            final(self).inv(),
            final(self).data() == old(self).data(),
            final(self).bit_pos() == after_bits(
                old(self).data(),
                old(self).bit_pos(),
                size as nat,
            ),
            match r {
                Ok(v) => read_lsb(old(self).data(), old(self).bit_pos(), size as nat) == Ok::<
                    nat,
                    GzipError,
                >(v as nat),
                Err(e) => e == GzipError::TruncatedFile && read_lsb(
                    old(self).data(),
                    old(self).bit_pos(),
                    size as nat,
                ) is Err,
            },
    {
        let ghost data = self.data();
        let ghost start = self.bit_pos();
        let mut ans: u64 = 0;
        let mut weight: u64 = 1;
        let mut i: u8 = 0;
        proof {
            vstd::arithmetic::power2::lemma2_to64();
            self.lemma_in_bounds();
        }
        while i < size
            invariant
                self.inv(),
                data == old(self).data(),
                start == old(self).bit_pos(),
                self.data() == data,
                i <= size <= 32,
                self.bit_pos() == start + i,
                start + i <= bit_len(data),
                ans as nat == lsb_value(data, start as int, i as nat),
                weight as nat == pow2(i as nat),
                ans < weight,
                weight <= 0x1_0000_0000,
            decreases size - i,
        {
            let bit = match self.get_bit() {
                Ok(b) => b,
                Err(e) => {
                    return Err(e);
                },
            };
            proof {
                lemma_bit_at_range(data, start + i);
                lemma_lsb_value_extend(data, start as int, i as nat);
                lemma_pow2_double(i as nat);
                vstd::arithmetic::power2::lemma_pow2_strictly_increases(i as nat, 32);
                vstd::arithmetic::power2::lemma2_to64();
                if i + 1 < 32 {
                    vstd::arithmetic::power2::lemma_pow2_strictly_increases((i + 1) as nat, 32);
                }
            }
            if bit == 1 {
                ans = ans + weight;
            }
            weight = 2 * weight;
            i = i + 1;
        }
        Ok(ans as u32)
    }
}

} // verus!
