//! A bit reader that buffers up to eight bytes of its source at a time.

use vstd::prelude::*;
use vstd::arithmetic::power2::pow2;
use crate::errors::{GzipError, GzipResult};
use crate::sources::bitstream::{
    bit_at, bit_len, byte_index, lsb_value, lemma_bit_at_range, lemma_lsb_value_bound,
    lemma_lsb_value_byte, lemma_lsb_value_extend, lemma_lsb_value_split,
    lemma_le_value_is_lsb_value, lemma_pow2_double,
};
use crate::sources::bytesource::ByteSource;
use crate::sources::bitsource::BitSource;

verus! {

/// `2^n` as a machine integer.
fn power_of_two(n: u8) -> (r: u64)
    requires
        n < 64,
    ensures
        r as nat == pow2(n as nat),
        r > 0,
{
    proof {
        vstd::bits::lemma_u64_pow2_no_overflow(n as nat);
        assert(1 * pow2(n as nat) == pow2(n as nat));
        vstd::bits::lemma_u64_shl_is_mul(1, n as u64);
    }
    1u64 << (n as u64)
}

/// A value cut in two at bit `low`: what is below is the remainder, what is
/// above the quotient.
proof fn lemma_split_value(value: nat, low: nat, below: nat, above: nat)
    requires
        value == below + pow2(low) * above,
        below < pow2(low),
    ensures
        value % pow2(low) == below,
        value / pow2(low) == above,
{
    let p = pow2(low) as int;
    assert(above * p == p * above) by (nonlinear_arith);
    vstd::arithmetic::div_mod::lemma_fundamental_div_mod_converse(
        value as int,
        p,
        above as int,
        below as int,
    );
}

/// A bit reader over a byte source that fetches eight bytes at a time where
/// the source can hand them out.
///
/// `cur` holds the bits that were fetched and not handed out yet, the next
/// one lowest; `pos` counts them.
pub struct WideAdapter<S: ByteSource> {
    data: S,
    pos: u8,
    cur: u64,
}

impl<S: ByteSource> WideAdapter<S> {
    /// A bit reader that continues where `data` stands.
    pub fn new(data: S) -> (r: Self)
        requires
            data.inv(),
        ensures
            r.inv(),
            r.data() == data.data(),
            r.bit_pos() == 8 * byte_index(data.bit_pos()),
    {
        proof {
            data.lemma_in_bounds();
        }
        WideAdapter { data, pos: 0, cur: 0 }
    }

    /// Reads `size` bits least-significant-first where fewer than `size`
    /// bits are buffered: joins what is buffered with the low bits of the
    /// next eight bytes, or reads bit by bit near the end of the stream.
    pub fn get_bits_rev_slow(&mut self, size: u8) -> (r: GzipResult<u32>)
        requires
            old(self).inv(),
            size <= 32,
            old(self).buffered() < size,
        ensures
            final(self).inv(),
            final(self).data() == old(self).data(),
            final(self).bit_pos() == crate::sources::bitstream::after_bits(
                old(self).data(),
                old(self).bit_pos(),
                size as nat,
            ),
            match r {
                Ok(v) => crate::sources::bitstream::read_lsb(
                    old(self).data(),
                    old(self).bit_pos(),
                    size as nat,
                ) == Ok::<nat, GzipError>(v as nat),
                Err(e) => e == GzipError::TruncatedFile && crate::sources::bitstream::read_lsb(
                    old(self).data(),
                    old(self).bit_pos(),
                    size as nat,
                ) is Err,
            },
    {
        let ghost data = self.data();
        let ghost start = self.bit_pos();
        proof {
            self.lemma_in_bounds();
        }
        if self.pos > 0 {
            match self.data.get_u64() {
                Ok(fetched) => {
                    let left = size - self.pos;
                    let below = power_of_two(self.pos);
                    let cut = power_of_two(left);
                    let ghost at = (start + self.pos) as int;
                    proof {
                        let low = lsb_value(data, at, left as nat);
                        let high = lsb_value(data, at + left, (64 - left) as nat);
                        lemma_le_value_is_lsb_value(data, at / 8, 8);
                        lemma_lsb_value_split(data, at, left as nat, (64 - left) as nat);
                        lemma_lsb_value_bound(data, at, left as nat);
                        lemma_split_value(fetched as nat, left as nat, low, high);
                        lemma_lsb_value_split(data, start as int, self.pos as nat, left as nat);
                        lemma_lsb_value_bound(data, start as int, self.pos as nat);
                        lemma_lsb_value_bound(data, start as int, size as nat);
                        vstd::arithmetic::power2::lemma2_to64();
                        if size < 32 {
                            vstd::arithmetic::power2::lemma_pow2_strictly_increases(
                                size as nat,
                                32,
                            );
                        }
                        assert(below as nat * low == pow2(self.pos as nat) * low);
                        assert(below * (fetched % cut) <= 0x1_0000_0000);
                    }
                    let ans = self.cur + below * (fetched % cut);
                    self.cur = fetched / cut;
                    self.pos = 64 - left;
                    return Ok(ans as u32);
                },
                Err(_) => {},
            }
        }
        let mut ans: u64 = 0;
        let mut weight: u64 = 1;
        let mut i: u8 = 0;
        proof {
            vstd::arithmetic::power2::lemma2_to64();
        }
        while i < size
            invariant
                self.inv(),
                data == old(self).data(),
                start == old(self).bit_pos(),
                self.data() == data,
                i <= size <= 32,
                self.bit_pos() == start + i,
                start + i <= bit_len(data),
                ans as nat == lsb_value(data, start as int, i as nat),
                weight as nat == pow2(i as nat),
                ans < weight,
                weight <= 0x1_0000_0000,
            decreases size - i,
        {
            let bit = match self.get_bit() {
                Ok(b) => b,
                Err(e) => {
                    return Err(e);
                },
            };
            proof {
                lemma_bit_at_range(data, start + i);
                lemma_lsb_value_extend(data, start as int, i as nat);
                lemma_pow2_double(i as nat);
                vstd::arithmetic::power2::lemma_pow2_strictly_increases(i as nat, 32);
                vstd::arithmetic::power2::lemma2_to64();
                if i + 1 < 32 {
                    vstd::arithmetic::power2::lemma_pow2_strictly_increases((i + 1) as nat, 32);
                }
            }
            if bit == 1 {
                ans = ans + weight;
            }
            weight = 2 * weight;
            i = i + 1;
        }
        Ok(ans as u32)
    }

    /// The number of bits that were fetched and not handed out yet.
    pub closed spec fn buffered(&self) -> nat {
        self.pos as nat
    }

    /// Drops the buffered bits of a byte that was partly handed out.
    fn align(&mut self)
        requires
            old(self).inv(),
        ensures
            final(self).inv(),
            final(self).data() == old(self).data(),
            final(self).bit_pos() == 8 * byte_index(old(self).bit_pos()),
            final(self).buffered() % 8 == 0,
    {
        let ghost data = self.data();
        let ghost start = self.bit_pos() as int;
        let part = self.pos % 8;
        if part > 0 {
            let cut = power_of_two(part);
            proof {
                let whole = (self.pos - part) as nat;
                lemma_lsb_value_split(data, start, part as nat, whole);
                lemma_lsb_value_bound(data, start, part as nat);
                lemma_split_value(
                    self.cur as nat,
                    part as nat,
                    lsb_value(data, start, part as nat),
                    lsb_value(data, start + part, whole),
                );
                let next = start + part;
                assert(next % 8 == 0);
                assert(start <= next < start + 8);
                assert((start + 7) / 8 == next / 8);
            }
            self.cur = self.cur / cut;
            self.pos = self.pos - part;
        } else {
            proof {
                if self.pos > 0 {
                    assert(start % 8 == 0);
                    assert((start + 7) / 8 == start / 8);
                } else {
                    self.data.lemma_in_bounds();
                }
            }
        }
    }

    /// Hands out the lowest buffered byte.
    fn take_byte(&mut self) -> (r: GzipResult<u8>)
        requires
            old(self).inv(),
            old(self).buffered() >= 8,
            old(self).buffered() % 8 == 0,
        ensures
            final(self).inv(),
            final(self).data() == old(self).data(),
            final(self).bit_pos() == old(self).bit_pos() + 8,
            old(self).bit_pos() % 8 == 0,
            old(self).bit_pos() / 8 < old(self).data().len(),
            r == Ok::<u8, GzipError>(old(self).data()[old(self).bit_pos() as int / 8]),
    {
        let ghost data = self.data();
        let ghost at = self.bit_pos() as int;
        proof {
            let rest = (self.pos - 8) as nat;
            assert(at % 8 == 0);
            assert(at + 8 <= bit_len(data));
            lemma_lsb_value_split(data, at, 8, rest);
            lemma_lsb_value_byte(data, at / 8);
            vstd::arithmetic::power2::lemma2_to64();
            lemma_split_value(self.cur as nat, 8, data[at / 8] as nat, lsb_value(data, at + 8, rest));
        }
        let byte = (self.cur % 256) as u8;
        self.cur = self.cur / 256;
        self.pos = self.pos - 8;
        Ok(byte)
    }
}

impl<S: ByteSource> ByteSource for WideAdapter<S> {
    closed spec fn inv(&self) -> bool {
        &&& self.data.inv()
        &&& self.pos < 64
        &&& self.data.bit_pos() <= bit_len(self.data.data())
        &&& self.pos > 0 ==> {
            &&& self.data.bit_pos() % 8 == 0
            &&& self.data.bit_pos() >= self.pos
            &&& self.cur as nat == lsb_value(
                self.data.data(),
                self.data.bit_pos() - self.pos,
                self.pos as nat,
            )
        }
    }

    closed spec fn data(&self) -> Seq<u8> {
        self.data.data()
    }

    closed spec fn bit_pos(&self) -> nat {
        if self.pos == 0 {
            8 * byte_index(self.data.bit_pos())
        } else {
            (self.data.bit_pos() - self.pos) as nat
        }
    }

    proof fn lemma_in_bounds(&self) {
    }

    fn get_u8(&mut self) -> (r: GzipResult<u8>) {
        self.align();
        if self.pos >= 8 {
            self.take_byte()
        } else {
            let r = self.data.get_u8();
            proof {
                self.data.lemma_in_bounds();
            }
            r
        }
    }

    fn get_u64(&mut self) -> (r: GzipResult<u64>) {
        if self.pos == 0 {
            let r = self.data.get_u64();
            proof {
                self.data.lemma_in_bounds();
            }
            r
        } else {
            Err(GzipError::TruncatedFile)
        }
    }
}

impl<S: ByteSource> BitSource for WideAdapter<S> {
    fn get_bit(&mut self) -> (r: GzipResult<u32>) {
        let ghost data = self.data();
        let ghost start = self.bit_pos() as int;
        if self.pos == 0 {
            match self.data.get_u64() {
                Ok(fetched) => {
                    proof {
                        self.data.lemma_in_bounds();
                        lemma_le_value_is_lsb_value(data, start / 8, 8);
                    }
                    self.cur = fetched;
                    self.pos = 64;
                },
                Err(_) => {
                    let byte = match self.data.get_u8() {
                        Ok(b) => b,
                        Err(e) => {
                            proof {
                                self.data.lemma_in_bounds();
                            }
                            return Err(e);
                        },
                    };
                    proof {
                        self.data.lemma_in_bounds();
                        lemma_lsb_value_byte(data, start / 8);
                    }
                    self.cur = byte as u64;
                    self.pos = 8;
                },
            }
        }
        proof {
            lemma_bit_at_range(data, start);
            assert(lsb_value(data, start, self.pos as nat) == bit_at(data, start) + 2 * lsb_value(
                data,
                start + 1,
                (self.pos - 1) as nat,
            ));
        }
        let ans = self.cur % 2;
        self.cur = self.cur / 2;
        self.pos = self.pos - 1;
        Ok(ans as u32)
    }

    fn get_bits_rev(&mut self, size: u8) -> (r: GzipResult<u32>) {
        if size <= self.pos {
            let ghost data = self.data();
            let ghost start = self.bit_pos() as int;
            let cut = power_of_two(size);
            proof {
                vstd::arithmetic::power2::lemma2_to64();
                self.lemma_in_bounds();
                if self.pos > 0 {
                    let rest = (self.pos - size) as nat;
                    lemma_lsb_value_split(data, start, size as nat, rest);
                    lemma_lsb_value_bound(data, start, size as nat);
                    lemma_split_value(
                        self.cur as nat,
                        size as nat,
                        lsb_value(data, start, size as nat),
                        lsb_value(data, start + size, rest),
                    );
                }
                if size < 32 {
                    vstd::arithmetic::power2::lemma_pow2_strictly_increases(size as nat, 32);
                }
            }
            let ans = self.cur % cut;
            self.cur = self.cur / cut;
            self.pos = self.pos - size;
            Ok(ans as u32)
        } else {
            self.get_bits_rev_slow(size)
        }
    }
}

} // verus!
