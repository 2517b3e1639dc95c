//! The mathematical model of a compressed stream: a sequence of bytes read
//! as a sequence of bits, the least significant bit of each byte first.

use vstd::prelude::*;
use vstd::arithmetic::power2::pow2;
use vstd::arithmetic::power2::lemma_pow2_unfold;
use vstd::arithmetic::power2::lemma_pow2_pos;
use crate::errors::GzipError;

verus! {

/// `v` with its `k` lowest bits dropped.
pub open spec fn shifted(v: nat, k: nat) -> nat
    decreases k,
{
    if k == 0 {
        v
    } else {
        shifted(v, (k - 1) as nat) / 2
    }
}

/// Bit `i` of the stream: bit `i % 8` of byte `i / 8`, counted from the least
/// significant bit.
pub open spec fn bit_at(data: Seq<u8>, i: int) -> nat {
    shifted(data[i / 8] as nat, (i % 8) as nat) % 2
}

/// The number of bits in the stream.
pub open spec fn bit_len(data: Seq<u8>) -> nat {
    8 * data.len()
}

/// The integer whose bit `j` is stream bit `pos + j`, for `j < n`: each
/// successive bit of the stream is a more significant bit of the value.
pub open spec fn lsb_value(data: Seq<u8>, pos: int, n: nat) -> nat
    decreases n,
{
    if n == 0 {
        0
    } else {
        bit_at(data, pos) + 2 * lsb_value(data, pos + 1, (n - 1) as nat)
    }
}

/// The integer read from `n` stream bits when each successive bit becomes the
/// new least significant bit: stream bit `pos` is the most significant.
pub open spec fn msb_value(data: Seq<u8>, pos: int, n: nat) -> nat
    decreases n,
{
    if n == 0 {
        0
    } else {
        2 * msb_value(data, pos, (n - 1) as nat) + bit_at(data, pos + n - 1)
    }
}

/// The integer whose byte `j` is `data[index + j]`, for `j < n` (little
/// endian).
pub open spec fn le_value(data: Seq<u8>, index: int, n: nat) -> nat
    decreases n,
{
    if n == 0 {
        0
    } else {
        data[index] as nat + 256 * le_value(data, index + 1, (n - 1) as nat)
    }
}

/// The first byte boundary at or after bit position `pos`, as a byte index.
pub open spec fn byte_index(pos: nat) -> nat {
    (pos + 7) / 8
}

/// What a read of `n` bits at `pos` yields: the position after it, or the
/// end of the stream where fewer than `n` bits are left.
pub open spec fn after_bits(data: Seq<u8>, pos: nat, n: nat) -> nat {
    if pos + n <= bit_len(data) {
        pos + n
    } else {
        bit_len(data)
    }
}

/// What a read of `n` whole bytes yields, starting at the first byte boundary
/// at or after `pos`: the position after it, or the end of the stream where
/// fewer than `n` bytes are left.
pub open spec fn after_bytes(data: Seq<u8>, pos: nat, n: nat) -> nat {
    if n == 0 {
        pos
    } else if byte_index(pos) + n <= data.len() {
        8 * (byte_index(pos) + n)
    } else {
        bit_len(data)
    }
}

/// The outcome of reading `n` bits least-significant-first.
pub open spec fn read_lsb(data: Seq<u8>, pos: nat, n: nat) -> Result<nat, GzipError> {
    if pos + n <= bit_len(data) {
        Ok(lsb_value(data, pos as int, n))
    } else {
        Err(GzipError::TruncatedFile)
    }
}

/// The outcome of reading `n` bits most-significant-first.
pub open spec fn read_msb(data: Seq<u8>, pos: nat, n: nat) -> Result<nat, GzipError> {
    if pos + n <= bit_len(data) {
        Ok(msb_value(data, pos as int, n))
    } else {
        Err(GzipError::TruncatedFile)
    }
}

/// The outcome of reading `n` whole bytes as a little-endian integer.
pub open spec fn read_le(data: Seq<u8>, pos: nat, n: nat) -> Result<nat, GzipError> {
    if byte_index(pos) + n <= data.len() {
        Ok(le_value(data, byte_index(pos) as int, n))
    } else {
        Err(GzipError::TruncatedFile)
    }
}

/// A stream bit is 0 or 1.
pub proof fn lemma_bit_at_range(data: Seq<u8>, i: int)
    ensures
        bit_at(data, i) <= 1,
{
}

/// Dropping bits never grows the value.
pub proof fn lemma_shifted_le(v: nat, k: nat)
    ensures
        shifted(v, k) <= v,
    decreases k,
{
    if k > 0 {
        lemma_shifted_le(v, (k - 1) as nat);
    }
}

/// Reading one more bit least-significant-first adds that bit at weight
/// `2^n`.
pub proof fn lemma_lsb_value_extend(data: Seq<u8>, pos: int, n: nat)
    ensures
        lsb_value(data, pos, n + 1) == lsb_value(data, pos, n) + if bit_at(data, pos + n) == 1 {
            pow2(n)
        } else {
            0
        },
    decreases n,
{
    lemma_bit_at_range(data, pos + n);
    if n == 0 {
        assert(lsb_value(data, pos + 1, 0) == 0);
        assert(lsb_value(data, pos, 1) == bit_at(data, pos) + 2 * lsb_value(data, pos + 1, 0));
        assert(pow2(0) == 1) by {
            vstd::arithmetic::power2::lemma2_to64();
        }
    } else {
        lemma_lsb_value_extend(data, pos + 1, (n - 1) as nat);
        lemma_pow2_unfold(n);
        assert(lsb_value(data, pos, n + 1) == bit_at(data, pos) + 2 * lsb_value(
            data,
            pos + 1,
            n,
        ));
        assert(lsb_value(data, pos, n) == bit_at(data, pos) + 2 * lsb_value(
            data,
            pos + 1,
            (n - 1) as nat,
        ));
    }
}

/// A value read from `n` bits least-significant-first is below `2^n`.
pub proof fn lemma_lsb_value_bound(data: Seq<u8>, pos: int, n: nat)
    ensures
        lsb_value(data, pos, n) < pow2(n),
    decreases n,
{
    if n == 0 {
        vstd::arithmetic::power2::lemma2_to64();
    } else {
        lemma_lsb_value_bound(data, pos + 1, (n - 1) as nat);
        lemma_bit_at_range(data, pos);
        lemma_pow2_unfold(n);
    }
}

/// A value read from `n` bits most-significant-first is below `2^n`.
pub proof fn lemma_msb_value_bound(data: Seq<u8>, pos: int, n: nat)
    ensures
        msb_value(data, pos, n) < pow2(n),
    decreases n,
{
    if n == 0 {
        vstd::arithmetic::power2::lemma2_to64();
    } else {
        lemma_msb_value_bound(data, pos, (n - 1) as nat);
        lemma_bit_at_range(data, pos + n - 1);
        lemma_pow2_unfold(n);
    }
}

/// `2^n` is positive and doubles with `n`.
pub proof fn lemma_pow2_double(n: nat)
    ensures
        pow2(n) > 0,
        pow2(n + 1) == 2 * pow2(n),
{
    lemma_pow2_pos(n);
    lemma_pow2_unfold(n + 1);
}

/// A read of `a + b` bits least-significant-first is a read of `a` bits
/// with a read of `b` bits above it.
pub proof fn lemma_lsb_value_split(data: Seq<u8>, pos: int, a: nat, b: nat)
    ensures
        lsb_value(data, pos, a + b) == lsb_value(data, pos, a) + pow2(a) * lsb_value(
            data,
            pos + a,
            b,
        ),
    decreases a,
{
    if a == 0 {
        vstd::arithmetic::power2::lemma2_to64();
        let high = lsb_value(data, pos, b);
        assert(pow2(0) * high == high) by (nonlinear_arith)
            requires
                pow2(0) == 1,
        ;
    } else {
        let m = (a - 1) as nat;
        lemma_lsb_value_split(data, pos + 1, m, b);
        lemma_pow2_double(m);
        let high = lsb_value(data, pos + a, b);
        let p = pow2(m);
        let q = pow2(a);
        assert(lsb_value(data, pos, a + b) == bit_at(data, pos) + 2 * lsb_value(
            data,
            pos + 1,
            (a + b - 1) as nat,
        ));
        assert(lsb_value(data, pos, a) == bit_at(data, pos) + 2 * lsb_value(data, pos + 1, m));
        assert(2 * (p * high) == q * high) by (nonlinear_arith)
            requires
                q == 2 * p,
        ;
    }
}

/// Bits read from inside a byte are bits of that byte: `n` bits from bit
/// `j` on are the byte without its `j` lowest bits, cut to `n` bits.
pub proof fn lemma_lsb_value_in_byte(data: Seq<u8>, index: int, j: nat, n: nat)
    requires
        0 <= index < data.len(),
        j + n <= 8,
    ensures
        lsb_value(data, 8 * index + j, n) == shifted(data[index] as nat, j) % pow2(n),
    decreases n,
{
    let s = shifted(data[index] as nat, j);
    if n == 0 {
        vstd::arithmetic::power2::lemma2_to64();
        assert(s % 1 == 0);
    } else {
        let m = (n - 1) as nat;
        lemma_lsb_value_in_byte(data, index, j + 1, m);
        lemma_pow2_double(m);
        assert(shifted(data[index] as nat, j + 1) == s / 2);
        assert((8 * index + j) / 8 == index);
        assert((8 * index + j) % 8 == j);
        assert(bit_at(data, 8 * index + j) == s % 2);
        assert(lsb_value(data, 8 * index + j, n) == bit_at(data, 8 * index + j) + 2 * lsb_value(
            data,
            8 * index + j + 1,
            m,
        ));
        vstd::arithmetic::div_mod::lemma_mod_breakdown(s as int, 2, pow2(m) as int);
    }
}

/// Eight bits read from a byte boundary are the byte there.
pub proof fn lemma_lsb_value_byte(data: Seq<u8>, index: int)
    requires
        0 <= index < data.len(),
    ensures
        lsb_value(data, 8 * index, 8) == data[index],
{
    lemma_lsb_value_in_byte(data, index, 0, 8);
    vstd::arithmetic::power2::lemma2_to64();
    assert(shifted(data[index] as nat, 0) == data[index]);
}

/// Bytes read as a little-endian integer are their bits read
/// least-significant-first.
pub proof fn lemma_le_value_is_lsb_value(data: Seq<u8>, index: int, n: nat)
    requires
        0 <= index,
        index + n <= data.len(),
    ensures
        le_value(data, index, n) == lsb_value(data, 8 * index, 8 * n),
    decreases n,
{
    if n > 0 {
        let m = (n - 1) as nat;
        lemma_le_value_is_lsb_value(data, index + 1, m);
        lemma_lsb_value_byte(data, index);
        lemma_lsb_value_split(data, 8 * index, 8, 8 * m);
        vstd::arithmetic::power2::lemma2_to64();
        assert(8 + 8 * m == 8 * n);
        assert(8 * index + 8 == 8 * (index + 1));
    }
}

/// Reading `n + 1` bytes little-endian adds the last byte at weight `256^n`.
pub proof fn lemma_le_value_extend(data: Seq<u8>, index: int, n: nat)
    ensures
        le_value(data, index, n + 1) == le_value(data, index, n) + data[index + n] as nat * pow2(
            8 * n,
        ),
        le_value(data, index, n) < pow2(8 * n),
    decreases n,
{
    vstd::arithmetic::power2::lemma2_to64();
    if n == 0 {
        assert(le_value(data, index + 1, 0) == 0);
        assert(le_value(data, index, 1) == data[index] as nat + 256 * le_value(
            data,
            index + 1,
            0,
        ));
        let b = data[index] as nat;
        let one = pow2(0);
        assert(b * one == b) by (nonlinear_arith)
            requires
                one == 1,
        ;
    } else {
        lemma_le_value_extend(data, index + 1, (n - 1) as nat);
        let m = (n - 1) as nat;
        let b = data[index + n] as nat;
        let p = pow2(8 * m);
        let q = pow2(8 * n);
        let rest = le_value(data, index + 1, m);
        assert(q == 256 * p) by {
            vstd::arithmetic::power2::lemma_pow2_adds(8, 8 * m);
        }
        assert(le_value(data, index + 1, n) == rest + b * p);
        assert(le_value(data, index, n + 1) == data[index] as nat + 256 * le_value(
            data,
            index + 1,
            n,
        ));
        assert(le_value(data, index, n) == data[index] as nat + 256 * rest);
        assert(256 * (rest + b * p) == 256 * rest + b * q) by (nonlinear_arith)
            requires
                q == 256 * p,
        ;
    }
}

/// A little-endian value of `n` bytes is below `256^n`, spelt out for up to
/// eight bytes.
pub proof fn lemma_le_value_below(data: Seq<u8>, index: int, n: nat)
    requires
        n <= 8,
    ensures
        n <= 7 ==> le_value(data, index, n) < 0x100_0000_0000_0000,
        le_value(data, index, n) <= 0xffff_ffff_ffff_ffff,
{
    lemma_le_value_extend(data, index, n);
    vstd::arithmetic::power2::lemma2_to64();
    vstd::arithmetic::power2::lemma2_to64_rest();
    if n < 7 {
        vstd::arithmetic::power2::lemma_pow2_strictly_increases(8 * n, 56);
    } else if n == 7 {
        assert(pow2(8 * n) == pow2(56));
    } else {
        assert(pow2(8 * n) == pow2(64));
    }
}

} // verus!
