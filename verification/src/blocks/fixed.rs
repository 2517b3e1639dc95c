//! The block compressed with the fixed codes of the format.

use vstd::prelude::*;
use crate::errors::{GzipError, GzipResult};
use crate::sources::bitstream::{
    bit_at, bit_len, msb_value, read_msb, lemma_msb_value_bound, lemma_bit_at_range,
};
use crate::sources::bitsource::BitSource;
use crate::buffers::outputbuffer::OutputBuffer;
use crate::blocks::huffman::{code_of, count_len, first_code};
use crate::blocks::window::{BlockWindow, WindowDecoder, window_outcome};

verus! {

/// The literal/length symbol that the fixed code assigns to the bits at
/// `pos`, and the position after its code. The codes are read from their
/// most significant bit:
///
/// | code                    | bits | symbols   |
/// |-------------------------|------|-----------|
/// | 0000000 to 0010111      | 7    | 256 - 279 |
/// | 00110000 to 10111111    | 8    | 0 - 143   |
/// | 11000000 to 11000111    | 8    | 280 - 287 |
/// | 110010000 to 111111111  | 9    | 144 - 255 |
pub open spec fn fixed_literal(data: Seq<u8>, pos: nat) -> (GzipResult<u32>, nat) {
    match read_msb(data, pos, 7) {
        Err(e) => (Err(e), pos),
        Ok(base) => {
            if base <= 0x17 {
                (Ok((base + 256) as u32), pos + 7)
            } else if base <= 0x63 {
                match read_msb(data, pos, 8) {
                    Err(e) => (Err(e), pos),
                    Ok(code) => if base <= 0x5F {
                        (Ok((code - 0x30) as u32), pos + 8)
                    } else {
                        (Ok((code - 0xC0 + 280) as u32), pos + 8)
                    },
                }
            } else {
                match read_msb(data, pos, 9) {
                    Err(e) => (Err(e), pos),
                    Ok(code) => (Ok((code - 0x190 + 144) as u32), pos + 9),
                }
            }
        },
    }
}

/// The distance symbol at `pos` in a fixed block: five bits, the most
/// significant first.
pub open spec fn fixed_distance(data: Seq<u8>, pos: nat) -> (GzipResult<u32>, nat) {
    match read_msb(data, pos, 5) {
        Err(e) => (Err(e), pos),
        Ok(code) => (Ok(code as u32), pos + 5),
    }
}

/// The decoder of blocks compressed with the fixed codes.
pub struct BlockFixed {}

impl BlockWindow for BlockFixed {
    open spec fn inv(&self) -> bool {
        true
    }

    open spec fn literal_at(&self, data: Seq<u8>, pos: nat) -> (GzipResult<u32>, nat) {
        fixed_literal(data, pos)
    }

    open spec fn distance_at(&self, data: Seq<u8>, pos: nat) -> (GzipResult<u32>, nat) {
        fixed_distance(data, pos)
    }

    proof fn lemma_literal_advances(&self, data: Seq<u8>, pos: nat) {
    }

    proof fn lemma_distance_advances(&self, data: Seq<u8>, pos: nat) {
    }
}

impl WindowDecoder for BlockFixed {
    fn get_literal<T: BitSource>(&self, input: &mut T) -> (r: GzipResult<u32>) {
        let ghost data = input.data();
        let ghost pos = input.bit_pos();
        proof {
            let p = pos as int;
            input.lemma_in_bounds();
            vstd::arithmetic::power2::lemma2_to64();
            lemma_msb_value_bound(data, p, 7);
            lemma_bit_at_range(data, p + 7);
            lemma_bit_at_range(data, p + 8);
            assert(msb_value(data, p, 8) == 2 * msb_value(data, p, 7) + bit_at(data, p + 7));
            assert(msb_value(data, p, 9) == 2 * msb_value(data, p, 8) + bit_at(data, p + 8));
            assert(msb_value(data, p + 7, 0) == 0);
            assert(msb_value(data, p + 7, 1) == 2 * msb_value(data, p + 7, 0) + bit_at(
                data,
                p + 7,
            ));
            assert(msb_value(data, p + 7, 2) == 2 * msb_value(data, p + 7, 1) + bit_at(
                data,
                p + 8,
            ));
        }
        let base = match input.get_bits(7) {
            Ok(v) => v,
            Err(e) => {
                return Err(e);
            },
        };
        if base <= 0x17 {
            Ok(base + 256)
        } else if base <= 0x5F {
            let more = match input.get_bits(1) {
                Ok(v) => v,
                Err(e) => {
                    return Err(e);
                },
            };
            Ok(base * 2 + more - 0x30)
        } else if base <= 0x63 {
            let more = match input.get_bits(1) {
                Ok(v) => v,
                Err(e) => {
                    return Err(e);
                },
            };
            Ok(base * 2 + more - 0xC0 + 280)
        } else {
            let more = match input.get_bits(2) {
                Ok(v) => v,
                Err(e) => {
                    return Err(e);
                },
            };
            Ok(base * 4 + more - 0x190 + 144)
        }
    }

    fn get_distance<T: BitSource>(&self, input: &mut T) -> (r: GzipResult<u32>) {
        proof {
            input.lemma_in_bounds();
        }
        input.get_bits(5)
    }
}

impl BlockFixed {
    /// The decoder of fixed blocks: it has no tables of its own.
    pub fn new() -> (r: Self)
        ensures
            r.inv(),
    {
        BlockFixed {  }
    }

    /// Decodes one block compressed with the fixed codes from where the
    /// input stands, appending what it produces to the output.
    ///
    /// The result is that of the model unless the output refuses a write, which
    /// is a `CantWriteFile`; and it is that of the model, with the output that
    /// the model gives, where the output accepts every write, where the call
    /// succeeds, and where the model writes nothing.
    pub fn decode<T: BitSource, U: OutputBuffer>(&self, input: &mut T, output: &mut U) -> (r:
        GzipResult<()>)
        requires
            old(input).inv(),
            old(output).inv(),
        ensures
            final(input).inv(),
            final(input).data() == old(input).data(),
            final(output).infallible() == old(output).infallible(),
            final(output).base() == old(output).base(),
            old(output).sunk().is_prefix_of(final(output).sunk()),
            final(output).sunk().is_prefix_of(
                final(output).base() + window_outcome(
                    *self,
                    old(input).data(),
                    old(input).bit_pos(),
                    old(output)@,
                ).out,
            ),
            r is Ok ==> old(input).bit_pos() <= final(input).bit_pos(),
            ({
                let expected = window_outcome(
                    *self,
                    old(input).data(),
                    old(input).bit_pos(),
                    old(output)@,
                );
                &&& r == expected.result || r == Err::<(), GzipError>(GzipError::CantWriteFile)
                &&& old(output).infallible() || r is Ok || expected.out == old(output)@ ==> {
                    &&& r == expected.result
                    &&& final(output).inv()
                    &&& final(output)@ == expected.out
                    &&& r is Ok ==> final(input).bit_pos() == expected.pos
                }
            }),
    {
        self.window_decode(input, output)
    }
}

/// The length of the code of literal/length symbol `symbol` in a fixed
/// block.
pub open spec fn fixed_length(symbol: int) -> u8 {
    if symbol < 144 {
        8
    } else if symbol < 256 {
        9
    } else if symbol < 280 {
        7
    } else {
        8
    }
}

/// The table of code lengths of the literal/length symbols of a fixed
/// block.
pub open spec fn fixed_lengths() -> Seq<u8> {
    Seq::new(288, |symbol: int| fixed_length(symbol))
}

/// How many of the first `upto` symbols of a fixed block have a code of
/// `len` bits.
pub proof fn lemma_fixed_counts(len: int, upto: int)
    requires
        0 <= upto <= 288,
    ensures
        count_len(fixed_lengths(), len, upto) == if len == 7 {
            if upto <= 256 {
                0
            } else if upto <= 280 {
                upto - 256
            } else {
                24
            }
        } else if len == 8 {
            if upto <= 144 {
                upto
            } else if upto <= 280 {
                144
            } else {
                upto - 136
            }
        } else if len == 9 {
            if upto <= 144 {
                0
            } else if upto <= 256 {
                upto - 144
            } else {
                112
            }
        } else {
            0
        },
    decreases upto,
{
    if upto > 0 {
        lemma_fixed_counts(len, upto - 1);
    }
}

/// The fixed code is the canonical code of its table of code lengths: a
/// stream that carries the canonical code of a symbol, its most
/// significant bit first, is read as that symbol.
pub proof fn lemma_fixed_is_canonical(symbol: int, data: Seq<u8>, pos: nat)
    requires
        0 <= symbol < 288,
        pos + fixed_length(symbol) <= bit_len(data),
        msb_value(data, pos as int, fixed_length(symbol) as nat) == code_of(
            fixed_lengths(),
            symbol,
        ),
    ensures
        fixed_literal(data, pos) == (
            Ok::<u32, GzipError>(symbol as u32),
            pos + fixed_length(symbol) as nat,
        ),
{
    let table = fixed_lengths();
    lemma_fixed_counts(1, 288);
    lemma_fixed_counts(2, 288);
    lemma_fixed_counts(3, 288);
    lemma_fixed_counts(4, 288);
    lemma_fixed_counts(5, 288);
    lemma_fixed_counts(6, 288);
    lemma_fixed_counts(7, 288);
    lemma_fixed_counts(8, 288);
    reveal_with_fuel(first_code, 10);
    assert(first_code(table, 7) == 0);
    assert(first_code(table, 8) == 0x30);
    assert(first_code(table, 9) == 0x190);
    lemma_fixed_counts(fixed_length(symbol) as int, symbol);
    let p = pos as int;
    lemma_bit_at_range(data, p + 7);
    lemma_bit_at_range(data, p + 8);
    assert(msb_value(data, p, 8) == 2 * msb_value(data, p, 7) + bit_at(data, p + 7));
    assert(msb_value(data, p, 9) == 2 * msb_value(data, p, 8) + bit_at(data, p + 8));
}

} // verus!
