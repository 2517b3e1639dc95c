//! The loop shared by the blocks that are compressed: literal bytes, the end
//! of the block, and back-references into the window.

use vstd::prelude::*;
use vstd::arithmetic::power2::pow2;
use crate::errors::{GzipError, GzipResult};
use crate::sources::bitstream::{bit_len, read_lsb, lemma_lsb_value_bound};
use crate::sources::bitsource::BitSource;
use crate::buffers::outputbuffer::{
    OutputBuffer, reachable, copied, lemma_prefix_transitive, lemma_prefix_reflexive,
    lemma_copied_extends, lemma_sunk_within, lemma_copied_cycle,
};

verus! {

/// The number of extra bits that follow each length symbol, from symbol 257
/// on.
pub const LENGTH_EXTRA: [u8; 29] = [
    0, 0, 0, 0, 0, 0, 0, 0, 1, 1, 1, 1, 2, 2, 2, 2, 3, 3, 3, 3, 4, 4, 4, 4, 5, 5, 5, 5, 0,
];

/// The shortest length that each length symbol stands for, from symbol 257
/// on.
pub const LENGTH_START: [u32; 29] = [
    3, 4, 5, 6, 7, 8, 9, 10, 11, 13, 15, 17, 19, 23, 27, 31, 35, 43, 51, 59, 67, 83, 99, 115,
    131, 163, 195, 227, 258,
];

/// The number of extra bits that follow each distance symbol.
pub const DISTANCE_EXTRA: [u8; 30] = [
    0, 0, 0, 0, 1, 1, 2, 2, 3, 3, 4, 4, 5, 5, 6, 6, 7, 7, 8, 8, 9, 9, 10, 10, 11, 11, 12, 12,
    13, 13,
];

/// The shortest distance that each distance symbol stands for.
pub const DISTANCE_START: [u32; 30] = [
    1, 2, 3, 4, 5, 7, 9, 13, 17, 25, 33, 49, 65, 97, 129, 193, 257, 385, 513, 769, 1025, 1537,
    2049, 3073, 4097, 6145, 8193, 12289, 16385, 24577,
];

/// A length symbol with its extra bits stands for a length from 3 to 258.
pub proof fn lemma_length_tables(index: int)
    requires
        0 <= index < 29,
    ensures
        LENGTH_EXTRA[index] <= 5,
        3 <= LENGTH_START[index],
        LENGTH_START[index] + pow2(LENGTH_EXTRA[index] as nat) <= 259,
{
    vstd::arithmetic::power2::lemma2_to64();
}

/// A distance symbol with its extra bits stands for a distance from 1 to
/// 32768.
pub proof fn lemma_distance_tables(index: int)
    requires
        0 <= index < 30,
    ensures
        DISTANCE_EXTRA[index] <= 13,
        1 <= DISTANCE_START[index],
        DISTANCE_START[index] + pow2(DISTANCE_EXTRA[index] as nat) <= 32769,
{
    vstd::arithmetic::power2::lemma2_to64();
}

/// The lengths that the length symbols stand for follow each other without
/// a gap, up to the last but one symbol: each symbol starts where the one
/// before it, with all its extra bits set, ends.
pub proof fn lemma_lengths_are_consistent(index: int)
    requires
        0 <= index < 27,
    ensures
        LENGTH_START[index + 1] == LENGTH_START[index] + pow2(LENGTH_EXTRA[index] as nat),
{
    vstd::arithmetic::power2::lemma2_to64();
}

/// The distances that the distance symbols stand for follow each other
/// without a gap.
pub proof fn lemma_distances_are_consistent(index: int)
    requires
        0 <= index < 29,
    ensures
        DISTANCE_START[index + 1] == DISTANCE_START[index] + pow2(
            DISTANCE_EXTRA[index] as nat,
        ),
{
    vstd::arithmetic::power2::lemma2_to64();
}

/// The symbol that ends a block.
pub const END_OF_BLOCK: u32 = 256;

/// How a decode went: whether it succeeded, where it left the input, and
/// the output after it. After a failure `out` is the output up to the
/// failure, and `pos` says nothing.
pub struct Outcome {
    pub result: GzipResult<()>,
    pub pos: nat,
    pub out: Seq<u8>,
}

/// The codes of a block that has literals and back-references: what reading
/// a literal/length symbol and a distance symbol yields at each place of a
/// stream.
pub trait BlockWindow: Sized {
    /// The block's tables are fit for decoding.
    spec fn inv(&self) -> bool;

    /// The literal/length symbol read at bit `pos`, and the position after
    /// it.
    spec fn literal_at(&self, data: Seq<u8>, pos: nat) -> (GzipResult<u32>, nat);

    /// The distance symbol read at bit `pos`, and the position after it.
    spec fn distance_at(&self, data: Seq<u8>, pos: nat) -> (GzipResult<u32>, nat);

    /// Reading a literal/length symbol consumes input, and not more than
    /// there is.
    proof fn lemma_literal_advances(&self, data: Seq<u8>, pos: nat)
        requires
            self.inv(),
            pos <= bit_len(data),
            self.literal_at(data, pos).0 is Ok,
        ensures
            pos < self.literal_at(data, pos).1 <= bit_len(data),
    ;

    /// Reading a distance symbol does not consume more input than there is.
    proof fn lemma_distance_advances(&self, data: Seq<u8>, pos: nat)
        requires
            self.inv(),
            pos <= bit_len(data),
            self.distance_at(data, pos).0 is Ok,
        ensures
            pos <= self.distance_at(data, pos).1 <= bit_len(data),
    ;
}

/// The length and the distance of the back-reference that length symbol
/// `symbol` opens, read at bit `pos`, and the position after them: the
/// symbol's base length plus its extra bits, a distance symbol below 30, and
/// that symbol's base distance plus its extra bits. Length 258 has a symbol
/// of its own, the last: extra bits that bring the symbol before it to 258
/// are an `InvalidDeflateStream`, and so is a distance symbol of 30 or more.
pub open spec fn length_distance<B: BlockWindow>(
    block: B,
    data: Seq<u8>,
    pos: nat,
    symbol: u32,
) -> (GzipResult<(u32, u32)>, nat)
    recommends
        257 <= symbol <= 285,
{
    let index = symbol - 257;
    let length_bits = LENGTH_EXTRA[index] as nat;
    match read_lsb(data, pos, length_bits) {
        Err(e) => (Err(e), pos),
        Ok(length_more) => if index < 28 && LENGTH_START[index] + length_more >= 258 {
            (Err(GzipError::InvalidDeflateStream), pos)
        } else {
            let (code, at) = block.distance_at(data, pos + length_bits);
            match code {
                Err(e) => (Err(e), pos),
                Ok(distance_base) => {
                    if distance_base >= 30 {
                        (Err(GzipError::InvalidDeflateStream), pos)
                    } else {
                        let distance_bits = DISTANCE_EXTRA[distance_base as int] as nat;
                        match read_lsb(data, at, distance_bits) {
                            Err(e) => (Err(e), pos),
                            Ok(distance_more) => (
                                Ok(
                                    (
                                        (LENGTH_START[index] + length_more) as u32,
                                        (DISTANCE_START[distance_base as int]
                                            + distance_more) as u32,
                                    ),
                                ),
                                at + distance_bits,
                            ),
                        }
                    }
                },
            }
        },
    }
}

/// The rest of a compressed block from bit `pos`, with `out` produced
/// before: symbol after symbol until the end-of-block symbol. A symbol below
/// 256 is a literal byte; 257 to 285 open a back-reference, which must be
/// resolvable against the output so far; 286 and 287 are an
/// `InvalidDeflateStream`.
pub open spec fn window_outcome<B: BlockWindow>(
    block: B,
    data: Seq<u8>,
    pos: nat,
    out: Seq<u8>,
) -> Outcome
    decreases bit_len(data) - pos,
{
    let (code, at) = block.literal_at(data, pos);
    match code {
        Err(e) => Outcome { result: Err(e), pos, out },
        Ok(symbol) => {
            if !(pos < at <= bit_len(data)) {
                Outcome { result: Err(GzipError::InternalError), pos, out }
            } else if symbol < 256 {
                window_outcome(block, data, at, out.push(symbol as u8))
            } else if symbol == END_OF_BLOCK {
                Outcome { result: Ok(()), pos: at, out }
            } else if symbol <= 285 {
                let (pair, next) = length_distance(block, data, at, symbol);
                match pair {
                    Err(e) => Outcome { result: Err(e), pos, out },
                    Ok((length, distance)) => {
                        if !reachable(out, distance as int) {
                            Outcome { result: Err(GzipError::InvalidDeflateStream), pos, out }
                        } else if !(at <= next <= bit_len(data)) {
                            Outcome { result: Err(GzipError::InternalError), pos, out }
                        } else {
                            window_outcome(
                                block,
                                data,
                                next,
                                copied(out, distance as int, length as nat),
                            )
                        }
                    },
                }
            } else if symbol <= 287 {
                Outcome { result: Err(GzipError::InvalidDeflateStream), pos, out }
            } else {
                Outcome { result: Err(GzipError::InternalError), pos, out }
            }
        },
    }
}

/// A block adds to the output and takes nothing back: the output before it
/// is a start of the output after it.
pub proof fn lemma_window_outcome_extends<B: BlockWindow>(
    block: B,
    data: Seq<u8>,
    pos: nat,
    out: Seq<u8>,
)
    ensures
        out.is_prefix_of(window_outcome(block, data, pos, out).out),
    decreases bit_len(data) - pos,
{
    let (code, at) = block.literal_at(data, pos);
    lemma_prefix_reflexive(out);
    match code {
        Err(e) => {},
        Ok(symbol) => {
            if !(pos < at <= bit_len(data)) {
            } else if symbol < 256 {
                let next = out.push(symbol as u8);
                lemma_window_outcome_extends(block, data, at, next);
                assert(out =~= next.subrange(0, out.len() as int));
                lemma_prefix_transitive(out, next, window_outcome(block, data, at, next).out);
            } else if symbol == END_OF_BLOCK {
            } else if symbol <= 285 {
                let (pair, next) = length_distance(block, data, at, symbol);
                match pair {
                    Err(e) => {},
                    Ok((length, distance)) => {
                        if reachable(out, distance as int) && at <= next <= bit_len(data) {
                            let more = copied(out, distance as int, length as nat);
                            lemma_window_outcome_extends(block, data, next, more);
                            lemma_copied_extends(out, distance as int, 0, length as nat);
                            lemma_prefix_transitive(
                                out,
                                more,
                                window_outcome(block, data, next, more).out,
                            );
                        }
                    },
                }
            }
        },
    }
}

/// What a compressor writes into a block: a byte as it is, or a reference
/// to bytes that came before.
pub enum Token {
    Literal(u8),
    Copy { length: u32, distance: u32 },
}

/// The output after the tokens of a block, with `out` produced before: a
/// literal is appended, a back-reference is resolved against what was
/// produced up to it.
pub open spec fn expanded(out: Seq<u8>, tokens: Seq<Token>) -> Seq<u8>
    decreases tokens.len(),
{
    if tokens.len() == 0 {
        out
    } else {
        let next = match tokens[0] {
            Token::Literal(byte) => out.push(byte),
            Token::Copy { length, distance } => copied(out, distance as int, length as nat),
        };
        expanded(next, tokens.skip(1))
    }
}

/// Each back-reference among the tokens can be resolved against the output
/// that the tokens before it produce from `out`.
pub open spec fn expandable(out: Seq<u8>, tokens: Seq<Token>) -> bool
    decreases tokens.len(),
{
    if tokens.len() == 0 {
        true
    } else {
        match tokens[0] {
            Token::Literal(byte) => expandable(out.push(byte), tokens.skip(1)),
            Token::Copy { length, distance } => reachable(out, distance as int) && expandable(
                copied(out, distance as int, length as nat),
                tokens.skip(1),
            ),
        }
    }
}

/// The stream reads, from bit `pos` and in the codes of `block`, as the
/// tokens and then the end of the block; `end` is the position behind it.
pub open spec fn carries_tokens<B: BlockWindow>(
    block: B,
    data: Seq<u8>,
    pos: nat,
    tokens: Seq<Token>,
    end: nat,
) -> bool
    decreases tokens.len(),
{
    let (code, at) = block.literal_at(data, pos);
    if tokens.len() == 0 {
        code == Ok::<u32, GzipError>(END_OF_BLOCK) && at == end
    } else {
        match tokens[0] {
            Token::Literal(byte) => code == Ok::<u32, GzipError>(byte as u32) && carries_tokens(
                block,
                data,
                at,
                tokens.skip(1),
                end,
            ),
            Token::Copy { length, distance } => {
                &&& code matches Ok(symbol)
                &&& 257 <= symbol <= 285
                &&& length_distance(block, data, at, symbol).0 == Ok::<(u32, u32), GzipError>(
                    (length, distance),
                )
                &&& carries_tokens(
                    block,
                    data,
                    length_distance(block, data, at, symbol).1,
                    tokens.skip(1),
                    end,
                )
            },
        }
    }
}

/// The positions that reading a back-reference passes are in the stream
/// and in order.
pub proof fn lemma_length_distance_advances<B: BlockWindow>(
    block: B,
    data: Seq<u8>,
    pos: nat,
    symbol: u32,
)
    requires
        block.inv(),
        257 <= symbol <= 285,
        pos <= bit_len(data),
        length_distance(block, data, pos, symbol).0 is Ok,
    ensures
        pos <= length_distance(block, data, pos, symbol).1 <= bit_len(data),
{
    let index = symbol - 257;
    let length_bits = LENGTH_EXTRA[index] as nat;
    block.lemma_distance_advances(data, pos + length_bits);
}

/// What a compressor wrote into a block comes out of it: a stream that
/// reads as tokens and then the end of the block decodes to what the tokens
/// stand for, appended to the output.
pub proof fn lemma_tokens_round_trip<B: BlockWindow>(
    block: B,
    data: Seq<u8>,
    pos: nat,
    tokens: Seq<Token>,
    end: nat,
    out: Seq<u8>,
)
    requires
        block.inv(),
        pos <= bit_len(data),
        carries_tokens(block, data, pos, tokens, end),
        expandable(out, tokens),
    ensures
        window_outcome(block, data, pos, out) == (Outcome {
            result: Ok(()),
            pos: end,
            out: expanded(out, tokens),
        }),
    decreases tokens.len(),
{
    let (code, at) = block.literal_at(data, pos);
    block.lemma_literal_advances(data, pos);
    if tokens.len() > 0 {
        match tokens[0] {
            Token::Literal(byte) => {
                lemma_tokens_round_trip(block, data, at, tokens.skip(1), end, out.push(byte));
            },
            Token::Copy { length, distance } => {
                let symbol = code->Ok_0;
                lemma_length_distance_advances(block, data, at, symbol);
                lemma_tokens_round_trip(
                    block,
                    data,
                    length_distance(block, data, at, symbol).1,
                    tokens.skip(1),
                    end,
                    copied(out, distance as int, length as nat),
                );
            },
        }
    }
}

/// A decoder of the symbols of a block that has literals and
/// back-references, and the loop that turns them into output.
pub trait WindowDecoder: BlockWindow {
    /// Reads one literal/length symbol.
    fn get_literal<T: BitSource>(&self, input: &mut T) -> (r: GzipResult<u32>)
        requires
            self.inv(),
            old(input).inv(),
        ensures
            final(input).inv(),
            final(input).data() == old(input).data(),
            r == self.literal_at(old(input).data(), old(input).bit_pos()).0,
            r is Ok ==> final(input).bit_pos() == self.literal_at(
                old(input).data(),
                old(input).bit_pos(),
            ).1,
    ;

    /// Reads one distance symbol.
    fn get_distance<T: BitSource>(&self, input: &mut T) -> (r: GzipResult<u32>)
        requires
            self.inv(),
            old(input).inv(),
        ensures
            final(input).inv(),
            final(input).data() == old(input).data(),
            r == self.distance_at(old(input).data(), old(input).bit_pos()).0,
            r is Ok ==> final(input).bit_pos() == self.distance_at(
                old(input).data(),
                old(input).bit_pos(),
            ).1,
    ;

    /// Decodes the block from where the input stands to its end-of-block
    /// symbol, appending what it produces to the output.
    ///
    /// The result is that of the model unless the output refuses a write, which
    /// is a `CantWriteFile`; and it is that of the model, with the output that
    /// the model gives, where the output accepts every write, where the call
    /// succeeds, and where the model writes nothing.
    fn window_decode<T: BitSource, U: OutputBuffer>(&self, input: &mut T, output: &mut U) -> (r:
        GzipResult<()>)
        requires
            self.inv(),
            old(input).inv(),
            old(output).inv(),
        ensures
            final(input).inv(),
            final(input).data() == old(input).data(),
            final(output).infallible() == old(output).infallible(),
            final(output).base() == old(output).base(),
            old(output).sunk().is_prefix_of(final(output).sunk()),
            final(output).sunk().is_prefix_of(
                final(output).base() + window_outcome(
                    *self,
                    old(input).data(),
                    old(input).bit_pos(),
                    old(output)@,
                ).out,
            ),
            r is Ok ==> old(input).bit_pos() <= final(input).bit_pos(),
            ({
                let expected = window_outcome(
                    *self,
                    old(input).data(),
                    old(input).bit_pos(),
                    old(output)@,
                );
                &&& r == expected.result || r == Err::<(), GzipError>(GzipError::CantWriteFile)
                &&& old(output).infallible() || r is Ok || expected.out == old(output)@ ==> {
                    &&& r == expected.result
                    &&& final(output).inv()
                    &&& final(output)@ == expected.out
                    &&& r is Ok ==> final(input).bit_pos() == expected.pos
                }
            }),
    {
        let ghost data = input.data();
        let ghost expected = window_outcome(*self, data, input.bit_pos(), output@);
        proof {
            lemma_prefix_reflexive(output.sunk());
            output.lemma_sunk();
            lemma_window_outcome_extends(*self, data, input.bit_pos(), output@);
            lemma_sunk_within(output.sunk(), output.base(), output@, expected.out);
        }
        loop
            invariant
                self.inv(),
                output.sunk().is_prefix_of(output.base() + expected.out),
                input.inv(),
                output.inv(),
                input.data() == data,
                data == old(input).data(),
                old(input).bit_pos() <= input.bit_pos(),
                output.infallible() == old(output).infallible(),
                output.base() == old(output).base(),
                old(output).sunk().is_prefix_of(output.sunk()),
                old(output)@.len() <= output@.len(),
                expected == window_outcome(
                    *self,
                    old(input).data(),
                    old(input).bit_pos(),
                    old(output)@,
                ),
                window_outcome(*self, data, input.bit_pos(), output@) == expected,
            decreases bit_len(data) - input.bit_pos(),
        {
            let ghost pos = input.bit_pos();
            proof {
                input.lemma_in_bounds();
                if self.literal_at(data, pos).0 is Ok {
                    self.lemma_literal_advances(data, pos);
                }
            }
            let code = match self.get_literal(input) {
                Ok(c) => c,
                Err(e) => {
                    return Err(e);
                },
            };
            let ghost before = output.sunk();
            let ghost view = output@;
            if code < 256 {
                let done = output.put_u8(code as u8);
                proof {
                    let next = view.push(code as u8);
                    lemma_prefix_transitive(old(output).sunk(), before, output.sunk());
                    lemma_window_outcome_extends(*self, data, input.bit_pos(), next);
                    lemma_sunk_within(output.sunk(), output.base(), next, expected.out);
                    assert(expected.out.len() > old(output)@.len());
                }
                match done {
                    Ok(()) => {},
                    Err(e) => {
                        return Err(e);
                    },
                }
            } else if code == END_OF_BLOCK {
                return Ok(());
            } else if code <= 285 {
                let ghost at = input.bit_pos();
                let (length, distance) = match self.get_window(input, code) {
                    Ok(pair) => pair,
                    Err(e) => {
                        return Err(e);
                    },
                };
                let done = output.copy_window(distance, length);
                proof {
                    let next = copied(view, distance as int, length as nat);
                    lemma_prefix_transitive(old(output).sunk(), before, output.sunk());
                    if reachable(view, distance as int) {
                        lemma_window_outcome_extends(*self, data, input.bit_pos(), next);
                        lemma_sunk_within(output.sunk(), output.base(), next, expected.out);
                        lemma_copied_cycle(view, distance as int, length as nat);
                        assert(expected.out.len() > old(output)@.len());
                    } else {
                        output.lemma_sunk();
                        lemma_window_outcome_extends(*self, data, pos, view);
                        lemma_sunk_within(output.sunk(), output.base(), view, expected.out);
                    }
                }
                match done {
                    Ok(()) => {},
                    Err(e) => {
                        return Err(e);
                    },
                }
            } else if code <= 287 {
                return Err(GzipError::InvalidDeflateStream);
            } else {
                return Err(GzipError::InternalError);
            }
        }
    }

    /// Reads what follows length symbol `length_base`: the length and the
    /// distance of the back-reference.
    fn get_window<T: BitSource>(&self, input: &mut T, length_base: u32) -> (r: GzipResult<
        (u32, u32),
    >)
        requires
            self.inv(),
            old(input).inv(),
            257 <= length_base <= 285,
        ensures
            final(input).inv(),
            final(input).data() == old(input).data(),
            r is Ok ==> old(input).bit_pos() <= final(input).bit_pos() <= bit_len(
                old(input).data(),
            ),
            r == length_distance(*self, old(input).data(), old(input).bit_pos(), length_base).0,
            r is Ok ==> final(input).bit_pos() == length_distance(
                *self,
                old(input).data(),
                old(input).bit_pos(),
                length_base,
            ).1,
            r matches Ok((length, distance)) ==> 3 <= length <= 258 && 1 <= distance <= 32768,
    {
        let ghost data = input.data();
        let ghost pos = input.bit_pos();
        proof {
            input.lemma_in_bounds();
        }
        let index = (length_base - 257) as usize;
        let length_bits = LENGTH_EXTRA[index];
        proof {
            lemma_length_tables(index as int);
            lemma_lsb_value_bound(data, pos as int, length_bits as nat);
        }
        let length_more = match input.get_bits_rev(length_bits) {
            Ok(v) => v,
            Err(e) => {
                return Err(e);
            },
        };
        let length = LENGTH_START[index] + length_more;
        if index < 28 && length >= 258 {
            return Err(GzipError::InvalidDeflateStream);
        }
        proof {
            if self.distance_at(data, input.bit_pos()).0 is Ok {
                self.lemma_distance_advances(data, input.bit_pos());
            }
        }
        let distance_base = match self.get_distance(input) {
            Ok(v) => v,
            Err(e) => {
                return Err(e);
            },
        };
        if distance_base >= 30 {
            return Err(GzipError::InvalidDeflateStream);
        }
        let index = distance_base as usize;
        let distance_bits = DISTANCE_EXTRA[index];
        proof {
            lemma_distance_tables(index as int);
            lemma_lsb_value_bound(data, input.bit_pos() as int, distance_bits as nat);
        }
        let distance_more = match input.get_bits_rev(distance_bits) {
            Ok(v) => v,
            Err(e) => {
                return Err(e);
            },
        };
        let distance = DISTANCE_START[index] + distance_more;
        Ok((length, distance))
    }
}

} // verus!
