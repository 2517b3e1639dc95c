//! The block compressed with codes of its own, which it carries in front of
//! its data.

use vstd::prelude::*;
use crate::errors::{GzipError, GzipResult};
use crate::sources::bitstream::{bit_len, lsb_value, read_lsb, lemma_lsb_value_bound};
use crate::sources::bitsource::BitSource;
use crate::buffers::outputbuffer::{OutputBuffer, lemma_prefix_reflexive, lemma_sunk_within};
use crate::blocks::huffman::{Huffman, HuffmanNode, huffman_of, walk};
use crate::blocks::window::{
    BlockWindow, WindowDecoder, Outcome, window_outcome, END_OF_BLOCK,
    lemma_window_outcome_extends,
};

verus! {

/// The order in which the lengths of the code-length codes are sent: the
/// `i`-th length read belongs to symbol `CODE_LENGTHS_UNSHUFFLE[i]`.
pub const CODE_LENGTHS_UNSHUFFLE: [usize; 19] = [
    16, 17, 18, 0, 8, 7, 9, 6, 10, 5, 11, 4, 12, 3, 13, 2, 14, 1, 15,
];

/// The table of the lengths of the code-length codes after `count` of them
/// were read from bit `pos`, three bits each. A symbol whose length was not
/// sent has length zero.
pub open spec fn code_length_table(data: Seq<u8>, pos: nat, count: nat) -> Seq<u8>
    decreases count,
{
    if count == 0 {
        Seq::new(19, |i: int| 0u8)
    } else {
        code_length_table(data, pos, (count - 1) as nat).update(
            CODE_LENGTHS_UNSHUFFLE[count - 1] as int,
            lsb_value(data, pos + 3 * (count - 1), 3) as u8,
        )
    }
}

/// `count` times `value`.
pub open spec fn repeated(value: u8, count: nat) -> Seq<u8> {
    Seq::new(count, |i: int| value)
}

/// How many of the `count` lengths that a repeat stands for are taken
/// where `have` of the `size` lengths are there: all of them, or as many as
/// are still missing.
pub open spec fn fitting(count: nat, size: nat, have: nat) -> nat {
    if have + count > size {
        (size - have) as nat
    } else {
        count
    }
}

/// The code lengths decoded from bit `pos` until there are `size` of them,
/// with `acc` decoded before and `previous` the length that a repeat would
/// repeat; and the position after them. A symbol up to 15 is a length.
/// Symbol 16 repeats the previous length 3 to 6 times and is an
/// `InvalidDeflateStream` where there is none. Symbols 17 and 18 stand for 3
/// to 10 and 11 to 138 lengths of zero. A repeat that would go beyond the
/// `size` lengths is cut there: no more than `size` lengths are decoded.
pub open spec fn lengths_outcome(
    tree: HuffmanNode,
    data: Seq<u8>,
    pos: nat,
    size: nat,
    acc: Seq<u8>,
    previous: Option<u8>,
) -> (GzipResult<Seq<u8>>, nat)
    decreases
        if acc.len() < size {
            size - acc.len()
        } else {
            0
        },
{
    if acc.len() >= size {
        (Ok(acc), pos)
    } else {
        let (code, at) = walk(tree, data, pos);
        match code {
            Err(e) => (Err(e), pos),
            Ok(symbol) => {
                if symbol <= 15 {
                    lengths_outcome(
                        tree,
                        data,
                        at,
                        size,
                        acc.push(symbol as u8),
                        Some(symbol as u8),
                    )
                } else if symbol == 16 {
                    match read_lsb(data, at, 2) {
                        Err(e) => (Err(e), pos),
                        Ok(more) => match previous {
                            None => (Err(GzipError::InvalidDeflateStream), pos),
                            Some(value) => {
                                let run = repeated(value, fitting(3 + more, size, acc.len()));
                                proof {
                                    assert((acc + run).len() > acc.len());
                                }
                                lengths_outcome(
                                    tree,
                                    data,
                                    at + 2,
                                    size,
                                    acc + run,
                                    previous,
                                )
                            },
                        },
                    }
                } else if symbol == 17 {
                    match read_lsb(data, at, 3) {
                        Err(e) => (Err(e), pos),
                        Ok(more) => {
                            let run = repeated(0, fitting(3 + more, size, acc.len()));
                            proof {
                                assert((acc + run).len() > acc.len());
                            }
                            lengths_outcome(
                                tree,
                                data,
                                at + 3,
                                size,
                                acc + run,
                                Some(0u8),
                            )
                        },
                    }
                } else if symbol == 18 {
                    match read_lsb(data, at, 7) {
                        Err(e) => (Err(e), pos),
                        Ok(more) => {
                            let run = repeated(0, fitting(11 + more, size, acc.len()));
                            proof {
                                assert((acc + run).len() > acc.len());
                            }
                            lengths_outcome(
                                tree,
                                data,
                                at + 7,
                                size,
                                acc + run,
                                Some(0u8),
                            )
                        },
                    }
                } else {
                    (Err(GzipError::InternalError), pos)
                }
            },
        }
    }
}

/// A run of code lengths that was decoded holds exactly `size` lengths.
pub proof fn lemma_lengths_outcome_len(
    tree: HuffmanNode,
    data: Seq<u8>,
    pos: nat,
    size: nat,
    acc: Seq<u8>,
    previous: Option<u8>,
)
    requires
        acc.len() <= size,
        lengths_outcome(tree, data, pos, size, acc, previous).0 is Ok,
    ensures
        lengths_outcome(tree, data, pos, size, acc, previous).0->Ok_0.len() == size,
    decreases size - acc.len(),
{
    if acc.len() < size {
        let (code, at) = walk(tree, data, pos);
        let symbol = code->Ok_0;
        if symbol <= 15 {
            lemma_lengths_outcome_len(
                tree,
                data,
                at,
                size,
                acc.push(symbol as u8),
                Some(symbol as u8),
            );
        } else if symbol == 16 {
            let more = read_lsb(data, at, 2)->Ok_0;
            let value = previous->0;
            lemma_lengths_outcome_len(
                tree,
                data,
                at + 2,
                size,
                acc + repeated(value, fitting(3 + more, size, acc.len())),
                previous,
            );
        } else if symbol == 17 {
            let more = read_lsb(data, at, 3)->Ok_0;
            lemma_lengths_outcome_len(
                tree,
                data,
                at + 3,
                size,
                acc + repeated(0, fitting(3 + more, size, acc.len())),
                Some(0u8),
            );
        } else if symbol == 18 {
            let more = read_lsb(data, at, 7)->Ok_0;
            lemma_lengths_outcome_len(
                tree,
                data,
                at + 7,
                size,
                acc + repeated(0, fitting(11 + more, size, acc.len())),
                Some(0u8),
            );
        }
    }
}

/// A decoder of the data of a dynamic block: the trie of its literal/length
/// codes and the trie of its distance codes.
pub struct BlockDynamic {
    pub literals: Huffman,
    pub distances: Huffman,
}

/// The decoder of dynamic blocks: it reads a block's code tables, builds
/// the block's `BlockDynamic` from them and lets it decode the data.
pub struct BlockDynamicBuilder {}

/// A dynamic block read from bit `pos`, with `out` produced before.
///
/// The block opens with three counts: of literal/length codes (257 and up,
/// five bits), of distance codes (1 and up, five bits) and of code-length
/// codes (4 and up, four bits). The lengths of the code-length codes
/// follow, then, written in that code, the lengths of the literal/length
/// codes and of the distance codes as one run of exactly as many lengths
/// as the two counts say, which is cut after the literal/length codes. A
/// table from which no trie can be built is an `InternalError`. A
/// literal/length code of one symbol only reads no bits: where that symbol
/// ends the block the block is empty, and where it does not the block
/// could never end, which is an `InvalidDeflateStream`.
pub open spec fn dynamic_outcome(data: Seq<u8>, pos: nat, out: Seq<u8>) -> Outcome {
    let hlit = 257 + lsb_value(data, pos as int, 5);
    let hdist = 1 + lsb_value(data, (pos + 5) as int, 5);
    let hclen = 4 + lsb_value(data, (pos + 10) as int, 4);
    let tables = pos + 14 + 3 * hclen;
    if tables > bit_len(data) {
        Outcome { result: Err(GzipError::TruncatedFile), pos, out }
    } else {
        match huffman_of(code_length_table(data, pos + 14, hclen)) {
            None => Outcome { result: Err(GzipError::InternalError), pos, out },
            Some(code_tree) => {
                let (run, at) = lengths_outcome(
                    code_tree,
                    data,
                    tables,
                    hlit + hdist,
                    Seq::empty(),
                    None,
                );
                match run {
                    Err(e) => Outcome { result: Err(e), pos, out },
                    Ok(lengths) => match (
                        huffman_of(lengths.subrange(hlit as int, (hlit + hdist) as int)),
                        huffman_of(lengths.subrange(0, hlit as int)),
                    ) {
                        (Some(distances), Some(literals)) => match literals {
                            HuffmanNode::Code(symbol) => if symbol == END_OF_BLOCK {
                                Outcome { result: Ok(()), pos: at, out }
                            } else {
                                Outcome { result: Err(GzipError::InvalidDeflateStream), pos, out }
                            },
                            HuffmanNode::Node { .. } => window_outcome(
                                BlockDynamic { literals, distances },
                                data,
                                at,
                                out,
                            ),
                        },
                        _ => Outcome { result: Err(GzipError::InternalError), pos, out },
                    },
                }
            },
        }
    }
}

/// A dynamic block adds to the output and takes nothing back: the output
/// before it is a start of the output after it.
pub proof fn lemma_dynamic_outcome_extends(data: Seq<u8>, pos: nat, out: Seq<u8>)
    ensures
        out.is_prefix_of(dynamic_outcome(data, pos, out).out),
{
    lemma_prefix_reflexive(out);
    let hlit = 257 + lsb_value(data, pos as int, 5);
    let hdist = 1 + lsb_value(data, (pos + 5) as int, 5);
    let hclen = 4 + lsb_value(data, (pos + 10) as int, 4);
    let tables = pos + 14 + 3 * hclen;
    if tables <= bit_len(data) {
        match huffman_of(code_length_table(data, pos + 14, hclen)) {
            None => {},
            Some(code_tree) => {
                let (run, at) = lengths_outcome(
                    code_tree,
                    data,
                    tables,
                    hlit + hdist,
                    Seq::empty(),
                    None,
                );
                match run {
                    Err(e) => {},
                    Ok(lengths) => match (
                        huffman_of(lengths.subrange(hlit as int, (hlit + hdist) as int)),
                        huffman_of(lengths.subrange(0, hlit as int)),
                    ) {
                        (Some(distances), Some(literals)) => {
                            lemma_window_outcome_extends(
                                BlockDynamic { literals, distances },
                                data,
                                at,
                                out,
                            );
                        },
                        _ => {},
                    },
                }
            },
        }
    }
}

/// A walk stays inside the stream, and through an inner node it consumes at
/// least one bit.
pub proof fn lemma_walk_advances(tree: HuffmanNode, data: Seq<u8>, pos: nat)
    requires
        pos <= bit_len(data),
    ensures
        pos <= walk(tree, data, pos).1 <= bit_len(data),
        tree is Node && walk(tree, data, pos).0 is Ok ==> pos < walk(tree, data, pos).1,
    decreases tree,
{
    match tree {
        HuffmanNode::Code(_) => {},
        HuffmanNode::Node { zero, one } => {
            if pos < bit_len(data) {
                lemma_walk_advances(*zero, data, pos + 1);
                lemma_walk_advances(*one, data, pos + 1);
            }
        },
    }
}

impl BlockWindow for BlockDynamic {
    open spec fn inv(&self) -> bool {
        self.literals is Node
    }

    open spec fn literal_at(&self, data: Seq<u8>, pos: nat) -> (GzipResult<u32>, nat) {
        walk(self.literals, data, pos)
    }

    open spec fn distance_at(&self, data: Seq<u8>, pos: nat) -> (GzipResult<u32>, nat) {
        walk(self.distances, data, pos)
    }

    proof fn lemma_literal_advances(&self, data: Seq<u8>, pos: nat) {
        lemma_walk_advances(self.literals, data, pos);
    }

    proof fn lemma_distance_advances(&self, data: Seq<u8>, pos: nat) {
        lemma_walk_advances(self.distances, data, pos);
    }
}

impl WindowDecoder for BlockDynamic {
    fn get_literal<T: BitSource>(&self, input: &mut T) -> (r: GzipResult<u32>) {
        Huffman::get_code(&self.literals, input)
    }

    fn get_distance<T: BitSource>(&self, input: &mut T) -> (r: GzipResult<u32>) {
        Huffman::get_code(&self.distances, input)
    }
}

impl BlockDynamic {
    /// The decoder of dynamic blocks.
    pub fn new() -> (r: BlockDynamicBuilder) {
        BlockDynamicBuilder {  }
    }
}

impl BlockDynamicBuilder {
    /// Decodes one dynamic block from where the input stands, appending
    /// what it produces to the output.
    ///
    /// The result is that of the model unless the output refuses a write, which
    /// is a `CantWriteFile`; and it is that of the model, with the output that
    /// the model gives, where the output accepts every write, where the call
    /// succeeds, and where the model writes nothing.
    pub fn decode<T: BitSource, U: OutputBuffer>(&self, input: &mut T, output: &mut U) -> (r:
        GzipResult<()>)
        requires
            old(input).inv(),
            old(output).inv(),
        ensures
            final(input).inv(),
            final(input).data() == old(input).data(),
            final(output).infallible() == old(output).infallible(),
            final(output).base() == old(output).base(),
            old(output).sunk().is_prefix_of(final(output).sunk()),
            final(output).sunk().is_prefix_of(
                final(output).base() + dynamic_outcome(
                    old(input).data(),
                    old(input).bit_pos(),
                    old(output)@,
                ).out,
            ),
            r is Ok ==> old(input).bit_pos() <= final(input).bit_pos(),
            ({
                let expected = dynamic_outcome(
                    old(input).data(),
                    old(input).bit_pos(),
                    old(output)@,
                );
                &&& r == expected.result || r == Err::<(), GzipError>(GzipError::CantWriteFile)
                &&& old(output).infallible() || r is Ok || expected.out == old(output)@ ==> {
                    &&& r == expected.result
                    &&& final(output).inv()
                    &&& final(output)@ == expected.out
                    &&& r is Ok ==> final(input).bit_pos() == expected.pos
                }
            }),
    {
        let ghost data = input.data();
        let ghost pos = input.bit_pos();
        proof {
            lemma_prefix_reflexive(output.sunk());
            output.lemma_sunk();
            lemma_dynamic_outcome_extends(data, pos, output@);
            lemma_sunk_within(
                output.sunk(),
                output.base(),
                output@,
                dynamic_outcome(data, pos, output@).out,
            );
            input.lemma_in_bounds();
            vstd::arithmetic::power2::lemma2_to64();
            lemma_lsb_value_bound(data, pos as int, 5);
            lemma_lsb_value_bound(data, (pos + 5) as int, 5);
            lemma_lsb_value_bound(data, (pos + 10) as int, 4);
        }
        let hlit = 257 + match input.get_bits_rev(5) {
            Ok(v) => v,
            Err(e) => {
                return Err(e);
            },
        } as usize;
        let hdist = 1 + match input.get_bits_rev(5) {
            Ok(v) => v,
            Err(e) => {
                return Err(e);
            },
        } as usize;
        let hclen = 4 + match input.get_bits_rev(4) {
            Ok(v) => v,
            Err(e) => {
                return Err(e);
            },
        } as usize;
        let mut code_lengths: Vec<u8> = vec![0u8; 19];
        assert(code_lengths@ == code_length_table(data, pos + 14, 0));
        let mut i: usize = 0;
        while i < hclen
            invariant
                i <= hclen <= 19,
                input.inv(),
                input.data() == data,
                data == old(input).data(),
                pos == old(input).bit_pos(),
                hclen == 4 + lsb_value(data, (pos + 10) as int, 4),
                output.inv(),
                output@ == old(output)@,
                output.sunk() == old(output).sunk(),
                output.base() == old(output).base(),
                output.sunk().is_prefix_of(
                    output.base() + dynamic_outcome(data, pos, old(output)@).out,
                ),
                output.infallible() == old(output).infallible(),
                pos + 14 + 3 * i <= bit_len(data),
                input.bit_pos() == pos + 14 + 3 * i,
                code_lengths@ == code_length_table(data, pos + 14, i as nat),
                code_lengths.len() == 19,
            decreases hclen - i,
        {
            proof {
                vstd::arithmetic::power2::lemma2_to64();
                lemma_lsb_value_bound(data, (pos + 14 + 3 * i) as int, 3);
            }
            let length = match input.get_bits_rev(3) {
                Ok(v) => v,
                Err(e) => {
                    return Err(e);
                },
            };
            code_lengths.set(CODE_LENGTHS_UNSHUFFLE[i], length as u8);
            i = i + 1;
        }
        let code_huffman = match Huffman::build(code_lengths) {
            Ok(t) => t,
            Err(e) => {
                return Err(e);
            },
        };
        let mut huff_lengths = match self.decode_lengths(&code_huffman, hlit + hdist, input) {
            Ok(v) => v,
            Err(e) => {
                return Err(e);
            },
        };
        let distances = match Huffman::build(huff_lengths.split_off(hlit)) {
            Ok(t) => t,
            Err(e) => {
                return Err(e);
            },
        };
        let literals = match Huffman::build(huff_lengths) {
            Ok(t) => t,
            Err(e) => {
                return Err(e);
            },
        };
        if let HuffmanNode::Code(symbol) = literals {
            if symbol as u32 == END_OF_BLOCK {
                return Ok(());
            } else {
                return Err(GzipError::InvalidDeflateStream);
            }
        }
        let decoder = BlockDynamic { literals, distances };
        decoder.window_decode(input, output)
    }

    /// Decodes the run of code lengths of a block's two tables, written in
    /// the code of `code_huffman`, until there are `size` of them. A repeat
    /// that would go beyond them is cut.
    pub fn decode_lengths<T: BitSource>(
        &self,
        code_huffman: &Huffman,
        size: usize,
        input: &mut T,
    ) -> (r: GzipResult<Vec<u8>>)
        requires
            old(input).inv(),
        ensures
            final(input).inv(),
            final(input).data() == old(input).data(),
            bit_len(old(input).data()) >= final(input).bit_pos() >= old(input).bit_pos(),
            match r {
                Ok(lengths) => {
                    &&& lengths_outcome(
                        *code_huffman,
                        old(input).data(),
                        old(input).bit_pos(),
                        size as nat,
                        Seq::empty(),
                        None,
                    ) == (Ok::<Seq<u8>, GzipError>(lengths@), final(input).bit_pos())
                    &&& lengths@.len() == size
                },
                Err(e) => lengths_outcome(
                    *code_huffman,
                    old(input).data(),
                    old(input).bit_pos(),
                    size as nat,
                    Seq::empty(),
                    None,
                ).0 == Err::<Seq<u8>, GzipError>(e),
            },
    {
        let ghost data = input.data();
        let ghost expected = lengths_outcome(
            *code_huffman,
            data,
            input.bit_pos(),
            size as nat,
            Seq::empty(),
            None,
        );
        let mut huff_lengths: Vec<u8> = Vec::new();
        let mut previous: Option<u8> = None;
        proof {
            input.lemma_in_bounds();
        }
        while huff_lengths.len() < size
            invariant
                input.inv(),
                input.data() == data,
                data == old(input).data(),
                huff_lengths.len() <= size,
                old(input).bit_pos() <= input.bit_pos() <= bit_len(data),
                lengths_outcome(
                    *code_huffman,
                    data,
                    input.bit_pos(),
                    size as nat,
                    huff_lengths@,
                    previous,
                ).0 == expected.0,
                expected.0 is Ok ==> lengths_outcome(
                    *code_huffman,
                    data,
                    input.bit_pos(),
                    size as nat,
                    huff_lengths@,
                    previous,
                ).1 == expected.1,
                expected == lengths_outcome(
                    *code_huffman,
                    old(input).data(),
                    old(input).bit_pos(),
                    size as nat,
                    Seq::empty(),
                    None,
                ),
            decreases size - huff_lengths.len(),
        {
            let ghost at = walk(*code_huffman, data, input.bit_pos()).1;
            proof {
                lemma_walk_advances(*code_huffman, data, input.bit_pos());
                vstd::arithmetic::power2::lemma2_to64();
                lemma_lsb_value_bound(data, at as int, 2);
                lemma_lsb_value_bound(data, at as int, 3);
                lemma_lsb_value_bound(data, at as int, 7);
            }
            let code = match Huffman::get_code(code_huffman, input) {
                Ok(c) => c,
                Err(e) => {
                    return Err(e);
                },
            };
            if code <= 15 {
                huff_lengths.push(code as u8);
                previous = Some(code as u8);
            } else if code == 16 {
                let repeat = 3 + match input.get_bits_rev(2) {
                    Ok(v) => v,
                    Err(e) => {
                        return Err(e);
                    },
                } as usize;
                let value = match previous {
                    Some(v) => v,
                    None => {
                        return Err(GzipError::InvalidDeflateStream);
                    },
                };
                let room = size - huff_lengths.len();
                let count = if repeat > room {
                    room
                } else {
                    repeat
                };
                let mut run: Vec<u8> = vec![value; count];
                assert(run@ =~= repeated(value, count as nat));
                huff_lengths.append(&mut run);
            } else if code == 17 {
                let repeat = 3 + match input.get_bits_rev(3) {
                    Ok(v) => v,
                    Err(e) => {
                        return Err(e);
                    },
                } as usize;
                let room = size - huff_lengths.len();
                let count = if repeat > room {
                    room
                } else {
                    repeat
                };
                let mut run: Vec<u8> = vec![0u8; count];
                assert(run@ =~= repeated(0, count as nat));
                huff_lengths.append(&mut run);
                previous = Some(0);
            } else if code == 18 {
                let repeat = 11 + match input.get_bits_rev(7) {
                    Ok(v) => v,
                    Err(e) => {
                        return Err(e);
                    },
                } as usize;
                let room = size - huff_lengths.len();
                let count = if repeat > room {
                    room
                } else {
                    repeat
                };
                let mut run: Vec<u8> = vec![0u8; count];
                assert(run@ =~= repeated(0, count as nat));
                huff_lengths.append(&mut run);
                previous = Some(0);
            } else {
                return Err(GzipError::InternalError);
            }
        }
        Ok(huff_lengths)
    }
}

} // verus!
