//! The round trip: a stream that a compressor wrote by the rules of the
//! format decodes to what the compressor put into it.
//!
//! What a compressor writes is described block by block: a stored block with
//! its payload, or a compressed block with its tokens, each literal byte or
//! back-reference written as the symbols of the block's codes. The law of
//! this module says that the decoder's model of a stream, and so the
//! decoder, turns every such stream back into the bytes that the blocks
//! stand for.

use vstd::prelude::*;
use crate::sources::bitstream::{bit_at, bit_len, byte_index, le_value, lsb_value};
use crate::blocks::stored::lengths_agree;
use crate::blocks::window::{Outcome, expandable, expanded};
use crate::blocks::roundtrip::{
    Coded, full_table, serves, tokens_of, writes_coded, writes_fixed,
    lemma_fixed_data_round_trip,
};
use crate::blocks::tables::{Run, writes_tables, lemma_dynamic_block_round_trip};
use crate::decoder::{block_outcome, deflate_outcome};

verus! {

/// A block as a compressor writes it, with the positions in the stream up
/// to which it wrote.
pub enum Written {
    /// A stored block with its bytes.
    Stored { payload: Seq<u8>, end: nat },
    /// A block of tokens in the fixed codes.
    Fixed { coded: Seq<Coded>, end: nat },
    /// A block of tokens in codes of its own: the tables of the
    /// literal/length codes and of the distance codes, the table of the
    /// code-length codes with the number of its entries that are sent, the
    /// run of lengths that holds the two tables, the position behind the
    /// tables, and the tokens.
    Dynamic {
        literals: Seq<u8>,
        distances: Seq<u8>,
        code: Seq<u8>,
        sent: nat,
        items: Seq<Run>,
        middle: nat,
        coded: Seq<Coded>,
        end: nat,
    },
}

/// The type of a block, as its header says it.
pub open spec fn type_of(block: Written) -> nat {
    match block {
        Written::Stored { .. } => 0,
        Written::Fixed { .. } => 1,
        Written::Dynamic { .. } => 2,
    }
}

/// The position behind a block.
pub open spec fn end_of(block: Written) -> nat {
    match block {
        Written::Stored { payload, end } => end,
        Written::Fixed { coded, end } => end,
        Written::Dynamic { literals, distances, code, sent, items, middle, coded, end } => end,
    }
}

/// The output after a block, with `out` produced before.
pub open spec fn produced_by(out: Seq<u8>, block: Written) -> Seq<u8> {
    match block {
        Written::Stored { payload, end } => out + payload,
        Written::Fixed { coded, end } => expanded(out, tokens_of(coded)),
        Written::Dynamic { literals, distances, code, sent, items, middle, coded, end } => expanded(
            out,
            tokens_of(coded),
        ),
    }
}

/// The stream carries the block behind its header, from bit `pos`, and the
/// block can be resolved against `out`.
///
/// A stored block is written from the next byte boundary: its length in two
/// bytes, the complement of the length in two bytes, and its bytes. A
/// compressed block is written as its tokens; a dynamic block writes its
/// tables before them. The tables of a dynamic block are full: their codes
/// fill the code space. The table of the distance codes of a block without
/// a back-reference need not be, as long as a decoder can be built from
/// it.
pub open spec fn writes_block(data: Seq<u8>, pos: nat, block: Written, out: Seq<u8>) -> bool {
    match block {
        Written::Stored { payload, end } => {
            let first = byte_index(pos) + 4;
            &&& payload.len() <= 65535
            &&& first + payload.len() <= data.len()
            &&& le_value(data, first - 4, 2) == payload.len()
            &&& le_value(data, first - 2, 2) == 65535 - payload.len()
            &&& data.subrange(first as int, (first + payload.len()) as int) == payload
            &&& end == 8 * (first + payload.len())
        },
        Written::Fixed { coded, end } => {
            &&& pos <= bit_len(data)
            &&& writes_fixed(data, pos, coded, end)
            &&& expandable(out, tokens_of(coded))
        },
        Written::Dynamic { literals, distances, code, sent, items, middle, coded, end } => {
            &&& full_table(code)
            &&& full_table(literals)
            &&& serves(distances, coded)
            &&& writes_tables(data, pos, literals, distances, code, sent, items, middle)
            &&& middle <= bit_len(data)
            &&& writes_coded(literals, distances, data, middle, coded, end)
            &&& expandable(out, tokens_of(coded))
        },
    }
}

/// The stream carries the blocks from bit `pos` to bit `end`, one after the
/// other, each behind its header of three bits: a bit that is set for the
/// last block and for no other, and the type of the block in two bits. No
/// block ends beyond the stream or before it starts.
pub open spec fn writes_stream(
    data: Seq<u8>,
    pos: nat,
    blocks: Seq<Written>,
    out: Seq<u8>,
    end: nat,
) -> bool
    decreases blocks.len(),
{
    &&& blocks.len() > 0
    &&& pos + 3 <= bit_len(data)
    &&& bit_at(data, pos as int) == if blocks.len() == 1 {
        1nat
    } else {
        0nat
    }
    &&& lsb_value(data, (pos + 1) as int, 2) == type_of(blocks[0])
    &&& writes_block(data, pos + 3, blocks[0], out)
    &&& pos < end_of(blocks[0]) <= bit_len(data)
    &&& if blocks.len() == 1 {
        end == end_of(blocks[0])
    } else {
        writes_stream(data, end_of(blocks[0]), blocks.skip(1), produced_by(out, blocks[0]), end)
    }
}

/// The output after the blocks, with `out` produced before.
pub open spec fn produced(out: Seq<u8>, blocks: Seq<Written>) -> Seq<u8>
    decreases blocks.len(),
{
    if blocks.len() == 0 {
        out
    } else {
        produced(produced_by(out, blocks[0]), blocks.skip(1))
    }
}

/// What a compressor wrote as a block comes out of it.
pub proof fn lemma_block_round_trip(data: Seq<u8>, pos: nat, block: Written, out: Seq<u8>)
    requires
        writes_block(data, pos, block, out),
    ensures
        block_outcome(type_of(block), data, pos, out) == (Outcome {
            result: Ok(()),
            pos: end_of(block),
            out: produced_by(out, block),
        }),
{
    reveal(block_outcome);
    match block {
        Written::Stored { payload, end } => {
            let len = payload.len();
            let x = len as u16;
            let y = (65535 - len) as u16;
            assert(x ^ y == 65535) by (bit_vector)
                requires
                    y == 65535 - x,
            ;
            assert(lengths_agree(x, y));
        },
        Written::Fixed { coded, end } => {
            lemma_fixed_data_round_trip(data, pos, coded, end, out);
        },
        Written::Dynamic { literals, distances, code, sent, items, middle, coded, end } => {
            lemma_dynamic_block_round_trip(
                data,
                pos,
                literals,
                distances,
                code,
                sent,
                items,
                middle,
                coded,
                end,
                out,
            );
        },
    }
}

/// What a compressor wrote comes out of the decoder: a stream that carries
/// blocks by the rules of the format decodes to what the blocks stand for,
/// appended to the output, and the decoder stops behind the last block.
pub proof fn lemma_stream_round_trip(
    data: Seq<u8>,
    pos: nat,
    blocks: Seq<Written>,
    out: Seq<u8>,
    end: nat,
)
    requires
        writes_stream(data, pos, blocks, out, end),
    ensures
        deflate_outcome(data, pos, out) == (Outcome {
            result: Ok(()),
            pos: end,
            out: produced(out, blocks),
        }),
    decreases blocks.len(),
{
    let block = blocks[0];
    lemma_block_round_trip(data, pos + 3, block, out);
    if blocks.len() == 1 {
        assert(produced(produced_by(out, block), blocks.skip(1)) == produced_by(out, block));
    } else {
        lemma_stream_round_trip(
            data,
            end_of(block),
            blocks.skip(1),
            produced_by(out, block),
            end,
        );
    }
}

/// The stream that holds `payload` as one stored block, marked as the
/// last: the header bits in a byte of their own, the length and its
/// complement, and the payload as it is.
pub open spec fn stored_stream(payload: Seq<u8>) -> Seq<u8> {
    let len = payload.len();
    seq![
        1u8,
        (len % 256) as u8,
        (len / 256) as u8,
        (255 - len % 256) as u8,
        (255 - len / 256) as u8,
    ] + payload
}

/// What was put into a stored block comes out of it: the stream that holds
/// a payload of up to 65535 bytes as one stored block decodes to that
/// payload, appended to the output.
pub proof fn lemma_stored_round_trip(payload: Seq<u8>, out: Seq<u8>)
    requires
        payload.len() <= 65535,
    ensures
        deflate_outcome(stored_stream(payload), 0, out) == (Outcome {
            result: Ok(()),
            pos: 8 * (5 + payload.len()),
            out: out + payload,
        }),
{
    let data = stored_stream(payload);
    let len = payload.len();
    let end = 8 * (5 + len);
    let blocks = seq![Written::Stored { payload, end }];
    assert(data.len() == 5 + len);
    assert(data[0] == 1 && data[1] == (len % 256) as u8 && data[2] == (len / 256) as u8);
    assert(data[3] == (255 - len % 256) as u8 && data[4] == (255 - len / 256) as u8);
    reveal_with_fuel(crate::sources::bitstream::shifted, 3);
    reveal_with_fuel(lsb_value, 3);
    reveal_with_fuel(le_value, 3);
    assert(bit_at(data, 0) == 1);
    assert(bit_at(data, 1) == 0);
    assert(bit_at(data, 2) == 0);
    assert(lsb_value(data, 1, 2) == 0);
    assert(byte_index(3) == 1);
    assert(le_value(data, 1, 2) == len);
    assert(le_value(data, 3, 2) == 65535 - len);
    assert(data.subrange(5, (5 + len) as int) =~= payload);
    assert(writes_block(data, 3, blocks[0], out));
    assert(writes_stream(data, 0, blocks, out, end));
    lemma_stream_round_trip(data, 0, blocks, out, end);
    assert(produced(out, blocks) == out + payload) by {
        assert(produced(produced_by(out, blocks[0]), blocks.skip(1)) == produced_by(
            out,
            blocks[0],
        ));
    }
}

/// The shortest stream there is, one fixed block without a token, decodes
/// to nothing.
pub proof fn lemma_empty_round_trip(out: Seq<u8>)
    ensures
        deflate_outcome(seq![3u8, 0u8], 0, out) == (Outcome { result: Ok(()), pos: 10, out }),
{
    let data = seq![3u8, 0u8];
    let blocks = seq![Written::Fixed { coded: Seq::<Coded>::empty(), end: 10 }];
    reveal_with_fuel(crate::sources::bitstream::shifted, 8);
    reveal_with_fuel(lsb_value, 3);
    reveal_with_fuel(crate::sources::bitstream::msb_value, 8);
    assert(data.len() == 2 && data[0] == 3 && data[1] == 0);
    assert(bit_at(data, 0) == 1);
    assert(bit_at(data, 1) == 1);
    assert(bit_at(data, 2) == 0);
    assert(bit_at(data, 3) == 0);
    assert(bit_at(data, 4) == 0);
    assert(bit_at(data, 5) == 0);
    assert(bit_at(data, 6) == 0);
    assert(bit_at(data, 7) == 0);
    assert(bit_at(data, 8) == 0);
    assert(bit_at(data, 9) == 0);
    assert(crate::sources::bitstream::msb_value(data, 3, 7) == 0);
    crate::blocks::fixed::lemma_fixed_counts(7, 256);
    crate::blocks::fixed::lemma_fixed_counts(1, 288);
    crate::blocks::fixed::lemma_fixed_counts(2, 288);
    crate::blocks::fixed::lemma_fixed_counts(3, 288);
    crate::blocks::fixed::lemma_fixed_counts(4, 288);
    crate::blocks::fixed::lemma_fixed_counts(5, 288);
    crate::blocks::fixed::lemma_fixed_counts(6, 288);
    reveal_with_fuel(crate::blocks::huffman::first_code, 8);
    assert(crate::blocks::huffman::code_of(crate::blocks::fixed::fixed_lengths(), 256) == 0);
    assert(tokens_of(Seq::<Coded>::empty()) =~= Seq::<crate::blocks::window::Token>::empty());
    assert(writes_fixed(data, 3, Seq::<Coded>::empty(), 10));
    assert(writes_block(data, 3, blocks[0], out));
    assert(writes_stream(data, 0, blocks, out, 10));
    lemma_stream_round_trip(data, 0, blocks, out, 10);
    assert(produced(out, blocks) == out) by {
        assert(produced(produced_by(out, blocks[0]), blocks.skip(1)) == produced_by(
            out,
            blocks[0],
        ));
    }
}

} // verus!
