//! What a compressor writes into a compressed block comes out of it: the
//! data of a block whose symbols are written in the codes of the block, with
//! their extra bits behind them, decodes to what was written.

use vstd::prelude::*;
use vstd::arithmetic::power2::pow2;
use crate::errors::GzipError;
use crate::sources::bitstream::{bit_at, bit_len, read_lsb, read_msb};
use crate::blocks::huffman::{MAX_BITS, MAX_SYMBOLS, code_of, huffman_of};
use crate::blocks::canonical::code_bit;
use crate::blocks::complete::{
    complete, lemma_complete_table_has_trie, lemma_complete_trie_branches,
    lemma_decodes_complete_code,
};
use crate::blocks::dynamic::BlockDynamic;
use crate::blocks::fixed::{BlockFixed, fixed_length, fixed_lengths, lemma_fixed_is_canonical};
use crate::blocks::window::{
    BlockWindow, Outcome, Token, DISTANCE_EXTRA, DISTANCE_START, END_OF_BLOCK, LENGTH_EXTRA,
    LENGTH_START, carries_tokens, expandable, expanded, length_distance, window_outcome,
    lemma_distance_tables, lemma_length_tables, lemma_tokens_round_trip,
};

verus! {

/// A token as a compressor writes it: a literal byte, or a back-reference
/// by its length symbol (counted from symbol 257), its distance symbol and
/// the extra bits of both.
pub enum Coded {
    Literal(u8),
    Copy { length_index: u8, length_more: u32, distance_symbol: u8, distance_more: u32 },
}

/// The symbols of a coded token exist and its extra bits fit; length 258 is
/// written with the last length symbol, which is its own.
pub open spec fn well_coded(coded: Coded) -> bool {
    match coded {
        Coded::Literal(_) => true,
        Coded::Copy { length_index, length_more, distance_symbol, distance_more } => {
            &&& length_index < 29
            &&& length_more < pow2(LENGTH_EXTRA[length_index as int] as nat)
            &&& length_index < 28 ==> LENGTH_START[length_index as int] + length_more < 258
            &&& distance_symbol < 30
            &&& distance_more < pow2(DISTANCE_EXTRA[distance_symbol as int] as nat)
        },
    }
}

/// The token that a coded token stands for.
pub open spec fn token_of(coded: Coded) -> Token {
    match coded {
        Coded::Literal(byte) => Token::Literal(byte),
        Coded::Copy { length_index, length_more, distance_symbol, distance_more } => Token::Copy {
            length: (LENGTH_START[length_index as int] + length_more) as u32,
            distance: (DISTANCE_START[distance_symbol as int] + distance_more) as u32,
        },
    }
}

/// The tokens that coded tokens stand for.
pub open spec fn tokens_of(coded: Seq<Coded>) -> Seq<Token> {
    Seq::new(coded.len(), |i: int| token_of(coded[i]))
}

/// The stream carries at bit `pos` the canonical code of `symbol` in the
/// table `lengths`, its most significant bit first.
pub open spec fn writes_code(lengths: Seq<u8>, data: Seq<u8>, pos: nat, symbol: int) -> bool {
    &&& 0 <= symbol < lengths.len()
    &&& lengths[symbol] > 0
    &&& pos + lengths[symbol] <= bit_len(data)
    &&& forall|j: nat|
        j < lengths[symbol] ==> bit_at(data, (pos + j) as int) == #[trigger] code_bit(
            code_of(lengths, symbol),
            lengths[symbol] as nat,
            j,
        )
}

/// A table that a decoder can be built from and that leaves no stream of
/// bits without a code: its codes fill the code space.
pub open spec fn full_table(lengths: Seq<u8>) -> bool {
    &&& lengths.len() <= MAX_SYMBOLS
    &&& forall|i: int| 0 <= i < lengths.len() ==> lengths[i] <= MAX_BITS
    &&& complete(lengths)
}

/// The stream carries, from bit `pos` to bit `end`, the coded tokens and
/// then the end of the block: each symbol in the canonical code of its
/// table, `literals` or `distances`, and behind the symbols of a
/// back-reference their extra bits, least significant bit first.
pub open spec fn writes_coded(
    literals: Seq<u8>,
    distances: Seq<u8>,
    data: Seq<u8>,
    pos: nat,
    coded: Seq<Coded>,
    end: nat,
) -> bool
    decreases coded.len(),
{
    if coded.len() == 0 {
        writes_code(literals, data, pos, END_OF_BLOCK as int) && end == pos
            + literals[END_OF_BLOCK as int]
    } else {
        match coded[0] {
            Coded::Literal(byte) => writes_code(literals, data, pos, byte as int) && writes_coded(
                literals,
                distances,
                data,
                pos + literals[byte as int] as nat,
                coded.skip(1),
                end,
            ),
            Coded::Copy { length_index, length_more, distance_symbol, distance_more } => {
                let length_bits = LENGTH_EXTRA[length_index as int] as nat;
                let distance_bits = DISTANCE_EXTRA[distance_symbol as int] as nat;
                let behind_symbol = pos + literals[257 + length_index] as nat;
                let behind_length = behind_symbol + length_bits;
                let behind_distance = behind_length + distances[distance_symbol as int] as nat;
                &&& well_coded(coded[0])
                &&& writes_code(literals, data, pos, 257 + length_index)
                &&& read_lsb(data, behind_symbol, length_bits) == Ok::<nat, GzipError>(length_more as nat)
                &&& writes_code(distances, data, behind_length, distance_symbol as int)
                &&& read_lsb(data, behind_distance, distance_bits) == Ok::<nat, GzipError>(
                    distance_more as nat,
                )
                &&& writes_coded(
                    literals,
                    distances,
                    data,
                    behind_distance + distance_bits,
                    coded.skip(1),
                    end,
                )
            },
        }
    }
}

/// There is a back-reference among the coded tokens.
pub open spec fn has_copy(coded: Seq<Coded>) -> bool
    decreases coded.len(),
{
    coded.len() > 0 && (coded[0] is Copy || has_copy(coded.skip(1)))
}

/// The table of the distance codes serves the coded tokens: a decoder can
/// be built from it, and where there is a back-reference among the tokens
/// it is full.
pub open spec fn serves(distances: Seq<u8>, coded: Seq<Coded>) -> bool {
    huffman_of(distances) is Some && (has_copy(coded) ==> full_table(distances))
}

/// The decoder of the data of a dynamic block with the tables `literals`
/// and `distances`.
pub open spec fn decoder_of(literals: Seq<u8>, distances: Seq<u8>) -> BlockDynamic {
    BlockDynamic { literals: huffman_of(literals)->0, distances: huffman_of(distances)->0 }
}

/// A stream that carries coded tokens in the canonical codes of full tables
/// reads, in the tries of those tables, as the tokens they stand for.
pub proof fn lemma_written_is_carried(
    literals: Seq<u8>,
    distances: Seq<u8>,
    data: Seq<u8>,
    pos: nat,
    coded: Seq<Coded>,
    end: nat,
)
    requires
        full_table(literals),
        serves(distances, coded),
        writes_coded(literals, distances, data, pos, coded, end),
    ensures
        carries_tokens(decoder_of(literals, distances), data, pos, tokens_of(coded), end),
    decreases coded.len(),
{
    let block = decoder_of(literals, distances);
    let tokens = tokens_of(coded);
    lemma_complete_table_has_trie(literals);
    if coded.len() == 0 {
        lemma_decodes_complete_code(literals, END_OF_BLOCK as int, data, pos);
    } else {
        assert(tokens.skip(1) =~= tokens_of(coded.skip(1)));
        match coded[0] {
            Coded::Literal(byte) => {
                lemma_decodes_complete_code(literals, byte as int, data, pos);
                lemma_written_is_carried(
                    literals,
                    distances,
                    data,
                    pos + literals[byte as int] as nat,
                    coded.skip(1),
                    end,
                );
            },
            Coded::Copy { length_index, length_more, distance_symbol, distance_more } => {
                let length_bits = LENGTH_EXTRA[length_index as int] as nat;
                let distance_bits = DISTANCE_EXTRA[distance_symbol as int] as nat;
                let behind_symbol = pos + literals[257 + length_index] as nat;
                let behind_length = behind_symbol + length_bits;
                let behind_distance = behind_length + distances[distance_symbol as int] as nat;
                lemma_decodes_complete_code(literals, 257 + length_index, data, pos);
                lemma_decodes_complete_code(distances, distance_symbol as int, data, behind_length);
                lemma_length_tables(length_index as int);
                lemma_distance_tables(distance_symbol as int);
                let symbol = (257 + length_index) as u32;
                assert(length_distance(block, data, behind_symbol, symbol) == (
                    Ok::<(u32, u32), GzipError>(
                        (
                            (LENGTH_START[length_index as int] + length_more) as u32,
                            (DISTANCE_START[distance_symbol as int] + distance_more) as u32,
                        ),
                    ),
                    behind_distance + distance_bits,
                ));
                lemma_written_is_carried(
                    literals,
                    distances,
                    data,
                    behind_distance + distance_bits,
                    coded.skip(1),
                    end,
                );
            },
        }
    }
}

/// What a compressor wrote into a dynamic block comes out of it. Where the
/// stream carries coded tokens and then the end of the block, in the
/// canonical codes of full tables, and each back-reference can be resolved,
/// the decoder built from those tables produces what the tokens stand for,
/// appended to the output, and stops behind the end of the block.
pub proof fn lemma_dynamic_data_round_trip(
    literals: Seq<u8>,
    distances: Seq<u8>,
    data: Seq<u8>,
    pos: nat,
    coded: Seq<Coded>,
    end: nat,
    out: Seq<u8>,
)
    requires
        full_table(literals),
        serves(distances, coded),
        pos <= bit_len(data),
        writes_coded(literals, distances, data, pos, coded, end),
        expandable(out, tokens_of(coded)),
    ensures
        huffman_of(literals) is Some,
        decoder_of(literals, distances).inv(),
        window_outcome(decoder_of(literals, distances), data, pos, out) == (Outcome {
            result: Ok(()),
            pos: end,
            out: expanded(out, tokens_of(coded)),
        }),
{
    lemma_complete_table_has_trie(literals);
    lemma_complete_trie_branches(literals);
    lemma_written_is_carried(literals, distances, data, pos, coded, end);
    lemma_tokens_round_trip(
        decoder_of(literals, distances),
        data,
        pos,
        tokens_of(coded),
        end,
        out,
    );
}

/// The stream carries at bit `pos` the fixed code of literal/length symbol
/// `symbol`, its most significant bit first.
pub open spec fn writes_fixed_code(data: Seq<u8>, pos: nat, symbol: int) -> bool {
    &&& 0 <= symbol < 288
    &&& read_msb(data, pos, fixed_length(symbol) as nat) == Ok::<nat, GzipError>(
        code_of(fixed_lengths(), symbol),
    )
}

/// The stream carries, from bit `pos` to bit `end`, the coded tokens and
/// then the end of the block, as a fixed block holds them: each
/// literal/length symbol in the fixed code, each distance symbol as five
/// bits from the most significant, and behind the symbols of a
/// back-reference their extra bits, least significant bit first.
pub open spec fn writes_fixed(data: Seq<u8>, pos: nat, coded: Seq<Coded>, end: nat) -> bool
    decreases coded.len(),
{
    if coded.len() == 0 {
        writes_fixed_code(data, pos, END_OF_BLOCK as int) && end == pos + 7
    } else {
        match coded[0] {
            Coded::Literal(byte) => writes_fixed_code(data, pos, byte as int) && writes_fixed(
                data,
                pos + fixed_length(byte as int) as nat,
                coded.skip(1),
                end,
            ),
            Coded::Copy { length_index, length_more, distance_symbol, distance_more } => {
                let length_bits = LENGTH_EXTRA[length_index as int] as nat;
                let distance_bits = DISTANCE_EXTRA[distance_symbol as int] as nat;
                let behind_symbol = pos + fixed_length(257 + length_index) as nat;
                let behind_length = behind_symbol + length_bits;
                let behind_distance = behind_length + 5;
                &&& well_coded(coded[0])
                &&& writes_fixed_code(data, pos, 257 + length_index)
                &&& read_lsb(data, behind_symbol, length_bits) == Ok::<nat, GzipError>(length_more as nat)
                &&& read_msb(data, behind_length, 5) == Ok::<nat, GzipError>(distance_symbol as nat)
                &&& read_lsb(data, behind_distance, distance_bits) == Ok::<nat, GzipError>(
                    distance_more as nat,
                )
                &&& writes_fixed(data, behind_distance + distance_bits, coded.skip(1), end)
            },
        }
    }
}

/// A stream that carries coded tokens as a fixed block holds them reads, in
/// the fixed codes, as the tokens they stand for.
pub proof fn lemma_fixed_written_is_carried(
    data: Seq<u8>,
    pos: nat,
    coded: Seq<Coded>,
    end: nat,
)
    requires
        writes_fixed(data, pos, coded, end),
    ensures
        carries_tokens(BlockFixed {  }, data, pos, tokens_of(coded), end),
    decreases coded.len(),
{
    let block = BlockFixed {  };
    let tokens = tokens_of(coded);
    if coded.len() == 0 {
        lemma_fixed_is_canonical(END_OF_BLOCK as int, data, pos);
    } else {
        assert(tokens.skip(1) =~= tokens_of(coded.skip(1)));
        match coded[0] {
            Coded::Literal(byte) => {
                lemma_fixed_is_canonical(byte as int, data, pos);
                lemma_fixed_written_is_carried(
                    data,
                    pos + fixed_length(byte as int) as nat,
                    coded.skip(1),
                    end,
                );
            },
            Coded::Copy { length_index, length_more, distance_symbol, distance_more } => {
                let length_bits = LENGTH_EXTRA[length_index as int] as nat;
                let distance_bits = DISTANCE_EXTRA[distance_symbol as int] as nat;
                let behind_symbol = pos + fixed_length(257 + length_index) as nat;
                let behind_length = behind_symbol + length_bits;
                let behind_distance = behind_length + 5;
                lemma_fixed_is_canonical(257 + length_index, data, pos);
                lemma_length_tables(length_index as int);
                lemma_distance_tables(distance_symbol as int);
                let symbol = (257 + length_index) as u32;
                assert(length_distance(block, data, behind_symbol, symbol) == (
                    Ok::<(u32, u32), GzipError>(
                        (
                            (LENGTH_START[length_index as int] + length_more) as u32,
                            (DISTANCE_START[distance_symbol as int] + distance_more) as u32,
                        ),
                    ),
                    behind_distance + distance_bits,
                ));
                lemma_fixed_written_is_carried(data, behind_distance + distance_bits, coded.skip(1), end);
            },
        }
    }
}

/// What a compressor wrote into a fixed block comes out of it. Where the
/// stream carries coded tokens and then the end of the block, as a fixed
/// block holds them, and each back-reference can be resolved, the decoder
/// produces what the tokens stand for, appended to the output, and stops
/// behind the end of the block.
pub proof fn lemma_fixed_data_round_trip(
    data: Seq<u8>,
    pos: nat,
    coded: Seq<Coded>,
    end: nat,
    out: Seq<u8>,
)
    requires
        pos <= bit_len(data),
        writes_fixed(data, pos, coded, end),
        expandable(out, tokens_of(coded)),
    ensures
        window_outcome(BlockFixed {  }, data, pos, out) == (Outcome {
            result: Ok(()),
            pos: end,
            out: expanded(out, tokens_of(coded)),
        }),
{
    lemma_fixed_written_is_carried(data, pos, coded, end);
    lemma_tokens_round_trip(BlockFixed {  }, data, pos, tokens_of(coded), end, out);
}

} // verus!
