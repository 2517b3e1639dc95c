//! What a compressor writes as the tables of a dynamic block is read back
//! as those tables, and the whole block decodes to what was written.

use vstd::prelude::*;
use crate::errors::GzipError;
use crate::sources::bitstream::{bit_len, lsb_value, read_lsb, lemma_lsb_value_bound};
use crate::blocks::huffman::huffman_of;
use crate::blocks::complete::{
    lemma_complete_table_has_trie, lemma_complete_trie_branches, lemma_decodes_complete_code,
};
use crate::blocks::dynamic::{
    CODE_LENGTHS_UNSHUFFLE, code_length_table, dynamic_outcome, lengths_outcome, repeated,
};
use crate::blocks::window::{Outcome, expandable, expanded};
use crate::blocks::roundtrip::{
    Coded, decoder_of, full_table, serves, tokens_of, writes_code, writes_coded,
    lemma_dynamic_data_round_trip,
};

verus! {

/// One item of the run of code lengths as a compressor writes it: a length,
/// a number of repeats of the length before, or a number of zeros.
pub enum Run {
    Length(u8),
    Repeat(u8),
    Zeros(u8),
    ManyZeros(u8),
}

/// The item can be written: a length is up to 15, a repeat counts 3 to 6,
/// and zeros come 3 to 10 or 11 to 138 at a time.
pub open spec fn well_run(item: Run) -> bool {
    match item {
        Run::Length(len) => len <= 15,
        Run::Repeat(count) => 3 <= count <= 6,
        Run::Zeros(count) => 3 <= count <= 10,
        Run::ManyZeros(count) => 11 <= count <= 138,
    }
}

/// The code lengths that the items of a run stand for, behind `acc`, with
/// `previous` the length that a repeat would repeat. A repeat without a
/// length before it stands for nothing.
pub open spec fn run_lengths(items: Seq<Run>, acc: Seq<u8>, previous: Option<u8>) -> Option<
    Seq<u8>,
>
    decreases items.len(),
{
    if items.len() == 0 {
        Some(acc)
    } else {
        match items[0] {
            Run::Length(len) => run_lengths(items.skip(1), acc.push(len), Some(len)),
            Run::Repeat(count) => match previous {
                None => None,
                Some(value) => run_lengths(
                    items.skip(1),
                    acc + repeated(value, count as nat),
                    previous,
                ),
            },
            Run::Zeros(count) => run_lengths(
                items.skip(1),
                acc + repeated(0, count as nat),
                Some(0u8),
            ),
            Run::ManyZeros(count) => run_lengths(
                items.skip(1),
                acc + repeated(0, count as nat),
                Some(0u8),
            ),
        }
    }
}

/// The stream carries, from bit `pos` to bit `end`, the items of a run of
/// code lengths in the canonical code of the table `code`, each with its
/// extra bits behind it; and the run brings the `count` lengths before it
/// to `size` lengths exactly: no item goes beyond them.
pub open spec fn writes_run(
    code: Seq<u8>,
    data: Seq<u8>,
    pos: nat,
    items: Seq<Run>,
    end: nat,
    size: nat,
    count: nat,
) -> bool
    decreases items.len(),
{
    if items.len() == 0 {
        end == pos && count == size
    } else {
        &&& count < size
        &&& well_run(items[0])
        &&& match items[0] {
            Run::Length(len) => writes_code(code, data, pos, len as int) && writes_run(
                code,
                data,
                pos + code[len as int] as nat,
                items.skip(1),
                end,
                size,
                count + 1,
            ),
            Run::Repeat(more) => {
                &&& writes_code(code, data, pos, 16)
                &&& count + more <= size
                &&& read_lsb(data, pos + code[16] as nat, 2) == Ok::<nat, GzipError>(
                    (more - 3) as nat,
                )
                &&& writes_run(
                    code,
                    data,
                    pos + code[16] as nat + 2,
                    items.skip(1),
                    end,
                    size,
                    count + more as nat,
                )
            },
            Run::Zeros(more) => {
                &&& writes_code(code, data, pos, 17)
                &&& count + more <= size
                &&& read_lsb(data, pos + code[17] as nat, 3) == Ok::<nat, GzipError>(
                    (more - 3) as nat,
                )
                &&& writes_run(
                    code,
                    data,
                    pos + code[17] as nat + 3,
                    items.skip(1),
                    end,
                    size,
                    count + more as nat,
                )
            },
            Run::ManyZeros(more) => {
                &&& writes_code(code, data, pos, 18)
                &&& count + more <= size
                &&& read_lsb(data, pos + code[18] as nat, 7) == Ok::<nat, GzipError>(
                    (more - 11) as nat,
                )
                &&& writes_run(
                    code,
                    data,
                    pos + code[18] as nat + 7,
                    items.skip(1),
                    end,
                    size,
                    count + more as nat,
                )
            },
        }
    }
}

/// A run of code lengths that a compressor wrote is read back as the
/// lengths that its items stand for.
pub proof fn lemma_run_round_trip(
    code: Seq<u8>,
    data: Seq<u8>,
    pos: nat,
    items: Seq<Run>,
    end: nat,
    size: nat,
    acc: Seq<u8>,
    previous: Option<u8>,
)
    requires
        full_table(code),
        code.len() == 19,
        writes_run(code, data, pos, items, end, size, acc.len()),
        run_lengths(items, acc, previous) is Some,
    ensures
        lengths_outcome(huffman_of(code)->0, data, pos, size, acc, previous) == (
            Ok::<Seq<u8>, GzipError>(run_lengths(items, acc, previous)->0),
            end,
        ),
    decreases items.len(),
{
    lemma_complete_table_has_trie(code);
    if items.len() > 0 {
        let rest = items.skip(1);
        match items[0] {
            Run::Length(len) => {
                lemma_decodes_complete_code(code, len as int, data, pos);
                lemma_run_round_trip(
                    code,
                    data,
                    pos + code[len as int] as nat,
                    rest,
                    end,
                    size,
                    acc.push(len),
                    Some(len),
                );
            },
            Run::Repeat(more) => {
                lemma_decodes_complete_code(code, 16, data, pos);
                let value = previous->0;
                lemma_run_round_trip(
                    code,
                    data,
                    pos + code[16] as nat + 2,
                    rest,
                    end,
                    size,
                    acc + repeated(value, more as nat),
                    previous,
                );
            },
            Run::Zeros(more) => {
                lemma_decodes_complete_code(code, 17, data, pos);
                lemma_run_round_trip(
                    code,
                    data,
                    pos + code[17] as nat + 3,
                    rest,
                    end,
                    size,
                    acc + repeated(0, more as nat),
                    Some(0u8),
                );
            },
            Run::ManyZeros(more) => {
                lemma_decodes_complete_code(code, 18, data, pos);
                lemma_run_round_trip(
                    code,
                    data,
                    pos + code[18] as nat + 7,
                    rest,
                    end,
                    size,
                    acc + repeated(0, more as nat),
                    Some(0u8),
                );
            },
        }
    }
}

/// Where in the order in which they are sent the length of each code-length
/// code stands: the inverse of `CODE_LENGTHS_UNSHUFFLE`.
pub const CODE_LENGTHS_SHUFFLE: [usize; 19] = [
    3, 17, 15, 13, 11, 9, 7, 5, 4, 6, 8, 10, 12, 14, 16, 18, 0, 1, 2,
];

/// The stream carries, from bit `pos` to bit `end`, the tables of a dynamic
/// block: the three counts, the lengths `code` of the code-length codes, of
/// which the first `sent` in sending order are written and the others are
/// zero, and in that code the lengths of `literals` and `distances` as the
/// run `items`.
pub open spec fn writes_tables(
    data: Seq<u8>,
    pos: nat,
    literals: Seq<u8>,
    distances: Seq<u8>,
    code: Seq<u8>,
    sent: nat,
    items: Seq<Run>,
    end: nat,
) -> bool {
    &&& 257 <= literals.len() <= 288
    &&& 1 <= distances.len() <= 32
    &&& 4 <= sent <= 19
    &&& code.len() == 19
    &&& pos + 14 + 3 * sent <= bit_len(data)
    &&& lsb_value(data, pos as int, 5) == literals.len() - 257
    &&& lsb_value(data, (pos + 5) as int, 5) == distances.len() - 1
    &&& lsb_value(data, (pos + 10) as int, 4) == sent - 4
    &&& forall|symbol: int|
        0 <= symbol < 19 ==> #[trigger] code[symbol] == if CODE_LENGTHS_SHUFFLE[symbol] < sent {
            lsb_value(data, pos + 14 + 3 * CODE_LENGTHS_SHUFFLE[symbol], 3)
        } else {
            0
        }
    &&& writes_run(
        code,
        data,
        pos + 14 + 3 * sent,
        items,
        end,
        literals.len() + distances.len(),
        0,
    )
    &&& run_lengths(items, Seq::empty(), None) == Some(literals + distances)
}

/// The table of the code-length codes that is read back holds, for each
/// symbol, the three bits written for it, or zero where none were.
proof fn lemma_code_length_table(data: Seq<u8>, pos: nat, count: nat, symbol: int)
    requires
        count <= 19,
        0 <= symbol < 19,
    ensures
        code_length_table(data, pos, count).len() == 19,
        code_length_table(data, pos, count)[symbol] == if CODE_LENGTHS_SHUFFLE[symbol] < count {
            lsb_value(data, pos + 3 * CODE_LENGTHS_SHUFFLE[symbol], 3)
        } else {
            0
        },
    decreases count,
{
    if count > 0 {
        lemma_code_length_table(data, pos, (count - 1) as nat, symbol);
        lemma_lsb_value_bound(data, pos + 3 * (count - 1), 3);
        vstd::arithmetic::power2::lemma2_to64();
        assert(CODE_LENGTHS_UNSHUFFLE[CODE_LENGTHS_SHUFFLE[symbol] as int] == symbol);
        assert(CODE_LENGTHS_SHUFFLE[CODE_LENGTHS_UNSHUFFLE[count - 1] as int] == count - 1);
    }
}

/// What a compressor wrote as a dynamic block comes out of it. Where the
/// stream carries the tables of the block and then, in the canonical codes
/// of these tables, coded tokens and the end of the block, where the tables
/// are full and each back-reference can be resolved, the block decodes to
/// what the tokens stand for, appended to the output. The table of the
/// distance codes need not be full where the block has no back-reference.
pub proof fn lemma_dynamic_block_round_trip(
    data: Seq<u8>,
    pos: nat,
    literals: Seq<u8>,
    distances: Seq<u8>,
    code: Seq<u8>,
    sent: nat,
    items: Seq<Run>,
    middle: nat,
    coded: Seq<Coded>,
    end: nat,
    out: Seq<u8>,
)
    requires
        full_table(code),
        full_table(literals),
        serves(distances, coded),
        writes_tables(data, pos, literals, distances, code, sent, items, middle),
        middle <= bit_len(data),
        writes_coded(literals, distances, data, middle, coded, end),
        expandable(out, tokens_of(coded)),
    ensures
        dynamic_outcome(data, pos, out) == (Outcome {
            result: Ok(()),
            pos: end,
            out: expanded(out, tokens_of(coded)),
        }),
{
    let hlit = literals.len();
    let hdist = distances.len();
    let tables = pos + 14 + 3 * sent;
    let table = code_length_table(data, pos + 14, sent);
    assert(table =~= code) by {
        assert forall|symbol: int| 0 <= symbol < 19 implies table[symbol] == code[symbol] by {
            lemma_code_length_table(data, pos + 14, sent, symbol);
        }
        lemma_code_length_table(data, pos + 14, sent, 0);
    }
    lemma_complete_table_has_trie(code);
    lemma_run_round_trip(code, data, tables, items, middle, hlit + hdist, Seq::empty(), None);
    let lengths = literals + distances;
    assert(lengths.subrange(hlit as int, lengths.len() as int) =~= distances);
    assert(lengths.subrange(0, hlit as int) =~= literals);
    lemma_complete_table_has_trie(literals);
    lemma_complete_trie_branches(literals);
    lemma_dynamic_data_round_trip(literals, distances, data, middle, coded, end, out);
    assert(decoder_of(literals, distances).literals is Node);
}

} // verus!
