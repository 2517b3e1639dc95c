//! The stream of blocks: the loop that reads each block's header and hands
//! the block to its decoder.

use vstd::prelude::*;
use crate::errors::{GzipError, GzipResult};
use crate::sources::bitstream::{
    bit_at, bit_len, lsb_value, lemma_lsb_value_bound, lemma_bit_at_range,
};
use crate::sources::bitsource::BitSource;
use crate::buffers::outputbuffer::{
    OutputBuffer, lemma_prefix_transitive, lemma_prefix_reflexive, lemma_sunk_within,
};
use crate::blocks::window::{Outcome, window_outcome, lemma_window_outcome_extends};
use crate::blocks::stored::{BlockStored, stored_outcome, lemma_stored_outcome_extends};
use crate::blocks::fixed::BlockFixed;
use crate::blocks::dynamic::{BlockDynamic, dynamic_outcome, lemma_dynamic_outcome_extends};

verus! {

/// The header of a block: whether it is the last one, and how it is coded.
#[derive(Debug, Clone, Copy)]
pub struct BlockHeader {
    pub bfinal: u8,
    pub btype: u8,
}

/// The block whose data starts at bit `pos`, by its type: 0 is stored, 1 is
/// compressed with the fixed codes, 2 with codes of its own. Type 3 is
/// reserved and a `DeflateModeNotSupported`.
#[verifier::opaque]
pub open spec fn block_outcome(btype: nat, data: Seq<u8>, pos: nat, out: Seq<u8>) -> Outcome {
    if btype == 0 {
        stored_outcome(data, pos, out)
    } else if btype == 1 {
        window_outcome(BlockFixed {  }, data, pos, out)
    } else if btype == 2 {
        dynamic_outcome(data, pos, out)
    } else {
        Outcome { result: Err(GzipError::DeflateModeNotSupported), pos, out }
    }
}

/// A stream of blocks read from bit `pos`, with `out` produced before. Each
/// block opens with three bits: one that marks the last block, and two for
/// its type. The stream ends with its last block, whatever follows it.
pub open spec fn deflate_outcome(data: Seq<u8>, pos: nat, out: Seq<u8>) -> Outcome
    decreases bit_len(data) - pos,
{
    if pos + 3 > bit_len(data) {
        Outcome { result: Err(GzipError::TruncatedFile), pos, out }
    } else {
        let bfinal = bit_at(data, pos as int);
        let btype = lsb_value(data, (pos + 1) as int, 2);
        let block = block_outcome(btype, data, pos + 3, out);
        if block.result is Err || bfinal == 1 {
            block
        } else if !(pos < block.pos <= bit_len(data)) {
            Outcome { result: Err(GzipError::InternalError), pos, out: block.out }
        } else {
            deflate_outcome(data, block.pos, block.out)
        }
    }
}

/// A block adds to the output and takes nothing back.
pub proof fn lemma_block_outcome_extends(btype: nat, data: Seq<u8>, pos: nat, out: Seq<u8>)
    ensures
        out.is_prefix_of(block_outcome(btype, data, pos, out).out),
{
    reveal(block_outcome);
    lemma_prefix_reflexive(out);
    if btype == 0 {
        lemma_stored_outcome_extends(data, pos, out, 0);
    } else if btype == 1 {
        lemma_window_outcome_extends(BlockFixed {  }, data, pos, out);
    } else if btype == 2 {
        lemma_dynamic_outcome_extends(data, pos, out);
    }
}

/// A stream of blocks adds to the output and takes nothing back.
pub proof fn lemma_deflate_outcome_extends(data: Seq<u8>, pos: nat, out: Seq<u8>)
    ensures
        out.is_prefix_of(deflate_outcome(data, pos, out).out),
    decreases bit_len(data) - pos,
{
    lemma_prefix_reflexive(out);
    if pos + 3 <= bit_len(data) {
        let bfinal = bit_at(data, pos as int);
        let btype = lsb_value(data, (pos + 1) as int, 2);
        let block = block_outcome(btype, data, pos + 3, out);
        lemma_block_outcome_extends(btype, data, pos + 3, out);
        if block.result is Err || bfinal == 1 {
        } else if !(pos < block.pos <= bit_len(data)) {
        } else {
            lemma_deflate_outcome_extends(data, block.pos, block.out);
            lemma_prefix_transitive(
                out,
                block.out,
                deflate_outcome(data, block.pos, block.out).out,
            );
        }
    }
}

/// Decodes the data of one block of type `btype` from where the input
/// stands, appending what it produces to the output.
///
/// The result is that of the model unless the output refuses a write, which
/// is a `CantWriteFile`; and it is that of the model, with the output that
/// the model gives, where the output accepts every write, where the call
/// succeeds, and where the model writes nothing.
pub fn decode_block<T: BitSource, U: OutputBuffer>(btype: u8, input: &mut T, output: &mut U) -> (r:
    GzipResult<()>)
    requires
        old(input).inv(),
        old(output).inv(),
    ensures
        final(input).inv(),
        final(input).data() == old(input).data(),
        final(output).infallible() == old(output).infallible(),
        final(output).base() == old(output).base(),
        old(output).sunk().is_prefix_of(final(output).sunk()),
        final(output).sunk().is_prefix_of(
            final(output).base() + block_outcome(
                btype as nat,
                old(input).data(),
                old(input).bit_pos(),
                old(output)@,
            ).out,
        ),
        r is Ok ==> old(input).bit_pos() <= final(input).bit_pos(),
        ({
            let expected = block_outcome(
                btype as nat,
                old(input).data(),
                old(input).bit_pos(),
                old(output)@,
            );
            &&& r == expected.result || r == Err::<(), GzipError>(GzipError::CantWriteFile)
            &&& old(output).infallible() || r is Ok || expected.out == old(output)@ ==> {
                &&& r == expected.result
                &&& final(output).inv()
                &&& final(output)@ == expected.out
                &&& r is Ok ==> final(input).bit_pos() == expected.pos
            }
        }),
{
    reveal(block_outcome);
    if btype == 0 {
        BlockStored::new().decode(input, output)
    } else if btype == 1 {
        BlockFixed::new().decode(input, output)
    } else if btype == 2 {
        BlockDynamic::new().decode(input, output)
    } else {
        proof {
            lemma_prefix_reflexive(output.sunk());
            lemma_prefix_reflexive(output@);
            output.lemma_sunk();
        }
        Err(GzipError::DeflateModeNotSupported)
    }
}

/// Decodes a stream of blocks from where the input stands to the end of
/// its last block, appending what it produces to the output.
///
/// The result is that of the model unless the output refuses a write, which
/// is a `CantWriteFile`; and it is that of the model, with the output that
/// the model gives, where the output accepts every write, where the call
/// succeeds, and where the model writes nothing.
pub fn decode_deflate<T: BitSource, U: OutputBuffer>(input: &mut T, output: &mut U) -> (r:
    GzipResult<()>)
    requires
        old(input).inv(),
        old(output).inv(),
    ensures
        final(input).inv(),
        final(input).data() == old(input).data(),
        final(output).infallible() == old(output).infallible(),
        final(output).base() == old(output).base(),
        old(output).sunk().is_prefix_of(final(output).sunk()),
        final(output).sunk().is_prefix_of(
            final(output).base() + deflate_outcome(
                old(input).data(),
                old(input).bit_pos(),
                old(output)@,
            ).out,
        ),
        ({
            let expected = deflate_outcome(old(input).data(), old(input).bit_pos(), old(output)@);
            &&& r == expected.result || r == Err::<(), GzipError>(GzipError::CantWriteFile)
            &&& old(output).infallible() || r is Ok || expected.out == old(output)@ ==> {
                &&& r == expected.result
                &&& final(output).inv()
                &&& final(output)@ == expected.out
                &&& r is Ok ==> final(input).bit_pos() == expected.pos
            }
        }),
{
    let ghost data = input.data();
    let ghost expected = deflate_outcome(data, input.bit_pos(), output@);
    proof {
        lemma_prefix_reflexive(output.sunk());
        output.lemma_sunk();
        lemma_deflate_outcome_extends(data, input.bit_pos(), output@);
        lemma_sunk_within(output.sunk(), output.base(), output@, expected.out);
    }
    loop
        invariant
            output.sunk().is_prefix_of(output.base() + expected.out),
            input.inv(),
            output.inv(),
            input.data() == data,
            data == old(input).data(),
            output.infallible() == old(output).infallible(),
            output.base() == old(output).base(),
            old(output).sunk().is_prefix_of(output.sunk()),
            old(output)@.len() <= output@.len(),
            expected == deflate_outcome(old(input).data(), old(input).bit_pos(), old(output)@),
            deflate_outcome(data, input.bit_pos(), output@) == expected,
        decreases bit_len(data) - input.bit_pos(),
    {
        let ghost pos = input.bit_pos();
        proof {
            input.lemma_in_bounds();
            vstd::arithmetic::power2::lemma2_to64();
            lemma_lsb_value_bound(data, (pos + 1) as int, 2);
            lemma_bit_at_range(data, pos as int);
        }
        let bfinal = match input.get_bit() {
            Ok(v) => v,
            Err(e) => {
                return Err(e);
            },
        };
        let btype = match input.get_bits_rev(2) {
            Ok(v) => v,
            Err(e) => {
                return Err(e);
            },
        };
        let header = BlockHeader { bfinal: bfinal as u8, btype: btype as u8 };
        let ghost before = output.sunk();
        let ghost view = output@;
        let done = decode_block(header.btype, input, output);
        proof {
            lemma_prefix_transitive(old(output).sunk(), before, output.sunk());
            let block = block_outcome(header.btype as nat, data, pos + 3, view);
            lemma_block_outcome_extends(header.btype as nat, data, pos + 3, view);
            if block.result is Err || header.bfinal == 1 {
            } else if !(pos < block.pos <= bit_len(data)) {
            } else {
                lemma_deflate_outcome_extends(data, block.pos, block.out);
                lemma_sunk_within(output.sunk(), output.base(), block.out, expected.out);
            }
            if expected.out == old(output)@ {
                assert(block.out.len() <= expected.out.len());
                assert(block.out =~= view);
            }
        }
        if done.is_err() || header.bfinal > 0 {
            return done;
        }
        proof {
            input.lemma_in_bounds();
        }
    }
}

} // verus!
