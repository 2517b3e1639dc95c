//! The stored block: bytes that were not compressed.

use vstd::prelude::*;
use crate::errors::{GzipError, GzipResult};
use crate::sources::bitstream::{byte_index, le_value};
use crate::sources::bitsource::BitSource;
use crate::buffers::outputbuffer::{
    OutputBuffer, lemma_prefix_transitive, lemma_prefix_reflexive, lemma_prefix_of_longer,
    lemma_prefix_behind, lemma_sunk_within,
};
use crate::blocks::window::Outcome;

verus! {

/// The two length fields agree: each is the complement of the other.
pub open spec fn lengths_agree(len: u16, nlen: u16) -> bool {
    len ^ nlen == 65535
}

/// A stored block read from bit `pos`, with `out` produced before. The
/// block starts at the next byte boundary with two little-endian fields of
/// 16 bits, a length and its complement, and goes on with that many bytes,
/// which become output as they are. Fields that do not agree are a
/// `StoredHeaderFailure`; where the stream ends inside the bytes, those
/// before its end are output all the same.
pub open spec fn stored_outcome(data: Seq<u8>, pos: nat, out: Seq<u8>) -> Outcome {
    let first = byte_index(pos) + 4;
    if first > data.len() {
        Outcome { result: Err(GzipError::TruncatedFile), pos, out }
    } else {
        let len = le_value(data, first - 4, 2);
        let nlen = le_value(data, first - 2, 2);
        if !lengths_agree(len as u16, nlen as u16) {
            Outcome { result: Err(GzipError::StoredHeaderFailure), pos, out }
        } else if first + len > data.len() {
            Outcome {
                result: Err(GzipError::TruncatedFile),
                pos,
                out: out + data.subrange(first as int, data.len() as int),
            }
        } else {
            Outcome {
                result: Ok(()),
                pos: 8 * (first + len),
                out: out + data.subrange(first as int, (first + len) as int),
            }
        }
    }
}

/// A stored block adds to the output and takes nothing back: the output
/// before it, with any number of the block's first bytes, is a start of the
/// output after it.
pub proof fn lemma_stored_outcome_extends(data: Seq<u8>, pos: nat, out: Seq<u8>, k: int)
    requires
        0 <= k,
        k > 0 ==> {
            let first = byte_index(pos) + 4;
            &&& first + k <= data.len()
            &&& k <= le_value(data, first - 4, 2)
            &&& lengths_agree(
                le_value(data, first - 4, 2) as u16,
                le_value(data, first - 2, 2) as u16,
            )
        },
    ensures
        out.is_prefix_of(stored_outcome(data, pos, out).out),
        k > 0 ==> (out + data.subrange(
            (byte_index(pos) + 4) as int,
            byte_index(pos) + 4 + k,
        )).is_prefix_of(stored_outcome(data, pos, out).out),
{
    let first = (byte_index(pos) + 4) as int;
    let after = stored_outcome(data, pos, out).out;
    lemma_prefix_reflexive(out);
    if first <= data.len() {
        let len = le_value(data, first - 4, 2);
        let end = if first + len > data.len() {
            data.len() as int
        } else {
            first + len
        };
        lemma_prefix_of_longer(out, out, data.subrange(first, end));
        if k > 0 {
            let part = data.subrange(first, first + k);
            let whole = data.subrange(first, end);
            assert(part =~= whole.subrange(0, part.len() as int));
            lemma_prefix_behind(out, part, whole);
        }
    }
}

/// The decoder of stored blocks.
pub struct BlockStored {}

impl BlockStored {
    /// The decoder of stored blocks: it keeps nothing between blocks.
    pub fn new() -> (r: Self) {
        BlockStored {  }
    }

    /// Decodes one stored block from where the input stands, appending its
    /// bytes to the output. Where the stream holds the two length fields,
    /// the block fails with `StoredHeaderFailure` if and only if they do not
    /// agree, and then nothing was written.
    ///
    /// The result is that of the model unless the output refuses a write, which
    /// is a `CantWriteFile`; and it is that of the model, with the output that
    /// the model gives, where the output accepts every write, where the call
    /// succeeds, and where the model writes nothing.
    pub fn decode<T: BitSource, U: OutputBuffer>(&self, input: &mut T, output: &mut U) -> (r:
        GzipResult<()>)
        requires
            old(input).inv(),
            old(output).inv(),
        ensures
            final(input).inv(),
            final(input).data() == old(input).data(),
            final(output).infallible() == old(output).infallible(),
            final(output).base() == old(output).base(),
            old(output).sunk().is_prefix_of(final(output).sunk()),
            final(output).sunk().is_prefix_of(
                final(output).base() + stored_outcome(
                    old(input).data(),
                    old(input).bit_pos(),
                    old(output)@,
                ).out,
            ),
            r is Ok ==> old(input).bit_pos() <= final(input).bit_pos(),
            ({
                let first = byte_index(old(input).bit_pos()) as int;
                let len = le_value(old(input).data(), first, 2) as u16;
                let nlen = le_value(old(input).data(), first + 2, 2) as u16;
                first + 4 <= old(input).data().len() ==> {
                    &&& r == Err::<(), GzipError>(GzipError::StoredHeaderFailure)
                        <==> !lengths_agree(len, nlen)
                    &&& !lengths_agree(len, nlen) ==> final(output)@ == old(output)@
                        && final(output).sunk() == old(output).sunk()
                }
            }),
            ({
                let expected = stored_outcome(
                    old(input).data(),
                    old(input).bit_pos(),
                    old(output)@,
                );
                &&& r == expected.result || r == Err::<(), GzipError>(GzipError::CantWriteFile)
                &&& old(output).infallible() || r is Ok || expected.out == old(output)@ ==> {
                    &&& r == expected.result
                    &&& final(output).inv()
                    &&& final(output)@ == expected.out
                    &&& r is Ok ==> final(input).bit_pos() == expected.pos
                }
            }),
    {
        let ghost data = input.data();
        let ghost first = byte_index(input.bit_pos()) + 4;
        let ghost expected = stored_outcome(data, input.bit_pos(), output@);
        proof {
            input.lemma_in_bounds();
            lemma_prefix_reflexive(output.sunk());
            output.lemma_sunk();
            lemma_stored_outcome_extends(data, input.bit_pos(), output@, 0);
            lemma_sunk_within(output.sunk(), output.base(), output@, expected.out);
        }
        let len = match input.get_u16() {
            Ok(v) => v,
            Err(e) => {
                return Err(e);
            },
        };
        let nlen = match input.get_u16() {
            Ok(v) => v,
            Err(e) => {
                return Err(e);
            },
        };
        if len ^ nlen != 65535 {
            return Err(GzipError::StoredHeaderFailure);
        }
        let mut i: u16 = 0;
        proof {
            assert(data.subrange(first as int, first as int) == Seq::<u8>::empty());
            assert(output@ + Seq::<u8>::empty() == output@);
        }
        while i < len
            invariant
                i <= len,
                input.inv(),
                output.inv(),
                input.data() == data,
                data == old(input).data(),
                output.infallible() == old(output).infallible(),
                output.base() == old(output).base(),
                old(output).sunk().is_prefix_of(output.sunk()),
                output.sunk().is_prefix_of(output.base() + expected.out),
                expected == stored_outcome(data, old(input).bit_pos(), old(output)@),
                first == byte_index(old(input).bit_pos()) + 4,
                first + i <= data.len(),
                input.bit_pos() == 8 * (first + i),
                output@ == old(output)@ + data.subrange(first as int, first + i),
                len as nat == le_value(data, first - 4, 2),
                nlen as nat == le_value(data, first - 2, 2),
                lengths_agree(len, nlen),
            decreases len - i,
        {
            let byte = match input.get_u8() {
                Ok(b) => b,
                Err(e) => {
                    return Err(e);
                },
            };
            let ghost before = output.sunk();
            let done = output.put_u8(byte);
            proof {
                lemma_prefix_transitive(old(output).sunk(), before, output.sunk());
                let next = old(output)@ + data.subrange(first as int, first + i + 1);
                assert((old(output)@ + data.subrange(first as int, first + i)).push(
                    data[first + i],
                ) =~= next);
                lemma_stored_outcome_extends(data, old(input).bit_pos(), old(output)@, i + 1);
                lemma_sunk_within(output.sunk(), output.base(), next, expected.out);
            }
            match done {
                Ok(()) => {},
                Err(e) => {
                    return Err(e);
                },
            }
            i = i + 1;
        }
        Ok(())
    }
}

} // verus!
