//! The container around the compressed stream: its header, and the decode
//! of a whole file.

use vstd::prelude::*;
use encoding::Encoding;
use encoding::DecoderTrap;
use encoding::all::ISO_8859_1;
use crate::errors::{GzipError, GzipResult};
use crate::context::{Context, AdapterKind, adapter_of};
use crate::sources::bitstream::{byte_index, le_value};
use crate::sources::bytesource::ByteSource;
use crate::sources::bitadapter::BitAdapter;
use crate::sources::wideadapter::WideAdapter;
use crate::buffers::outputbuffer::{OutputBuffer, lemma_prefix_reflexive};
use crate::blocks::window::Outcome;
use crate::decoder::{decode_deflate, deflate_outcome};

verus! {

/// The file is probably text.
pub const FTEXT: u8 = 1;

/// A checksum of the header follows it.
pub const FHCRC: u8 = 2;

/// Extra fields follow the header.
pub const FEXTRA: u8 = 4;

/// The original name of the file follows the header.
pub const FNAME: u8 = 8;

/// A comment follows the header.
pub const FCOMMENT: u8 = 16;

/// The header of a file.
#[derive(Debug, PartialEq, Eq)]
pub struct GzipHeader {
    pub id1: u8,
    pub id2: u8,
    pub cm: u8,
    pub flg: u8,
    pub mtime: u32,
    pub xfl: u8,
    pub os: u8,
    pub original_name: Option<String>,
}

/// Flag `flag` is set in the flag byte `flg`.
pub open spec fn flag_set(flg: u8, flag: u8) -> bool {
    flg & flag > 0
}

/// The index of the first zero byte at or after `from`.
pub open spec fn name_end(data: Seq<u8>, from: int) -> Option<int>
    decreases data.len() - from,
{
    if from >= data.len() {
        None
    } else if data[from] == 0 {
        Some(from)
    } else {
        name_end(data, from + 1)
    }
}

/// The text that bytes stand for in ISO 8859-1: each byte is the character
/// with that number.
pub open spec fn latin1(bytes: Seq<u8>) -> Seq<char> {
    Seq::new(bytes.len(), |i: int| bytes[i] as char)
}

/// Why the header that starts at byte `first` cannot be read, if it
/// cannot. The header has ten bytes: two that identify the format, 31 and
/// 139, the compression method, which must be 8, the flags, four bytes of
/// time, the extra flags and the operating system. Extra fields, a header
/// checksum and a comment are not supported, nor are the three highest
/// flags. With the name flag a name follows, which ends with a zero byte.
pub open spec fn header_error(data: Seq<u8>, first: int) -> Option<GzipError> {
    if first + 2 > data.len() {
        Some(GzipError::TruncatedFile)
    } else if data[first] != 31 || data[first + 1] != 139 {
        Some(GzipError::NotAGzipFile)
    } else if first + 3 > data.len() {
        Some(GzipError::TruncatedFile)
    } else if data[first + 2] != 8 {
        Some(GzipError::NotDeflate)
    } else if first + 4 > data.len() {
        Some(GzipError::TruncatedFile)
    } else if flag_set(data[first + 3], FEXTRA) {
        Some(GzipError::FEXTRANotSupported)
    } else if flag_set(data[first + 3], FHCRC) {
        Some(GzipError::FHCRCNotSupported)
    } else if flag_set(data[first + 3], FCOMMENT) {
        Some(GzipError::FCOMMENTNotSupported)
    } else if data[first + 3] >= 0x20 {
        Some(GzipError::ReservedFlagsNotSupported)
    } else if first + 10 > data.len() {
        Some(GzipError::TruncatedFile)
    } else if flag_set(data[first + 3], FNAME) && name_end(data, first + 10) is None {
        Some(GzipError::TruncatedFile)
    } else {
        None
    }
}

/// The index of the byte after the header that starts at byte `first`.
pub open spec fn header_end(data: Seq<u8>, first: int) -> int {
    if flag_set(data[first + 3], FNAME) {
        name_end(data, first + 10)->0 + 1
    } else {
        first + 10
    }
}

/// The index of the byte at which the reading of the header that starts at
/// byte `first` stops: behind the header where it can be read; behind the
/// byte that is wrong where it cannot, which is the second for the format,
/// the third for the method and the fourth for the flags; and at the end
/// of the stream where the stream ends inside the header.
pub open spec fn header_stop(data: Seq<u8>, first: int) -> int {
    match header_error(data, first) {
        None => header_end(data, first),
        Some(GzipError::NotAGzipFile) => first + 2,
        Some(GzipError::NotDeflate) => first + 3,
        Some(GzipError::TruncatedFile) => data.len() as int,
        Some(_) => first + 4,
    }
}

/// `header` holds the fields of the header that starts at byte `first`.
pub open spec fn header_holds(header: GzipHeader, data: Seq<u8>, first: int) -> bool {
    &&& header.id1 == data[first]
    &&& header.id2 == data[first + 1]
    &&& header.cm == data[first + 2]
    &&& header.flg == data[first + 3]
    &&& header.mtime == le_value(data, first + 4, 4)
    &&& header.xfl == data[first + 8]
    &&& header.os == data[first + 9]
    &&& match header.original_name {
        Some(name) => flag_set(header.flg, FNAME) && name@ == latin1(
            data.subrange(first + 10, header_end(data, first) - 1),
        ),
        None => !flag_set(header.flg, FNAME),
    }
}

/// The name of the operating system with number `os`.
pub open spec fn os_name(os: u8) -> Seq<char> {
    if os == 0 {
        "FAT filesystem (MS-DOS, OS/2, NT/Win32)"@
    } else if os == 1 {
        "Amiga"@
    } else if os == 2 {
        "VMS (or OpenVMS)"@
    } else if os == 3 {
        "Unix"@
    } else if os == 4 {
        "VM/CMS"@
    } else if os == 5 {
        "Atari TOS"@
    } else if os == 6 {
        "HPFS filesystem (OS/2, NT)"@
    } else if os == 7 {
        "Macintosh"@
    } else if os == 8 {
        "Z-System"@
    } else if os == 9 {
        "CP/M"@
    } else if os == 10 {
        "TOPS-20"@
    } else if os == 11 {
        "NTFS filesystem (NT)"@
    } else if os == 12 {
        "QDOS"@
    } else if os == 13 {
        "Acorn RISCOS"@
    } else {
        "unknown"@
    }
}

/// A whole file read from bit `pos`, with `out` produced before: the
/// header, then the stream of blocks, read with bit reader number
/// `adapter`. A number that stands for no bit reader is an `InternalError`
/// once the header was read.
pub open spec fn gzip_outcome(data: Seq<u8>, pos: nat, out: Seq<u8>, adapter: u8) -> Outcome {
    let first = byte_index(pos) as int;
    match header_error(data, first) {
        Some(e) => Outcome { result: Err(e), pos, out },
        None => match adapter_of(adapter) {
            Err(e) => Outcome { result: Err(e), pos, out },
            Ok(_) => deflate_outcome(data, (8 * header_end(data, first)) as nat, out),
        },
    }
}

/// Decodes bytes as ISO 8859-1 text by `encoding::Encoding::decode` of
/// `encoding::all::ISO_8859_1` with `encoding::DecoderTrap::Strict`. That
/// decoder turns each byte into the character with the byte's number and
/// refuses none, so the call succeeds on every input.
#[verifier::external_body]
fn decode_latin1(bytes: &Vec<u8>) -> (r: Option<String>)
    ensures
        r is Some,
        r matches Some(text) ==> text@ == latin1(bytes@),
{
    ISO_8859_1.decode(bytes, DecoderTrap::Strict).ok()
}

/// The decoder of whole files.
pub struct GzipDecoder {}

impl GzipDecoder {
    /// Decodes a whole file: reads the header from `input`, then decodes
    /// the stream of blocks after it into `output`, with the bit reader
    /// that `context` chooses. Gives the header back.
    ///
    /// The result is that of the model unless the output refuses a write, which
    /// is a `CantWriteFile`; and it is that of the model, with the output that
    /// the model gives, where the output accepts every write, where the call
    /// succeeds, and where the model writes nothing.
    pub fn decode<S: ByteSource, O: OutputBuffer>(input: S, output: &mut O, context: &Context) -> (r:
        GzipResult<GzipHeader>)
        requires
            input.inv(),
            old(output).inv(),
        ensures
            final(output).infallible() == old(output).infallible(),
            final(output).base() == old(output).base(),
            old(output).sunk().is_prefix_of(final(output).sunk()),
            final(output).sunk().is_prefix_of(
                final(output).base() + gzip_outcome(
                    input.data(),
                    input.bit_pos(),
                    old(output)@,
                    context.adapter,
                ).out,
            ),
            ({
                let expected = gzip_outcome(
                    input.data(),
                    input.bit_pos(),
                    old(output)@,
                    context.adapter,
                );
                &&& r matches Err(e) ==> expected.result == Err::<(), GzipError>(e) || e
                    == GzipError::CantWriteFile
                &&& old(output).infallible() || r is Ok || expected.out == old(output)@ ==> {
                    &&& r is Ok <==> expected.result is Ok
                    &&& r matches Err(e) ==> expected.result == Err::<(), GzipError>(e)
                    &&& r matches Ok(header) ==> header_holds(
                        header,
                        input.data(),
                        byte_index(input.bit_pos()) as int,
                    )
                    &&& final(output).inv()
                    &&& final(output)@ == expected.out
                }
            }),
    {
        let mut input = input;
        proof {
            lemma_prefix_reflexive(output.sunk());
            lemma_prefix_reflexive(output@);
            output.lemma_sunk();
        }
        let header = match Self::decode_header(&mut input) {
            Ok(h) => h,
            Err(e) => {
                return Err(e);
            },
        };
        let kind = match context.choose_adapter() {
            Ok(k) => k,
            Err(e) => {
                return Err(e);
            },
        };
        let done = match kind {
            AdapterKind::Bit => {
                let mut bits = BitAdapter::new(input);
                decode_deflate(&mut bits, output)
            },
            AdapterKind::Wide => {
                let mut bits = WideAdapter::new(input);
                decode_deflate(&mut bits, output)
            },
        };
        match done {
            Ok(()) => Ok(header),
            Err(e) => Err(e),
        }
    }

    /// Reads the header of a file from where the input stands, and stops
    /// at the first byte that it cannot accept.
    pub fn decode_header<S: ByteSource>(input: &mut S) -> (r: GzipResult<GzipHeader>)
        requires
            old(input).inv(),
        ensures
            final(input).inv(),
            final(input).data() == old(input).data(),
            final(input).bit_pos() == 8 * header_stop(
                old(input).data(),
                byte_index(old(input).bit_pos()) as int,
            ),
            match r {
                Ok(header) => {
                    &&& header_error(
                        old(input).data(),
                        byte_index(old(input).bit_pos()) as int,
                    ) is None
                    &&& header_holds(
                        header,
                        old(input).data(),
                        byte_index(old(input).bit_pos()) as int,
                    )
                },
                Err(e) => header_error(
                    old(input).data(),
                    byte_index(old(input).bit_pos()) as int,
                ) == Some(e),
            },
    {
        let ghost data = input.data();
        let ghost first = byte_index(input.bit_pos()) as int;
        proof {
            input.lemma_in_bounds();
        }
        let id1 = match input.get_u8() {
            Ok(v) => v,
            Err(e) => {
                return Err(e);
            },
        };
        let id2 = match input.get_u8() {
            Ok(v) => v,
            Err(e) => {
                return Err(e);
            },
        };
        if id1 != 31 || id2 != 139 {
            return Err(GzipError::NotAGzipFile);
        }
        let cm = match input.get_u8() {
            Ok(v) => v,
            Err(e) => {
                return Err(e);
            },
        };
        if cm != 8 {
            return Err(GzipError::NotDeflate);
        }
        let flg = match input.get_u8() {
            Ok(v) => v,
            Err(e) => {
                return Err(e);
            },
        };
        if flg & FEXTRA > 0 {
            return Err(GzipError::FEXTRANotSupported);
        }
        if flg & FHCRC > 0 {
            return Err(GzipError::FHCRCNotSupported);
        }
        if flg & FCOMMENT > 0 {
            return Err(GzipError::FCOMMENTNotSupported);
        }
        if flg >= 0x20 {
            return Err(GzipError::ReservedFlagsNotSupported);
        }
        let mtime = match input.get_u32() {
            Ok(v) => v,
            Err(e) => {
                return Err(e);
            },
        };
        let xfl = match input.get_u8() {
            Ok(v) => v,
            Err(e) => {
                return Err(e);
            },
        };
        let os = match input.get_u8() {
            Ok(v) => v,
            Err(e) => {
                return Err(e);
            },
        };
        let mut original_name: Option<String> = None;
        if flg & FNAME > 0 {
            let mut iso_8859_1: Vec<u8> = Vec::new();
            let ghost from = first + 10;
            proof {
                assert(data.subrange(from, from) == Seq::<u8>::empty());
            }
            loop
                invariant_except_break
                    input.bit_pos() == 8 * (from + iso_8859_1.len()),
                    name_end(data, from) == name_end(data, from + iso_8859_1.len()),
                invariant
                    input.inv(),
                    input.data() == data,
                    data == old(input).data(),
                    first == byte_index(old(input).bit_pos()) as int,
                    from == first + 10,
                    from + iso_8859_1.len() <= data.len(),
                    iso_8859_1@ == data.subrange(from, from + iso_8859_1.len()),
                    header_error(data, first) == if name_end(data, from) is None {
                        Some(GzipError::TruncatedFile)
                    } else {
                        None::<GzipError>
                    },
                    flag_set(data[first + 3], FNAME),
                ensures
                    input.bit_pos() == 8 * (from + iso_8859_1.len() + 1),
                    name_end(data, from) == Some(from + iso_8859_1.len()),
                decreases data.len() - iso_8859_1.len(),
            {
                let ghost n = iso_8859_1.len();
                let c = match input.get_u8() {
                    Ok(v) => v,
                    Err(e) => {
                        return Err(e);
                    },
                };
                if c == 0 {
                    break ;
                }
                iso_8859_1.push(c);
                proof {
                    assert(data.subrange(from, from + n).push(data[from + n])
                        =~= data.subrange(from, from + n + 1));
                }
            }
            original_name = decode_latin1(&iso_8859_1);
        }
        Ok(GzipHeader { id1, id2, cm, flg, mtime, xfl, os, original_name })
    }

    /// The name of the operating system with number `os`.
    pub fn translate_os(os: u8) -> (r: &'static str)
        ensures
            r@ == os_name(os),
    {
        match os {
            0 => "FAT filesystem (MS-DOS, OS/2, NT/Win32)",
            1 => "Amiga",
            2 => "VMS (or OpenVMS)",
            3 => "Unix",
            4 => "VM/CMS",
            5 => "Atari TOS",
            6 => "HPFS filesystem (OS/2, NT)",
            7 => "Macintosh",
            8 => "Z-System",
            9 => "CP/M",
            10 => "TOPS-20",
            11 => "NTFS filesystem (NT)",
            12 => "QDOS",
            13 => "Acorn RISCOS",
            _ => "unknown",
        }
    }
}

} // verus!
