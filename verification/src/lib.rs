//! A decompressor for gzip files, verified with Verus.
//!
//! Every function of this library carries a contract, stated over a
//! mathematical model of the DEFLATE format, and Verus proves the function
//! against it. The model reads a stream of bytes as a stream of bits; its
//! functions say what each part of the format stands for:
//!
//! - [`sources`]: byte sources, and the bit readers over them
//!   (`sources::bitstream` holds the model of the bit stream);
//! - [`blocks`]: canonical Huffman codes (`blocks::huffman`, with what they
//!   mean in `blocks::canonical` and `blocks::complete`) and the decoders of
//!   the three kinds of block;
//! - [`buffers`]: the sliding window that takes literal bytes and resolves
//!   back-references, and [`sinks`], where its bytes go;
//! - [`decoder`]: the stream of blocks, and [`gzip`]: the file around it;
//! - [`roundtrip`]: the law that the decoder undoes what a compressor does.

pub mod errors;
pub mod context;
pub mod sources;
pub mod sinks;
pub mod buffers;
pub mod blocks;
pub mod decoder;
pub mod gzip;
pub mod roundtrip;
