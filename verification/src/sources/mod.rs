//! Where the compressed bytes come from, and how they are read bit by bit.
//!
//! `bitstream` is the model: a stream of bytes read as a stream of bits.
//! `bytesource` and `bitsource` are the two capabilities, `vecsource` and
//! `widesource` sources over bytes in memory, `bitadapter` and `wideadapter`
//! bit readers over a source.

pub mod bitstream;
pub mod bytesource;
pub mod bitsource;
pub mod vecsource;
pub mod widesource;
pub mod bitadapter;
pub mod wideadapter;
