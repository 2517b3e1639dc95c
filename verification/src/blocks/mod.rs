//! The block decoders and the canonical Huffman codec they share.
//!
//! `huffman` builds decode tries from tables of code lengths; `canonical`
//! and `complete` say what the tries mean. `stored`, `fixed` and `dynamic`
//! decode the three kinds of block, the latter two through the loop of
//! `window`. `roundtrip` and `tables` show that a block that a compressor
//! wrote decodes to what was written.

pub mod huffman;
pub mod canonical;
pub mod complete;
pub mod window;
pub mod stored;
pub mod fixed;
pub mod dynamic;
pub mod roundtrip;
pub mod tables;
