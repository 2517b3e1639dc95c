//! Where the decompressed bytes go.
//!
//! `bytesink` is the capability, with a vector as the sink that never
//! fails; `limited` is a sink with room for a fixed number of bytes.

pub mod bytesink;
pub mod limited;
