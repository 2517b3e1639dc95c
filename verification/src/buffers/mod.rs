//! The sliding window: the history of the output against which
//! back-references are resolved.
//!
//! `outputbuffer` holds the capability and the model of a back-reference.
//! `inmemory`, `circular` and `copy` keep the history in three ways in
//! front of a sink; `channel` records output operations for a worker that
//! carries them out elsewhere.

pub mod outputbuffer;
pub mod inmemory;
pub mod circular;
pub mod copy;
pub mod channel;
