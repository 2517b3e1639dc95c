//! A sink with room for a fixed number of bytes.

use vstd::prelude::*;
use crate::errors::{GzipError, GzipResult};
use crate::sinks::bytesink::ByteSink;

verus! {

/// A sink that keeps what it is given in memory, up to `limit` bytes. A
/// write for which it has no room fails with `CantWriteFile`.
pub struct LimitedSink {
    data: Vec<u8>,
    limit: usize,
}

impl LimitedSink {
    /// The number of bytes that the sink has room for.
    pub closed spec fn limit(&self) -> nat {
        self.limit as nat
    }

    /// An empty sink with room for `limit` bytes.
    pub fn new(limit: usize) -> (r: Self)
        ensures
            r.written() == Seq::<u8>::empty(),
            r.limit() == limit,
    {
        LimitedSink { data: Vec::new(), limit }
    }

    /// The bytes that the sink holds.
    pub fn into_vec(self) -> (r: Vec<u8>)
        ensures
            r@ == self.written(),
    {
        self.data
    }
}

impl ByteSink for LimitedSink {
    closed spec fn written(&self) -> Seq<u8> {
        self.data@
    }

    open spec fn infallible(&self) -> bool {
        false
    }

    /// Succeeds while the sink has room.
    fn put_u8(&mut self, data: u8) -> (r: GzipResult<()>)
        ensures
            final(self).limit() == old(self).limit(),
            r is Ok <==> old(self).written().len() < old(self).limit(),
            r is Err ==> r == Err::<(), GzipError>(GzipError::CantWriteFile),
    {
        if self.data.len() < self.limit {
            self.data.push(data);
            Ok(())
        } else {
            Err(GzipError::CantWriteFile)
        }
    }
}

} // verus!
