//! The byte sink capability: an ordered writer of bytes.

use vstd::prelude::*;
use crate::errors::{GzipError, GzipResult};

verus! {

/// An ordered writer of bytes, without random access.
///
/// The model of a sink is the sequence of bytes it has accepted. Whether a
/// write succeeds is the sink's own decision, unless the sink is
/// `infallible()`: then every write succeeds. A write that the sink
/// refuses fails with `CantWriteFile`, and with nothing else.
pub trait ByteSink {
    /// Every byte accepted so far, in order.
    spec fn written(&self) -> Seq<u8>;

    /// No write to this sink fails.
    spec fn infallible(&self) -> bool;

    /// Writes one byte.
    fn put_u8(&mut self, data: u8) -> (r: GzipResult<()>)
        ensures
            final(self).infallible() == old(self).infallible(),
            old(self).infallible() ==> r is Ok,
            r is Err ==> r == Err::<(), GzipError>(GzipError::CantWriteFile),
            r is Ok ==> final(self).written() == old(self).written().push(data),
            r is Err ==> final(self).written() == old(self).written(),
            old(self).written().is_prefix_of(final(self).written()),
    ;

    /// Writes the bytes of `data` in order. Stops at the first byte that the
    /// sink refuses; the bytes before it stay written.
    fn put_data(&mut self, data: &[u8]) -> (r: GzipResult<()>)
        ensures
            final(self).infallible() == old(self).infallible(),
            old(self).infallible() ==> r is Ok,
            r is Err ==> r == Err::<(), GzipError>(GzipError::CantWriteFile),
            r is Ok ==> final(self).written() == old(self).written() + data@,
            r is Err ==> exists|k: int|
                0 <= k < data@.len() && final(self).written() == old(self).written()
                    + #[trigger] data@.subrange(0, k),
            old(self).written().is_prefix_of(final(self).written()),
    {
        let n = data.len();
        let mut i: usize = 0;
        while i < n
            invariant
                i <= n,
                n == data@.len(),
                self.infallible() == old(self).infallible(),
                self.written() == old(self).written() + data@.subrange(0, i as int),
            decreases n - i,
        {
            match self.put_u8(data[i]) {
                Ok(()) => {},
                Err(e) => {
                    return Err(e);
                },
            }
            proof {
                assert(data@.subrange(0, i as int).push(data@[i as int]) == data@.subrange(
                    0,
                    i + 1,
                ));
            }
            i = i + 1;
        }
        proof {
            assert(data@.subrange(0, n as int) == data@);
        }
        Ok(())
    }
}

/// A vector is a sink that keeps what it is given and never fails.
impl ByteSink for Vec<u8> {
    open spec fn written(&self) -> Seq<u8> {
        self@
    }

    open spec fn infallible(&self) -> bool {
        true
    }

    fn put_u8(&mut self, data: u8) -> (r: GzipResult<()>) {
        self.push(data);
        Ok(())
    }
}

} // verus!
