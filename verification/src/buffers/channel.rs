//! Output operations as values: a buffer that records what it is asked to
//! do, and the step that carries a recorded operation out on another
//! buffer. A worker that writes the output elsewhere can so be fed through
//! a queue, in the order in which the decoder produced the operations.

use vstd::prelude::*;
use vstd::slice::slice_to_vec;
use crate::errors::{GzipError, GzipResult};
use crate::buffers::outputbuffer::{
    OutputBuffer, WINDOW_SIZE, reachable, copied, lemma_prefix_transitive,
    lemma_prefix_reflexive,
};

verus! {

/// One output operation, or the signal that no more will come.
#[derive(Debug, PartialEq, Eq)]
pub enum ChannelData {
    Value(u8),
    Vector(Vec<u8>),
    Window { length: u32, distance: u32 },
    Exit,
}

/// `history` after operation `op`.
pub open spec fn applied(history: Seq<u8>, op: ChannelData) -> Seq<u8> {
    match op {
        ChannelData::Value(v) => history.push(v),
        ChannelData::Vector(v) => history + v@,
        ChannelData::Window { length, distance } => copied(
            history,
            distance as int,
            length as nat,
        ),
        ChannelData::Exit => history,
    }
}

/// Operation `op` can be carried out on `history`: a back-reference must
/// be resolvable.
pub open spec fn appliable(history: Seq<u8>, op: ChannelData) -> bool {
    match op {
        ChannelData::Window { length, distance } => reachable(history, distance as int),
        _ => true,
    }
}

/// The history that the first `upto` operations of `ops` produce from
/// `start`, carried out in order.
pub open spec fn replayed(start: Seq<u8>, ops: Seq<ChannelData>, upto: int) -> Seq<u8>
    decreases upto,
{
    if upto <= 0 {
        start
    } else {
        applied(replayed(start, ops, upto - 1), ops[upto - 1])
    }
}

/// Each of the first `upto` operations of `ops` can be carried out on the
/// history that the operations before it produce from `start`.
pub open spec fn replayable(start: Seq<u8>, ops: Seq<ChannelData>, upto: int) -> bool
    decreases upto,
{
    if upto <= 0 {
        true
    } else {
        replayable(start, ops, upto - 1) && appliable(
            replayed(start, ops, upto - 1),
            ops[upto - 1],
        )
    }
}

/// Queues that agree on their first `upto` operations produce the same
/// history with them.
pub proof fn lemma_replayed_prefix(
    start: Seq<u8>,
    a: Seq<ChannelData>,
    b: Seq<ChannelData>,
    upto: int,
)
    requires
        0 <= upto <= a.len(),
        upto <= b.len(),
        forall|i: int| 0 <= i < upto ==> a[i] == b[i],
    ensures
        replayed(start, a, upto) == replayed(start, b, upto),
        replayable(start, a, upto) == replayable(start, b, upto),
    decreases upto,
{
    if upto > 0 {
        lemma_replayed_prefix(start, a, b, upto - 1);
    }
}

/// A back-reference adds its length to the history.
pub proof fn lemma_copied_len(history: Seq<u8>, distance: int, length: nat)
    ensures
        copied(history, distance, length).len() == history.len() + length,
    decreases length,
{
    if length > 0 {
        lemma_copied_len(history, distance, (length - 1) as nat);
    }
}

/// An output buffer that carries nothing out: it records each operation in
/// a queue, to be carried out later, and in the same order, on a buffer
/// that writes.
pub struct ChannelBuffer {
    queue: Vec<ChannelData>,
    size: usize,
}

impl ChannelBuffer {
    /// The operations recorded so far, in order.
    pub closed spec fn queue(&self) -> Seq<ChannelData> {
        self.queue@
    }

    /// A buffer that has recorded nothing.
    pub fn new() -> (r: Self)
        ensures
            r.inv(),
            r@ == Seq::<u8>::empty(),
            r.queue() == Seq::<ChannelData>::empty(),
            r.infallible(),
    {
        ChannelBuffer { queue: Vec::new(), size: 0 }
    }

    /// Gives the recorded operations out. Carried out in order on an empty
    /// history they produce the history of this buffer.
    pub fn into_queue(self) -> (r: Vec<ChannelData>)
        requires
            self.inv(),
        ensures
            r@ == self.queue(),
            replayable(Seq::empty(), r@, r@.len() as int),
            replayed(Seq::empty(), r@, r@.len() as int) == self@,
    {
        self.queue
    }

    /// Records `op`, which adds `more` bytes to the history.
    fn record(&mut self, op: ChannelData, more: usize)
        requires
            old(self).inv(),
            appliable(old(self)@, op),
            applied(old(self)@, op).len() == old(self)@.len() + more,
        ensures
            final(self).inv(),
            final(self)@ == applied(old(self)@, op),
            final(self).queue() == old(self).queue().push(op),
    {
        let ghost before = self.queue@;
        self.queue.push(op);
        proof {
            lemma_replayed_prefix(Seq::empty(), self.queue@, before, before.len() as int);
        }
        if more >= WINDOW_SIZE - self.size {
            self.size = WINDOW_SIZE;
        } else {
            self.size = self.size + more;
        }
    }
}

impl OutputBuffer for ChannelBuffer {
    closed spec fn inv(&self) -> bool {
        &&& replayable(Seq::empty(), self.queue@, self.queue@.len() as int)
        &&& self.size == if self@.len() < WINDOW_SIZE {
            self@.len()
        } else {
            WINDOW_SIZE as nat
        }
    }

    closed spec fn view(&self) -> Seq<u8> {
        replayed(Seq::empty(), self.queue@, self.queue@.len() as int)
    }

    open spec fn infallible(&self) -> bool {
        true
    }

    open spec fn base(&self) -> Seq<u8> {
        Seq::empty()
    }

    open spec fn sunk(&self) -> Seq<u8> {
        Seq::empty()
    }

    proof fn lemma_sunk(&self) {
    }

    fn put_u8(&mut self, data: u8) -> (r: GzipResult<()>) {
        self.record(ChannelData::Value(data), 1);
        Ok(())
    }

    fn put_data(&mut self, data: &[u8]) -> (r: GzipResult<()>) {
        let copy = slice_to_vec(data);
        self.record(ChannelData::Vector(copy), data.len());
        Ok(())
    }

    fn copy_window(&mut self, distance: u32, length: u32) -> (r: GzipResult<()>) {
        if distance == 0 || distance as usize > self.size {
            return Err(GzipError::InvalidDeflateStream);
        }
        proof {
            lemma_copied_len(self@, distance as int, length as nat);
        }
        self.record(ChannelData::Window { length, distance }, length as usize);
        Ok(())
    }
}

/// Carries one operation out on a buffer. Says whether more operations are
/// to come: the exit signal changes nothing and ends the run.
pub fn forward_data<B: OutputBuffer>(rb: &mut B, op: &ChannelData) -> (r: GzipResult<bool>)
    requires
        old(rb).inv(),
    ensures
        final(rb).infallible() == old(rb).infallible(),
        final(rb).base() == old(rb).base(),
        old(rb).sunk().is_prefix_of(final(rb).sunk()),
        final(rb).sunk().is_prefix_of(final(rb).base() + applied(old(rb)@, *op)),
        !appliable(old(rb)@, *op) ==> r == Err::<bool, GzipError>(GzipError::InvalidDeflateStream)
            && final(rb).inv() && final(rb)@ == old(rb)@,
        appliable(old(rb)@, *op) && (old(rb).infallible() || r is Ok) ==> r == Ok::<
            bool,
            GzipError,
        >(!(*op is Exit)) && final(rb).inv() && final(rb)@ == applied(old(rb)@, *op),
        appliable(old(rb)@, *op) && r is Err ==> r == Err::<bool, GzipError>(
            GzipError::CantWriteFile,
        ),
{
    let done = match op {
        ChannelData::Value(v) => rb.put_u8(*v),
        ChannelData::Vector(v) => rb.put_data(v.as_slice()),
        ChannelData::Window { length, distance } => rb.copy_window(*distance, *length),
        ChannelData::Exit => {
            proof {
                lemma_prefix_reflexive(rb.sunk());
                rb.lemma_sunk();
            }
            return Ok(false);
        },
    };
    match done {
        Ok(()) => Ok(true),
        Err(e) => Err(e),
    }
}

/// Carries the operations of a queue out on a buffer, in order, up to the
/// exit signal or the end of the queue. Gives back how many were carried
/// out.
pub fn forward_all<B: OutputBuffer>(rb: &mut B, ops: &Vec<ChannelData>) -> (r: GzipResult<usize>)
    requires
        old(rb).inv(),
    ensures
        final(rb).infallible() == old(rb).infallible(),
        final(rb).base() == old(rb).base(),
        old(rb).sunk().is_prefix_of(final(rb).sunk()),
        r matches Ok(count) ==> {
            &&& count <= ops@.len()
            &&& count < ops@.len() ==> ops@[count as int] is Exit
            &&& forall|i: int| 0 <= i < count ==> !(#[trigger] ops@[i] is Exit)
            &&& replayable(old(rb)@, ops@, count as int)
            &&& final(rb).inv()
            &&& final(rb)@ == replayed(old(rb)@, ops@, count as int)
        },
        old(rb).infallible() && replayable(old(rb)@, ops@, ops@.len() as int) ==> r is Ok,
        old(rb).infallible() && r is Err ==> r == Err::<usize, GzipError>(
            GzipError::InvalidDeflateStream,
        ),
        r matches Err(e) ==> e == GzipError::InvalidDeflateStream || e
            == GzipError::CantWriteFile,
{
    let n = ops.len();
    let mut i: usize = 0;
    while i < n
        invariant
            i <= n,
            n == ops@.len(),
            rb.inv(),
            rb.infallible() == old(rb).infallible(),
            rb.base() == old(rb).base(),
            old(rb).sunk().is_prefix_of(rb.sunk()),
            forall|k: int| 0 <= k < i ==> !(#[trigger] ops@[k] is Exit),
            replayable(old(rb)@, ops@, i as int),
            rb@ == replayed(old(rb)@, ops@, i as int),
        decreases n - i,
    {
        proof {
            lemma_replayable_prefix(old(rb)@, ops@, i + 1, n as int);
        }
        let ghost before = rb.sunk();
        let done = forward_data(rb, &ops[i]);
        proof {
            lemma_prefix_transitive(old(rb).sunk(), before, rb.sunk());
        }
        match done {
            Ok(true) => {},
            Ok(false) => {
                return Ok(i);
            },
            Err(e) => {
                return Err(e);
            },
        }
        i = i + 1;
    }
    Ok(n)
}

/// A queue that can be carried out to its end can be carried out to any
/// point before it.
pub proof fn lemma_replayable_prefix(start: Seq<u8>, ops: Seq<ChannelData>, upto: int, end: int)
    requires
        0 <= upto <= end,
    ensures
        replayable(start, ops, end) ==> replayable(start, ops, upto),
    decreases end - upto,
{
    if upto < end {
        lemma_replayable_prefix(start, ops, upto, end - 1);
    }
}

} // verus!
