//! The output stage of the decoder: literal bytes and back-references in,
//! decompressed bytes out.

use vstd::prelude::*;
use crate::errors::{GzipError, GzipResult};

verus! {

/// How far back a back-reference may reach, and the capacity of the circular
/// history.
pub const WINDOW_SIZE: usize = 32768;

/// A back-reference of `distance` can be resolved against `history`: it
/// reaches at least one byte back, not beyond the window, and not before
/// the first byte produced.
pub open spec fn reachable(history: Seq<u8>, distance: int) -> bool {
    1 <= distance <= WINDOW_SIZE && distance <= history.len()
}

/// `history` after a back-reference of `length` bytes at `distance`, copied
/// one byte at a time: each byte is the one `distance` places before the end
/// of what was produced up to then, so that a copy longer than its distance
/// repeats the bytes it has just written.
pub open spec fn copied(history: Seq<u8>, distance: int, length: nat) -> Seq<u8>
    decreases length,
{
    if length == 0 {
        history
    } else {
        let before = copied(history, distance, (length - 1) as nat);
        before.push(before[before.len() - distance])
    }
}

/// A back-reference appends `length` bytes and leaves the history before it
/// as it was. Byte `i` of the copy is byte `i % distance` of the last
/// `distance` bytes of that history: the copy repeats them in a cycle.
pub proof fn lemma_copied_cycle(history: Seq<u8>, distance: int, length: nat)
    requires
        1 <= distance <= history.len(),
    ensures
        copied(history, distance, length).len() == history.len() + length,
        forall|j: int|
            0 <= j < history.len() ==> #[trigger] copied(history, distance, length)[j]
                == history[j],
        forall|i: int|
            0 <= i < length ==> #[trigger] copied(history, distance, length)[history.len() + i]
                == history[history.len() - distance + i % distance],
    decreases length,
{
    if length > 0 {
        let m = length - 1;
        lemma_copied_cycle(history, distance, m as nat);
        let before = copied(history, distance, m as nat);
        let after = copied(history, distance, length);
        let n = history.len() as int;
        assert(after == before.push(before[before.len() - distance]));
        assert forall|i: int| 0 <= i < length implies #[trigger] after[n + i] == history[n
            - distance + i % distance] by {
            if i < m {
                assert(after[n + i] == before[n + i]);
            } else {
                assert(after[n + i] == before[n + m - distance]);
                if m < distance {
                    assert(m % distance == m) by (nonlinear_arith)
                        requires
                            0 <= m < distance,
                    ;
                    assert(before[n + m - distance] == history[n + m - distance]);
                } else {
                    let k = m - distance;
                    assert(before[n + k] == history[n - distance + k % distance]);
                    assert(m % distance == k % distance) by (nonlinear_arith)
                        requires
                            k == m - distance,
                            k >= 0,
                            distance >= 1,
                    ;
                }
            }
        }
    }
}

/// A start of a start of a sequence is a start of it.
pub proof fn lemma_prefix_transitive(a: Seq<u8>, b: Seq<u8>, c: Seq<u8>)
    requires
        a.is_prefix_of(b),
        b.is_prefix_of(c),
    ensures
        a.is_prefix_of(c),
{
    assert(a =~= c.subrange(0, a.len() as int)) by {
        assert forall|i: int| 0 <= i < a.len() implies a[i] == c[i] by {
            assert(a[i] == b.subrange(0, a.len() as int)[i]);
            assert(b[i] == c.subrange(0, b.len() as int)[i]);
        }
    }
}

/// A start of a sequence is a start of that sequence with more behind it.
pub proof fn lemma_prefix_of_longer(a: Seq<u8>, b: Seq<u8>, more: Seq<u8>)
    requires
        a.is_prefix_of(b),
    ensures
        a.is_prefix_of(b + more),
        b.is_prefix_of(b + more),
{
    assert(b =~= (b + more).subrange(0, b.len() as int));
    lemma_prefix_transitive(a, b, b + more);
}

/// Starts stay starts behind a common front.
pub proof fn lemma_prefix_behind(front: Seq<u8>, a: Seq<u8>, b: Seq<u8>)
    requires
        a.is_prefix_of(b),
    ensures
        (front + a).is_prefix_of(front + b),
{
    assert((front + a) =~= (front + b).subrange(0, (front + a).len() as int)) by {
        assert forall|i: int| 0 <= i < (front + a).len() implies (front + a)[i] == (front
            + b)[i] by {
            if i >= front.len() {
                assert(a[i - front.len()] == b.subrange(0, a.len() as int)[i - front.len()]);
            }
        }
    }
}

/// A sequence starts itself.
pub proof fn lemma_prefix_reflexive(a: Seq<u8>)
    ensures
        a.is_prefix_of(a),
{
    assert(a =~= a.subrange(0, a.len() as int));
}

/// Behind a front and a history, a start of some data comes before the
/// whole of it.
pub proof fn lemma_partial_data(front: Seq<u8>, history: Seq<u8>, data: Seq<u8>, k: int)
    requires
        0 <= k <= data.len(),
    ensures
        (front + (history + data.subrange(0, k))).is_prefix_of(front + (history + data)),
        (front + history).is_prefix_of(front + (history + data)),
{
    let part = data.subrange(0, k);
    assert(part =~= data.subrange(0, part.len() as int));
    lemma_prefix_behind(history, part, data);
    lemma_prefix_behind(front, history + part, history + data);
    lemma_prefix_reflexive(history);
    lemma_prefix_of_longer(history, history, data);
    lemma_prefix_behind(front, history, history + data);
}

/// A sink that holds a start of what was produced holds a start of what
/// will have been produced.
pub proof fn lemma_sunk_within(sunk: Seq<u8>, front: Seq<u8>, now: Seq<u8>, then: Seq<u8>)
    requires
        sunk.is_prefix_of(front + now),
        now.is_prefix_of(then),
    ensures
        sunk.is_prefix_of(front + then),
{
    lemma_prefix_behind(front, now, then);
    lemma_prefix_transitive(sunk, front + now, front + then);
}

/// A back-reference that is longer goes on where the shorter one ends.
pub proof fn lemma_copied_extends(history: Seq<u8>, distance: int, short: nat, long: nat)
    requires
        short <= long,
    ensures
        copied(history, distance, short).is_prefix_of(copied(history, distance, long)),
        history.is_prefix_of(copied(history, distance, long)),
    decreases long,
{
    if long == 0 {
        assert(history =~= history.subrange(0, history.len() as int));
    } else if short == long {
        let whole = copied(history, distance, long);
        assert(whole =~= whole.subrange(0, whole.len() as int));
        lemma_copied_extends(history, distance, 0, (long - 1) as nat);
        let before = copied(history, distance, (long - 1) as nat);
        assert(before =~= whole.subrange(0, before.len() as int));
        lemma_prefix_transitive(history, before, whole);
    } else {
        lemma_copied_extends(history, distance, short, (long - 1) as nat);
        let before = copied(history, distance, (long - 1) as nat);
        let whole = copied(history, distance, long);
        assert(before =~= whole.subrange(0, before.len() as int));
        lemma_prefix_transitive(copied(history, distance, short), before, whole);
        lemma_prefix_transitive(history, before, whole);
    }
}

/// The output stage: a history of everything produced so far, which takes
/// literal bytes and resolves back-references against itself.
///
/// The model of a buffer is that history, `view()`. A buffer hands its bytes
/// on to a sink, at once or later; `sunk()` is what the sink holds, `base()`
/// what it held before the buffer. The writes of a sink may fail; a buffer
/// that is `infallible()` never fails for that reason. A buffer whose sink
/// has refused a write is of no more use, but its sink still holds what it
/// held before, and then a start of what was to be written.
pub trait OutputBuffer {
    /// The representation is consistent.
    spec fn inv(&self) -> bool;

    /// Every byte produced so far, in order.
    spec fn view(&self) -> Seq<u8>;

    /// No write to the sink behind this buffer fails.
    spec fn infallible(&self) -> bool;

    /// What the sink behind this buffer held when the buffer was made.
    spec fn base(&self) -> Seq<u8>;

    /// What the sink behind this buffer holds. It only grows: what was
    /// handed on stays written, whatever fails later.
    spec fn sunk(&self) -> Seq<u8>;

    /// The sink holds what it held before, and then a start of what was
    /// produced: nothing else ever reaches it.
    proof fn lemma_sunk(&self)
        requires
            self.inv(),
        ensures
            self.sunk().is_prefix_of(self.base() + self@),
    ;

    /// Appends one literal byte.
    fn put_u8(&mut self, data: u8) -> (r: GzipResult<()>)
        requires
            old(self).inv(),
        ensures
            final(self).infallible() == old(self).infallible(),
            final(self).base() == old(self).base(),
            old(self).sunk().is_prefix_of(final(self).sunk()),
            final(self).sunk().is_prefix_of(final(self).base() + old(self)@.push(data)),
            old(self).infallible() ==> r is Ok,
            r is Err ==> r == Err::<(), GzipError>(GzipError::CantWriteFile),
            r is Ok ==> final(self).inv() && final(self)@ == old(self)@.push(data),
    ;

    /// Appends the bytes of `data` in order, one by one.
    fn put_data(&mut self, data: &[u8]) -> (r: GzipResult<()>)
        requires
            old(self).inv(),
        ensures
            final(self).infallible() == old(self).infallible(),
            final(self).base() == old(self).base(),
            old(self).sunk().is_prefix_of(final(self).sunk()),
            final(self).sunk().is_prefix_of(final(self).base() + (old(self)@ + data@)),
            old(self).infallible() ==> r is Ok,
            r is Err ==> r == Err::<(), GzipError>(GzipError::CantWriteFile),
            r is Ok ==> final(self).inv() && final(self)@ == old(self)@ + data@,
    {
        let n = data.len();
        let mut i: usize = 0;
        proof {
            lemma_prefix_reflexive(self.sunk());
            lemma_partial_data(self.base(), self@, data@, 0);
            self.lemma_sunk();
            lemma_prefix_transitive(
                self.sunk(),
                self.base() + self@,
                self.base() + (self@ + data@),
            );
        }
        while i < n
            invariant
                i <= n,
                n == data@.len(),
                self.inv(),
                self.infallible() == old(self).infallible(),
                self.base() == old(self).base(),
                old(self).sunk().is_prefix_of(self.sunk()),
                self@ == old(self)@ + data@.subrange(0, i as int),
            decreases n - i,
        {
            let ghost before = self.sunk();
            let done = self.put_u8(data[i]);
            proof {
                lemma_prefix_transitive(old(self).sunk(), before, self.sunk());
                assert((old(self)@ + data@.subrange(0, i as int)).push(data@[i as int])
                    =~= old(self)@ + data@.subrange(0, i + 1));
                lemma_partial_data(self.base(), old(self)@, data@, i + 1);
                lemma_prefix_transitive(
                    self.sunk(),
                    self.base() + (old(self)@ + data@.subrange(0, i + 1)),
                    self.base() + (old(self)@ + data@),
                );
            }
            match done {
                Ok(()) => {},
                Err(e) => {
                    return Err(e);
                },
            }
            i = i + 1;
        }
        proof {
            assert(data@.subrange(0, n as int) == data@);
            self.lemma_sunk();
        }
        Ok(())
    }

    /// Resolves a back-reference: appends `length` bytes, each a copy of the
    /// byte `distance` places before it. A distance that cannot be resolved
    /// fails with `InvalidDeflateStream` and changes nothing.
    fn copy_window(&mut self, distance: u32, length: u32) -> (r: GzipResult<()>)
        requires
            old(self).inv(),
        ensures
            final(self).infallible() == old(self).infallible(),
            final(self).base() == old(self).base(),
            old(self).sunk().is_prefix_of(final(self).sunk()),
            final(self).sunk().is_prefix_of(
                final(self).base() + copied(old(self)@, distance as int, length as nat),
            ),
            !reachable(old(self)@, distance as int) ==> r == Err::<(), GzipError>(
                GzipError::InvalidDeflateStream,
            ) && final(self).inv() && final(self)@ == old(self)@,
            reachable(old(self)@, distance as int) && old(self).infallible() ==> r is Ok,
            reachable(old(self)@, distance as int) && r is Err ==> r == Err::<(), GzipError>(
                GzipError::CantWriteFile,
            ),
            reachable(old(self)@, distance as int) && r is Ok ==> final(self).inv()
                && final(self)@ == copied(old(self)@, distance as int, length as nat),
    ;
}

} // verus!
