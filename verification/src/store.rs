//! What the receive buffer asks of its byte storage. Two stores meet it: a
//! ring of fixed slots and a list of chunks. Which one a buffer uses is
//! chosen when the buffer is made.

use vstd::prelude::*;
use crate::gap_tracker::GapTracker;
use crate::ranges::{run_len, span};

verus! {

/// Storage for the received bytes that have not been consumed. The store is
/// told by a gap tracker which offsets have been received; it keeps the byte
/// of each of them from a base offset on, and each byte once.
pub trait ByteStore: Sized {
    /// How many offsets from the base on the store has room for.
    spec fn capacity(&self) -> nat;

    /// The byte that the store has for offset `o`.
    spec fn byte_at(&self, o: int) -> u8;

    /// The store is in step with the set of received offsets from `base`
    /// on: it has a place for each of them.
    spec fn in_step(&self, received: Set<int>, base: int) -> bool;

    /// Stores the bytes of `[offset, offset + bytes.len())` that `tracker`
    /// has not yet seen, and leaves alone those it has: a byte that was
    /// stored once is not copied again. Afterwards the store is in step
    /// with what the tracker will hold once the range is inserted.
    fn write(&mut self, tracker: &GapTracker, base: u64, offset: u64, bytes: &[u8])
        requires
            tracker.wf(),
            old(self).in_step(tracker@, base as int),
            forall|o: int| 0 <= o < base ==> tracker@.contains(o),
            offset + bytes@.len() <= u64::MAX,
            offset + bytes@.len() <= base + old(self).capacity(),
        ensures
            final(self).capacity() == old(self).capacity(),
            final(self).in_step(
                tracker@.union(span(offset as int, offset + bytes@.len())),
                base as int,
            ),
            forall|o: int|
                base <= o && (tracker@.contains(o) || offset <= o < offset + bytes@.len())
                    ==> #[trigger] final(self).byte_at(o) == (if tracker@.contains(o) {
                    old(self).byte_at(o)
                } else {
                    bytes@[o - offset]
                }),
    ;

    /// The longest run of received bytes that starts at `from`, up to
    /// `max_len` bytes. Empty when `from` itself has not been received.
    fn read(&self, tracker: &GapTracker, from: u64, max_len: usize) -> (out: Vec<u8>)
        requires
            tracker.wf(),
            self.in_step(tracker@, from as int),
        ensures
            out@ == Seq::new(
                run_len(tracker@, from as int, max_len as nat),
                |i: int| self.byte_at(from + i),
            ),
    ;

    /// Gives up the storage of the offsets in `[base, offset)`, all of them
    /// received. The offsets from `offset` on keep their bytes.
    fn release_below(&mut self, tracker: &GapTracker, base: u64, offset: u64)
        requires
            tracker.wf(),
            old(self).in_step(tracker@, base as int),
            base <= offset,
            forall|o: int| base <= o < offset ==> tracker@.contains(o),
        ensures
            final(self).capacity() == old(self).capacity(),
            final(self).in_step(tracker@, offset as int),
            forall|o: int|
                offset <= o && tracker@.contains(o) ==> #[trigger] final(self).byte_at(o) == old(
                    self,
                ).byte_at(o),
    ;

    /// Changes the room of the store to `capacity` offsets, which is enough
    /// for what has been received from `base` on. Every one of those offsets
    /// keeps its byte.
    fn set_capacity(&mut self, tracker: &GapTracker, base: u64, capacity: usize)
        requires
            tracker.wf(),
            old(self).in_step(tracker@, base as int),
            forall|o: int| base <= o && tracker@.contains(o) ==> o < base + capacity,
        ensures
            final(self).capacity() == capacity,
            final(self).in_step(tracker@, base as int),
            forall|o: int|
                base <= o && tracker@.contains(o) ==> #[trigger] final(self).byte_at(o) == old(
                    self,
                ).byte_at(o),
    ;
}

} // verus!
