//! The choice between the two byte stores, made when a buffer is created.

use vstd::prelude::*;
use crate::chunk_store::ChunkStore;
use crate::gap_tracker::GapTracker;
use crate::ring_store::RingStore;
use crate::store::ByteStore;

verus! {

/// How a buffer stores its bytes.
#[derive(Clone, Copy, Debug, PartialEq, Eq, Structural)]
pub enum StorageStrategy {
    /// A ring of as many slots as the capacity: nothing is allocated while
    /// data flows, and a change of capacity moves what is buffered.
    Ring,
    /// A list of chunks: memory follows what is buffered, and a change of
    /// capacity costs nothing.
    Chunks,
}

/// One of the two byte stores.
pub enum Storage {
    Ring(RingStore),
    Chunks(ChunkStore),
}

impl Storage {
    /// Which of the two stores this is.
    pub open spec fn strategy_of(&self) -> StorageStrategy {
        match self {
            Storage::Ring(_) => StorageStrategy::Ring,
            Storage::Chunks(_) => StorageStrategy::Chunks,
        }
    }

    /// An empty store of the chosen kind, with room for `capacity` bytes.
    pub fn new(strategy: StorageStrategy, capacity: usize) -> (s: Self)
        ensures
            s.strategy_of() == strategy,
            s.capacity() == capacity,
            forall|base: int| s.in_step(Set::<int>::empty(), base),
    {
        match strategy {
            StorageStrategy::Ring => Storage::Ring(RingStore::new(capacity)),
            StorageStrategy::Chunks => Storage::Chunks(ChunkStore::new(capacity)),
        }
    }

    /// Which of the two stores this is.
    pub fn strategy(&self) -> (s: StorageStrategy)
        ensures
            s == self.strategy_of(),
    {
        match self {
            Storage::Ring(_) => StorageStrategy::Ring,
            Storage::Chunks(_) => StorageStrategy::Chunks,
        }
    }
}

impl ByteStore for Storage {
    open spec fn capacity(&self) -> nat {
        match self {
            Storage::Ring(r) => r.capacity(),
            Storage::Chunks(c) => c.capacity(),
        }
    }

    open spec fn byte_at(&self, o: int) -> u8 {
        match self {
            Storage::Ring(r) => r.byte_at(o),
            Storage::Chunks(c) => c.byte_at(o),
        }
    }

    open spec fn in_step(&self, received: Set<int>, base: int) -> bool {
        match self {
            Storage::Ring(r) => r.in_step(received, base),
            Storage::Chunks(c) => c.in_step(received, base),
        }
    }

    /// The store keeps its kind.
    fn write(&mut self, tracker: &GapTracker, base: u64, offset: u64, bytes: &[u8])
        ensures
            final(self).strategy_of() == old(self).strategy_of(),
    {
        match self {
            Storage::Ring(r) => r.write(tracker, base, offset, bytes),
            Storage::Chunks(c) => c.write(tracker, base, offset, bytes),
        }
    }

    fn read(&self, tracker: &GapTracker, from: u64, max_len: usize) -> (out: Vec<u8>) {
        match self {
            Storage::Ring(r) => r.read(tracker, from, max_len),
            Storage::Chunks(c) => c.read(tracker, from, max_len),
        }
    }

    /// The store keeps its kind.
    fn release_below(&mut self, tracker: &GapTracker, base: u64, offset: u64)
        ensures
            final(self).strategy_of() == old(self).strategy_of(),
    {
        match self {
            Storage::Ring(r) => r.release_below(tracker, base, offset),
            Storage::Chunks(c) => c.release_below(tracker, base, offset),
        }
    }

    /// The store keeps its kind.
    fn set_capacity(&mut self, tracker: &GapTracker, base: u64, capacity: usize)
        ensures
            final(self).strategy_of() == old(self).strategy_of(),
    {
        match self {
            Storage::Ring(r) => r.set_capacity(tracker, base, capacity),
            Storage::Chunks(c) => c.set_capacity(tracker, base, capacity),
        }
    }
}

} // verus!
