//! Byte storage in a ring: the byte of stream offset `o` lives in slot
//! `o mod capacity`, so a window of `capacity` offsets fits without moving
//! anything when the window slides.

use vstd::prelude::*;
use vstd::arithmetic::div_mod::{lemma_mod_bound, lemma_mod_equivalence, lemma_small_mod};
use crate::gap_tracker::GapTracker;
use crate::ranges::lemma_run_len_to_end;
use crate::store::ByteStore;

verus! {

/// Two different offsets less than `cap` apart fall into different slots.
pub proof fn lemma_slots_differ(a: int, b: int, cap: int)
    requires
        cap > 0,
        a < b < a + cap,
    ensures
        a % cap != b % cap,
{
    lemma_mod_equivalence(b, a, cap);
    lemma_small_mod((b - a) as nat, cap as nat);
}

/// A ring of byte slots.
pub struct RingStore {
    ring: Vec<u8>,
}

impl RingStore {
    /// The slots of the ring.
    pub closed spec fn slots(&self) -> Seq<u8> {
        self.ring@
    }

    /// A ring of `capacity` slots.
    pub fn new(capacity: usize) -> (s: Self)
        ensures
            s.capacity() == capacity,
            forall|i: int| 0 <= i < capacity ==> s.slots()[i] == 0u8,
    {
        RingStore { ring: vec![0u8; capacity] }
    }

    /// The number of slots.
    pub fn slot_count(&self) -> (n: usize)
        ensures
            n == self.capacity(),
    {
        self.ring.len()
    }

    /// Copies `data[lo..hi]` to the slots of offsets `at`, `at + 1`, ...
    /// The offsets lie in the window of `capacity` offsets that starts at
    /// `base`; every other offset of that window keeps its byte.
    fn put(&mut self, base: u64, at: u64, data: &[u8], lo: usize, hi: usize)
        requires
            lo <= hi <= data@.len(),
            base <= at,
            at + (hi - lo) <= base + old(self).capacity(),
            at + (hi - lo) <= u64::MAX,
        ensures
            final(self).capacity() == old(self).capacity(),
            forall|o: int|
                base <= o < base + old(self).capacity() ==> #[trigger] final(self).byte_at(o) == (
                if at <= o < at + (hi - lo) {
                    data@[lo + (o - at)]
                } else {
                    old(self).byte_at(o)
                }),
    {
        let cap: usize = self.ring.len();
        let mut i: usize = lo;
        while i < hi
            invariant
                lo <= i <= hi <= data@.len(),
                base <= at,
                at + (hi - lo) <= base + cap,
                at + (hi - lo) <= u64::MAX,
                cap == self.ring@.len(),
                cap == old(self).ring@.len(),
                forall|o: int|
                    base <= o < base + cap ==> #[trigger] self.byte_at(o) == (if at <= o < at + (i
                        - lo) {
                        data@[lo + (o - at)]
                    } else {
                        old(self).byte_at(o)
                    }),
            decreases hi - i,
        {
            let offset: u64 = at + (i - lo) as u64;
            let slot: usize = (offset % (cap as u64)) as usize;
            let ghost before = *self;
            proof {
                lemma_mod_bound(offset as int, cap as int);
            }
            self.ring[slot] = data[i];
            proof {
                assert forall|o: int| base <= o < base + cap implies #[trigger] self.byte_at(o) == (
                if at <= o < at + (i + 1 - lo) {
                    data@[lo + (o - at)]
                } else {
                    old(self).byte_at(o)
                }) by {
                    lemma_mod_bound(o, cap as int);
                    if o < offset {
                        lemma_slots_differ(o, offset as int, cap as int);
                    } else if o > offset {
                        lemma_slots_differ(offset as int, o, cap as int);
                    }
                    assert(before.byte_at(o) == before.ring@[o % (cap as int)]);
                }
            }
            i = i + 1;
        }
    }
}

impl ByteStore for RingStore {
    /// The number of slots.
    open spec fn capacity(&self) -> nat {
        self.slots().len()
    }

    /// The byte in the slot of stream offset `o`.
    open spec fn byte_at(&self, o: int) -> u8 {
        self.slots()[o % (self.slots().len() as int)]
    }

    /// What was received from `base` on lies less than a ring's length
    /// above `base`, so that no two of those offsets share a slot.
    open spec fn in_step(&self, received: Set<int>, base: int) -> bool {
        forall|o: int| base <= o && received.contains(o) ==> o < base + self.capacity()
    }

    fn write(&mut self, tracker: &GapTracker, base: u64, offset: u64, bytes: &[u8]) {
        let len: usize = bytes.len();
        let end: u64 = offset + len as u64;
        let mut pos: u64 = offset;
        while pos < end
            invariant
                tracker.wf(),
                offset <= pos <= end,
                len == bytes@.len(),
                end == offset + len,
                end <= base + self.capacity(),
                forall|o: int| 0 <= o < base ==> tracker@.contains(o),
                self.capacity() == old(self).capacity(),
                forall|o: int|
                    base <= o < base + self.capacity() ==> #[trigger] self.byte_at(o) == (if offset
                        <= o < pos && !tracker@.contains(o) {
                        bytes@[o - offset]
                    } else {
                        old(self).byte_at(o)
                    }),
            decreases end - pos,
        {
            let seen_end: u64 = tracker.contiguous_prefix_end(pos);
            if seen_end > pos {
                pos = if seen_end < end { seen_end } else { end };
            } else {
                let gap: u64 = tracker.gap_end(pos, end);
                let lo: usize = (pos - offset) as usize;
                let hi: usize = (gap - offset) as usize;
                proof {
                    assert(!tracker@.contains(pos as int));
                    assert(gap > pos);
                }
                self.put(base, pos, bytes, lo, hi);
                pos = gap;
            }
        }
    }

    fn read(&self, tracker: &GapTracker, from: u64, max_len: usize) -> (out: Vec<u8>) {
        let e: u64 = tracker.contiguous_prefix_end(from);
        let run: u64 = e - from;
        let n: usize = if run < max_len as u64 { run as usize } else { max_len };
        proof {
            lemma_run_len_to_end(tracker@, from as int, e as int, max_len as nat);
            if e > from {
                assert(tracker@.contains(e - 1));
            }
        }
        let cap: usize = self.ring.len();
        let mut out: Vec<u8> = Vec::with_capacity(n);
        let mut i: usize = 0;
        while i < n
            invariant
                i <= n,
                n <= e - from,
                e - from <= cap,
                cap == self.ring@.len(),
                out@.len() == i,
                forall|k: int| 0 <= k < i ==> out@[k] == self.byte_at(from + k),
            decreases n - i,
        {
            let offset: u64 = from + i as u64;
            proof {
                lemma_mod_bound(offset as int, cap as int);
            }
            let slot: usize = (offset % (cap as u64)) as usize;
            out.push(self.ring[slot]);
            i = i + 1;
        }
        proof {
            assert(out@ =~= Seq::new(n as nat, |i: int| self.byte_at(from + i)));
        }
        out
    }

    /// The slots of the released offsets are overwritten with zeros, so that
    /// consumed data does not linger in memory.
    fn release_below(&mut self, tracker: &GapTracker, base: u64, offset: u64)
        ensures
            forall|o: int| base <= o < offset ==> #[trigger] final(self).byte_at(o) == 0u8,
    {
        let cap: usize = self.ring.len();
        proof {
            if offset > base {
                assert(tracker@.contains(offset - 1));
            }
        }
        let mut pos: u64 = base;
        while pos < offset
            invariant
                base <= pos <= offset,
                offset <= base + cap,
                cap == self.ring@.len(),
                cap == old(self).ring@.len(),
                forall|o: int|
                    base <= o < base + cap ==> #[trigger] self.byte_at(o) == (if o < pos {
                        0u8
                    } else {
                        old(self).byte_at(o)
                    }),
            decreases offset - pos,
        {
            let ghost before = *self;
            proof {
                lemma_mod_bound(pos as int, cap as int);
            }
            let slot: usize = (pos % (cap as u64)) as usize;
            self.ring[slot] = 0;
            proof {
                assert forall|o: int| base <= o < base + cap implies #[trigger] self.byte_at(o) == (
                if o < pos + 1 {
                    0u8
                } else {
                    old(self).byte_at(o)
                }) by {
                    lemma_mod_bound(o, cap as int);
                    if o < pos {
                        lemma_slots_differ(o, pos as int, cap as int);
                    } else if o > pos {
                        lemma_slots_differ(pos as int, o, cap as int);
                    }
                    assert(before.byte_at(o) == before.ring@[o % (cap as int)]);
                }
            }
            pos = pos + 1;
        }
    }

    /// The bytes move into a new ring of `capacity` slots, each to the slot
    /// that its offset has there.
    fn set_capacity(&mut self, tracker: &GapTracker, base: u64, capacity: usize) {
        let old_cap: usize = self.ring.len();
        let highest: u64 = tracker.highest_received();
        let end: u64 = if highest > base { highest } else { base };
        proof {
            tracker.lemma_highest();
            if highest > base {
                assert(tracker@.contains(highest - 1));
            }
        }
        let mut ring: Vec<u8> = vec![0u8; capacity];
        let mut pos: u64 = base;
        while pos < end
            invariant
                base <= pos <= end,
                end - base <= old_cap,
                end - base <= capacity,
                old_cap == self.ring@.len(),
                capacity == ring@.len(),
                *self == *old(self),
                forall|o: int|
                    base <= o < pos ==> #[trigger] ring@[o % (capacity as int)] == self.byte_at(o),
            decreases end - pos,
        {
            proof {
                lemma_mod_bound(pos as int, capacity as int);
                lemma_mod_bound(pos as int, old_cap as int);
            }
            let from_slot: usize = (pos % (old_cap as u64)) as usize;
            let to_slot: usize = (pos % (capacity as u64)) as usize;
            let ghost before = ring@;
            ring[to_slot] = self.ring[from_slot];
            proof {
                assert forall|o: int| base <= o < pos + 1 implies #[trigger] ring@[o % (
                capacity as int)] == self.byte_at(o) by {
                    lemma_mod_bound(o, capacity as int);
                    if o < pos {
                        lemma_slots_differ(o, pos as int, capacity as int);
                        assert(before[o % (capacity as int)] == self.byte_at(o));
                    }
                }
            }
            pos = pos + 1;
        }
        self.ring = ring;
    }
}

} // verus!
