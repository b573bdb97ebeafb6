//! The receive buffer of one stream: it takes the byte ranges that STREAM
//! frames carry, in whatever order they arrive, and hands the application
//! the stream in order.

use vstd::prelude::*;
use crate::error::BufferError;
use crate::final_size::FinalSizeTracker;
use crate::gap_tracker::GapTracker;
use crate::model::{lemma_pop_wf, lemma_write_wf, BufferModel, StreamState};
use crate::ranges::lemma_run_len_to_end;
use crate::storage::{Storage, StorageStrategy};
use crate::store::ByteStore;

verus! {

/// The receive buffer of one stream.
pub struct ReceiveBuffer {
    tracker: GapTracker,
    store: Storage,
    final_size: FinalSizeTracker,
    watermark: u64,
    capacity: usize,
    reset: bool,
}

impl View for ReceiveBuffer {
    type V = BufferModel;

    closed spec fn view(&self) -> BufferModel {
        BufferModel {
            capacity: self.capacity as nat,
            watermark: self.watermark as nat,
            highest: self.tracker.highest() as nat,
            final_size: match self.final_size@ {
                Some(f) => Some(f as nat),
                None => None,
            },
            reset: self.reset,
            received: self.tracker@,
            content: Map::new(
                |o: int| self.tracker@.contains(o) && o >= self.watermark,
                |o: int| self.store.byte_at(o),
            ),
        }
    }
}

impl ReceiveBuffer {
    /// The parts of the buffer fit together, and its model is well formed.
    pub closed spec fn wf(&self) -> bool {
        &&& self.tracker.wf()
        &&& self.store.capacity() == self.capacity
        &&& self.store.in_step(self.tracker@, self.watermark as int)
        &&& self@.wf()
    }

    /// A well-formed buffer has a well-formed model, within the limits of
    /// the machine.
    pub proof fn lemma_wf(&self)
        requires
            self.wf(),
        ensures
            self@.wf(),
            self@.capacity <= usize::MAX,
            self@.highest <= u64::MAX,
    {
        self.tracker.lemma_highest();
    }

    /// How the buffer stores its bytes.
    pub closed spec fn strategy_of(&self) -> StorageStrategy {
        self.store.strategy_of()
    }

    /// The buffer of a newly opened stream, with room for `capacity`
    /// unconsumed bytes, which it stores in a ring.
    pub fn new(capacity: usize) -> (b: Self)
        ensures
            b.wf(),
            b@ == BufferModel::fresh(capacity as nat),
            b.strategy_of() == StorageStrategy::Ring,
    {
        ReceiveBuffer::with_storage(capacity, StorageStrategy::Ring)
    }

    /// The buffer of a newly opened stream, with room for `capacity`
    /// unconsumed bytes, which it stores as `strategy` says.
    pub fn with_storage(capacity: usize, strategy: StorageStrategy) -> (b: Self)
        ensures
            b.wf(),
            b@ == BufferModel::fresh(capacity as nat),
            b.strategy_of() == strategy,
    {
        let b = ReceiveBuffer {
            tracker: GapTracker::new(),
            store: Storage::new(strategy, capacity),
            final_size: FinalSizeTracker::new(),
            watermark: 0,
            capacity,
            reset: false,
        };
        proof {
            assert(b@.content =~= Map::<int, u8>::empty());
            assert(b@.received =~= Set::<int>::empty());
        }
        b
    }

    /// Takes the bytes of one STREAM frame: `bytes` at `offset`, with
    /// `contains_fin` set where the frame ends the stream. The answer and
    /// the new state are those of the model; a refused write changes
    /// nothing.
    pub fn write(&mut self, offset: u64, bytes: &[u8], contains_fin: bool) -> (r: Result<
        (),
        BufferError,
    >)
        requires
            old(self).wf(),
            offset + bytes@.len() <= u64::MAX,
        ensures
            final(self).wf(),
            r == old(self)@.write_result(offset as nat, bytes@.len(), contains_fin),
            final(self)@ == old(self)@.write(offset as nat, bytes@, contains_fin),
            final(self).strategy_of() == old(self).strategy_of(),
    {
        let len: usize = bytes.len();
        let end: u64 = offset + len as u64;
        proof {
            self.tracker.lemma_highest();
        }
        if self.reset {
            return Err(BufferError::StreamReset);
        }
        if contains_fin {
            match self.final_size.check_final_size(end) {
                Err(e) => {
                    return Err(e);
                },
                Ok(()) => {},
            }
        }
        match self.final_size.validate_write_end(end) {
            Err(e) => {
                return Err(e);
            },
            Ok(()) => {},
        }
        if contains_fin && self.tracker.highest_received() > end {
            return Err(BufferError::DataPastFinalSize);
        }
        if end > self.watermark && end - self.watermark > self.capacity as u64 {
            return Err(BufferError::WindowExceeded);
        }
        let ghost before = *self;
        if contains_fin {
            let _ = self.final_size.set_final_size(end);
        }
        self.store.write(&self.tracker, self.watermark, offset, bytes);
        let _ = self.tracker.insert(offset, end);
        proof {
            let model = before@.accept_write(offset as nat, bytes@, contains_fin);
            assert(self@.received =~= model.received);
            assert(self@.content =~= model.content);
            assert(self@ == model);
            lemma_write_wf(before@, offset as nat, bytes@, contains_fin);
        }
        Ok(())
    }

    /// The bytes that can be read next: the run of received bytes that
    /// starts at the consumed watermark, up to `max_len` of them. Empty
    /// where the next byte is missing. Reading consumes nothing.
    pub fn read(&self, max_len: usize) -> (out: Vec<u8>)
        requires
            self.wf(),
        ensures
            out@ == self@.readable(max_len as nat),
    {
        proof {
            self.tracker.lemma_highest();
        }
        let out = self.store.read(&self.tracker, self.watermark, max_len);
        proof {
            assert(out@ =~= self@.readable(max_len as nat)) by {
                crate::ranges::lemma_run_len_is_run(
                    self.tracker@,
                    self.watermark as int,
                    max_len as nat,
                );
            }
        }
        out
    }

    /// Acknowledges that the application has consumed the next `n` bytes:
    /// the watermark moves up by `n` and their storage is given up. Refused
    /// where fewer than `n` bytes are readable without a gap.
    pub fn pop_consumed(&mut self, n: usize) -> (r: Result<(), BufferError>)
        requires
            old(self).wf(),
        ensures
            final(self).wf(),
            r == old(self)@.pop_result(n as nat),
            final(self)@ == old(self)@.pop(n as nat),
            final(self).strategy_of() == old(self).strategy_of(),
    {
        proof {
            self.tracker.lemma_highest();
        }
        if self.reset {
            return Err(BufferError::StreamReset);
        }
        let e: u64 = self.tracker.contiguous_prefix_end(self.watermark);
        proof {
            lemma_run_len_to_end(self.tracker@, self.watermark as int, e as int, n as nat);
            if e > self.watermark {
                assert(self.tracker@.contains(e - 1));
            }
        }
        if n as u64 > e - self.watermark {
            return Err(BufferError::InsufficientData);
        }
        let ghost before = *self;
        let next: u64 = self.watermark + n as u64;
        self.store.release_below(&self.tracker, self.watermark, next);
        self.watermark = next;
        proof {
            let model = before@.pop(n as nat);
            assert(self@.content =~= model.content);
            assert(self@ == model);
            lemma_pop_wf(before@, n as nat);
        }
        Ok(())
    }

    /// How many more bytes beyond the highest received offset the window
    /// has room for.
    pub fn available_window(&self) -> (w: usize)
        requires
            self.wf(),
        ensures
            w == self@.available_window(),
            w == self@.capacity - (self@.highest - self@.watermark),
    {
        proof {
            self.tracker.lemma_highest();
        }
        let buffered: u64 = self.tracker.highest_received() - self.watermark;
        self.capacity - buffered as usize
    }

    /// Sets the capacity. Refused where the new capacity cannot hold what
    /// is buffered and unconsumed.
    pub fn set_capacity(&mut self, new_capacity: usize) -> (r: Result<(), BufferError>)
        requires
            old(self).wf(),
        ensures
            final(self).wf(),
            r == old(self)@.set_capacity_result(new_capacity as nat),
            final(self)@ == old(self)@.set_capacity(new_capacity as nat),
            final(self).strategy_of() == old(self).strategy_of(),
    {
        proof {
            self.tracker.lemma_highest();
        }
        if self.reset {
            return Err(BufferError::StreamReset);
        }
        let highest: u64 = self.tracker.highest_received();
        if (new_capacity as u64) < highest - self.watermark {
            return Err(BufferError::CapacityBelowBuffered);
        }
        let ghost before = *self;
        self.store.set_capacity(&self.tracker, self.watermark, new_capacity);
        self.capacity = new_capacity;
        proof {
            let model = before@.set_capacity(new_capacity as nat);
            assert(self@.content =~= model.content);
            assert(self@ == model);
        }
        Ok(())
    }

    /// Abandons the stream: everything the buffer holds and knows is
    /// discarded, and from now on it refuses every operation.
    pub fn reset(&mut self)
        ensures
            final(self).wf(),
            final(self)@ == BufferModel::reset(),
            final(self).strategy_of() == old(self).strategy_of(),
    {
        self.tracker.clear();
        self.store = Storage::new(self.store.strategy(), 0);
        self.final_size.clear();
        self.watermark = 0;
        self.capacity = 0;
        self.reset = true;
        proof {
            assert(self@.content =~= Map::<int, u8>::empty());
            assert(self@.received =~= Set::<int>::empty());
        }
    }

    /// Whether the whole stream has been consumed: the final size is known
    /// and the watermark has reached it.
    pub fn is_stream_complete(&self) -> (b: bool)
        ensures
            b == self@.complete(),
    {
        self.final_size.is_stream_complete(self.watermark)
    }

    /// The state of the stream.
    pub fn state(&self) -> (s: StreamState)
        ensures
            s == self@.state(),
    {
        if self.reset {
            StreamState::Reset
        } else {
            match self.final_size.final_size() {
                None => StreamState::Receiving,
                Some(f) => if self.watermark == f {
                    StreamState::Finished
                } else {
                    StreamState::Draining
                },
            }
        }
    }

    /// How the buffer stores its bytes.
    pub fn storage_strategy(&self) -> (s: StorageStrategy)
        ensures
            s == self.strategy_of(),
    {
        self.store.strategy()
    }

    /// The tracker of the received offsets, to look at its ranges.
    pub fn tracker(&self) -> (t: &GapTracker)
        requires
            self.wf(),
        ensures
            t.wf(),
            t@ == self@.received,
            t.highest() == self@.highest,
    {
        proof {
            self.tracker.lemma_highest();
        }
        &self.tracker
    }

    /// The capacity of the window.
    pub fn capacity(&self) -> (c: usize)
        ensures
            c == self@.capacity,
    {
        self.capacity
    }

    /// The offset below which everything has been consumed.
    pub fn consumed_watermark(&self) -> (w: u64)
        ensures
            w == self@.watermark,
    {
        self.watermark
    }

    /// One past the highest offset received, or 0.
    pub fn highest_received_offset(&self) -> (h: u64)
        requires
            self.wf(),
        ensures
            h == self@.highest,
    {
        proof {
            self.tracker.lemma_highest();
        }
        self.tracker.highest_received()
    }

    /// The final size of the stream, once known.
    pub fn final_size(&self) -> (f: Option<u64>)
        ensures
            match f {
                Some(n) => self@.final_size == Some(n as nat),
                None => self@.final_size is None,
            },
    {
        self.final_size.final_size()
    }

    /// How many bytes can be read without meeting a gap.
    pub fn readable_len(&self) -> (n: u64)
        requires
            self.wf(),
        ensures
            n == self@.readable_len((self@.highest - self@.watermark) as nat),
            forall|max_len: nat| self@.readable_len(max_len) == (if max_len < n { max_len } else { n as nat }),
    {
        proof {
            self.tracker.lemma_highest();
        }
        let e: u64 = self.tracker.contiguous_prefix_end(self.watermark);
        proof {
            if e > self.watermark {
                assert(self.tracker@.contains(e - 1));
            }
            assert forall|max_len: nat| self@.readable_len(max_len) == (if max_len < e
                - self.watermark { max_len } else { (e - self.watermark) as nat }) by {
                lemma_run_len_to_end(self.tracker@, self.watermark as int, e as int, max_len);
            }
        }
        e - self.watermark
    }
}

} // verus!
