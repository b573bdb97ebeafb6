//! The mathematical model of the receive buffer: what it has received, what
//! it holds, and what each operation makes of it. The contracts of the
//! executable buffer are stated over this model, and the laws at the end of
//! this file are proved of it.

use vstd::prelude::*;
use crate::error::BufferError;
use crate::ranges::{lemma_run_len_is_run, run_len, span};

verus! {

/// Where a stream stands in its life.
#[derive(Clone, Copy, Debug, PartialEq, Eq, Structural)]
pub enum StreamState {
    /// The final size is not known yet.
    Receiving,
    /// The final size is known and not everything has been consumed.
    Draining,
    /// Everything up to the final size has been consumed.
    Finished,
    /// The stream was abandoned.
    Reset,
}

/// The state of a receive buffer.
pub ghost struct BufferModel {
    /// How many unconsumed bytes the buffer may hold.
    pub capacity: nat,
    /// The offset below which everything has been consumed.
    pub watermark: nat,
    /// One past the highest offset received, or 0.
    pub highest: nat,
    /// The length of the whole stream, once known.
    pub final_size: Option<nat>,
    /// Whether the buffer was reset.
    pub reset: bool,
    /// The offsets received so far, consumed or not.
    pub received: Set<int>,
    /// The byte of each received offset that has not been consumed.
    pub content: Map<int, u8>,
}

/// One operation on the buffer.
pub ghost enum Op {
    /// A STREAM frame arrived.
    Write { offset: nat, bytes: Seq<u8>, fin: bool },
    /// The application acknowledged `n` bytes.
    Pop { n: nat },
    /// Flow control set a new capacity.
    SetCapacity { capacity: nat },
    /// The stream was abandoned.
    Reset,
}

impl BufferModel {
    /// The buffer of a newly opened stream.
    pub open spec fn fresh(capacity: nat) -> BufferModel {
        BufferModel {
            capacity,
            watermark: 0,
            highest: 0,
            final_size: None,
            reset: false,
            received: Set::empty(),
            content: Map::empty(),
        }
    }

    /// What holds of every buffer: the consumed offsets are a prefix of the
    /// received ones, the unconsumed part fits the window, nothing lies
    /// beyond the final size, and exactly the received, unconsumed offsets
    /// have a byte. A reset buffer holds nothing at all.
    pub open spec fn wf(self) -> bool {
        &&& self.watermark <= self.highest
        &&& self.highest - self.watermark <= self.capacity
        &&& forall|o: int| self.received.contains(o) ==> 0 <= o < self.highest
        &&& self.highest > 0 ==> self.received.contains(self.highest - 1)
        &&& forall|o: int| 0 <= o < self.watermark ==> self.received.contains(o)
        &&& (self.final_size matches Some(f) ==> self.highest <= f)
        &&& forall|o: int|
            self.content.dom().contains(o) <==> (self.received.contains(o) && o >= self.watermark)
        &&& self.reset ==> self.capacity == 0 && self.watermark == 0 && self.highest == 0
            && self.final_size is None
    }

    /// The state of the stream.
    pub open spec fn state(self) -> StreamState {
        if self.reset {
            StreamState::Reset
        } else {
            match self.final_size {
                None => StreamState::Receiving,
                Some(f) => if self.watermark == f {
                    StreamState::Finished
                } else {
                    StreamState::Draining
                },
            }
        }
    }

    /// Whether the whole stream has been consumed.
    pub open spec fn complete(self) -> bool {
        self.final_size == Some(self.watermark)
    }

    /// How much room the window has left beyond the highest received offset.
    pub open spec fn available_window(self) -> int {
        self.capacity - (self.highest - self.watermark)
    }

    /// How many bytes can be read from the watermark on without meeting a
    /// gap, counted up to `max_len`.
    pub open spec fn readable_len(self, max_len: nat) -> nat {
        run_len(self.received, self.watermark as int, max_len)
    }

    /// The bytes that can be read from the watermark on without meeting a
    /// gap, up to `max_len` of them.
    pub open spec fn readable(self, max_len: nat) -> Seq<u8> {
        Seq::new(self.readable_len(max_len), |i: int| self.content[self.watermark + i])
    }

    /// What a write of `len` bytes at `offset` answers. The checks come in
    /// this order: a reset buffer takes nothing; a final size that differs
    /// from the known one is a mismatch; data beyond the final size, be it
    /// this write's or data received before a final size that this write
    /// announces, is past the final size; data beyond the window exceeds it.
    pub open spec fn write_result(self, offset: nat, len: nat, fin: bool) -> Result<
        (),
        BufferError,
    > {
        let end = offset + len;
        if self.reset {
            Err(BufferError::StreamReset)
        } else if fin && self.final_size is Some && self.final_size != Some(end) {
            Err(BufferError::SizeMismatch)
        } else if (self.final_size matches Some(f) && end > f) || (fin && self.highest > end) {
            Err(BufferError::DataPastFinalSize)
        } else if end - self.watermark > self.capacity {
            Err(BufferError::WindowExceeded)
        } else {
            Ok(())
        }
    }

    /// The buffer after an accepted write: the range counts as received, the
    /// offsets that were not received before get their bytes from `bytes`,
    /// those that were keep the byte they have, and `fin` fixes the final
    /// size.
    pub open spec fn accept_write(self, offset: nat, bytes: Seq<u8>, fin: bool) -> BufferModel {
        let end = offset + bytes.len();
        BufferModel {
            highest: if bytes.len() > 0 && end > self.highest {
                end
            } else {
                self.highest
            },
            final_size: if fin {
                Some(end)
            } else {
                self.final_size
            },
            received: self.received.union(span(offset as int, end as int)),
            content: Map::new(
                |o: int|
                    o >= self.watermark && (self.received.contains(o) || offset <= o < end),
                |o: int|
                    if self.received.contains(o) {
                        self.content[o]
                    } else {
                        bytes[o - offset]
                    },
            ),
            ..self
        }
    }

    /// The buffer after a write, accepted or refused: a refused write leaves
    /// no trace.
    pub open spec fn write(self, offset: nat, bytes: Seq<u8>, fin: bool) -> BufferModel {
        if self.write_result(offset, bytes.len(), fin) is Ok {
            self.accept_write(offset, bytes, fin)
        } else {
            self
        }
    }

    /// What acknowledging `n` bytes answers: it is refused where fewer than
    /// `n` bytes are readable without a gap.
    pub open spec fn pop_result(self, n: nat) -> Result<(), BufferError> {
        if self.reset {
            Err(BufferError::StreamReset)
        } else if self.readable_len(n) < n {
            Err(BufferError::InsufficientData)
        } else {
            Ok(())
        }
    }

    /// The buffer after `n` bytes were acknowledged: the watermark moves up
    /// by `n` and the bytes below it are gone.
    pub open spec fn pop(self, n: nat) -> BufferModel {
        if self.pop_result(n) is Ok {
            BufferModel {
                watermark: self.watermark + n,
                content: self.content.restrict(Set::new(|o: int| o >= self.watermark + n)),
                ..self
            }
        } else {
            self
        }
    }

    /// What setting the capacity answers: it is refused where the new
    /// capacity cannot hold what is buffered and unconsumed.
    pub open spec fn set_capacity_result(self, capacity: nat) -> Result<(), BufferError> {
        if self.reset {
            Err(BufferError::StreamReset)
        } else if capacity < self.highest - self.watermark {
            Err(BufferError::CapacityBelowBuffered)
        } else {
            Ok(())
        }
    }

    /// The buffer after the capacity was set.
    pub open spec fn set_capacity(self, capacity: nat) -> BufferModel {
        if self.set_capacity_result(capacity) is Ok {
            BufferModel { capacity, ..self }
        } else {
            self
        }
    }

    /// The buffer after a reset: everything is discarded.
    pub open spec fn reset() -> BufferModel {
        BufferModel { reset: true, ..BufferModel::fresh(0) }
    }

    /// The buffer after one operation.
    pub open spec fn step(self, op: Op) -> BufferModel {
        match op {
            Op::Write { offset, bytes, fin } => self.write(offset, bytes, fin),
            Op::Pop { n } => self.pop(n),
            Op::SetCapacity { capacity } => self.set_capacity(capacity),
            Op::Reset => BufferModel::reset(),
        }
    }

    /// The buffer after the operations of `ops`, first to last.
    pub open spec fn run(self, ops: Seq<Op>) -> BufferModel
        decreases ops.len(),
    {
        if ops.len() == 0 {
            self
        } else {
            self.run(ops.drop_last()).step(ops.last())
        }
    }
}

/// A write keeps the buffer well formed.
pub proof fn lemma_write_wf(v: BufferModel, offset: nat, bytes: Seq<u8>, fin: bool)
    requires
        v.wf(),
    ensures
        v.write(offset, bytes, fin).wf(),
{
    if v.write_result(offset, bytes.len(), fin) is Ok {
        let w = v.accept_write(offset, bytes, fin);
        let end = offset + bytes.len();
        if bytes.len() > 0 {
            assert(span(offset as int, end as int).contains(end - 1));
        }
        assert forall|o: int| w.received.contains(o) implies 0 <= o < w.highest by {}
    }
}

/// An acknowledgement keeps the buffer well formed.
pub proof fn lemma_pop_wf(v: BufferModel, n: nat)
    requires
        v.wf(),
    ensures
        v.pop(n).wf(),
{
    if v.pop_result(n) is Ok {
        lemma_run_len_is_run(v.received, v.watermark as int, n);
        if n > 0 {
            assert(v.received.contains(v.watermark + n - 1));
        }
    }
}

/// Every operation keeps the buffer well formed.
pub proof fn lemma_step_wf(v: BufferModel, op: Op)
    requires
        v.wf(),
    ensures
        v.step(op).wf(),
{
    match op {
        Op::Write { offset, bytes, fin } => lemma_write_wf(v, offset, bytes, fin),
        Op::Pop { n } => lemma_pop_wf(v, n),
        Op::SetCapacity { capacity } => {},
        Op::Reset => {},
    }
}

/// The window invariant: whatever operations a buffer has gone through since
/// it was created, accepted or refused, what it holds between the watermark
/// and the highest received offset fits its capacity, and it is well formed
/// in every other respect.
pub proof fn lemma_window_invariant(capacity: nat, ops: Seq<Op>)
    ensures
        BufferModel::fresh(capacity).run(ops).wf(),
        BufferModel::fresh(capacity).run(ops).highest - BufferModel::fresh(capacity).run(
            ops,
        ).watermark <= BufferModel::fresh(capacity).run(ops).capacity,
    decreases ops.len(),
{
    if ops.len() > 0 {
        lemma_window_invariant(capacity, ops.drop_last());
        lemma_step_wf(BufferModel::fresh(capacity).run(ops.drop_last()), ops.last());
    }
}

/// The watermark is monotonic: no acknowledgement, accepted or refused,
/// moves it down, and neither does a write or a change of capacity.
pub proof fn lemma_watermark_monotonic(v: BufferModel, ops: Seq<Op>)
    requires
        forall|i: int| 0 <= i < ops.len() ==> !(ops[i] is Reset),
    ensures
        v.run(ops).watermark >= v.watermark,
    decreases ops.len(),
{
    if ops.len() > 0 {
        let init = ops.drop_last();
        assert forall|i: int| 0 <= i < init.len() implies !(init[i] is Reset) by {
            assert(init[i] == ops[i]);
        }
        lemma_watermark_monotonic(v, init);
        assert(!(ops[ops.len() - 1] is Reset));
    }
}

/// Writing is idempotent: a write that was accepted is accepted again, and
/// the second time it changes nothing, neither what can be read nor the
/// window accounting nor anything else.
pub proof fn lemma_write_idempotent(v: BufferModel, offset: nat, bytes: Seq<u8>, fin: bool)
    requires
        v.wf(),
        v.write_result(offset, bytes.len(), fin) is Ok,
    ensures
        v.write(offset, bytes, fin).write_result(offset, bytes.len(), fin) is Ok,
        v.write(offset, bytes, fin).write(offset, bytes, fin) == v.write(offset, bytes, fin),
{
    let w = v.write(offset, bytes, fin);
    let x = w.write(offset, bytes, fin);
    assert(x.received =~= w.received);
    assert(x.content =~= w.content);
}

} // verus!
