//! The final size of a stream: unknown at first, fixed once announced.

use vstd::prelude::*;
use crate::error::BufferError;

verus! {

/// What announcing final size `n` answers when `known` is what is known so
/// far: a first announcement and a repeated one are accepted, a differing
/// one is refused.
pub open spec fn announce_result(known: Option<u64>, n: u64) -> Result<(), BufferError> {
    match known {
        Some(f) if f != n => Err(BufferError::SizeMismatch),
        _ => Ok(()),
    }
}

/// What is known after final size `n` was announced: the first announcement
/// stays, whatever comes later.
pub open spec fn announce(known: Option<u64>, n: u64) -> Option<u64> {
    match known {
        Some(f) => Some(f),
        None => Some(n),
    }
}

/// What a write that ends at `end` answers when `known` is the final size
/// known so far.
pub open spec fn write_end_result(known: Option<u64>, end: u64) -> Result<(), BufferError> {
    match known {
        Some(f) if end > f => Err(BufferError::DataPastFinalSize),
        _ => Ok(()),
    }
}

/// The final size cannot be changed: of two announcements in a row the
/// second is accepted exactly when it repeats the first, and either way the
/// first one stays.
pub proof fn lemma_final_size_immutable(known: Option<u64>, first: u64, second: u64)
    requires
        announce_result(known, first) is Ok,
    ensures
        announce(known, first) == Some(first),
        announce(announce(known, first), second) == Some(first),
        second == first ==> announce_result(announce(known, first), second) == Ok::<
            (),
            BufferError,
        >(()),
        second != first ==> announce_result(announce(known, first), second) == Err::<
            (),
            BufferError,
        >(BufferError::SizeMismatch),
{
}

/// Holds the final size of the stream once it is known.
pub struct FinalSizeTracker {
    final_size: Option<u64>,
}

impl View for FinalSizeTracker {
    type V = Option<u64>;

    /// The final size, if it is known.
    closed spec fn view(&self) -> Option<u64> {
        self.final_size
    }
}

impl FinalSizeTracker {
    /// A tracker that knows no final size yet.
    pub fn new() -> (t: Self)
        ensures
            t@ == None::<u64>,
    {
        FinalSizeTracker { final_size: None }
    }

    /// The final size, if it is known.
    pub fn final_size(&self) -> (f: Option<u64>)
        ensures
            f == self@,
    {
        self.final_size
    }

    /// Whether announcing final size `n` would be accepted. Changes nothing.
    pub fn check_final_size(&self, n: u64) -> (r: Result<(), BufferError>)
        ensures
            r == announce_result(self@, n),
    {
        match self.final_size {
            Some(f) => {
                if f != n {
                    Err(BufferError::SizeMismatch)
                } else {
                    Ok(())
                }
            },
            None => Ok(()),
        }
    }

    /// Announces final size `n`. The first announcement is recorded; a later
    /// one is accepted without effect when it repeats the recorded size and
    /// refused with `SizeMismatch` when it differs.
    pub fn set_final_size(&mut self, n: u64) -> (r: Result<(), BufferError>)
        ensures
            r == announce_result(old(self)@, n),
            r is Ok ==> final(self)@ == Some(n),
            r is Ok ==> final(self)@ == announce(old(self)@, n),
            r is Err ==> final(self)@ == old(self)@,
    {
        match self.final_size {
            Some(f) => {
                if f != n {
                    Err(BufferError::SizeMismatch)
                } else {
                    Ok(())
                }
            },
            None => {
                self.final_size = Some(n);
                Ok(())
            },
        }
    }

    /// Checks a write that ends at `end_offset` against the final size:
    /// refused with `DataPastFinalSize` exactly when the final size is known
    /// and the write ends beyond it.
    pub fn validate_write_end(&self, end_offset: u64) -> (r: Result<(), BufferError>)
        ensures
            r == write_end_result(self@, end_offset),
    {
        match self.final_size {
            Some(f) => {
                if end_offset > f {
                    Err(BufferError::DataPastFinalSize)
                } else {
                    Ok(())
                }
            },
            None => Ok(()),
        }
    }

    /// Whether the whole stream has been consumed: the final size is known
    /// and the consumed watermark has reached it.
    pub fn is_stream_complete(&self, consumed_watermark: u64) -> (b: bool)
        ensures
            b == (self@ == Some(consumed_watermark)),
    {
        match self.final_size {
            Some(f) => f == consumed_watermark,
            None => false,
        }
    }

    /// Forgets the final size.
    pub fn clear(&mut self)
        ensures
            final(self)@ == None::<u64>,
    {
        self.final_size = None;
    }
}

} // verus!
