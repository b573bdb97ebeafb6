//! The ways in which an operation on the receive buffer fails.

use vstd::prelude::*;

verus! {

/// Why an operation was refused. A refused operation changes nothing.
#[derive(Clone, Copy, Debug, PartialEq, Eq, Structural)]
pub enum BufferError {
    /// The data ends beyond the flow-control window.
    WindowExceeded,
    /// A final size was announced that differs from the one already known.
    SizeMismatch,
    /// Data lies beyond the final size of the stream.
    DataPastFinalSize,
    /// More bytes were acknowledged than are readable without a gap.
    InsufficientData,
    /// The new capacity is smaller than what is buffered and unconsumed.
    CapacityBelowBuffered,
    /// The buffer was reset and accepts nothing any more.
    StreamReset,
}

/// Who is to blame for an error, and so what the caller does about it.
#[derive(Clone, Copy, Debug, PartialEq, Eq, Structural)]
pub enum ErrorCategory {
    /// The peer broke the protocol: the stream or connection must end.
    ProtocolViolation,
    /// The caller broke the contract of the buffer: a programming error.
    Misuse,
    /// The buffer is in a terminal state.
    Terminal,
}

impl BufferError {
    /// The category of each error.
    pub open spec fn category_of(self) -> ErrorCategory {
        match self {
            BufferError::WindowExceeded => ErrorCategory::ProtocolViolation,
            BufferError::SizeMismatch => ErrorCategory::ProtocolViolation,
            BufferError::DataPastFinalSize => ErrorCategory::ProtocolViolation,
            BufferError::InsufficientData => ErrorCategory::Misuse,
            BufferError::CapacityBelowBuffered => ErrorCategory::Misuse,
            BufferError::StreamReset => ErrorCategory::Terminal,
        }
    }

    /// The category of this error.
    pub fn category(&self) -> (c: ErrorCategory)
        ensures
            c == self.category_of(),
    {
        match self {
            BufferError::WindowExceeded => ErrorCategory::ProtocolViolation,
            BufferError::SizeMismatch => ErrorCategory::ProtocolViolation,
            BufferError::DataPastFinalSize => ErrorCategory::ProtocolViolation,
            BufferError::InsufficientData => ErrorCategory::Misuse,
            BufferError::CapacityBelowBuffered => ErrorCategory::Misuse,
            BufferError::StreamReset => ErrorCategory::Terminal,
        }
    }

    /// Whether the peer caused the error, so that the stream must be
    /// terminated.
    pub fn is_protocol_violation(&self) -> (b: bool)
        ensures
            b == (self.category_of() == ErrorCategory::ProtocolViolation),
    {
        match self {
            BufferError::WindowExceeded => true,
            BufferError::SizeMismatch => true,
            BufferError::DataPastFinalSize => true,
            _ => false,
        }
    }
}

} // verus!
