use quic_buffer::error::{BufferError, ErrorCategory};
use quic_buffer::final_size::FinalSizeTracker;

#[test]
fn final_size_starts_unknown() {
    let t = FinalSizeTracker::new();
    assert_eq!(t.final_size(), None);
    assert!(!t.is_stream_complete(0));
    assert_eq!(t.validate_write_end(u64::MAX), Ok(()));
    assert_eq!(t.check_final_size(7), Ok(()));
}

#[test]
fn first_final_size_is_recorded() {
    let mut t = FinalSizeTracker::new();
    assert_eq!(t.set_final_size(10), Ok(()));
    assert_eq!(t.final_size(), Some(10));
}

#[test]
fn same_final_size_again_is_a_no_op() {
    let mut t = FinalSizeTracker::new();
    assert_eq!(t.set_final_size(10), Ok(()));
    assert_eq!(t.set_final_size(10), Ok(()));
    assert_eq!(t.final_size(), Some(10));
}

#[test]
fn different_final_size_is_a_mismatch() {
    let mut t = FinalSizeTracker::new();
    assert_eq!(t.set_final_size(10), Ok(()));
    assert_eq!(t.check_final_size(11), Err(BufferError::SizeMismatch));
    assert_eq!(t.set_final_size(11), Err(BufferError::SizeMismatch));
    assert_eq!(t.set_final_size(9), Err(BufferError::SizeMismatch));
    assert_eq!(t.final_size(), Some(10));
    assert_eq!(t.check_final_size(10), Ok(()));
}

#[test]
fn final_size_zero_can_be_set() {
    let mut t = FinalSizeTracker::new();
    assert_eq!(t.set_final_size(0), Ok(()));
    assert!(t.is_stream_complete(0));
    assert_eq!(t.validate_write_end(0), Ok(()));
    assert_eq!(t.validate_write_end(1), Err(BufferError::DataPastFinalSize));
}

#[test]
fn write_end_is_held_to_the_final_size() {
    let mut t = FinalSizeTracker::new();
    t.set_final_size(10).unwrap();
    assert_eq!(t.validate_write_end(9), Ok(()));
    assert_eq!(t.validate_write_end(10), Ok(()));
    assert_eq!(t.validate_write_end(11), Err(BufferError::DataPastFinalSize));
}

#[test]
fn stream_is_complete_when_watermark_meets_final_size() {
    let mut t = FinalSizeTracker::new();
    t.set_final_size(10).unwrap();
    assert!(!t.is_stream_complete(0));
    assert!(!t.is_stream_complete(9));
    assert!(t.is_stream_complete(10));
    assert!(!t.is_stream_complete(11));
}

#[test]
fn clear_forgets_the_final_size() {
    let mut t = FinalSizeTracker::new();
    t.set_final_size(10).unwrap();
    t.clear();
    assert_eq!(t.final_size(), None);
    assert_eq!(t.set_final_size(3), Ok(()));
}

#[test]
fn errors_fall_into_their_categories() {
    assert_eq!(BufferError::WindowExceeded.category(), ErrorCategory::ProtocolViolation);
    assert_eq!(BufferError::SizeMismatch.category(), ErrorCategory::ProtocolViolation);
    assert_eq!(BufferError::DataPastFinalSize.category(), ErrorCategory::ProtocolViolation);
    assert_eq!(BufferError::InsufficientData.category(), ErrorCategory::Misuse);
    assert_eq!(BufferError::CapacityBelowBuffered.category(), ErrorCategory::Misuse);
    assert_eq!(BufferError::StreamReset.category(), ErrorCategory::Terminal);
    assert!(BufferError::WindowExceeded.is_protocol_violation());
    assert!(BufferError::SizeMismatch.is_protocol_violation());
    assert!(BufferError::DataPastFinalSize.is_protocol_violation());
    assert!(!BufferError::InsufficientData.is_protocol_violation());
    assert!(!BufferError::CapacityBelowBuffered.is_protocol_violation());
    assert!(!BufferError::StreamReset.is_protocol_violation());
}
