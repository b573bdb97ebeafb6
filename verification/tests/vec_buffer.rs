use quic_buffer::vec_buffer::{VecBuffer, DEFAULT_MESSAGE_COUNT};

#[test]
fn new_buffer_has_one_slot_per_message() {
    let b = VecBuffer::new(64, 1200);
    assert_eq!(b.len(), 64 * 1200);
    assert_eq!(b.mtu(), 1200);
    assert!(b.iter().all(|x| *x == 0));
}

#[test]
fn new_buffer_may_be_empty() {
    let b = VecBuffer::new(0, 1200);
    assert_eq!(b.len(), 0);
    assert_eq!(b.mtu(), 1200);
    let c = VecBuffer::new(16, 0);
    assert_eq!(c.len(), 0);
    assert_eq!(c.mtu(), 0);
}

#[test]
fn default_buffer_holds_default_count_of_largest_messages() {
    let b = VecBuffer::default();
    assert_eq!(DEFAULT_MESSAGE_COUNT, 1024);
    assert_eq!(b.mtu(), 1500);
    assert_eq!(b.len(), 1024 * 1500);
    assert_eq!(b.len(), 1_536_000);
}

#[test]
fn region_can_be_written_and_read_back() {
    let mut b = VecBuffer::new(2, 4);
    b[3] = 7;
    b[4..8].copy_from_slice(&[1, 2, 3, 4]);
    assert_eq!(&b[..], &[0, 0, 0, 7, 1, 2, 3, 4]);
    assert_eq!(b.len(), 8);
    assert_eq!(b.mtu(), 4);
}
