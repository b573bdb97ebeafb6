use quic_buffer::gap_tracker::GapTracker;
use quic_buffer::ring_store::RingStore;
use quic_buffer::store::ByteStore;

#[test]
fn ring_has_the_slots_it_was_made_with() {
    assert_eq!(RingStore::new(0).slot_count(), 0);
    assert_eq!(RingStore::new(7).slot_count(), 7);
}

#[test]
fn ring_stores_only_what_the_tracker_has_not_seen() {
    let mut t = GapTracker::new();
    let mut s = RingStore::new(8);
    s.write(&t, 0, 2, b"cd");
    t.insert(2, 4);
    s.write(&t, 0, 0, b"abXXef");
    t.insert(0, 6);
    assert_eq!(s.read(&t, 0, 8), b"abcdef".to_vec());
    assert_eq!(s.read(&t, 1, 3), b"bcd".to_vec());
    assert_eq!(s.read(&t, 6, 3), Vec::<u8>::new());
}

#[test]
fn ring_read_wraps_around() {
    let mut t = GapTracker::new();
    let mut s = RingStore::new(4);
    t.insert(0, 6);
    // Offsets 6..10 fall into slots 2, 3, 0, 1.
    s.write(&t, 6, 6, b"ghij");
    t.insert(6, 10);
    assert_eq!(s.read(&t, 6, 4), b"ghij".to_vec());
    assert_eq!(s.read(&t, 7, 2), b"hi".to_vec());
}

#[test]
fn ring_release_zeroes_the_released_slots() {
    let mut t = GapTracker::new();
    let mut s = RingStore::new(4);
    s.write(&t, 0, 0, b"abcd");
    t.insert(0, 4);
    s.release_below(&t, 0, 3);
    assert_eq!(s.read(&t, 0, 4), vec![0, 0, 0, b'd']);
    assert_eq!(s.read(&t, 3, 4), b"d".to_vec());
    let mut u = RingStore::new(4);
    u.write(&GapTracker::new(), 0, 0, b"abcd");
    u.release_below(&t, 0, 0);
    assert_eq!(u.read(&t, 0, 4), b"abcd".to_vec());
}

#[test]
fn ring_keeps_the_window_when_its_size_changes() {
    let mut t = GapTracker::new();
    let mut s = RingStore::new(4);
    t.insert(0, 6);
    s.write(&t, 6, 6, b"ghij");
    t.insert(6, 10);
    s.set_capacity(&t, 6, 7);
    assert_eq!(s.slot_count(), 7);
    assert_eq!(s.read(&t, 6, 7), b"ghij".to_vec());
    s.set_capacity(&t, 8, 2);
    assert_eq!(s.slot_count(), 2);
    assert_eq!(s.read(&t, 8, 7), b"ij".to_vec());
}
