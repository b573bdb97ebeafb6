use quic_buffer::chunk_store::ChunkStore;
use quic_buffer::gap_tracker::GapTracker;
use quic_buffer::ranges::ByteRange;
use quic_buffer::store::ByteStore;

#[test]
fn chunk_store_starts_without_chunks() {
    let s = ChunkStore::new(8);
    assert_eq!(s.chunk_count(), 0);
    assert_eq!(s.read(&GapTracker::new(), 0, 8), Vec::<u8>::new());
}

#[test]
fn chunk_store_stores_only_what_the_tracker_has_not_seen() {
    let mut t = GapTracker::new();
    let mut s = ChunkStore::new(8);
    s.write(&t, 0, 2, b"cd");
    t.insert(2, 4);
    assert_eq!(s.chunk_count(), 1);
    // Offsets 0..2 and 4..6 are new: one chunk each.
    s.write(&t, 0, 0, b"abXXef");
    t.insert(0, 6);
    assert_eq!(s.chunk_count(), 3);
    assert_eq!(s.read(&t, 0, 8), b"abcdef".to_vec());
    assert_eq!(s.read(&t, 1, 3), b"bcd".to_vec());
    assert_eq!(s.read(&t, 3, 8), b"def".to_vec());
    assert_eq!(s.read(&t, 6, 3), Vec::<u8>::new());
    // Nothing is new: nothing is stored.
    s.write(&t, 0, 1, b"BCDE");
    t.insert(1, 5);
    assert_eq!(s.chunk_count(), 3);
    assert_eq!(s.read(&t, 0, 8), b"abcdef".to_vec());
}

#[test]
fn chunk_store_keeps_chunks_in_offset_order() {
    let mut t = GapTracker::new();
    let mut s = ChunkStore::new(64);
    for (offset, bytes) in [(30u64, b"dd"), (10, b"bb"), (40, b"ee"), (0, b"aa"), (20, b"cc")] {
        s.write(&t, 0, offset, bytes);
        t.insert(offset, offset + 2);
    }
    assert_eq!(s.chunk_count(), 5);
    for (from, bytes) in [(0u64, b"aa"), (10, b"bb"), (20, b"cc"), (30, b"dd"), (40, b"ee")] {
        assert_eq!(s.read(&t, from, 64), bytes.to_vec());
        assert_eq!(s.read(&t, from + 1, 64), bytes[1..].to_vec());
        assert_eq!(s.read(&t, from + 2, 64), Vec::<u8>::new());
    }
    s.write(&t, 0, 0, &[b'-'; 42]);
    t.insert(0, 42);
    assert_eq!(s.chunk_count(), 9);
    assert_eq!(
        s.read(&t, 0, 64),
        b"aa--------bb--------cc--------dd--------ee".to_vec()
    );
}

#[test]
fn chunk_store_release_drops_and_trims_chunks() {
    let mut t = GapTracker::new();
    let mut s = ChunkStore::new(16);
    s.write(&t, 0, 0, b"abc");
    t.insert(0, 3);
    s.write(&t, 0, 3, b"def");
    t.insert(3, 6);
    s.write(&t, 0, 8, b"ij");
    t.insert(8, 10);
    assert_eq!(s.chunk_count(), 3);
    s.release_below(&t, 0, 0);
    assert_eq!(s.chunk_count(), 3);
    s.release_below(&t, 0, 2);
    assert_eq!(s.chunk_count(), 3);
    assert_eq!(s.chunk_range(0), Some(ByteRange { start: 2, end: 3 }));
    assert_eq!(s.chunk_range(1), Some(ByteRange { start: 3, end: 6 }));
    assert_eq!(s.chunk_range(2), Some(ByteRange { start: 8, end: 10 }));
    assert_eq!(s.chunk_range(3), None);
    assert_eq!(s.read(&t, 2, 16), b"cdef".to_vec());
    s.release_below(&t, 2, 3);
    assert_eq!(s.chunk_count(), 2);
    assert_eq!(s.read(&t, 3, 16), b"def".to_vec());
    s.release_below(&t, 3, 5);
    assert_eq!(s.chunk_count(), 2);
    assert_eq!(s.chunk_range(0), Some(ByteRange { start: 5, end: 6 }));
    assert_eq!(s.read(&t, 5, 16), b"f".to_vec());
    s.release_below(&t, 5, 6);
    assert_eq!(s.chunk_count(), 1);
    assert_eq!(s.read(&t, 6, 16), Vec::<u8>::new());
    assert_eq!(s.read(&t, 8, 16), b"ij".to_vec());
}

#[test]
fn chunk_store_capacity_is_only_a_number() {
    let mut t = GapTracker::new();
    let mut s = ChunkStore::new(4);
    s.write(&t, 0, 0, b"abcd");
    t.insert(0, 4);
    s.set_capacity(&t, 0, 100);
    assert_eq!(s.chunk_count(), 1);
    assert_eq!(s.read(&t, 0, 100), b"abcd".to_vec());
}
