use quic_buffer::error::BufferError;
use quic_buffer::model::StreamState;
use quic_buffer::receive_buffer::ReceiveBuffer;
use quic_buffer::storage::StorageStrategy;

const STRATEGIES: [StorageStrategy; 2] = [StorageStrategy::Ring, StorageStrategy::Chunks];

#[test]
fn new_buffer_is_empty_and_receiving() {
    for strategy in STRATEGIES {
        let b = ReceiveBuffer::with_storage(10, strategy);
        assert_eq!(b.capacity(), 10);
        assert_eq!(b.consumed_watermark(), 0);
        assert_eq!(b.highest_received_offset(), 0);
        assert_eq!(b.final_size(), None);
        assert_eq!(b.available_window(), 10);
        assert_eq!(b.readable_len(), 0);
        assert_eq!(b.read(10), Vec::<u8>::new());
        assert_eq!(b.state(), StreamState::Receiving);
        assert!(!b.is_stream_complete());
    }
}

#[test]
fn read_stops_at_gap_until_it_is_filled() {
    for strategy in STRATEGIES {
        let mut b = ReceiveBuffer::with_storage(10, strategy);
        assert_eq!(b.write(0, b"ABCDE", false), Ok(()));
        assert_eq!(b.write(7, b"HIJ", false), Ok(()));
        assert_eq!(b.read(10), b"ABCDE".to_vec());
        assert_eq!(b.readable_len(), 5);
        assert_eq!(b.highest_received_offset(), 10);
        assert_eq!(b.available_window(), 0);
        assert_eq!(b.write(5, b"FG", false), Ok(()));
        assert_eq!(b.read(10), b"ABCDEFGHIJ".to_vec());
        assert_eq!(b.readable_len(), 10);
    }
}

#[test]
fn stream_completes_when_final_size_is_consumed() {
    for strategy in STRATEGIES {
        let mut b = ReceiveBuffer::with_storage(16, strategy);
        assert_eq!(b.write(0, &[1, 2, 3, 4, 5, 6, 7, 8, 9, 10], true), Ok(()));
        assert_eq!(b.final_size(), Some(10));
        assert_eq!(b.state(), StreamState::Draining);
        assert!(!b.is_stream_complete());
        assert_eq!(b.pop_consumed(10), Ok(()));
        assert_eq!(b.consumed_watermark(), 10);
        assert!(b.is_stream_complete());
        assert_eq!(b.state(), StreamState::Finished);
    }
}

#[test]
fn window_is_enforced_and_reopens_after_pop() {
    for strategy in STRATEGIES {
        let mut b = ReceiveBuffer::with_storage(5, strategy);
        assert_eq!(b.consumed_watermark(), 0);
        assert_eq!(b.write(0, &[1, 2, 3, 4, 5], false), Ok(()));
        assert_eq!(b.write(5, &[6], false), Err(BufferError::WindowExceeded));
        assert_eq!(b.highest_received_offset(), 5);
        assert_eq!(b.pop_consumed(1), Ok(()));
        assert_eq!(b.consumed_watermark(), 1);
        assert_eq!(b.write(5, &[6], false), Ok(()));
        assert_eq!(b.read(10), vec![2, 3, 4, 5, 6]);
    }
}

#[test]
fn data_past_final_size_is_refused() {
    for strategy in STRATEGIES {
        let mut b = ReceiveBuffer::with_storage(64, strategy);
        assert_eq!(b.write(0, &[0; 10], true), Ok(()));
        assert_eq!(b.final_size(), Some(10));
        assert_eq!(b.write(10, &[1], false), Err(BufferError::DataPastFinalSize));
        assert_eq!(b.highest_received_offset(), 10);
        assert_eq!(b.read(64), vec![0; 10]);
    }
}

#[test]
fn writing_twice_is_writing_once() {
    for strategy in STRATEGIES {
        let mut once = ReceiveBuffer::with_storage(32, strategy);
        let mut twice = ReceiveBuffer::with_storage(32, strategy);
        once.write(4, b"hello", false).unwrap();
        twice.write(4, b"hello", false).unwrap();
        assert_eq!(twice.write(4, b"hello", false), Ok(()));
        assert_eq!(once.read(32), twice.read(32));
        assert_eq!(once.available_window(), twice.available_window());
        assert_eq!(once.highest_received_offset(), twice.highest_received_offset());
        once.write(0, b"say ", false).unwrap();
        twice.write(0, b"say ", false).unwrap();
        twice.write(0, b"say ", false).unwrap();
        assert_eq!(once.read(32), b"say hello".to_vec());
        assert_eq!(twice.read(32), b"say hello".to_vec());
        assert_eq!(twice.available_window(), 32 - 9);
        assert_eq!(once.available_window(), 32 - 9);
    }
}

#[test]
fn first_writer_wins_where_writes_overlap() {
    for strategy in STRATEGIES {
        let mut b = ReceiveBuffer::with_storage(16, strategy);
        b.write(2, b"cdef", false).unwrap();
        // Offsets 2..6 are stored already: only 0, 1, 6 and 7 are taken.
        b.write(0, b"abXXXXgh", false).unwrap();
        assert_eq!(b.read(16), b"abcdefgh".to_vec());
    }
}

#[test]
fn any_order_of_writes_gives_the_stream() {
    for strategy in STRATEGIES {
        let pieces: [(u64, &[u8]); 4] = [(0, b"The "), (4, b"quick "), (10, b"brown "), (16, b"fox")];
        let orders: [[usize; 4]; 6] =
            [[0, 1, 2, 3], [3, 2, 1, 0], [1, 3, 0, 2], [2, 0, 3, 1], [3, 0, 1, 2], [1, 0, 3, 2]];
        for order in orders.iter() {
            let mut b = ReceiveBuffer::with_storage(19, strategy);
            for k in order.iter() {
                assert_eq!(b.write(pieces[*k].0, pieces[*k].1, false), Ok(()));
            }
            assert_eq!(b.read(19), b"The quick brown fox".to_vec());
            assert_eq!(b.readable_len(), 19);
            assert_eq!(b.available_window(), 0);
        }
    }
}

#[test]
fn watermark_only_moves_up() {
    for strategy in STRATEGIES {
        let mut b = ReceiveBuffer::with_storage(8, strategy);
        b.write(0, &[1, 2, 3, 4, 5, 6], false).unwrap();
        let mut last = b.consumed_watermark();
        for n in [0usize, 2, 0, 9, 1, 3, 1] {
            let r = b.pop_consumed(n);
            assert!(b.consumed_watermark() >= last);
            if r.is_ok() {
                assert_eq!(b.consumed_watermark(), last + n as u64);
            } else {
                assert_eq!(r, Err(BufferError::InsufficientData));
                assert_eq!(b.consumed_watermark(), last);
            }
            last = b.consumed_watermark();
        }
        assert_eq!(last, 6);
    }
}

#[test]
fn window_bound_holds_after_every_operation() {
    for strategy in STRATEGIES {
        let mut b = ReceiveBuffer::with_storage(6, strategy);
        let check = |b: &ReceiveBuffer| {
            assert!(b.highest_received_offset() >= b.consumed_watermark());
            assert!(b.highest_received_offset() - b.consumed_watermark() <= b.capacity() as u64);
            assert_eq!(
                b.available_window() as u64,
                b.capacity() as u64 - (b.highest_received_offset() - b.consumed_watermark())
            );
        };
        check(&b);
        let _ = b.write(3, &[4, 5, 6], false);
        check(&b);
        let _ = b.write(5, &[6, 7], false);
        check(&b);
        assert_eq!(b.highest_received_offset(), 6);
        let _ = b.write(0, &[1, 2, 3], false);
        check(&b);
        let _ = b.pop_consumed(4);
        check(&b);
        let _ = b.write(6, &[7, 8, 9, 10], false);
        check(&b);
        assert_eq!(b.highest_received_offset(), 10);
        let _ = b.set_capacity(3);
        check(&b);
        assert_eq!(b.capacity(), 6);
        let _ = b.set_capacity(100);
        check(&b);
        let _ = b.write(50, &[0; 54], false);
        check(&b);
        assert_eq!(b.highest_received_offset(), 104);
        let _ = b.write(50, &[0; 55], false);
        check(&b);
        b.reset();
        check(&b);
    }
}

#[test]
fn available_window_is_capacity_minus_buffered() {
    for strategy in STRATEGIES {
        let mut b = ReceiveBuffer::with_storage(100, strategy);
        assert_eq!(b.available_window(), 100);
        b.write(0, &[0; 30], false).unwrap();
        assert_eq!(b.available_window(), 70);
        b.write(50, &[0; 10], false).unwrap();
        assert_eq!(b.available_window(), 40);
        b.write(35, &[0; 5], false).unwrap();
        assert_eq!(b.available_window(), 40);
        b.pop_consumed(20).unwrap();
        assert_eq!(b.available_window(), 60);
        b.set_capacity(45).unwrap();
        assert_eq!(b.available_window(), 5);
    }
}

#[test]
fn read_is_capped_at_max_len_and_consumes_nothing() {
    for strategy in STRATEGIES {
        let mut b = ReceiveBuffer::with_storage(10, strategy);
        b.write(0, b"ABCDEFG", false).unwrap();
        assert_eq!(b.read(0), Vec::<u8>::new());
        assert_eq!(b.read(3), b"ABC".to_vec());
        assert_eq!(b.read(7), b"ABCDEFG".to_vec());
        assert_eq!(b.read(usize::MAX), b"ABCDEFG".to_vec());
        assert_eq!(b.consumed_watermark(), 0);
        assert_eq!(b.read(3), b"ABC".to_vec());
    }
}

#[test]
fn read_is_empty_when_next_byte_is_missing() {
    for strategy in STRATEGIES {
        let mut b = ReceiveBuffer::with_storage(10, strategy);
        b.write(1, b"BCD", false).unwrap();
        assert_eq!(b.read(10), Vec::<u8>::new());
        assert_eq!(b.readable_len(), 0);
        b.write(0, b"A", false).unwrap();
        b.pop_consumed(4).unwrap();
        assert_eq!(b.read(10), Vec::<u8>::new());
    }
}

#[test]
fn read_starts_at_the_watermark() {
    for strategy in STRATEGIES {
        let mut b = ReceiveBuffer::with_storage(10, strategy);
        b.write(0, b"ABCDEFGHIJ", false).unwrap();
        b.pop_consumed(4).unwrap();
        assert_eq!(b.read(3), b"EFG".to_vec());
        assert_eq!(b.read(100), b"EFGHIJ".to_vec());
    }
}

#[test]
fn storage_wraps_around_as_the_window_slides() {
    for strategy in STRATEGIES {
        let mut b = ReceiveBuffer::with_storage(4, strategy);
        let stream: Vec<u8> = (0..=255u8).collect();
        let mut got = Vec::new();
        let mut sent = 0usize;
        while got.len() < stream.len() {
            let room = b.available_window();
            let n = room.min(3).min(stream.len() - sent);
            assert_eq!(b.write(sent as u64, &stream[sent..sent + n], false), Ok(()));
            sent += n;
            let chunk = b.read(2);
            assert!(!chunk.is_empty());
            b.pop_consumed(chunk.len()).unwrap();
            got.extend_from_slice(&chunk);
        }
        assert_eq!(got, stream);
        assert_eq!(b.consumed_watermark(), 256);
    }
}

#[test]
fn retransmission_below_the_watermark_is_accepted_and_ignored() {
    for strategy in STRATEGIES {
        let mut b = ReceiveBuffer::with_storage(4, strategy);
        b.write(0, b"abcd", false).unwrap();
        b.pop_consumed(3).unwrap();
        b.write(4, b"efg", false).unwrap();
        // Overlaps consumed data, stored data and nothing new.
        assert_eq!(b.write(0, b"ABCDEFG", false), Ok(()));
        assert_eq!(b.write(1, b"BC", false), Ok(()));
        assert_eq!(b.read(10), b"defg".to_vec());
        assert_eq!(b.consumed_watermark(), 3);
        assert_eq!(b.highest_received_offset(), 7);
    }
}

#[test]
fn pop_of_more_than_is_contiguous_is_misuse() {
    for strategy in STRATEGIES {
        let mut b = ReceiveBuffer::with_storage(10, strategy);
        b.write(0, b"ABC", false).unwrap();
        b.write(5, b"FG", false).unwrap();
        assert_eq!(b.pop_consumed(4), Err(BufferError::InsufficientData));
        assert_eq!(b.consumed_watermark(), 0);
        assert_eq!(b.read(10), b"ABC".to_vec());
        assert_eq!(b.pop_consumed(3), Ok(()));
        assert_eq!(b.pop_consumed(1), Err(BufferError::InsufficientData));
        assert_eq!(b.pop_consumed(0), Ok(()));
        assert_eq!(b.consumed_watermark(), 3);
    }
}

#[test]
fn refused_write_leaves_no_trace() {
    for strategy in STRATEGIES {
        let mut b = ReceiveBuffer::with_storage(8, strategy);
        b.write(0, b"ab", false).unwrap();
        // Would announce a final size and store bytes, but ends beyond the window.
        assert_eq!(b.write(2, b"cdefghi", true), Err(BufferError::WindowExceeded));
        assert_eq!(b.final_size(), None);
        assert_eq!(b.state(), StreamState::Receiving);
        assert_eq!(b.highest_received_offset(), 2);
        assert_eq!(b.read(8), b"ab".to_vec());
        assert_eq!(b.available_window(), 6);
        // A different final size is still free to be announced.
        assert_eq!(b.write(2, b"cd", true), Ok(()));
        assert_eq!(b.final_size(), Some(4));
    }
}

#[test]
fn second_final_size_must_match_the_first() {
    for strategy in STRATEGIES {
        let mut b = ReceiveBuffer::with_storage(16, strategy);
        assert_eq!(b.write(0, b"abcd", true), Ok(()));
        assert_eq!(b.write(0, b"abc", true), Err(BufferError::SizeMismatch));
        assert_eq!(b.write(0, b"abcde", true), Err(BufferError::SizeMismatch));
        assert_eq!(b.write(4, b"", true), Ok(()));
        assert_eq!(b.write(2, b"cd", true), Ok(()));
        assert_eq!(b.write(0, b"abcd", true), Ok(()));
        assert_eq!(b.final_size(), Some(4));
        assert_eq!(b.read(16), b"abcd".to_vec());
    }
}

#[test]
fn final_size_below_received_data_is_refused() {
    for strategy in STRATEGIES {
        let mut b = ReceiveBuffer::with_storage(16, strategy);
        b.write(4, b"efgh", false).unwrap();
        assert_eq!(b.write(0, b"abcd", true), Err(BufferError::DataPastFinalSize));
        assert_eq!(b.final_size(), None);
        assert_eq!(b.highest_received_offset(), 8);
        assert_eq!(b.read(16), Vec::<u8>::new());
        assert_eq!(b.write(0, b"abcd", false), Ok(()));
        assert_eq!(b.write(8, b"", true), Ok(()));
        assert_eq!(b.final_size(), Some(8));
    }
}

#[test]
fn mismatch_is_reported_before_past_final_size_and_window() {
    for strategy in STRATEGIES {
        let mut b = ReceiveBuffer::with_storage(4, strategy);
        b.write(0, b"ab", true).unwrap();
        // Ends beyond the final size and beyond the window, and announces another size.
        assert_eq!(b.write(0, b"abcdefgh", true), Err(BufferError::SizeMismatch));
        // Ends beyond the final size and beyond the window.
        assert_eq!(b.write(0, b"abcdefgh", false), Err(BufferError::DataPastFinalSize));
    }
}

#[test]
fn empty_write_is_checked_like_any_other() {
    for strategy in STRATEGIES {
        let mut b = ReceiveBuffer::with_storage(4, strategy);
        assert_eq!(b.write(4, b"", false), Ok(()));
        assert_eq!(b.write(5, b"", false), Err(BufferError::WindowExceeded));
        assert_eq!(b.highest_received_offset(), 0);
        assert_eq!(b.available_window(), 4);
        assert_eq!(b.write(0, b"", true), Ok(()));
        assert!(b.is_stream_complete());
        assert_eq!(b.state(), StreamState::Finished);
        assert_eq!(b.write(0, b"a", false), Err(BufferError::DataPastFinalSize));
    }
}

#[test]
fn zero_capacity_takes_no_data() {
    for strategy in STRATEGIES {
        let mut b = ReceiveBuffer::with_storage(0, strategy);
        assert_eq!(b.available_window(), 0);
        assert_eq!(b.write(0, b"a", false), Err(BufferError::WindowExceeded));
        assert_eq!(b.write(0, b"", false), Ok(()));
        assert_eq!(b.read(1), Vec::<u8>::new());
        assert_eq!(b.set_capacity(1), Ok(()));
        assert_eq!(b.write(0, b"a", false), Ok(()));
        assert_eq!(b.read(1), b"a".to_vec());
    }
}

#[test]
fn capacity_can_grow_and_shrink_to_what_is_buffered() {
    for strategy in STRATEGIES {
        let mut b = ReceiveBuffer::with_storage(4, strategy);
        b.write(0, b"abcd", false).unwrap();
        b.pop_consumed(2).unwrap();
        b.write(4, b"ef", false).unwrap();
        assert_eq!(b.set_capacity(3), Err(BufferError::CapacityBelowBuffered));
        assert_eq!(b.capacity(), 4);
        assert_eq!(b.read(10), b"cdef".to_vec());
        assert_eq!(b.set_capacity(7), Ok(()));
        assert_eq!(b.capacity(), 7);
        assert_eq!(b.available_window(), 3);
        assert_eq!(b.read(10), b"cdef".to_vec());
        b.write(8, b"i", false).unwrap();
        assert_eq!(b.write(9, b"j", false), Err(BufferError::WindowExceeded));
        b.write(6, b"gh", false).unwrap();
        assert_eq!(b.read(10), b"cdefghi".to_vec());
        b.pop_consumed(5).unwrap();
        assert_eq!(b.set_capacity(2), Ok(()));
        assert_eq!(b.read(10), b"hi".to_vec());
        assert_eq!(b.available_window(), 0);
        assert_eq!(b.set_capacity(1), Err(BufferError::CapacityBelowBuffered));
    }
}

#[test]
fn reset_discards_everything_and_is_terminal() {
    for strategy in STRATEGIES {
        let mut b = ReceiveBuffer::with_storage(8, strategy);
        b.write(0, b"abcd", true).unwrap();
        b.pop_consumed(1).unwrap();
        b.reset();
        assert_eq!(b.state(), StreamState::Reset);
        assert_eq!(b.read(8), Vec::<u8>::new());
        assert_eq!(b.readable_len(), 0);
        assert_eq!(b.available_window(), 0);
        assert_eq!(b.capacity(), 0);
        assert_eq!(b.consumed_watermark(), 0);
        assert_eq!(b.highest_received_offset(), 0);
        assert_eq!(b.final_size(), None);
        assert!(!b.is_stream_complete());
        assert_eq!(b.write(0, b"abcd", false), Err(BufferError::StreamReset));
        assert_eq!(b.write(0, b"", true), Err(BufferError::StreamReset));
        assert_eq!(b.pop_consumed(0), Err(BufferError::StreamReset));
        assert_eq!(b.set_capacity(8), Err(BufferError::StreamReset));
        b.reset();
        assert_eq!(b.state(), StreamState::Reset);
    }
}

#[test]
fn reset_is_reachable_from_every_state() {
    for strategy in STRATEGIES {
        let mut receiving = ReceiveBuffer::with_storage(8, strategy);
        receiving.reset();
        assert_eq!(receiving.state(), StreamState::Reset);
        let mut draining = ReceiveBuffer::with_storage(8, strategy);
        draining.write(0, b"ab", true).unwrap();
        assert_eq!(draining.state(), StreamState::Draining);
        draining.reset();
        assert_eq!(draining.state(), StreamState::Reset);
        let mut finished = ReceiveBuffer::with_storage(8, strategy);
        finished.write(0, b"ab", true).unwrap();
        finished.pop_consumed(2).unwrap();
        assert_eq!(finished.state(), StreamState::Finished);
        finished.reset();
        assert_eq!(finished.state(), StreamState::Reset);
    }
}

#[test]
fn finished_stream_still_takes_retransmissions() {
    for strategy in STRATEGIES {
        let mut b = ReceiveBuffer::with_storage(4, strategy);
        b.write(0, b"abcd", true).unwrap();
        b.pop_consumed(4).unwrap();
        assert_eq!(b.state(), StreamState::Finished);
        assert_eq!(b.write(1, b"bcd", true), Ok(()));
        assert_eq!(b.write(0, b"abcd", false), Ok(()));
        assert_eq!(b.write(4, b"e", false), Err(BufferError::DataPastFinalSize));
        assert_eq!(b.pop_consumed(1), Err(BufferError::InsufficientData));
        assert_eq!(b.state(), StreamState::Finished);
        assert_eq!(b.read(4), Vec::<u8>::new());
    }
}

#[test]
fn offsets_near_the_top_of_the_offset_space() {
    for strategy in STRATEGIES {
        let mut b = ReceiveBuffer::with_storage(4, strategy);
        assert_eq!(b.write(u64::MAX - 2, b"xy", false), Err(BufferError::WindowExceeded));
        assert_eq!(b.write(u64::MAX, b"", false), Err(BufferError::WindowExceeded));
        assert_eq!(b.highest_received_offset(), 0);
    }
}

#[test]
fn storage_is_chosen_at_construction_and_kept() {
    assert_eq!(ReceiveBuffer::new(4).storage_strategy(), StorageStrategy::Ring);
    for strategy in STRATEGIES {
        let mut b = ReceiveBuffer::with_storage(4, strategy);
        assert_eq!(b.storage_strategy(), strategy);
        b.write(0, b"abcd", false).unwrap();
        b.pop_consumed(2).unwrap();
        b.set_capacity(9).unwrap();
        assert_eq!(b.storage_strategy(), strategy);
        b.reset();
        assert_eq!(b.storage_strategy(), strategy);
    }
}

#[test]
fn both_storages_behave_alike() {
    // A fixed pseudo-random run of operations, applied to both kinds of buffer.
    let mut ring = ReceiveBuffer::with_storage(16, StorageStrategy::Ring);
    let mut chunks = ReceiveBuffer::with_storage(16, StorageStrategy::Chunks);
    let stream: Vec<u8> = (0..200u32).map(|i| (i * 7 + 3) as u8).collect();
    let mut seed: u32 = 12345;
    let mut consumed: Vec<u8> = Vec::new();
    for _ in 0..4000 {
        seed = seed.wrapping_mul(1103515245).wrapping_add(12345);
        let r = (seed >> 8) as usize;
        match r % 4 {
            0 | 1 => {
                let offset = (r / 4) % 200;
                let len = ((r / 800) % 9).min(200 - offset);
                let fin = offset + len == 200 && (r / 7200) % 2 == 0;
                let a = ring.write(offset as u64, &stream[offset..offset + len], fin);
                let b = chunks.write(offset as u64, &stream[offset..offset + len], fin);
                assert_eq!(a, b);
            }
            2 => {
                let n = (r / 4) % 6;
                let got = ring.read(n);
                assert_eq!(got, chunks.read(n));
                let a = ring.pop_consumed(got.len());
                let b = chunks.pop_consumed(got.len());
                assert_eq!(a, Ok(()));
                assert_eq!(b, Ok(()));
                consumed.extend_from_slice(&got);
            }
            _ => {
                let c = 8 + (r / 4) % 24;
                assert_eq!(ring.set_capacity(c), chunks.set_capacity(c));
            }
        }
        assert_eq!(ring.read(64), chunks.read(64));
        assert_eq!(ring.available_window(), chunks.available_window());
        assert_eq!(ring.consumed_watermark(), chunks.consumed_watermark());
        assert_eq!(ring.highest_received_offset(), chunks.highest_received_offset());
        assert_eq!(ring.final_size(), chunks.final_size());
        assert_eq!(ring.state(), chunks.state());
        assert!(ring.highest_received_offset() - ring.consumed_watermark() <= ring.capacity() as u64);
    }
    assert_eq!(consumed, stream[..consumed.len()].to_vec());
    assert!(consumed.len() > 100);
}

#[test]
fn received_ranges_are_merged_as_writes_arrive() {
    for strategy in STRATEGIES {
        let mut b = ReceiveBuffer::with_storage(20, strategy);
        b.write(0, b"ab", false).unwrap();
        b.write(6, b"gh", false).unwrap();
        b.write(12, b"mn", false).unwrap();
        assert_eq!(b.tracker().interval_count(), 3);
        b.write(1, b"bcdefg", false).unwrap();
        assert_eq!(b.tracker().interval_count(), 2);
        assert_eq!(b.tracker().contiguous_prefix_end(0), 8);
        b.pop_consumed(8).unwrap();
        // Consumed offsets stay received.
        assert_eq!(b.tracker().contiguous_prefix_end(0), 8);
        b.write(8, b"ijkl", false).unwrap();
        assert_eq!(b.tracker().interval_count(), 1);
        assert_eq!(b.tracker().highest_received(), 14);
        assert_eq!(b.read(20), b"ijklmn".to_vec());
    }
}
