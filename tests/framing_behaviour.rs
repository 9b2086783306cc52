use ringbuffer::checksum::checksum;
use ringbuffer::create_log_messages;
use ringbuffer::framing::{FlushResult, ReadError};
use ringbuffer::ring_buffer::{FramingError, PushResult, RingBuffer};

fn contents(rb: &RingBuffer) -> Vec<u8> {
    (0..rb.len()).map(|i| rb.peek_at(i)).collect()
}

fn push_all(rb: &mut RingBuffer, bytes: &[u8]) {
    for &b in bytes {
        assert_eq!(rb.push(b), PushResult::Success);
    }
}

#[test]
fn write_then_read_three_bytes() {
    let mut rb = RingBuffer::new(16);
    assert_eq!(rb.log_message_with_crc(&[1, 2, 3]), PushResult::Success);
    assert_eq!(contents(&rb), vec![1, 2, 3, 0, 0]);
    assert_eq!(rb.flush_message_with_crc_check(), FlushResult::Success(vec![1, 2, 3]));
    assert!(rb.is_empty());
}

#[test]
fn flipped_first_byte_is_a_mismatch() {
    let mut rb = RingBuffer::new(16);
    push_all(&mut rb, &[9, 2, 3, 0, 0]);
    assert_eq!(
        rb.flush_message_with_crc_check(),
        FlushResult::Failure(ReadError::ChecksumMismatch)
    );
    // the checksum was 0, so the mismatch ends there and the terminator stays
    assert_eq!(contents(&rb), vec![0]);
}

#[test]
fn third_small_write_overflows_capacity_eight() {
    let mut rb = RingBuffer::new(8);
    assert_eq!(rb.log_message_with_crc(&[5]), PushResult::Success);
    assert_eq!(rb.log_message_with_crc(&[5]), PushResult::Success);
    assert_eq!(contents(&rb), vec![5, 5, 0, 5, 5, 0]);
    assert_eq!(
        rb.log_message_with_crc(&[5]),
        PushResult::Failure(FramingError::BufferFull)
    );
    // the byte that still fitted stays: no rollback
    assert_eq!(contents(&rb), vec![5, 5, 0, 5, 5, 0, 5]);
    assert!(rb.is_full());
}

#[test]
fn round_trip_of_several_payloads() {
    let payloads: Vec<Vec<u8>> = vec![
        vec![],
        vec![7],
        vec![1, 2, 3],
        vec![3, 3],
        b"Hello, world!".to_vec(),
        vec![255, 128, 1],
    ];
    for p in &payloads {
        let mut rb = RingBuffer::new(64);
        assert_eq!(rb.log_message_with_crc(p), PushResult::Success);
        assert_eq!(rb.len(), p.len() + 2);
        assert_eq!(rb.flush_message_with_crc_check(), FlushResult::Success(p.clone()));
        assert!(rb.is_empty());
    }
}

#[test]
fn consecutive_frames_read_back_in_order() {
    let mut rb = RingBuffer::new(64);
    let payloads: Vec<Vec<u8>> = vec![vec![1, 2, 3], vec![4, 5], vec![3, 3], vec![9]];
    for p in &payloads {
        assert_eq!(rb.log_message_with_crc(p), PushResult::Success);
    }
    for p in &payloads {
        assert_eq!(rb.flush_message_with_crc_check(), FlushResult::Success(p.clone()));
    }
    assert!(rb.is_empty());
}

#[test]
fn single_bit_flips_are_detected() {
    let payloads: Vec<Vec<u8>> = vec![vec![1, 2, 3], b"telemetry".to_vec(), vec![200, 17]];
    for p in &payloads {
        let c = checksum(p);
        for i in 0..p.len() {
            for bit in 0..8u8 {
                let flipped = p[i] ^ (1u8 << bit);
                if flipped == 0 {
                    continue;
                }
                let mut frame = p.clone();
                frame[i] = flipped;
                frame.push(c);
                frame.push(0);

                let mut rb = RingBuffer::new(32);
                push_all(&mut rb, &frame);
                assert_eq!(
                    rb.flush_message_with_crc_check(),
                    FlushResult::Failure(ReadError::ChecksumMismatch)
                );

                let mut rb = RingBuffer::new(32);
                push_all(&mut rb, &frame);
                assert_eq!(
                    rb.dma_flush_with_crc_check(32),
                    Err(ReadError::ChecksumMismatch)
                );
                if c == 0 {
                    assert_eq!(contents(&rb), vec![0]);
                } else {
                    assert!(rb.is_empty());
                }
            }
        }
    }
}

#[test]
fn capacity_holds_one_less_than_slots() {
    let mut rb = RingBuffer::new(4);
    push_all(&mut rb, &[10, 20, 30]);
    assert!(rb.is_full());
    assert_eq!(rb.push(40), PushResult::Failure(FramingError::BufferFull));
    assert_eq!(contents(&rb), vec![10, 20, 30]);
    assert_eq!(rb.pop(), Some(10));
    assert_eq!(rb.push(40), PushResult::Success);
    assert_eq!(contents(&rb), vec![20, 30, 40]);
}

#[test]
fn empty_and_full_are_exclusive() {
    let mut rb = RingBuffer::new(2);
    assert!(rb.is_empty() && !rb.is_full());
    assert_eq!(rb.push(1), PushResult::Success);
    assert!(!rb.is_empty() && rb.is_full());
    assert_eq!(rb.pop(), Some(1));
    assert!(rb.is_empty() && !rb.is_full());
}

#[test]
fn pop_on_empty_changes_nothing() {
    let mut rb = RingBuffer::new(3);
    assert_eq!(rb.pop(), None);
    assert_eq!(rb.len(), 0);
    push_all(&mut rb, &[4, 5]);
    assert_eq!(rb.pop(), Some(4));
    assert_eq!(rb.pop(), Some(5));
    assert_eq!(rb.pop(), None);
    assert_eq!(rb.push(6), PushResult::Success);
    assert_eq!(contents(&rb), vec![6]);
}

#[test]
fn indices_wrap_around() {
    let mut rb = RingBuffer::new(5);
    for round in 1..20u8 {
        assert_eq!(rb.log_message_with_crc(&[round]), PushResult::Success);
        assert_eq!(rb.flush_message_with_crc_check(), FlushResult::Success(vec![round]));
        assert!(rb.is_empty());
    }
}

#[test]
fn drain_stays_within_budget() {
    let mut rb = RingBuffer::new(16);
    for _ in 0..3 {
        assert_eq!(rb.log_message_with_crc(&[5]), PushResult::Success);
    }
    assert_eq!(rb.dma_flush_with_crc_check(2), Ok(vec![]));
    assert_eq!(rb.len(), 9);
    assert_eq!(rb.dma_flush_with_crc_check(7), Ok(vec![vec![5], vec![5]]));
    assert_eq!(rb.len(), 3);
    assert_eq!(rb.dma_flush_with_crc_check(100), Ok(vec![vec![5]]));
    assert!(rb.is_empty());
}

#[test]
fn drain_of_empty_store_is_empty() {
    let mut rb = RingBuffer::new(8);
    assert_eq!(rb.dma_flush_with_crc_check(32), Ok(vec![]));
}

#[test]
fn drain_leaves_incomplete_frame_in_place() {
    let mut rb = RingBuffer::new(16);
    assert_eq!(rb.log_message_with_crc(&[1, 2, 3]), PushResult::Success);
    push_all(&mut rb, &[8, 9]);
    assert_eq!(rb.dma_flush_with_crc_check(32), Ok(vec![vec![1, 2, 3]]));
    assert_eq!(contents(&rb), vec![8, 9]);
}

#[test]
fn drain_fails_whole_call_on_bad_frame() {
    let mut rb = RingBuffer::new(32);
    assert_eq!(rb.log_message_with_crc(&[4, 5]), PushResult::Success);
    push_all(&mut rb, &[6, 7, 9, 0]);
    assert_eq!(rb.log_message_with_crc(&[1]), PushResult::Success);
    assert_eq!(rb.dma_flush_with_crc_check(32), Err(ReadError::ChecksumMismatch));
    // the bad frame is consumed; the store is left at the next frame
    assert_eq!(contents(&rb), vec![1, 1, 0]);
    assert_eq!(rb.dma_flush_with_crc_check(32), Ok(vec![vec![1]]));
}

#[test]
fn read_without_terminator_is_truncated() {
    let mut rb = RingBuffer::new(8);
    push_all(&mut rb, &[1, 2, 3]);
    assert_eq!(
        rb.flush_message_with_crc_check(),
        FlushResult::Failure(ReadError::Truncated)
    );
    assert!(rb.is_empty());
    assert_eq!(
        rb.flush_message_with_crc_check(),
        FlushResult::Failure(ReadError::Truncated)
    );
}

#[test]
fn terminator_without_checksum_is_a_mismatch() {
    let mut rb = RingBuffer::new(8);
    push_all(&mut rb, &[0, 7]);
    assert_eq!(
        rb.flush_message_with_crc_check(),
        FlushResult::Failure(ReadError::ChecksumMismatch)
    );
    assert_eq!(contents(&rb), vec![7]);
}

#[test]
fn next_message_size_counts_the_terminator() {
    let mut rb = RingBuffer::new(16);
    assert_eq!(rb.get_next_message_size(), None);
    assert_eq!(rb.log_message_with_crc(&[4, 5]), PushResult::Success);
    assert_eq!(rb.get_next_message_size(), Some(4));
    assert_eq!(rb.log_message_with_crc(&[1, 2, 3]), PushResult::Success);
    assert_eq!(rb.get_next_message_size(), Some(4));
    assert_eq!(rb.flush_message_with_crc_check(), FlushResult::Success(vec![4, 5]));
    assert_eq!(rb.get_next_message_size(), Some(5));
    assert_eq!(rb.len(), 5);
    let mut partial = RingBuffer::new(4);
    push_all(&mut partial, &[1, 2]);
    assert_eq!(partial.get_next_message_size(), None);
}

#[test]
fn checksum_is_xor_of_bytes() {
    assert_eq!(checksum(&[]), 0);
    assert_eq!(checksum(&[1, 2, 3]), 0);
    assert_eq!(checksum(&[0x0f, 0xf0]), 0xff);
    assert_eq!(checksum(&[5]), 5);
    assert_eq!(checksum(b"ab"), 0x61 ^ 0x62);
}

#[test]
fn log_messages_take_one_byte_per_char() {
    let m = create_log_messages(&["Hi!", "", "\u{e9}"]);
    assert_eq!(m, vec![vec![72, 105, 33], vec![], vec![0xe9]]);
}

#[test]
fn failed_drain_stops_at_the_bad_frames_terminator() {
    // the frame of [1, 2] with its second byte flipped, then the frame of []
    let mut rb = RingBuffer::new(16);
    push_all(&mut rb, &[1, 6, 3, 0, 0, 0]);
    assert_eq!(rb.dma_flush_with_crc_check(32), Err(ReadError::ChecksumMismatch));
    assert_eq!(contents(&rb), vec![0, 0]);
    assert_eq!(rb.flush_message_with_crc_check(), FlushResult::Success(vec![]));
    assert!(rb.is_empty());
}

#[test]
fn drain_with_exact_budget_reports_flipped_frame() {
    let mut rb = RingBuffer::new(16);
    push_all(&mut rb, &[1, 6, 3, 0, 0, 0]);
    assert_eq!(rb.get_next_message_size(), Some(4));
    assert_eq!(rb.dma_flush_with_crc_check(4), Err(ReadError::ChecksumMismatch));
    assert_eq!(contents(&rb), vec![0, 0]);
}

#[test]
fn read_of_flipped_frame_keeps_following_frame() {
    let mut rb = RingBuffer::new(16);
    push_all(&mut rb, &[1, 6, 3, 0]);
    assert_eq!(rb.log_message_with_crc(&[]), PushResult::Success);
    assert_eq!(
        rb.flush_message_with_crc_check(),
        FlushResult::Failure(ReadError::ChecksumMismatch)
    );
    assert_eq!(contents(&rb), vec![0, 0]);
}

#[test]
fn flipped_frame_with_zero_checksum_leaves_its_terminator() {
    // [1, 2, 3] has checksum 0; flip the first byte to 9
    let mut rb = RingBuffer::new(16);
    push_all(&mut rb, &[9, 2, 3, 0, 0]);
    assert_eq!(rb.get_next_message_size(), Some(4));
    assert_eq!(
        rb.flush_message_with_crc_check(),
        FlushResult::Failure(ReadError::ChecksumMismatch)
    );
    assert_eq!(contents(&rb), vec![0]);
    assert_eq!(
        rb.flush_message_with_crc_check(),
        FlushResult::Failure(ReadError::ChecksumMismatch)
    );
    assert!(rb.is_empty());
}

#[test]
fn flips_are_detected_before_other_frames() {
    let p: Vec<u8> = vec![1, 2, 3, 7];
    let c = checksum(&p);
    for i in 0..p.len() {
        for bit in 0..8u8 {
            let flipped = p[i] ^ (1u8 << bit);
            if flipped == 0 {
                continue;
            }
            let mut frame = p.clone();
            frame[i] = flipped;
            frame.push(c);
            frame.push(0);
            let mut rb = RingBuffer::new(64);
            push_all(&mut rb, &frame);
            assert_eq!(rb.log_message_with_crc(&[]), PushResult::Success);
            assert_eq!(rb.log_message_with_crc(&[4, 4]), PushResult::Success);
            assert_eq!(
                rb.dma_flush_with_crc_check(frame.len()),
                Err(ReadError::ChecksumMismatch)
            );
            assert!(rb.len() >= 6);
        }
    }
}
