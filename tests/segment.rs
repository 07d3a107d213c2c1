use logstore::{encode_header, LogError, LogSegment, SegmentId, HEADER_SIZE};

#[test]
fn new_segment_starts_past_header() {
    let s = LogSegment::new(SegmentId { pos: 2, gen: 1 }, 40).ok().unwrap();
    assert_eq!(s.capacity_in_bytes(), 40);
    assert_eq!(s.start_offset(), HEADER_SIZE);
    assert_eq!(s.end_offset(), HEADER_SIZE);
    assert_eq!(s.remaining_bytes(), 26);
    assert_eq!(s.id(), SegmentId { pos: 2, gen: 1 });
    assert_eq!(s.name(), "2_1");
    assert_eq!(s.header(), encode_header(40));
}

#[test]
fn capacity_must_exceed_header() {
    let id = SegmentId { pos: 0, gen: 0 };
    assert!(matches!(LogSegment::new(id, 14), Err(LogError::InvalidCapacity)));
    assert!(matches!(LogSegment::new(id, 0), Err(LogError::InvalidCapacity)));
    let s = LogSegment::new(id, 15).ok().unwrap();
    assert_eq!(s.remaining_bytes(), 1);
}

#[test]
fn writes_advance_cursor_and_stop_at_capacity() {
    let mut s = LogSegment::new(SegmentId { pos: 0, gen: 0 }, 40).ok().unwrap();
    assert_eq!(s.room_for(10), 10);
    assert_eq!(s.write(10), 10);
    assert_eq!(s.end_offset(), 24);
    assert_eq!(s.remaining_bytes(), 16);
    assert_eq!(s.room_for(20), 16);
    assert_eq!(s.write(20), 16);
    assert_eq!(s.remaining_bytes(), 0);
    assert_eq!(s.write(1), 0);
    assert_eq!(s.end_offset(), 40);
}

#[test]
fn restore_reads_capacity_from_header() {
    let id = SegmentId { pos: 0, gen: 0 };
    let s = LogSegment::restore_from(id, &encode_header(40)).ok().unwrap();
    assert_eq!(s.capacity_in_bytes(), 40);
    assert_eq!(s.start_offset(), HEADER_SIZE);
    assert_eq!(s.end_offset(), HEADER_SIZE);
    assert_eq!(s.id(), id);
}

#[test]
fn restore_replays_payload_with_read() {
    let id = SegmentId { pos: 0, gen: 0 };
    let mut s = LogSegment::restore_from(id, &encode_header(40)).ok().unwrap();
    assert_eq!(s.read(12), 12);
    assert_eq!(s.end_offset(), 26);
    assert_eq!(s.read(100), 14);
    assert_eq!(s.remaining_bytes(), 0);
}

#[test]
fn restore_rejects_bad_headers() {
    let id = SegmentId { pos: 0, gen: 0 };
    let mut h = encode_header(40);
    h[0] = 3;
    assert!(matches!(LogSegment::restore_from(id, &h), Err(LogError::UnsupportedVersion)));
    let mut h = encode_header(40);
    h[10] ^= 0x10;
    assert!(matches!(LogSegment::restore_from(id, &h), Err(LogError::CorruptHeader)));
    let h = encode_header(14);
    assert!(matches!(LogSegment::restore_from(id, &h), Err(LogError::InvalidCapacity)));
}

#[test]
fn seal_fills_segment() {
    let mut s = LogSegment::new(SegmentId { pos: 0, gen: 0 }, 40).ok().unwrap();
    s.seal();
    assert_eq!(s.remaining_bytes(), 0);
    assert_eq!(s.end_offset(), 40);
}

#[test]
fn create_then_restore_round_trips() {
    for &cap in [15u64, 40, 1 << 20, u64::MAX].iter() {
        let id = SegmentId { pos: 7, gen: 2 };
        let created = LogSegment::new(id, cap).ok().unwrap();
        let restored = LogSegment::restore_from(id, &created.header()).ok().unwrap();
        assert_eq!(restored.capacity_in_bytes(), cap);
        assert_eq!(restored.end_offset(), HEADER_SIZE);
        assert_eq!(restored.header(), created.header());
    }
}
