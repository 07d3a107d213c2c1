use logstore::{encode_header, Log, LogError, SegmentFile, SegmentId, WriteTarget};

fn fresh(total: u64, segment: u64) -> Log {
    match Log::new("data", total, segment, &Vec::new()) {
        Ok(log) => log,
        Err(e) => panic!("bootstrap failed: {:?}", e),
    }
}

fn file(name: &str, capacity: u64) -> SegmentFile {
    SegmentFile { filename: name.to_string(), header: encode_header(capacity) }
}

#[test]
fn fresh_directory_gets_first_segment() {
    let log = fresh(100, 40);
    assert_eq!(log.available_space_in_bytes(), 60);
    assert_eq!(log.capacity_in_bytes(), 100);
    assert_eq!(log.segment_capacity_in_bytes(), 40);
    assert_eq!(log.data_dir(), "data");
    let active = log.active_segment();
    assert_eq!(active.id(), SegmentId { pos: 0, gen: 0 });
    assert_eq!(active.capacity_in_bytes(), 40);
    assert_eq!(active.end_offset(), 14);
}

#[test]
fn write_then_rollover() {
    let mut log = fresh(100, 40);
    // 26 bytes of payload fit after the 14-byte header
    let t = log.write(20).ok().unwrap();
    assert_eq!(t, WriteTarget { id: SegmentId { pos: 0, gen: 0 }, offset: 14, len: 20 });
    assert_eq!(log.record_write(20), 20);
    assert_eq!(log.active_segment().remaining_bytes(), 6);
    assert!(log.should_rollover(20));
    let t = log.write(20).ok().unwrap();
    assert_eq!(t, WriteTarget { id: SegmentId { pos: 1, gen: 0 }, offset: 14, len: 20 });
    assert_eq!(log.record_write(20), 20);
    assert_eq!(log.active_segment().id(), SegmentId { pos: 1, gen: 0 });
    assert_eq!(log.active_segment().remaining_bytes(), 6);
    assert_eq!(log.available_space_in_bytes(), 20);
}

#[test]
fn thirty_bytes_do_not_fit_a_forty_byte_segment() {
    let mut log = fresh(100, 40);
    assert_eq!(log.active_segment().remaining_bytes(), 26);
    assert!(log.should_rollover(30));
    let t = log.write(30).ok().unwrap();
    assert_eq!(t, WriteTarget { id: SegmentId { pos: 1, gen: 0 }, offset: 14, len: 26 });
}

#[test]
fn rollover_out_of_capacity() {
    let mut log = fresh(60, 40);
    assert_eq!(log.available_space_in_bytes(), 20);
    assert_eq!(log.rollover(), Err(LogError::OutOfCapacity));
    assert_eq!(log.active_segment().id(), SegmentId { pos: 0, gen: 0 });
    assert_eq!(log.available_space_in_bytes(), 20);
    assert_eq!(log.write(27), Err(LogError::OutOfCapacity));
    assert_eq!(log.write(26), Ok(WriteTarget { id: SegmentId { pos: 0, gen: 0 }, offset: 14, len: 26 }));
}

#[test]
fn restore_existing_segment() {
    let found = vec![file("0_0.log", 40)];
    let log = match Log::new("data", 100, 40, &found) {
        Ok(log) => log,
        Err(e) => panic!("{:?}", e),
    };
    let active = log.active_segment();
    assert_eq!(active.id(), SegmentId { pos: 0, gen: 0 });
    assert_eq!(active.capacity_in_bytes(), 40);
    assert_eq!(active.header(), encode_header(40));
    assert_eq!(log.available_space_in_bytes(), 60);
}

#[test]
fn restored_segments_are_sealed() {
    let found = vec![file("0_0.log", 40)];
    let mut log = match Log::new("data", 100, 40, &found) {
        Ok(log) => log,
        Err(e) => panic!("{:?}", e),
    };
    assert_eq!(log.active_segment().remaining_bytes(), 0);
    let t = log.write(1).ok().unwrap();
    assert_eq!(t, WriteTarget { id: SegmentId { pos: 1, gen: 0 }, offset: 14, len: 1 });
    assert_eq!(log.available_space_in_bytes(), 20);
}

#[test]
fn restore_picks_greatest_identifier_as_active() {
    let found = vec![file("2_0.log", 30), file("10_0.log", 20), file("3_5.log", 25)];
    let log = match Log::new("data", 100, 40, &found) {
        Ok(log) => log,
        Err(e) => panic!("{:?}", e),
    };
    assert_eq!(log.active_segment().id(), SegmentId { pos: 10, gen: 0 });
    assert_eq!(log.active_segment().capacity_in_bytes(), 20);
    assert_eq!(log.available_space_in_bytes(), 25);
}

#[test]
fn restore_over_budget_fails() {
    let found = vec![file("0_0.log", 40), file("1_0.log", 40)];
    assert!(matches!(Log::new("data", 79, 40, &found), Err(LogError::CapacityExceeded)));
    assert!(Log::new("data", 80, 40, &found).is_ok());
}

#[test]
fn fresh_segment_over_budget_fails() {
    assert!(matches!(Log::new("data", 39, 40, &Vec::new()), Err(LogError::CapacityExceeded)));
    assert!(matches!(Log::new("data", 100, 14, &Vec::new()), Err(LogError::InvalidCapacity)));
}

#[test]
fn restore_reports_bad_files() {
    let found = vec![file("0_0.log", 40), file("zero_0.log", 40)];
    assert!(matches!(Log::new("data", 100, 40, &found), Err(LogError::MalformedSegmentName)));
    let mut bad = file("1_0.log", 40);
    bad.header[5] ^= 1;
    let found = vec![file("0_0.log", 40), bad];
    assert!(matches!(Log::new("data", 100, 40, &found), Err(LogError::CorruptHeader)));
    let mut bad = file("1_0.log", 40);
    bad.header[0] = 9;
    let found = vec![bad];
    assert!(matches!(Log::new("data", 100, 40, &found), Err(LogError::UnsupportedVersion)));
}

#[test]
fn duplicate_identifiers_are_rejected() {
    let found = vec![file("0_0.log", 40), file("00_0.log", 40)];
    assert!(matches!(Log::new("data", 100, 40, &found), Err(LogError::DuplicateSegment)));
}

#[test]
fn capacity_is_accounted_across_rollovers() {
    let mut log = fresh(1000, 100);
    let mut segments: u64 = 1;
    for _ in 0..40 {
        let before = log.active_segment().id();
        match log.write(50) {
            Ok(t) => {
                log.record_write(t.len);
                if t.id != before {
                    segments += 1;
                }
            }
            Err(e) => {
                assert_eq!(e, LogError::OutOfCapacity);
                break;
            }
        }
        assert_eq!(segments * 100 + log.available_space_in_bytes(), 1000);
    }
    assert_eq!(segments, 10);
    assert_eq!(log.available_space_in_bytes(), 0);
}

#[test]
fn active_identifier_only_grows() {
    let mut log = fresh(1000, 40);
    let mut last = log.active_segment().id();
    let mut rollovers = 0;
    for size in [10u64, 20, 5, 26, 1, 13, 13, 26, 3].iter() {
        let rolled = log.should_rollover(*size);
        let t = log.write(*size).ok().unwrap();
        log.record_write(t.len);
        let now = log.active_segment().id();
        if rolled {
            rollovers += 1;
            assert_eq!(now, SegmentId { pos: last.pos + 1, gen: last.gen });
        } else {
            assert_eq!(now, last);
        }
        last = now;
    }
    assert_eq!(last.pos, rollovers);
}

#[test]
fn bootstrap_error_does_not_depend_on_listing_order() {
    let unknown = || {
        let mut f = file("0_0.log", 40);
        f.header[0] = 1;
        f
    };
    let found = vec![file("x.log", 40), unknown()];
    assert!(matches!(Log::new("data", 100, 40, &found), Err(LogError::MalformedSegmentName)));
    let found = vec![unknown(), file("x.log", 40)];
    assert!(matches!(Log::new("data", 100, 40, &found), Err(LogError::MalformedSegmentName)));
}

#[test]
fn error_precedence_is_fixed() {
    let mut corrupt = file("1_0.log", 40);
    corrupt.header[10] ^= 4;
    let small = file("2_0.log", 10);
    let dup_a = file("3_0.log", 40);
    let dup_b = file("03_0.log", 40);
    let found = vec![dup_a, small, corrupt, dup_b];
    assert!(matches!(Log::new("data", 1000, 40, &found), Err(LogError::CorruptHeader)));
    let found = vec![file("3_0.log", 40), file("2_0.log", 10), file("03_0.log", 40)];
    assert!(matches!(Log::new("data", 1000, 40, &found), Err(LogError::InvalidCapacity)));
    let found = vec![file("3_0.log", 400), file("03_0.log", 400)];
    assert!(matches!(Log::new("data", 100, 40, &found), Err(LogError::DuplicateSegment)));
}

#[test]
fn restore_result_does_not_depend_on_listing_order() {
    let a = vec![file("2_0.log", 30), file("10_0.log", 20), file("3_5.log", 25)];
    let b = vec![file("3_5.log", 25), file("2_0.log", 30), file("10_0.log", 20)];
    let la = match Log::new("data", 100, 40, &a) {
        Ok(log) => log,
        Err(e) => panic!("{:?}", e),
    };
    let lb = match Log::new("data", 100, 40, &b) {
        Ok(log) => log,
        Err(e) => panic!("{:?}", e),
    };
    assert_eq!(la.available_space_in_bytes(), lb.available_space_in_bytes());
    assert_eq!(la.active_segment().id(), lb.active_segment().id());
    assert_eq!(la.active_segment().capacity_in_bytes(), lb.active_segment().capacity_in_bytes());
}
