use logstore::{
    get_segment_name, is_segment_filename, name_to_filename, next_pos_name, next_segment_id_pos,
    segment_id_from_filename, segment_id_to_filename, LogError, SegmentId,
};

#[test]
fn filename_of_first_segment() {
    let id = SegmentId { pos: 0, gen: 0 };
    assert_eq!(segment_id_to_filename(&id), "0_0.log");
}

#[test]
fn filename_is_decimal_position_then_generation() {
    let id = SegmentId { pos: 1234, gen: 56 };
    assert_eq!(segment_id_to_filename(&id), "1234_56.log");
    let id = SegmentId { pos: u64::MAX, gen: 10 };
    assert_eq!(segment_id_to_filename(&id), "18446744073709551615_10.log");
}

#[test]
fn filename_round_trips() {
    let values = [0u64, 1, 9, 10, 99, 100, 4096, 1 << 40, u64::MAX - 1, u64::MAX];
    for &pos in values.iter() {
        for &gen in values.iter() {
            let id = SegmentId { pos, gen };
            let name = segment_id_to_filename(&id);
            assert_eq!(segment_id_from_filename(&name), Ok(id));
        }
    }
}

#[test]
fn filename_with_leading_zeros_parses() {
    assert_eq!(segment_id_from_filename("007_03.log"), Ok(SegmentId { pos: 7, gen: 3 }));
}

#[test]
fn malformed_filenames_are_rejected() {
    let bad = [
        "",
        ".log",
        "0.log",
        "_0.log",
        "0_.log",
        "0_0",
        "0_0_log",
        "0_0.txt",
        "a_0.log",
        "0_b.log",
        "0_0_0.log",
        "-1_0.log",
        "18446744073709551616_0.log",
        "0_18446744073709551616.log",
    ];
    for name in bad.iter() {
        assert_eq!(segment_id_from_filename(name), Err(LogError::MalformedSegmentName), "{}", name);
    }
}

#[test]
fn largest_position_parses() {
    assert_eq!(
        segment_id_from_filename("18446744073709551615_0.log"),
        Ok(SegmentId { pos: u64::MAX, gen: 0 })
    );
}

#[test]
fn segment_filename_suffix() {
    assert!(is_segment_filename("0_0.log"));
    assert!(is_segment_filename("junk.log"));
    assert!(!is_segment_filename("0_0_log"));
    assert!(!is_segment_filename("log"));
    assert!(!is_segment_filename(""));
}

#[test]
fn next_position_keeps_generation() {
    let id = SegmentId { pos: 4, gen: 9 };
    assert_eq!(next_segment_id_pos(&id), SegmentId { pos: 5, gen: 9 });
    assert!(id < next_segment_id_pos(&id));
}

#[test]
fn identifiers_order_by_position_then_generation() {
    assert!(SegmentId { pos: 1, gen: 5 } < SegmentId { pos: 2, gen: 0 });
    assert!(SegmentId { pos: 2, gen: 0 } < SegmentId { pos: 2, gen: 1 });
}

#[test]
fn segment_names() {
    assert_eq!(get_segment_name(3, 4), "3_4");
    assert_eq!(name_to_filename("3_4"), "3_4.log");
    assert_eq!(next_pos_name("3_4"), Ok("4_4".to_string()));
    assert_eq!(next_pos_name("x_4"), Err(LogError::MalformedSegmentName));
    assert_eq!(next_pos_name("3_4.log"), Err(LogError::MalformedSegmentName));
    assert_eq!(next_pos_name("18446744073709551615_0"), Err(LogError::OutOfCapacity));
}
