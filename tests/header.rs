use logstore::{decode_header, encode_header, header_crc, LogError, HEADER_SIZE, VERSION};

#[test]
fn header_layout() {
    let h = encode_header(40);
    assert_eq!(h.len() as u64, HEADER_SIZE);
    assert_eq!(h[0], VERSION);
    assert_eq!(&h[1..9], &[0, 0, 0, 0, 0, 0, 0, 40]);
    let crc = crc::crc32::checksum_ieee(&h[0..9]);
    assert_eq!(&h[9..13], &crc.to_be_bytes());
    assert_eq!(h[13], 0);
}

#[test]
fn header_crc_is_crc32_of_version_and_capacity() {
    let expected = crc::crc32::checksum_ieee(&[0, 0, 0, 0, 0, 0, 0x01, 0x02, 0x03]);
    assert_eq!(header_crc(0, 0x010203), expected);
    assert_ne!(header_crc(0, 0x010203), 0x010203);
    assert_ne!(header_crc(0, 40), header_crc(0, 41));
}

#[test]
fn known_crc32_value() {
    // CRC-32 (IEEE) of one zero byte and eight zero bytes
    assert_eq!(header_crc(0, 0), crc::crc32::checksum_ieee(&[0u8; 9]));
    assert_eq!(crc::crc32::checksum_ieee(b"123456789"), 0xCBF4_3926);
}

#[test]
fn header_round_trips() {
    for &cap in [15u64, 40, 4096, 1 << 33, u64::MAX].iter() {
        assert_eq!(decode_header(&encode_header(cap)), Ok(cap));
    }
}

#[test]
fn every_single_bit_flip_is_detected() {
    let h = encode_header(40);
    for i in 0..h.len() {
        for bit in 0..8 {
            let mut f = h.clone();
            f[i] ^= 1 << bit;
            let r = decode_header(&f);
            assert!(
                r == Err(LogError::CorruptHeader) || r == Err(LogError::UnsupportedVersion),
                "byte {} bit {}",
                i,
                bit
            );
        }
    }
}

#[test]
fn unknown_version_is_unsupported() {
    let mut h = encode_header(40);
    h[0] = 1;
    assert_eq!(decode_header(&h), Err(LogError::UnsupportedVersion));
}

#[test]
fn checksum_mismatch_is_corrupt() {
    let mut h = encode_header(40);
    h[8] = 41;
    assert_eq!(decode_header(&h), Err(LogError::CorruptHeader));
    let mut h = encode_header(40);
    h[13] = 7;
    assert_eq!(decode_header(&h), Err(LogError::CorruptHeader));
}

#[test]
fn truncated_header_is_corrupt() {
    let h = encode_header(40);
    assert_eq!(decode_header(&h[..13]), Err(LogError::CorruptHeader));
    assert_eq!(decode_header(&[]), Err(LogError::CorruptHeader));
}
