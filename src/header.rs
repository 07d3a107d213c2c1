use vstd::prelude::*;

use crate::error::LogError;

verus! {

/// Bytes the header occupies at the start of every segment file.
pub const HEADER_SIZE: u64 = 14;

/// The only header format version this crate reads or writes.
pub const VERSION: u8 = 0;

/// The CRC-32 (IEEE polynomial) of a byte string.
pub uninterp spec fn crc32_ieee(data: Seq<u8>) -> u32;

/// Relies on `crc::crc32::checksum_ieee`: the CRC-32 with the IEEE
/// polynomial, which depends on the bytes alone.
#[verifier::external_body]
fn checksum_ieee(data: &[u8]) -> (r: u32)
    ensures
        r == crc32_ieee(data@),
{
    crc::crc32::checksum_ieee(data)
}

/// Big-endian bytes of a `u64`.
pub open spec fn be_u64(n: u64) -> Seq<u8> {
    seq![
        (n >> 56u64) as u8,
        (n >> 48u64) as u8,
        (n >> 40u64) as u8,
        (n >> 32u64) as u8,
        (n >> 24u64) as u8,
        (n >> 16u64) as u8,
        (n >> 8u64) as u8,
        n as u8,
    ]
}

/// Big-endian bytes of a `u32`.
pub open spec fn be_u32(n: u32) -> Seq<u8> {
    seq![(n >> 24u32) as u8, (n >> 16u32) as u8, (n >> 8u32) as u8, n as u8]
}

pub open spec fn u64_of_bytes(b0: u8, b1: u8, b2: u8, b3: u8, b4: u8, b5: u8, b6: u8, b7: u8) -> u64 {
    (b0 as u64) << 56u64 | (b1 as u64) << 48u64 | (b2 as u64) << 40u64 | (b3 as u64) << 32u64 | (
    b4 as u64) << 24u64 | (b5 as u64) << 16u64 | (b6 as u64) << 8u64 | (b7 as u64)
}

pub open spec fn u32_of_bytes(b0: u8, b1: u8, b2: u8, b3: u8) -> u32 {
    (b0 as u32) << 24u32 | (b1 as u32) << 16u32 | (b2 as u32) << 8u32 | (b3 as u32)
}

/// The `u64` whose big-endian bytes start at `at`.
pub open spec fn be_to_u64(b: Seq<u8>, at: int) -> u64 {
    u64_of_bytes(b[at], b[at + 1], b[at + 2], b[at + 3], b[at + 4], b[at + 5], b[at + 6], b[at + 7])
}

/// The `u32` whose big-endian bytes start at `at`.
pub open spec fn be_to_u32(b: Seq<u8>, at: int) -> u32 {
    u32_of_bytes(b[at], b[at + 1], b[at + 2], b[at + 3])
}

/// What the checksum covers: the version byte, then the capacity.
pub open spec fn checked_fields(version: u8, capacity: u64) -> Seq<u8> {
    seq![version] + be_u64(capacity)
}

/// The header of a segment of the given capacity: version, capacity, the
/// checksum of both, and one reserved zero byte.
pub open spec fn header_bytes(capacity: u64) -> Seq<u8> {
    checked_fields(VERSION, capacity) + be_u32(crc32_ieee(checked_fields(VERSION, capacity)))
        + seq![0u8]
}

/// What a header read back from disk yields: its capacity, or why it cannot
/// be trusted.
pub open spec fn parse_header(h: Seq<u8>) -> Result<u64, LogError> {
    if h.len() != HEADER_SIZE {
        Err(LogError::CorruptHeader)
    } else if h[0] != VERSION {
        Err(LogError::UnsupportedVersion)
    } else if be_to_u32(h, 9) != crc32_ieee(h.subrange(0, 9)) || h[13] != 0 {
        Err(LogError::CorruptHeader)
    } else {
        Ok(be_to_u64(h, 1))
    }
}

proof fn lemma_u64_bytes(n: u64)
    ensures
        u64_of_bytes(
            (n >> 56u64) as u8,
            (n >> 48u64) as u8,
            (n >> 40u64) as u8,
            (n >> 32u64) as u8,
            (n >> 24u64) as u8,
            (n >> 16u64) as u8,
            (n >> 8u64) as u8,
            n as u8,
        ) == n,
{
    assert(((((n >> 56u64) as u8) as u64) << 56u64 | (((n >> 48u64) as u8) as u64) << 48u64 | (((n
        >> 40u64) as u8) as u64) << 40u64 | (((n >> 32u64) as u8) as u64) << 32u64 | (((n >> 24u64)
        as u8) as u64) << 24u64 | (((n >> 16u64) as u8) as u64) << 16u64 | (((n >> 8u64) as u8)
        as u64) << 8u64 | ((n as u8) as u64)) == n) by (bit_vector);
}

proof fn lemma_u32_bytes(n: u32)
    ensures
        u32_of_bytes((n >> 24u32) as u8, (n >> 16u32) as u8, (n >> 8u32) as u8, n as u8) == n,
{
    assert(((((n >> 24u32) as u8) as u32) << 24u32 | (((n >> 16u32) as u8) as u32) << 16u32 | (((n
        >> 8u32) as u8) as u32) << 8u32 | ((n as u8) as u32)) == n) by (bit_vector);
}

proof fn lemma_bytes_u64(b0: u8, b1: u8, b2: u8, b3: u8, b4: u8, b5: u8, b6: u8, b7: u8)
    ensures
        be_u64(u64_of_bytes(b0, b1, b2, b3, b4, b5, b6, b7)) == seq![b0, b1, b2, b3, b4, b5, b6, b7],
{
    let n = u64_of_bytes(b0, b1, b2, b3, b4, b5, b6, b7);
    assert((n >> 56u64) as u8 == b0 && (n >> 48u64) as u8 == b1 && (n >> 40u64) as u8 == b2 && (n
        >> 32u64) as u8 == b3 && (n >> 24u64) as u8 == b4 && (n >> 16u64) as u8 == b5 && (n
        >> 8u64) as u8 == b6 && n as u8 == b7) by (bit_vector)
        requires
            n == (b0 as u64) << 56u64 | (b1 as u64) << 48u64 | (b2 as u64) << 40u64 | (b3 as u64)
                << 32u64 | (b4 as u64) << 24u64 | (b5 as u64) << 16u64 | (b6 as u64) << 8u64 | (
            b7 as u64),
    ;
    assert(be_u64(n) =~= seq![b0, b1, b2, b3, b4, b5, b6, b7]);
}

proof fn lemma_bytes_u32(b0: u8, b1: u8, b2: u8, b3: u8)
    ensures
        be_u32(u32_of_bytes(b0, b1, b2, b3)) == seq![b0, b1, b2, b3],
{
    let n = u32_of_bytes(b0, b1, b2, b3);
    assert((n >> 24u32) as u8 == b0 && (n >> 16u32) as u8 == b1 && (n >> 8u32) as u8 == b2 && n as u8
        == b3) by (bit_vector)
        requires
            n == (b0 as u32) << 24u32 | (b1 as u32) << 16u32 | (b2 as u32) << 8u32 | (b3 as u32),
    ;
    assert(be_u32(n) =~= seq![b0, b1, b2, b3]);
}

fn push_be_u64(v: &mut Vec<u8>, n: u64)
    ensures
        final(v)@ == old(v)@ + be_u64(n),
{
    v.push((n >> 56) as u8);
    v.push((n >> 48) as u8);
    v.push((n >> 40) as u8);
    v.push((n >> 32) as u8);
    v.push((n >> 24) as u8);
    v.push((n >> 16) as u8);
    v.push((n >> 8) as u8);
    v.push(n as u8);
    assert(final(v)@ =~= old(v)@ + be_u64(n));
}

fn push_be_u32(v: &mut Vec<u8>, n: u32)
    ensures
        final(v)@ == old(v)@ + be_u32(n),
{
    v.push((n >> 24) as u8);
    v.push((n >> 16) as u8);
    v.push((n >> 8) as u8);
    v.push(n as u8);
    assert(final(v)@ =~= old(v)@ + be_u32(n));
}

/// The checksum a header stores for the given version and capacity.
pub fn header_crc(version: u8, capacity_in_bytes: u64) -> (r: u32)
    ensures
        r == crc32_ieee(checked_fields(version, capacity_in_bytes)),
{
    let mut data: Vec<u8> = Vec::new();
    data.push(version);
    push_be_u64(&mut data, capacity_in_bytes);
    assert(data@ =~= checked_fields(version, capacity_in_bytes));
    checksum_ieee(data.as_slice())
}

/// The header bytes of a segment of the given capacity.
pub fn encode_header(capacity_in_bytes: u64) -> (r: Vec<u8>)
    ensures
        r@ == header_bytes(capacity_in_bytes),
        r@.len() == HEADER_SIZE,
{
    let mut h: Vec<u8> = Vec::new();
    h.push(VERSION);
    push_be_u64(&mut h, capacity_in_bytes);
    let crc = header_crc(VERSION, capacity_in_bytes);
    push_be_u32(&mut h, crc);
    h.push(0);
    assert(h@ =~= header_bytes(capacity_in_bytes));
    h
}

/// Checks a header read back from disk and yields the capacity it records.
pub fn decode_header(h: &[u8]) -> (r: Result<u64, LogError>)
    ensures
        r == parse_header(h@),
{
    if h.len() != 14 {
        return Err(LogError::CorruptHeader);
    }
    let version = h[0];
    if version != VERSION {
        return Err(LogError::UnsupportedVersion);
    }
    let capacity_in_bytes = (h[1] as u64) << 56 | (h[2] as u64) << 48 | (h[3] as u64) << 40 | (
    h[4] as u64) << 32 | (h[5] as u64) << 24 | (h[6] as u64) << 16 | (h[7] as u64) << 8 | (
    h[8] as u64);
    let crc_from_file = (h[9] as u32) << 24 | (h[10] as u32) << 16 | (h[11] as u32) << 8 | (
    h[12] as u32);
    let computed_crc = header_crc(version, capacity_in_bytes);
    proof {
        lemma_bytes_u64(h@[1], h@[2], h@[3], h@[4], h@[5], h@[6], h@[7], h@[8]);
        assert(checked_fields(version, capacity_in_bytes) =~= h@.subrange(0, 9));
    }
    if crc_from_file != computed_crc || h[13] != 0 {
        return Err(LogError::CorruptHeader);
    }
    Ok(capacity_in_bytes)
}

/// A header written for any capacity reads back as that capacity.
pub proof fn lemma_header_round_trip(capacity_in_bytes: u64)
    ensures
        parse_header(header_bytes(capacity_in_bytes)) == Ok::<u64, LogError>(capacity_in_bytes),
{
    let h = header_bytes(capacity_in_bytes);
    let crc = crc32_ieee(checked_fields(VERSION, capacity_in_bytes));
    lemma_u64_bytes(capacity_in_bytes);
    lemma_u32_bytes(crc);
    assert(h.subrange(0, 9) =~= checked_fields(VERSION, capacity_in_bytes));
}

/// A header that passes every check is exactly the header written for the
/// capacity it yields: no other bytes are accepted.
pub proof fn lemma_decoded_header_is_canonical(h: Seq<u8>)
    ensures
        parse_header(h) is Ok ==> h == header_bytes(parse_header(h)->Ok_0),
{
    if parse_header(h) is Ok {
        let c = be_to_u64(h, 1);
        lemma_bytes_u64(h[1], h[2], h[3], h[4], h[5], h[6], h[7], h[8]);
        lemma_bytes_u32(h[9], h[10], h[11], h[12]);
        assert(h.subrange(0, 9) =~= checked_fields(VERSION, c));
        assert(h =~= header_bytes(c));
    }
}

/// Flipping any one bit of a written header is detected: reading it back
/// fails, unless the altered bytes happen to be the complete, checksummed
/// header of some other capacity. A flip in the version, checksum or
/// reserved byte is always detected.
pub proof fn lemma_header_bit_flip_detected(capacity_in_bytes: u64, index: int, bit: u8)
    requires
        0 <= index < HEADER_SIZE,
        bit < 8,
    ensures
        ({
            let h = header_bytes(capacity_in_bytes);
            let f = h.update(index, h[index] ^ (1u8 << bit));
            &&& parse_header(f) is Ok ==> {
                &&& 1 <= index < 9
                &&& parse_header(f)->Ok_0 != capacity_in_bytes
                &&& f == header_bytes(parse_header(f)->Ok_0)
            }
            &&& parse_header(f) is Err ==> (parse_header(f) == Err::<u64, LogError>(
                LogError::CorruptHeader) || parse_header(f) == Err::<u64, LogError>(
                LogError::UnsupportedVersion))
        }),
{
    let h = header_bytes(capacity_in_bytes);
    let x = h[index];
    let y = x ^ (1u8 << bit);
    assert(y != x) by (bit_vector)
        requires
            y == x ^ (1u8 << bit),
            bit < 8,
    ;
    let f = h.update(index, y);
    assert(f[index] != h[index]);
    lemma_decoded_header_is_canonical(f);
    if parse_header(f) is Ok {
        let c = parse_header(f)->Ok_0;
        let g = header_bytes(c);
        assert(f == g);
        if index == 0 || index == 13 {
            assert(f[index] != g[index]);
        } else if index >= 9 {
            assert(be_to_u64(f, 1) == be_to_u64(h, 1));
            lemma_u64_bytes(capacity_in_bytes);
            assert(c == capacity_in_bytes);
            assert(f[index] != g[index]);
        } else {
            assert(f[index] != h[index]);
        }
    }
}

} // verus!
