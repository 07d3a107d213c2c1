use vstd::prelude::*;

use crate::error::LogError;
use crate::header::{
    decode_header, encode_header, header_bytes, lemma_header_round_trip, parse_header, HEADER_SIZE,
};
use crate::name_helper::{get_segment_name, segment_name_of};
use crate::segment_id::SegmentId;

verus! {

/// What a segment is at a moment: its identifier, its fixed capacity, where
/// its payload starts and where its cursor stands, in bytes from the start of
/// its file.
#[derive(Clone, Copy, PartialEq, Eq, Structural, Debug)]
pub struct SegmentModel {
    pub id: SegmentId,
    pub capacity: u64,
    pub start: u64,
    pub end: u64,
}

impl SegmentModel {
    /// The header fills the file up to the payload, the cursor stays within
    /// the capacity, and the capacity leaves room for payload.
    pub open spec fn wf(self) -> bool {
        &&& self.start == HEADER_SIZE
        &&& self.start <= self.end <= self.capacity
        &&& self.capacity > HEADER_SIZE
    }

    /// A segment just past its header.
    pub open spec fn fresh(id: SegmentId, capacity: u64) -> SegmentModel {
        SegmentModel { id, capacity, start: HEADER_SIZE, end: HEADER_SIZE }
    }

    pub open spec fn remaining(self) -> u64 {
        (self.capacity - self.end) as u64
    }

    /// How many of `len` bytes fit between the cursor and the capacity.
    pub open spec fn room_for(self, len: u64) -> u64 {
        if len <= self.remaining() {
            len
        } else {
            self.remaining()
        }
    }

    /// The segment with its cursor moved past `n` bytes, as far as they fit.
    pub open spec fn advanced(self, n: u64) -> SegmentModel {
        SegmentModel { end: (self.end + self.room_for(n)) as u64, ..self }
    }
}

/// What restoring a segment from the header found in its file yields.
pub open spec fn restored_segment(id: SegmentId, header: Seq<u8>) -> Result<SegmentModel, LogError> {
    match parse_header(header) {
        Err(e) => Err(e),
        Ok(capacity) => if capacity <= HEADER_SIZE {
            Err(LogError::InvalidCapacity)
        } else {
            Ok(SegmentModel::fresh(id, capacity))
        },
    }
}

/// Restoring from the header that a new segment's file starts with gives
/// back that segment: the same capacity, the cursor just past the header.
pub proof fn lemma_segment_round_trip(id: SegmentId, capacity_in_bytes: u64)
    requires
        capacity_in_bytes > HEADER_SIZE,
    ensures
        restored_segment(id, header_bytes(capacity_in_bytes)) == Ok::<SegmentModel, LogError>(
            SegmentModel::fresh(id, capacity_in_bytes),
        ),
{
    lemma_header_round_trip(capacity_in_bytes);
}

/// One fixed-capacity region of a segment file: the header at its start,
/// then payload up to the cursor.
#[derive(Clone, Copy)]
pub struct LogSegment {
    id: SegmentId,
    capacity_in_bytes: u64,
    start_offset: u64,
    end_offset: u64,
}

impl View for LogSegment {
    type V = SegmentModel;

    closed spec fn view(&self) -> SegmentModel {
        SegmentModel {
            id: self.id,
            capacity: self.capacity_in_bytes,
            start: self.start_offset,
            end: self.end_offset,
        }
    }
}

impl LogSegment {
    /// A new segment of the given capacity, its cursor just past the header.
    /// The capacity must leave room for at least one byte of payload. The
    /// caller pre-allocates the file to the capacity and writes `header()`
    /// at its start.
    pub fn new(id: SegmentId, capacity_in_bytes: u64) -> (r: Result<LogSegment, LogError>)
        ensures
            capacity_in_bytes <= HEADER_SIZE ==> r == Err::<LogSegment, LogError>(
                LogError::InvalidCapacity),
            capacity_in_bytes > HEADER_SIZE ==> r is Ok && r->Ok_0@ == SegmentModel::fresh(
                id,
                capacity_in_bytes,
            ),
    {
        if capacity_in_bytes <= HEADER_SIZE {
            return Err(LogError::InvalidCapacity);
        }
        Ok(
            LogSegment {
                id,
                capacity_in_bytes,
                start_offset: HEADER_SIZE,
                end_offset: HEADER_SIZE,
            },
        )
    }

    /// The segment whose file starts with `header`: the version must be known
    /// and the checksum must match, and the capacity it records becomes the
    /// segment's; a recorded capacity with no room for payload after the
    /// header is rejected as invalid. The cursor stands just past the header; payload already in
    /// the file is reached by reading through it with `read`.
    pub fn restore_from(id: SegmentId, header: &[u8]) -> (r: Result<LogSegment, LogError>)
        ensures
            match restored_segment(id, header@) {
                Err(e) => r == Err::<LogSegment, LogError>(e),
                Ok(m) => r is Ok && r->Ok_0@ == m,
            },
    {
        let capacity_in_bytes = decode_header(header)?;
        if capacity_in_bytes <= HEADER_SIZE {
            return Err(LogError::InvalidCapacity);
        }
        Ok(
            LogSegment {
                id,
                capacity_in_bytes,
                start_offset: HEADER_SIZE,
                end_offset: HEADER_SIZE,
            },
        )
    }

    /// The header that the segment's file starts with.
    pub fn header(&self) -> (r: Vec<u8>)
        ensures
            r@ == header_bytes(self@.capacity),
    {
        encode_header(self.capacity_in_bytes)
    }

    pub fn id(&self) -> (r: SegmentId)
        ensures
            r == self@.id,
    {
        self.id
    }

    /// The segment's name, `{position}_{generation}`.
    pub fn name(&self) -> (r: String)
        ensures
            r@ == segment_name_of(self@.id.pos, self@.id.gen),
    {
        get_segment_name(self.id.pos, self.id.gen)
    }

    pub fn capacity_in_bytes(&self) -> (r: u64)
        ensures
            r == self@.capacity,
    {
        self.capacity_in_bytes
    }

    pub fn start_offset(&self) -> (r: u64)
        ensures
            r == self@.start,
    {
        self.start_offset
    }

    pub fn end_offset(&self) -> (r: u64)
        ensures
            r == self@.end,
    {
        self.end_offset
    }

    /// Bytes left between the cursor and the capacity; zero when full.
    pub fn remaining_bytes(&self) -> (r: u64)
        requires
            self@.wf(),
        ensures
            r == self@.remaining(),
            r == self@.capacity - self@.end,
    {
        self.capacity_in_bytes - self.end_offset
    }

    /// How many of `len` bytes can be written at the cursor: all of them, or
    /// what is left when fewer fit.
    pub fn room_for(&self, len: u64) -> (r: u64)
        requires
            self@.wf(),
        ensures
            r == self@.room_for(len),
    {
        let remaining = self.capacity_in_bytes - self.end_offset;
        if len <= remaining {
            len
        } else {
            remaining
        }
    }

    /// Records that `written` bytes went to the file at the cursor; the
    /// cursor never moves past the capacity. Returns how far it moved.
    pub fn write(&mut self, written: u64) -> (r: u64)
        requires
            old(self)@.wf(),
        ensures
            r == old(self)@.room_for(written),
            final(self)@ == old(self)@.advanced(written),
            final(self)@.wf(),
    {
        let n = self.room_for(written);
        self.end_offset = self.end_offset + n;
        n
    }

    /// Records that `read` bytes were read from the file at the cursor, as
    /// when payload is replayed after a restore. Returns how far it moved.
    pub fn read(&mut self, read: u64) -> (r: u64)
        requires
            old(self)@.wf(),
        ensures
            r == old(self)@.room_for(read),
            final(self)@ == old(self)@.advanced(read),
            final(self)@.wf(),
    {
        let n = self.room_for(read);
        self.end_offset = self.end_offset + n;
        n
    }

    /// Moves the cursor to the capacity, so that nothing more is appended.
    pub fn seal(&mut self)
        requires
            old(self)@.wf(),
        ensures
            final(self)@ == (SegmentModel { end: old(self)@.capacity, ..old(self)@ }),
            final(self)@.wf(),
    {
        self.end_offset = self.capacity_in_bytes;
    }
}

} // verus!
