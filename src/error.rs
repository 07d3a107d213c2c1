use vstd::prelude::*;

verus! {

/// Every way an operation of this crate can fail.
#[derive(Clone, Copy, PartialEq, Eq, Structural, Debug)]
pub enum LogError {
    /// A segment filename does not have the `{position}_{generation}.log` shape.
    MalformedSegmentName,
    /// A segment capacity leaves no room for payload after the header.
    InvalidCapacity,
    /// A segment header carries a format version this crate does not know.
    UnsupportedVersion,
    /// A segment header fails its checksum, is truncated, or has a non-zero
    /// reserved byte.
    CorruptHeader,
    /// The segments found on disk already exceed the total budget.
    CapacityExceeded,
    /// The budget has no room left for another full-size segment, or no
    /// segment position follows the greatest one.
    OutOfCapacity,
    /// Two segment files name the same identifier.
    DuplicateSegment,
}

} // verus!
