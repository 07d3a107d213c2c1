//! Storage core of an append-only, segmented log: segment naming, the
//! integrity-checked segment header, per-segment cursors, and the log that
//! owns its segments within a total capacity budget.

mod error;
mod header;
mod log;
mod log_segment;
mod name_helper;
mod segment_id;

pub use error::LogError;
pub use header::{
    decode_header, encode_header, header_crc, lemma_decoded_header_is_canonical,
    lemma_header_bit_flip_detected, lemma_header_round_trip, HEADER_SIZE, VERSION,
};
pub use log::{
    lemma_bootstrap_order_independent, lemma_capacity_accounting, Log, SegmentFile, WriteTarget,
};
pub use log_segment::{lemma_segment_round_trip, LogSegment, SegmentModel};
pub use name_helper::{get_segment_name, name_to_filename, next_pos_name};
pub use segment_id::{
    is_segment_filename, lemma_filename_round_trip, next_segment_id_pos, segment_id_from_filename,
    segment_id_to_filename, SegmentId,
};
