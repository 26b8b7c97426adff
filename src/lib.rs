//! Tracks which byte positions of a 64 KiB address segment have been written,
//! one bit per byte position, with range marking and range queries; reads
//! Intel HEX records into such bitmaps and lays them out as lines of glyphs.

pub mod bitmap;
pub mod display;
pub mod ingest;

pub use bitmap::{
    SEGMENT_BYTES, IHEX_SEGMENT_BYTES, ibyte_to_mapbyte, get_pad_counts, start_mask, end_mask,
    fill_bytes, is_seg_range_set,
};
pub use display::{CHR_BLANK, CHR_DATA, char_span, segment_line, line_address, map_geometry, line_glyphs};
pub use ingest::{HexRecord, AddressState, SegmentMap, next_address_state, data_target, apply_records, ingest_hex};
