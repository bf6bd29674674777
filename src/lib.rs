//! A dictionary-encoded, run-length-encoded string column with per-value
//! inverted row-id bitmaps.

pub mod bitmap;
pub mod encoding;
pub mod laws;
pub mod order;
pub mod rle;
pub mod row_ids;
pub mod tag_keys;
